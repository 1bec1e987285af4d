//! Reading an uploaded raster: the header first, so that an image that declares
//! enormous dimensions is turned away before its pixels are decoded, then the pixels.
//!
//! PNG files are read here, unless they hold a palette that the decoder would panic
//! on. All other files are read by functions of the caller, and judged here: the
//! decoders of other formats may panic on a malformed file, or give pixels that depend
//! on the machine, and no condition short of decoding tells which files those are.

use std::io::Cursor;
use vstd::prelude::*;
use vstd::string::StringExecFns;
use crate::text::{decimal, push_decimal};

verus! {

/// The largest raster that is decoded, in pixels.
pub const MAX_PIXELS: u64 = 25_000_000;

/// Whether a file starts with the signature of a PNG file.
pub open spec fn has_png_signature(bytes: Seq<u8>) -> bool {
    &&& bytes.len() >= 8
    &&& bytes[0] == 0x89
    &&& bytes[1] == 0x50
    &&& bytes[2] == 0x4e
    &&& bytes[3] == 0x47
    &&& bytes[4] == 0x0d
    &&& bytes[5] == 0x0a
    &&& bytes[6] == 0x1a
    &&& bytes[7] == 0x0a
}

/// Whether a file starts with the signature of a PNG file.
pub fn is_png(bytes: &[u8]) -> (b: bool)
    ensures
        b == has_png_signature(bytes@),
{
    bytes.len() >= 8 && bytes[0] == 0x89 && bytes[1] == 0x50 && bytes[2] == 0x4e && bytes[3] == 0x47
        && bytes[4] == 0x0d && bytes[5] == 0x0a && bytes[6] == 0x1a && bytes[7] == 0x0a
}

/// The number that four bytes from `at` on stand for, the first one the most
/// significant.
pub open spec fn number_at(bytes: Seq<u8>, at: int) -> int {
    bytes[at] * 0x100_0000 + bytes[at + 1] * 0x1_0000 + bytes[at + 2] * 0x100 + bytes[at + 3]
}

/// Whether the four bytes from `at` on are `PLTE`, the type of a palette chunk.
pub open spec fn names_palette(bytes: Seq<u8>, at: int) -> bool {
    &&& bytes[at] == 0x50
    &&& bytes[at + 1] == 0x4c
    &&& bytes[at + 2] == 0x54
    &&& bytes[at + 3] == 0x45
}

/// Whether every palette chunk from `at` on holds at most 256 whole colours. A chunk
/// is its length, its type, as many bytes as its length says, and a checksum of four.
pub open spec fn palettes_fit(bytes: Seq<u8>, at: int) -> bool
    decreases bytes.len() - at,
{
    if at < 0 || at + 8 > bytes.len() {
        true
    } else {
        let length = number_at(bytes, at);
        &&& names_palette(bytes, at + 4) ==> length <= 768 && length % 3 == 0
        &&& at + 12 + length <= bytes.len() ==> palettes_fit(bytes, at + 12 + length)
    }
}

/// Whether a file is a PNG file whose palettes fit.
pub open spec fn is_sound_png(bytes: Seq<u8>) -> bool {
    has_png_signature(bytes) && palettes_fit(bytes, 8)
}

/// Walks the chunks of a PNG file: tells whether its palettes fit.
pub fn is_sound(bytes: &[u8]) -> (b: bool)
    ensures
        b == is_sound_png(bytes@),
{
    if !is_png(bytes) {
        return false;
    }
    let len: usize = bytes.len();
    let mut at: usize = 8;
    while at <= len && len - at >= 8
        invariant
            len == bytes@.len(),
            has_png_signature(bytes@),
            at >= 8,
            palettes_fit(bytes@, 8) == palettes_fit(bytes@, at as int),
        decreases len + 1 - at,
    {
        let length: u64 = bytes[at] as u64 * 0x100_0000 + bytes[at + 1] as u64 * 0x1_0000 + bytes[at
            + 2] as u64 * 0x100 + bytes[at + 3] as u64;
        assert(length == number_at(bytes@, at as int));
        let palette: bool = bytes[at + 4] == 0x50 && bytes[at + 5] == 0x4c && bytes[at + 6] == 0x54
            && bytes[at + 7] == 0x45;
        if palette && (length > 768 || length % 3 != 0) {
            return false;
        }
        let rest: u64 = (len - at) as u64;
        if rest < 12 + length {
            return true;
        }
        at = at + 12 + length as usize;
    }
    true
}

/// What [`image::io::Reader`] finds in the header of a PNG file: its width and
/// height, or why they cannot be read. The flag tells a failed read from a header
/// without dimensions.
pub uninterp spec fn header_of(bytes: Seq<u8>) -> Result<(u32, u32), (bool, Seq<char>)>;

/// What [`image::load_from_memory`] makes of a PNG file: its pixels as RGBA bytes,
/// or why it cannot be decoded.
pub uninterp spec fn pixels_of(bytes: Seq<u8>) -> Result<Seq<u8>, Seq<char>>;

/// Why a header cannot be read.
pub enum HeaderFault {
    /// Reading failed.
    Read(String),
    /// There are no dimensions in it.
    Dimensions(String),
}

/// What a fault says.
pub open spec fn fault_view(f: HeaderFault) -> (bool, Seq<char>) {
    match f {
        HeaderFault::Read(e) => (true, e@),
        HeaderFault::Dimensions(e) => (false, e@),
    }
}

/// [`image::io::Reader`] with a guessed format, asked for the dimensions of a PNG
/// file. The result depends on the bytes alone; which files have which is left
/// unsaid.
#[verifier::external_body]
fn read_header(bytes: &[u8]) -> (r: Result<(u32, u32), HeaderFault>)
    requires
        has_png_signature(bytes@),
    ensures
        match r {
            Ok(d) => header_of(bytes@) == Ok::<(u32, u32), (bool, Seq<char>)>(d),
            Err(f) => header_of(bytes@) == Err::<(u32, u32), (bool, Seq<char>)>(fault_view(f)),
        },
{
    image::io::Reader::new(Cursor::new(bytes))
        .with_guessed_format()
        .map_err(|e| HeaderFault::Read(e.to_string()))?
        .into_dimensions()
        .map_err(|e| HeaderFault::Dimensions(e.to_string()))
}

/// [`image::load_from_memory`] on a PNG file whose header was accepted, and the image
/// as RGBA bytes. The result depends on the bytes alone, and there are four bytes for
/// every pixel that the header declares; which ones they are is left unsaid.
#[verifier::external_body]
fn decode(bytes: &[u8]) -> (r: Result<Vec<u8>, String>)
    requires
        is_sound_png(bytes@),
        accepted(header_of(bytes@)) is Ok,
    ensures
        match r {
            Ok(p) => {
                &&& pixels_of(bytes@) == Ok::<Seq<u8>, Seq<char>>(p@)
                &&& header_of(bytes@) matches Ok(d) ==> p@.len() == d.0 * d.1 * 4
            },
            Err(e) => pixels_of(bytes@) == Err::<Seq<u8>, Seq<char>>(e@),
        },
{
    image::load_from_memory(bytes).map(|d| d.to_rgba8().into_raw()).map_err(|e| e.to_string())
}

/// Why an image of the given dimensions is turned away.
pub open spec fn size_fault(w: u32, h: u32) -> Option<Seq<char>> {
    if w == 0 || h == 0 {
        Some("image has a zero dimension"@)
    } else if w * h > MAX_PIXELS {
        Some(
            "image too large: "@ + decimal(w as nat) + "\u{d7}"@ + decimal(h as nat)
                + " exceeds the 25 megapixel limit"@,
        )
    } else {
        None
    }
}

/// Turns away empty and oversized images.
pub fn check_size(w: u32, h: u32) -> (r: Result<(), String>)
    ensures
        match r {
            Ok(_) => size_fault(w, h) is None,
            Err(e) => size_fault(w, h) == Some(e@),
        },
{
    if w == 0 || h == 0 {
        return Err(String::from_str("image has a zero dimension"));
    }
    assert(0 <= w * h <= 0xffff_ffff * 0xffff_ffff) by (nonlinear_arith)
        requires
            0 <= w <= 0xffff_ffff,
            0 <= h <= 0xffff_ffff,
    ;
    if w as u64 * h as u64 > MAX_PIXELS {
        let mut s = String::new();
        s.append("image too large: ");
        push_decimal(&mut s, w as u128);
        s.append("\u{d7}");
        push_decimal(&mut s, h as u128);
        s.append(" exceeds the 25 megapixel limit");
        assert(Some(s@) == size_fault(w, h)) by {
            assert(s@ =~= "image too large: "@ + decimal(w as nat) + "\u{d7}"@ + decimal(h as nat)
                + " exceeds the 25 megapixel limit"@);
        }
        return Err(s);
    }
    Ok(())
}

/// A decoded raster.
pub struct Raster {
    pub width: u32,
    pub height: u32,
    /// The pixels as RGBA bytes, row by row.
    pub pixels: Vec<u8>,
}

/// What a raster holds.
pub ghost struct Bitmap {
    pub width: u32,
    pub height: u32,
    pub pixels: Seq<u8>,
}

impl View for Raster {
    type V = Bitmap;

    open spec fn view(&self) -> Bitmap {
        Bitmap { width: self.width, height: self.height, pixels: self.pixels@ }
    }
}

/// The dimensions that a header gives, if the image is taken, or why it is not.
pub open spec fn accepted(header: Result<(u32, u32), (bool, Seq<char>)>) -> Result<
    (u32, u32),
    Seq<char>,
> {
    match header {
        Err((true, e)) => Err("could not read image: "@ + e),
        Err((false, e)) => Err("could not read image dimensions: "@ + e),
        Ok((w, h)) => match size_fault(w, h) {
            Some(fault) => Err(fault),
            None => Ok((w, h)),
        },
    }
}

/// The raster that an upload holds, from what its header and its pixels turn out to
/// be, or what is said of it: the header counts first, then the pixels.
pub open spec fn raster_from(
    header: Result<(u32, u32), (bool, Seq<char>)>,
    pixels: Result<Seq<u8>, Seq<char>>,
) -> Result<Bitmap, Seq<char>> {
    match accepted(header) {
        Err(e) => Err(e),
        Ok((w, h)) => match pixels {
            Err(e) => Err("could not decode image: "@ + e),
            Ok(p) => Ok(Bitmap { width: w, height: h, pixels: p }),
        },
    }
}

/// What a header says.
pub open spec fn header_view(header: Result<(u32, u32), HeaderFault>) -> Result<
    (u32, u32),
    (bool, Seq<char>),
> {
    match header {
        Ok(d) => Ok(d),
        Err(f) => Err(fault_view(f)),
    }
}

/// What decoded pixels say.
pub open spec fn pixels_view(pixels: Result<Vec<u8>, String>) -> Result<Seq<u8>, Seq<char>> {
    match pixels {
        Ok(p) => Ok(p@),
        Err(e) => Err(e@),
    }
}

fn prefixed(prefix: &str, e: &String) -> (s: String)
    ensures
        s@ == prefix@ + e@,
{
    let mut s = String::from_str(prefix);
    s.append(e.as_str());
    s
}

/// The dimensions that a header gives, if the image is taken.
pub fn accept_header(header: Result<(u32, u32), HeaderFault>) -> (r: Result<(u32, u32), String>)
    ensures
        match r {
            Ok(d) => accepted(header_view(header)) == Ok::<(u32, u32), Seq<char>>(d),
            Err(e) => accepted(header_view(header)) == Err::<(u32, u32), Seq<char>>(e@),
        },
{
    match header {
        Err(HeaderFault::Read(e)) => Err(prefixed("could not read image: ", &e)),
        Err(HeaderFault::Dimensions(e)) => Err(prefixed("could not read image dimensions: ", &e)),
        Ok((w, h)) => match check_size(w, h) {
            Err(e) => Err(e),
            Ok(_) => Ok((w, h)),
        },
    }
}

/// The raster of an accepted header and its decoded pixels.
pub fn accept_pixels(size: (u32, u32), pixels: Result<Vec<u8>, String>) -> (r: Result<
    Raster,
    String,
>)
    ensures
        match (r, pixels) {
            (Ok(raster), Ok(p)) => raster@ == (Bitmap {
                width: size.0,
                height: size.1,
                pixels: p@,
            }),
            (Err(e), Err(fault)) => e@ == "could not decode image: "@ + fault@,
            _ => false,
        },
{
    match pixels {
        Err(e) => Err(prefixed("could not decode image: ", &e)),
        Ok(pixels) => Ok(Raster { width: size.0, height: size.1, pixels }),
    }
}

/// The caller's functions may be called: `probe` on any file, and `load` on a file
/// whose header, as `probe` found it, was accepted.
pub open spec fn may_read<H, L>(probe: H, load: L) -> bool where
    H: Fn(&[u8]) -> Result<(u32, u32), HeaderFault>,
    L: Fn(&[u8]) -> Result<Vec<u8>, String>,
 {
    &&& forall|b: &[u8]| #[trigger] probe.requires((b,))
    &&& forall|b: &[u8], d: Result<(u32, u32), HeaderFault>| #[trigger]
        probe.ensures((b,), d) && accepted(header_view(d)) is Ok ==> load.requires((b,))
}

/// The outcome of reading a file with the caller's functions: what `probe` found in
/// its header is judged first, then what `load` made of its pixels.
pub open spec fn read_by<H, L>(
    bytes: &[u8],
    probe: H,
    load: L,
    r: Result<Bitmap, Seq<char>>,
) -> bool where
    H: Fn(&[u8]) -> Result<(u32, u32), HeaderFault>,
    L: Fn(&[u8]) -> Result<Vec<u8>, String>,
 {
    exists|header: Result<(u32, u32), HeaderFault>|
        {
            &&& #[trigger] probe.ensures((bytes,), header)
            &&& match accepted(header_view(header)) {
                Err(e) => r == Err::<Bitmap, Seq<char>>(e),
                Ok(_) => exists|pixels: Result<Vec<u8>, String>| #[trigger]
                    load.ensures((bytes,), pixels) && r == raster_from(
                        header_view(header),
                        pixels_view(pixels),
                    ),
            }
        }
}

/// What a file holds: a sound PNG file what the library reads, any other file what
/// the caller's functions read.
pub open spec fn holds_raster<H, L>(
    bytes: &[u8],
    probe: H,
    load: L,
    r: Result<Bitmap, Seq<char>>,
) -> bool where
    H: Fn(&[u8]) -> Result<(u32, u32), HeaderFault>,
    L: Fn(&[u8]) -> Result<Vec<u8>, String>,
 {
    if is_sound_png(bytes@) {
        r == raster_from(header_of(bytes@), pixels_of(bytes@))
    } else {
        read_by(bytes, probe, load, r)
    }
}

/// What a raster, or what is said instead of one, comes to.
pub open spec fn raster_view(r: Result<Raster, String>) -> Result<Bitmap, Seq<char>> {
    match r {
        Ok(raster) => Ok(raster@),
        Err(e) => Err(e@),
    }
}

/// Reads an uploaded image: rejects an empty or oversized one by its header, before
/// it is decoded. `probe` reads the header and `load` the pixels of a file that is
/// not a sound PNG file.
pub fn read_raster<H, L>(bytes: &[u8], probe: &H, load: &L) -> (r: Result<Raster, String>) where
    H: Fn(&[u8]) -> Result<(u32, u32), HeaderFault>,
    L: Fn(&[u8]) -> Result<Vec<u8>, String>,

    requires
        may_read(*probe, *load),
    ensures
        holds_raster(bytes, *probe, *load, raster_view(r)),
        r matches Ok(raster) ==> size_fault(raster.width, raster.height) is None,
{
    let png: bool = is_sound(bytes);
    let header = if png {
        read_header(bytes)
    } else {
        probe(bytes)
    };
    let ghost seen = header_view(header);
    match accept_header(header) {
        Err(e) => Err(e),
        Ok(size) => {
            let pixels = if png {
                decode(bytes)
            } else {
                load(bytes)
            };
            let ghost found = pixels_view(pixels);
            let r = accept_pixels(size, pixels);
            assert(raster_view(r) == raster_from(seen, found));
            r
        },
    }
}

/// An empty or oversized image is refused by its header alone: whatever its pixels
/// would be, the answer is the same.
pub proof fn law_refusals_rest_on_the_header(
    w: u32,
    h: u32,
    p: Result<Seq<u8>, Seq<char>>,
    q: Result<Seq<u8>, Seq<char>>,
)
    requires
        w == 0 || h == 0 || w * h > MAX_PIXELS,
    ensures
        raster_from(Ok((w, h)), p) == raster_from(Ok((w, h)), q),
        raster_from(Ok((w, h)), p) is Err,
{
}

/// Where the chunks from `from` on start.
proof fn lemma_chunks(bytes: Seq<u8>, from: int) -> (at: Seq<int>)
    requires
        0 <= from,
    ensures
        at.len() == 0 <==> from + 8 > bytes.len(),
        at.len() > 0 ==> at[0] == from,
        forall|k: int| 0 <= k < at.len() ==> from <= #[trigger] at[k] && at[k] + 8 <= bytes.len(),
        forall|i: int, j: int|
            #![trigger at[i], at[j]]
            0 <= i && j == i + 1 && j < at.len() ==> at[j] == at[i] + 12 + number_at(bytes, at[i]),
        at.len() > 0 ==> at.last() + 12 + number_at(bytes, at.last()) + 8 > bytes.len(),
        palettes_fit(bytes, from) <==> forall|k: int|
            0 <= k < at.len() && names_palette(bytes, #[trigger] at[k] + 4) ==> number_at(
                bytes,
                at[k],
            ) <= 768 && number_at(bytes, at[k]) % 3 == 0,
    decreases bytes.len() - from,
{
    if from + 8 > bytes.len() {
        Seq::empty()
    } else {
        let next = from + 12 + number_at(bytes, from);
        let rest = if next <= bytes.len() {
            lemma_chunks(bytes, next)
        } else {
            Seq::empty()
        };
        let at = seq![from] + rest;
        assert forall|i: int, j: int|
            #![trigger at[i], at[j]]
            0 <= i && j == i + 1 && j < at.len() implies at[j] == at[i] + 12 + number_at(
            bytes,
            at[i],
        ) by {
            if i > 0 {
                assert(at[i] == rest[i - 1]);
            }
            assert(at[j] == rest[j - 1]);
        }
        assert forall|k: int| 0 <= k < at.len() implies from <= #[trigger] at[k] && at[k] + 8
            <= bytes.len() by {
            if k > 0 {
                assert(at[k] == rest[k - 1]);
            }
        }
        if rest.len() > 0 {
            assert(at.last() == rest.last());
        }
        let fine = |p: int|
            names_palette(bytes, p + 4) ==> number_at(bytes, p) <= 768 && number_at(bytes, p) % 3
                == 0;
        if forall|k: int| 0 <= k < at.len() ==> fine(#[trigger] at[k]) {
            assert(fine(at[0]));
            assert forall|k: int| 0 <= k < rest.len() implies fine(#[trigger] rest[k]) by {
                assert(fine(at[k + 1]));
            }
        }
        if palettes_fit(bytes, from) {
            assert forall|k: int| 0 <= k < at.len() implies fine(#[trigger] at[k]) by {
                if k > 0 {
                    assert(at[k] == rest[k - 1]);
                    assert(fine(rest[k - 1]));
                }
            }
        }
        assert(palettes_fit(bytes, from) <==> forall|k: int|
            0 <= k < at.len() ==> fine(#[trigger] at[k]));
        assert(forall|k: int| #![trigger at[k]] fine(at[k]) <==> (names_palette(bytes, at[k] + 4)
            ==> number_at(bytes, at[k]) <= 768 && number_at(bytes, at[k]) % 3 == 0));
        at
    }
}

/// Which files are read as PNG files: those that start with the eight bytes of the
/// signature, and in which every palette holds at most 256 colours of three bytes. Their
/// chunks start behind the signature, at the returned places: each is four bytes of
/// length, the most significant one first, four of type, as many as the length says and
/// four more; the last one is the last that has room for a length and a type.
pub proof fn law_sound_png_files(bytes: Seq<u8>) -> (at: Seq<int>)
    ensures
        ({
            let signature = seq![0x89u8, 0x50, 0x4e, 0x47, 0x0d, 0x0a, 0x1a, 0x0a];
            let signed = bytes.len() >= 8 && bytes.take(8) == signature;
            let length = |p: int|
                ((bytes[p] * 256 + bytes[p + 1]) * 256 + bytes[p + 2]) * 256 + bytes[p + 3];
            let palette = |p: int|
                bytes.subrange(p + 4, p + 8) == seq![0x50u8, 0x4c, 0x54, 0x45];
            &&& has_png_signature(bytes) <==> signed
            &&& signed ==> (at.len() == 0 <==> bytes.len() < 16)
            &&& at.len() > 0 ==> at[0] == 8
            &&& forall|k: int| 0 <= k < at.len() ==> 8 <= #[trigger] at[k] <= bytes.len() - 8
            &&& forall|i: int, j: int|
                #![trigger at[i], at[j]]
                0 <= i && j == i + 1 && j < at.len() ==> at[j] == at[i] + 12 + length(at[i])
            &&& at.len() > 0 ==> at.last() + 12 + length(at.last()) + 8 > bytes.len()
            &&& is_sound_png(bytes) <==> signed && forall|k: int|
                0 <= k < at.len() && palette(#[trigger] at[k]) ==> length(at[k]) <= 768 && length(
                    at[k],
                ) % 3 == 0
        }),
{
    let signature = seq![0x89u8, 0x50, 0x4e, 0x47, 0x0d, 0x0a, 0x1a, 0x0a];
    let signed = bytes.len() >= 8 && bytes.take(8) == signature;
    if has_png_signature(bytes) {
        assert(bytes.take(8) =~= signature);
    }
    if signed {
        assert forall|i: int| 0 <= i < 8 implies bytes[i] == #[trigger] signature[i] by {
            assert(bytes.take(8)[i] == bytes[i]);
        }
        assert(bytes[0] == signature[0] && bytes[1] == signature[1] && bytes[2] == signature[2]
            && bytes[3] == signature[3] && bytes[4] == signature[4] && bytes[5] == signature[5]
            && bytes[6] == signature[6] && bytes[7] == signature[7]);
    }
    let at = lemma_chunks(bytes, 8);
    let plte = seq![0x50u8, 0x4c, 0x54, 0x45];
    assert forall|k: int| 0 <= k < at.len() implies (names_palette(bytes, #[trigger] at[k] + 4)
        <==> bytes.subrange(at[k] + 4, at[k] + 8) == plte) by {
        let p = at[k] + 4;
        let name = bytes.subrange(p, p + 4);
        assert(name.len() == 4);
        assert(name[0] == bytes[p] && name[1] == bytes[p + 1] && name[2] == bytes[p + 2] && name[3]
            == bytes[p + 3]);
        if names_palette(bytes, p) {
            assert(name =~= plte);
        }
    }
    at
}

/// What is taken: an image with both sides, of at most 25 million pixels. Anything else
/// is told what is wrong with it.
pub proof fn law_size_is_limited(w: u32, h: u32)
    ensures
        size_fault(w, h) is None <==> w >= 1 && h >= 1 && w * h <= 25_000_000,
        w * h == 0 ==> size_fault(w, h) == Some("image has a zero dimension"@),
        w * h > 25_000_000 ==> size_fault(w, h) == Some(
            "image too large: "@ + decimal(w as nat) + "\u{d7}"@ + decimal(h as nat)
                + " exceeds the 25 megapixel limit"@,
        ),
{
    assert(w * h == 0 <==> w == 0 || h == 0) by (nonlinear_arith);
}

/// The raster of an upload, in full: a header that gives a size within the limit and pixels
/// that can be decoded make a raster of that size with these pixels. Of several faults the
/// one of the header is told.
pub proof fn law_upload_is_its_header_and_pixels(
    header: Result<(u32, u32), (bool, Seq<char>)>,
    pixels: Result<Seq<u8>, Seq<char>>,
)
    ensures
        match (header, pixels) {
            (Err((read, e)), _) => raster_from(header, pixels) == Err::<Bitmap, Seq<char>>(
                if read {
                    "could not read image: "@ + e
                } else {
                    "could not read image dimensions: "@ + e
                },
            ),
            (Ok((w, h)), _) if size_fault(w, h) is Some => raster_from(header, pixels) == Err::<
                Bitmap,
                Seq<char>,
            >(size_fault(w, h).unwrap()),
            (Ok(_), Err(e)) => raster_from(header, pixels) == Err::<Bitmap, Seq<char>>(
                "could not decode image: "@ + e,
            ),
            (Ok((w, h)), Ok(p)) => raster_from(header, pixels) matches Ok(b) && b.width == w
                && b.height == h && b.pixels == p,
        },
        accepted(header) is Ok <==> header is Ok && size_fault(header->Ok_0.0, header->Ok_0.1) is None,
        accepted(header) is Ok ==> header == Ok::<(u32, u32), (bool, Seq<char>)>(
            accepted(header)->Ok_0,
        ),
{
}

/// Who reads a file: a sound PNG file is what its header and its pixels turn out to be. Any
/// other file is what `probe` finds in its header, and only where that is accepted, what
/// `load` makes of its pixels.
pub proof fn law_files_are_read_by_kind<H, L>(
    bytes: &[u8],
    probe: H,
    load: L,
    r: Result<Bitmap, Seq<char>>,
) where
    H: Fn(&[u8]) -> Result<(u32, u32), HeaderFault>,
    L: Fn(&[u8]) -> Result<Vec<u8>, String>,

    requires
        holds_raster(bytes, probe, load, r),
    ensures
        is_sound_png(bytes@) ==> r == raster_from(header_of(bytes@), pixels_of(bytes@)),
        !is_sound_png(bytes@) ==> exists|header: Result<(u32, u32), HeaderFault>|
            {
                let seen = match header {
                    Ok(d) => Ok::<(u32, u32), (bool, Seq<char>)>(d),
                    Err(HeaderFault::Read(e)) => Err((true, e@)),
                    Err(HeaderFault::Dimensions(e)) => Err((false, e@)),
                };
                &&& #[trigger] probe.ensures((bytes,), header)
                &&& accepted(seen) is Err ==> r == Err::<Bitmap, Seq<char>>(accepted(seen)->Err_0)
                &&& accepted(seen) is Ok ==> exists|pixels: Result<Vec<u8>, String>|
                    {
                        &&& #[trigger] load.ensures((bytes,), pixels)
                        &&& pixels matches Ok(p) ==> r == Ok::<Bitmap, Seq<char>>(
                            Bitmap {
                                width: header->Ok_0.0,
                                height: header->Ok_0.1,
                                pixels: p@,
                            },
                        )
                        &&& pixels matches Err(e) ==> r == Err::<Bitmap, Seq<char>>(
                            "could not decode image: "@ + e@,
                        )
                    }
            },
{
    if !is_sound_png(bytes@) {
        let header = choose|header: Result<(u32, u32), HeaderFault>|
            {
                &&& #[trigger] probe.ensures((bytes,), header)
                &&& match accepted(header_view(header)) {
                    Err(e) => r == Err::<Bitmap, Seq<char>>(e),
                    Ok(_) => exists|pixels: Result<Vec<u8>, String>| #[trigger]
                        load.ensures((bytes,), pixels) && r == raster_from(
                            header_view(header),
                            pixels_view(pixels),
                        ),
                }
            };
        let seen = match header {
            Ok(d) => Ok::<(u32, u32), (bool, Seq<char>)>(d),
            Err(HeaderFault::Read(e)) => Err((true, e@)),
            Err(HeaderFault::Dimensions(e)) => Err((false, e@)),
        };
        assert(seen == header_view(header));
        assert(probe.ensures((bytes,), header));
        if accepted(seen) is Ok {
            let pixels = choose|pixels: Result<Vec<u8>, String>| #[trigger]
                load.ensures((bytes,), pixels) && r == raster_from(
                    header_view(header),
                    pixels_view(pixels),
                );
            assert(load.ensures((bytes,), pixels));
        }
    }
}

} // verus!
