//! Edge detection by a convolutional net, for contour refinement: what is fed to
//! the net, and what is made of its reply.
//!
//! The result is a map of edge probabilities in `[0, 1]` at the resolution of the
//! image. The net takes RGB planes scaled to `[0, 1]`. It is fully convolutional,
//! so the image is fed at its own size, capped to a long edge, unless the model
//! fixes another. Its reply is a drawing, dark lines on white paper, which is
//! inverted into edge probabilities.
//!
//! Samples are the bit patterns of single-precision numbers (see the crate
//! documentation). The inference, and the arithmetic on samples, are the caller's.

use image::imageops::FilterType;
use image::RgbImage;
use vstd::prelude::*;
use vstd::string::StringExecFns;
use crate::sampling::{resample, resampled, resamples, Resampling, Taps};
use crate::text::{
    decimal, law_decimal_reads_back, law_written_numbers_are_read, push_decimal, signed_value,
};

verus! {

/// The longest input edge that is fed to the net, capped for speed.
pub const MAX_EDGE: usize = 768;

/// The longest side up to which resizing is exact enough to find a source pixel
/// for every target pixel.
pub const MAX_SIDE: usize = 0x20_0000;

/// The pixels of an image can be resized: no side is empty or too long, and the
/// buffers fit into memory.
pub open spec fn resizable(w: int, h: int, nw: int, nh: int) -> bool {
    &&& 0 < w <= MAX_SIDE
    &&& 0 < h <= MAX_SIDE
    &&& 0 < nw <= MAX_SIDE
    &&& 0 < nh <= MAX_SIDE
    &&& w * h * 4 <= isize::MAX
    &&& w * nh * 16 <= isize::MAX
    &&& nw * nh * 3 <= isize::MAX
}

fn is_resizable(w: usize, h: usize, nw: usize, nh: usize) -> (r: bool)
    ensures
        r == resizable(w as int, h as int, nw as int, nh as int),
{
    if w == 0 || h == 0 || nw == 0 || nh == 0 {
        return false;
    }
    if w > MAX_SIDE || h > MAX_SIDE || nw > MAX_SIDE || nh > MAX_SIDE {
        return false;
    }
    assert(w * h <= 0x20_0000 * 0x20_0000 && w * nh <= 0x20_0000 * 0x20_0000 && nw * nh <= 0x20_0000
        * 0x20_0000) by (nonlinear_arith)
        requires
            w <= 0x20_0000,
            h <= 0x20_0000,
            nw <= 0x20_0000,
            nh <= 0x20_0000,
    ;
    let most: u64 = isize::MAX as u64;
    w as u64 * h as u64 * 4 <= most && w as u64 * nh as u64 * 16 <= most && nw as u64 * nh as u64
        * 3 <= most
}

/// The RGB pixels `rgb` of a `w` by `h` image after
/// [`image::imageops::resize`] to `nw` by `nh` with the triangle filter.
pub uninterp spec fn resized(rgb: Seq<u8>, w: u32, h: u32, nw: u32, nh: u32) -> Seq<u8>;

/// [`image::imageops::resize`] with [`FilterType::Triangle`] on an RGB buffer. The
/// result depends on the pixels and the sizes alone, holds three bytes for each
/// pixel of the new size, and is a copy where the size stays the same. The buffer
/// is wrapped by `RgbImage::from_raw`, which takes one that is long enough.
#[verifier::external_body]
fn resize_rgb(rgb: Vec<u8>, w: u32, h: u32, nw: u32, nh: u32) -> (r: Option<Vec<u8>>)
    requires
        resizable(w as int, h as int, nw as int, nh as int),
        rgb@.len() == w * h * 3,
    ensures
        r is Some,
        r.unwrap()@ == resized(rgb@, w, h, nw, nh),
        r.unwrap()@.len() == nw * nh * 3,
        w == nw && h == nh ==> r.unwrap()@ == rgb@,
{
    RgbImage::from_raw(w, h, rgb).map(
        |src| image::imageops::resize(&src, nw, nh, FilterType::Triangle).into_raw(),
    )
}

/// The three colour channels of the first `n` pixels of an RGBA buffer.
pub open spec fn without_alpha(rgba: Seq<u8>, n: int) -> Seq<u8> {
    Seq::new((n * 3) as nat, |k: int| rgba[(k / 3) * 4 + k % 3])
}

/// The three colour planes of `n` RGB pixels, one after the other.
pub open spec fn planes(rgb: Seq<u8>, n: int) -> Seq<u8> {
    Seq::new((n * 3) as nat, |k: int| rgb[(k % n) * 3 + k / n])
}

/// Takes the alpha channel out of an RGBA buffer of `n` pixels.
pub fn strip_alpha(rgba: &[u8], n: usize) -> (rgb: Vec<u8>)
    requires
        n * 4 <= rgba@.len(),
    ensures
        rgb@ == without_alpha(rgba@, n as int),
{
    let mut rgb: Vec<u8> = Vec::new();
    let len: usize = rgba.len();
    let mut i: usize = 0;
    while i < n
        invariant
            n * 4 <= rgba@.len(),
            len == rgba@.len(),
            i <= n,
            rgb@ == without_alpha(rgba@, i as int),
        decreases n - i,
    {
        rgb.push(rgba[i * 4]);
        rgb.push(rgba[i * 4 + 1]);
        rgb.push(rgba[i * 4 + 2]);
        i = i + 1;
        assert(rgb@ =~= without_alpha(rgba@, i as int));
    }
    rgb
}

/// Arranges `n` RGB pixels as three planes.
pub fn planar(rgb: &[u8], n: usize) -> (out: Vec<u8>)
    requires
        n * 3 <= rgb@.len(),
    ensures
        out@ == planes(rgb@, n as int),
{
    let mut out: Vec<u8> = Vec::new();
    let len: usize = rgb.len();
    let mut c: usize = 0;
    while c < 3
        invariant
            n * 3 <= rgb@.len(),
            len == rgb@.len(),
            c <= 3,
            out@.len() == c * n,
            forall|k: int| 0 <= k < c * n ==> #[trigger] out@[k] == rgb@[(k % (n as int)) * 3 + k / (n as int)],
        decreases 3 - c,
    {
        let mut p: usize = 0;
        while p < n
            invariant
                n * 3 <= rgb@.len(),
                len == rgb@.len(),
                c < 3,
                p <= n,
                out@.len() == c * n + p,
                forall|k: int|
                    0 <= k < c * n + p ==> #[trigger] out@[k] == rgb@[(k % (n as int)) * 3 + k / (n as int)],
            decreases n - p,
        {
            proof {
                vstd::arithmetic::div_mod::lemma_fundamental_div_mod_converse(
                    c * n + p,
                    n as int,
                    c as int,
                    p as int,
                );
            }
            out.push(rgb[p * 3 + c]);
            p = p + 1;
        }
        assert(c * n + n == (c + 1) * n) by (nonlinear_arith);
        c = c + 1;
    }
    assert(out@ =~= planes(rgb@, n as int));
    out
}

/// A length rounded down to a multiple of 8, but at least 8.
pub open spec fn rounded8(v: int) -> int {
    if v < 8 {
        8
    } else {
        v / 8 * 8
    }
}

fn round8(v: usize) -> (r: usize)
    ensures
        r == rounded8(v as int),
{
    if v < 8 {
        8
    } else {
        v / 8 * 8
    }
}

/// A side that the model fixes, if it does.
pub open spec fn fixed_side(shape: Seq<i64>, i: int) -> Option<int> {
    if i < shape.len() && shape[i] > 0 {
        Some(shape[i] as int)
    } else {
        None
    }
}

/// The height and width that are fed to the net: those that the model fixes, if it
/// fixes both, else the capped ones, rounded so that the net's sampling stays
/// aligned.
pub open spec fn input_size(shape: Seq<i64>, capped: (int, int)) -> (int, int) {
    match (fixed_side(shape, 2), fixed_side(shape, 3)) {
        (Some(h), Some(w)) => (h, w),
        _ => (rounded8(capped.0), rounded8(capped.1)),
    }
}

/// The sides that a model fixes fit into a word.
pub open spec fn sides_fit(shape: Seq<i64>) -> bool {
    shape.len() > 3 ==> shape[2] <= usize::MAX && shape[3] <= usize::MAX
}

/// Chooses the height and width that are fed to the net. `shape` is the model's
/// input shape (batch, channels, height, width), with no positive number where it
/// leaves a side open; `capped` holds the height and width of the image, scaled
/// down to [`MAX_EDGE`].
pub fn choose_input_size(shape: &[i64], capped: (usize, usize)) -> (r: (usize, usize))
    requires
        sides_fit(shape@),
    ensures
        (r.0 as int, r.1 as int) == input_size(shape@, (capped.0 as int, capped.1 as int)),
{
    if shape.len() > 3 && shape[2] > 0 && shape[3] > 0 {
        (shape[2] as usize, shape[3] as usize)
    } else {
        (round8(capped.0), round8(capped.1))
    }
}

/// What is fed to the net: the planes of the resized image.
pub open spec fn net_input(rgba: Seq<u8>, w: int, h: int, in_w: int, in_h: int) -> Seq<u8> {
    planes(
        resized(without_alpha(rgba, w * h), w as u32, h as u32, in_w as u32, in_h as u32),
        in_w * in_h,
    )
}

/// Resizes an RGBA image and arranges it as the net takes it.
pub fn prepare_input(rgba: &[u8], w: usize, h: usize, in_w: usize, in_h: usize) -> (r: Vec<u8>)
    requires
        resizable(w as int, h as int, in_w as int, in_h as int),
        w * h * 4 <= rgba@.len(),
    ensures
        r@ == net_input(rgba@, w as int, h as int, in_w as int, in_h as int),
        w == in_w && h == in_h ==> r@ == planes(without_alpha(rgba@, w * h), w * h),
{
    let rgb = strip_alpha(rgba, w * h);
    assert(rgb@.len() == w * h * 3);
    match resize_rgb(rgb, w as u32, h as u32, in_w as u32, in_h as u32) {
        Some(small) => {
            proof {
                assert(in_w * in_h <= in_w * in_h * 3);
            }
            planar(small.as_slice(), in_w * in_h)
        },
        None => Vec::new(),
    }
}

/// What is fed to the net for an image of any size: the planes of the resized image,
/// or why there are none. `larger` resizes what [`resizable`] leaves out.
pub open spec fn is_fed<Z>(
    larger: Z,
    rgba: Seq<u8>,
    w: usize,
    h: usize,
    in_w: usize,
    in_h: usize,
    fed: Result<Vec<u8>, String>,
) -> bool where Z: Fn(Vec<u8>, usize, usize, usize, usize) -> Result<Vec<u8>, String> {
    if resizable(w as int, h as int, in_w as int, in_h as int) {
        fed matches Ok(input) && input@ == net_input(
            rgba,
            w as int,
            h as int,
            in_w as int,
            in_h as int,
        )
    } else {
        exists|rgb: Vec<u8>, small: Result<Vec<u8>, String>|
            #![trigger larger.ensures((rgb, w, h, in_w, in_h), small)]
            {
                &&& rgb@ == without_alpha(rgba, w * h)
                &&& larger.ensures((rgb, w, h, in_w, in_h), small)
                &&& match small {
                    Ok(small) => fed matches Ok(input) && input@ == planes(small@, in_w * in_h),
                    Err(e) => fed == Err::<Vec<u8>, String>(e),
                }
            }
    }
}

/// A resizing function takes any image, and returns three bytes for each pixel of
/// the new size.
pub open spec fn may_resize<Z>(larger: Z) -> bool where
    Z: Fn(Vec<u8>, usize, usize, usize, usize) -> Result<Vec<u8>, String>,
 {
    &&& forall|rgb: Vec<u8>, w: usize, h: usize, in_w: usize, in_h: usize| #[trigger]
        larger.requires((rgb, w, h, in_w, in_h))
    &&& forall|rgb: Vec<u8>, w: usize, h: usize, in_w: usize, in_h: usize, small: Vec<u8>|
     #[trigger]
        larger.ensures((rgb, w, h, in_w, in_h), Ok(small)) ==> small@.len() == in_w * in_h * 3
}

/// Resizes an RGBA image of any size and arranges it as the net takes it. `larger`
/// resizes the RGB pixels of images for which resizing is not known to succeed.
pub fn feed<Z>(
    rgba: &[u8],
    w: usize,
    h: usize,
    in_w: usize,
    in_h: usize,
    larger: &Z,
) -> (fed: Result<Vec<u8>, String>) where
    Z: Fn(Vec<u8>, usize, usize, usize, usize) -> Result<Vec<u8>, String>,

    requires
        may_resize(*larger),
        w * h * 4 <= rgba@.len(),
    ensures
        is_fed(*larger, rgba@, w, h, in_w, in_h, fed),
{
    if is_resizable(w, h, in_w, in_h) {
        return Ok(prepare_input(rgba, w, h, in_w, in_h));
    }
    let len: usize = rgba.len();
    assert(w * h <= w * h * 4 <= len) by (nonlinear_arith)
        requires
            w * h * 4 <= len,
            w >= 0,
            h >= 0,
    ;
    let rgb = strip_alpha(rgba, w * h);
    let small: Result<Vec<u8>, String> = larger(rgb, w, h, in_w, in_h);
    match small {
        Err(e) => Err(e),
        Ok(small) => {
            let count: usize = small.len();
            assert(0 <= in_w * in_h <= count) by (nonlinear_arith)
                requires
                    in_w >= 0,
                    in_h >= 0,
                    in_w * in_h * 3 == count,
            ;
            Ok(planar(small.as_slice(), in_w * in_h))
        },
    }
}

/// Why an image cannot be taken.
pub open spec fn buffer_fault(len: int, w: int, h: int) -> Option<Seq<char>> {
    if w * h * 4 > usize::MAX {
        Some("image dimensions overflow"@)
    } else if w * h == 0 || len < w * h * 4 {
        Some("empty or truncated RGBA buffer"@)
    } else {
        None
    }
}

/// Checks the sides of an RGBA image against its buffer.
pub fn check_buffer(len: usize, w: usize, h: usize) -> (r: Result<usize, String>)
    ensures
        match r {
            Ok(n) => buffer_fault(len as int, w as int, h as int) is None && n == w * h,
            Err(e) => buffer_fault(len as int, w as int, h as int) == Some(e@),
        },
{
    let n: usize = match w.checked_mul(h) {
        Some(n) => n,
        None => {
            return Err(String::from_str("image dimensions overflow"));
        },
    };
    let n4: usize = match n.checked_mul(4) {
        Some(n4) => n4,
        None => {
            return Err(String::from_str("image dimensions overflow"));
        },
    };
    if n == 0 || len < n4 {
        return Err(String::from_str("empty or truncated RGBA buffer"));
    }
    Ok(n)
}

/// An output of the net: its shape, and its samples.
pub type Output = (Vec<i64>, Vec<u32>);

/// The last of the first `count` outputs that has the rank of an edge map.
pub open spec fn last_map(ranks: Seq<int>, count: int) -> Option<int>
    decreases count,
{
    if count <= 0 {
        None
    } else if ranks[count - 1] == 4 {
        Some(count - 1)
    } else {
        last_map(ranks, count - 1)
    }
}

/// The ranks of outputs.
pub open spec fn ranks_of(outputs: Seq<Output>) -> Seq<int> {
    outputs.map_values(|o: Output| o.0@.len() as int)
}

/// Picks the edge map: the last output of rank 4.
fn pick_map(outputs: &Vec<Output>) -> (r: Option<usize>)
    ensures
        match r {
            None => last_map(ranks_of(outputs@), outputs@.len() as int) is None,
            Some(i) => last_map(ranks_of(outputs@), outputs@.len() as int) == Some(i as int) && i
                < outputs@.len() && outputs@[i as int].0@.len() == 4,
        },
{
    let mut i: usize = outputs.len();
    while i > 0
        invariant
            i <= outputs@.len(),
            last_map(ranks_of(outputs@), outputs@.len() as int) == last_map(
                ranks_of(outputs@),
                i as int,
            ),
        decreases i,
    {
        if outputs[i - 1].0.len() == 4 {
            return Some(i - 1);
        }
        i = i - 1;
    }
    None
}

/// A whole number in decimal.
pub open spec fn integer_text(v: int) -> Seq<char> {
    if v < 0 {
        seq!['-'] + decimal((-v) as nat)
    } else {
        decimal(v as nat)
    }
}

/// The first `count` numbers of a shape, in a list.
pub open spec fn shape_items(shape: Seq<i64>, count: int) -> Seq<char>
    decreases count,
{
    if count <= 0 {
        Seq::empty()
    } else if count == 1 {
        integer_text(shape[0] as int)
    } else {
        shape_items(shape, count - 1) + ", "@ + integer_text(shape[count - 1] as int)
    }
}

/// What is said of an output that is no edge map.
pub open spec fn shape_fault(shape: Seq<i64>) -> Seq<char> {
    "unexpected edge output shape ["@ + shape_items(shape, shape.len() as int) + "]"@
}

fn push_integer(s: &mut String, v: i64)
    ensures
        final(s)@ == old(s)@ + integer_text(v as int),
{
    let ghost s0 = s@;
    if v < 0 {
        s.push('-');
        push_decimal(s, (-(v as i128)) as u128);
    } else {
        push_decimal(s, v as u128);
    }
    assert(s@ =~= s0 + integer_text(v as int));
}

fn unexpected_shape(shape: &Vec<i64>) -> (s: String)
    ensures
        s@ == shape_fault(shape@),
{
    let mut s = String::new();
    s.append("unexpected edge output shape [");
    let ghost head = s@;
    let mut i: usize = 0;
    assert(s@ =~= head + shape_items(shape@, 0));
    while i < shape.len()
        invariant
            i <= shape@.len(),
            s@ == head + shape_items(shape@, i as int),
        decreases shape@.len() - i,
    {
        let ghost before = s@;
        if i > 0 {
            s.append(", ");
        }
        push_integer(&mut s, shape[i]);
        i = i + 1;
        assert(s@ =~= head + shape_items(shape@, i as int));
    }
    s.append("]");
    assert(s@ =~= shape_fault(shape@));
    s
}

/// Whether an output of rank 4 holds a map: both sides are positive, and there is
/// a sample for every pixel.
pub open spec fn holds_map(shape: Seq<i64>, len: int) -> bool {
    shape[2] > 0 && shape[3] > 0 && shape[2] * shape[3] <= len
}

/// Order keys of the bounds that probabilities keep, with room for rounding: a
/// little below 0 and a little above 1.
pub const PROBABILITY_BOUNDS: (i32, i32) = (-0x3a83_126f, 0x3f80_20c5);

/// Whether all of the first `count` samples are probabilities. A sample that is no
/// number has no key and no say.
pub open spec fn probabilities(keys: spec_fn(u32) -> Option<i32>, map: Seq<u32>, count: int) -> bool {
    forall|i: int|
        0 <= i < count ==> (keys(#[trigger] map[i]) matches Some(k) ==> PROBABILITY_BOUNDS.0 <= k
            && k <= PROBABILITY_BOUNDS.1)
}

/// The mathematical functions behind the samples of an edge map.
pub ghost struct Samples {
    /// The order key of a sample.
    pub key: spec_fn(u32) -> Option<i32>,
    /// The edge probability for a sample of a drawing, or of its logits.
    pub invert: spec_fn(u32, bool) -> u32,
    /// The resampling to the size of the image, from the sides of the map.
    pub resampling: spec_fn(int, int) -> Resampling,
}

/// The edge probabilities for the first `count` samples of an output.
pub open spec fn inverted(f: Samples, data: Seq<u32>, count: int) -> Seq<u32> {
    let prob = probabilities(f.key, data, count);
    Seq::new(count as nat, |i: int| (f.invert)(data[i], prob))
}

/// What is made of the net's outputs: a map at the size of the image, or what is
/// wrong with them.
pub open spec fn edges_of(
    f: Samples,
    outputs: Seq<Output>,
    w: int,
    h: int,
) -> Result<Seq<u32>, Seq<char>> {
    match last_map(ranks_of(outputs), outputs.len() as int) {
        None => Err("model produced no rank-4 edge map"@),
        Some(k) => {
            let shape = outputs[k].0@;
            let data = outputs[k].1@;
            let (eh, ew) = (shape[2] as int, shape[3] as int);
            if holds_map(shape, data.len() as int) {
                Ok(
                    resampled(
                        (f.resampling)(ew, eh),
                        inverted(f, data, eh * ew),
                        ew,
                        eh,
                        w,
                        w * h,
                    ),
                )
            } else {
                Err(shape_fault(shape))
            }
        },
    }
}

/// The functions on samples may be called on any of them.
pub open spec fn may_sample_edges<Q, V, X, Y, B>(
    key: Q,
    invert: V,
    column: X,
    row: Y,
    blend: B,
) -> bool where
    Q: Fn(u32) -> Option<i32>,
    V: Fn(u32, bool) -> u32,
    X: Fn(usize, usize) -> i64,
    Y: Fn(usize, usize) -> i64,
    B: Fn(usize, usize, usize, usize, Taps) -> u32,
 {
    &&& forall|v: u32| #[trigger] key.requires((v,))
    &&& forall|v: u32, p: bool| #[trigger] invert.requires((v, p))
    &&& forall|x: usize, ew: usize| #[trigger] column.requires((x, ew))
    &&& forall|y: usize, eh: usize| #[trigger] row.requires((y, eh))
    &&& forall|x: usize, y: usize, ew: usize, eh: usize, t: Taps| #[trigger]
        blend.requires((x, y, ew, eh, t))
}

/// The functions on samples compute those of `f`.
pub open spec fn samples_edges<Q, V, X, Y, B>(
    f: Samples,
    key: Q,
    invert: V,
    column: X,
    row: Y,
    blend: B,
) -> bool where
    Q: Fn(u32) -> Option<i32>,
    V: Fn(u32, bool) -> u32,
    X: Fn(usize, usize) -> i64,
    Y: Fn(usize, usize) -> i64,
    B: Fn(usize, usize, usize, usize, Taps) -> u32,
 {
    &&& forall|v: u32, k: Option<i32>| #[trigger] key.ensures((v,), k) ==> k == (f.key)(v)
    &&& forall|v: u32, p: bool, r: u32| #[trigger]
        invert.ensures((v, p), r) ==> r == (f.invert)(v, p)
    &&& forall|x: usize, ew: usize, eh: int, c: i64|
        #![trigger column.ensures((x, ew), c), (f.resampling)(ew as int, eh)]
        column.ensures((x, ew), c) ==> c == ((f.resampling)(ew as int, eh).column)(x as int)
    &&& forall|y: usize, ew: int, eh: usize, c: i64|
        #![trigger row.ensures((y, eh), c), (f.resampling)(ew, eh as int)]
        row.ensures((y, eh), c) ==> c == ((f.resampling)(ew, eh as int).row)(y as int)
    &&& forall|x: usize, y: usize, ew: usize, eh: usize, t: Taps, v: u32| #[trigger]
        blend.ensures((x, y, ew, eh, t), v) ==> v == ((f.resampling)(ew as int, eh as int).blend)(
            x as int,
            y as int,
            t,
        )
}

fn is_probability<Q: Fn(u32) -> Option<i32>>(map: &Vec<u32>, count: usize, key: &Q) -> (r: bool)
    requires
        count <= map@.len(),
        forall|v: u32| #[trigger] key.requires((v,)),
    ensures
        forall|m: spec_fn(u32) -> Option<i32>|
            (forall|v: u32, k: Option<i32>| #[trigger] key.ensures((v,), k) ==> k == m(v))
                ==> #[trigger] probabilities(m, map@, count as int) == r,
{
    let mut r: bool = true;
    let mut i: usize = 0;
    while i < count
        invariant
            i <= count <= map@.len(),
            forall|v: u32| #[trigger] key.requires((v,)),
            forall|m: spec_fn(u32) -> Option<i32>|
                (forall|v: u32, k: Option<i32>| #[trigger] key.ensures((v,), k) ==> k == m(v))
                    ==> #[trigger] probabilities(m, map@, i as int) == r,
        decreases count - i,
    {
        let k: Option<i32> = key(map[i]);
        let fine: bool = match k {
            None => true,
            Some(k) => PROBABILITY_BOUNDS.0 <= k && k <= PROBABILITY_BOUNDS.1,
        };
        let ghost before = r;
        r = r && fine;
        i = i + 1;
        assert forall|m: spec_fn(u32) -> Option<i32>|
            (forall|v: u32, k: Option<i32>| #[trigger] key.ensures((v,), k) ==> k == m(v)) implies #[trigger] probabilities(
        m, map@, i as int) == r by {
            assert(probabilities(m, map@, i - 1) == before);
            assert(k == m(map@[i - 1]));
        }
    }
    r
}

/// Makes an edge map of the net's outputs: the last output of rank 4, inverted and
/// brought to the size of the image.
pub fn edge_map_of<Q, V, X, Y, B>(
    outputs: &Vec<Output>,
    width: usize,
    height: usize,
    key: &Q,
    invert: &V,
    column: &X,
    row: &Y,
    blend: &B,
) -> (r: Result<Vec<u32>, String>) where
    Q: Fn(u32) -> Option<i32>,
    V: Fn(u32, bool) -> u32,
    X: Fn(usize, usize) -> i64,
    Y: Fn(usize, usize) -> i64,
    B: Fn(usize, usize, usize, usize, Taps) -> u32,

    requires
        width * height <= usize::MAX,
        may_sample_edges(*key, *invert, *column, *row, *blend),
    ensures
        forall|f: Samples| #[trigger]
            samples_edges(f, *key, *invert, *column, *row, *blend) ==> match r {
                Ok(map) => edges_of(f, outputs@, width as int, height as int) == Ok::<
                    Seq<u32>,
                    Seq<char>,
                >(map@),
                Err(e) => edges_of(f, outputs@, width as int, height as int) == Err::<
                    Seq<u32>,
                    Seq<char>,
                >(e@),
            },
{
    let k: usize = match pick_map(outputs) {
        None => {
            return Err(String::from_str("model produced no rank-4 edge map"));
        },
        Some(k) => k,
    };
    let shape: &Vec<i64> = &outputs[k].0;
    let data: &Vec<u32> = &outputs[k].1;
    let len: usize = data.len();
    if shape[2] <= 0 || shape[3] <= 0 {
        return Err(unexpected_shape(shape));
    }
    let eh: i64 = shape[2];
    let ew: i64 = shape[3];
    assert(0 < eh * ew <= 0x7fff_ffff_ffff_ffff * 0x7fff_ffff_ffff_ffff) by (nonlinear_arith)
        requires
            0 < eh <= 0x7fff_ffff_ffff_ffff,
            0 < ew <= 0x7fff_ffff_ffff_ffff,
    ;
    let area: u128 = eh as u128 * ew as u128;
    if area > len as u128 {
        return Err(unexpected_shape(shape));
    }
    assert(eh <= eh * ew && ew <= eh * ew) by (nonlinear_arith)
        requires
            0 < eh,
            0 < ew,
    ;
    let count: usize = area as usize;
    let (sw, sh): (usize, usize) = (ew as usize, eh as usize);
    let prob: bool = is_probability(data, count, key);
    let mut small: Vec<u32> = Vec::new();
    let mut i: usize = 0;
    while i < count
        invariant
            i <= count <= data@.len(),
            small@.len() == i,
            forall|v: u32, p: bool| #[trigger] invert.requires((v, p)),
            forall|j: int| 0 <= j < i ==> invert.ensures((data@[j], prob), #[trigger] small@[j]),
        decreases count - i,
    {
        small.push(invert(data[i], prob));
        i = i + 1;
    }
    let col = |x: usize| -> (c: i64)
        requires
            column.requires((x, sw)),
        ensures
            column.ensures((x, sw), c),
        { column(x, sw) };
    let rw = |y: usize| -> (c: i64)
        requires
            row.requires((y, sh)),
        ensures
            row.ensures((y, sh), c),
        { row(y, sh) };
    let mix = |x: usize, y: usize, t: Taps| -> (v: u32)
        requires
            blend.requires((x, y, sw, sh, t)),
        ensures
            blend.ensures((x, y, sw, sh, t), v),
        { blend(x, y, sw, sh, t) };
    assert(sw * sh == count) by (nonlinear_arith)
        requires
            sw == ew,
            sh == eh,
            count == eh * ew,
    ;
    let map = resample(small.as_slice(), sw, sh, width, height, &col, &rw, &mix);
    assert forall|f: Samples| #[trigger]
        samples_edges(f, *key, *invert, *column, *row, *blend) implies edges_of(
        f,
        outputs@,
        width as int,
        height as int,
    ) == Ok::<Seq<u32>, Seq<char>>(map@) by {
        assert(probabilities(f.key, data@, count as int) == prob);
        assert forall|j: int| 0 <= j < count implies small@[j] == inverted(
            f,
            data@,
            count as int,
        )[j] by {
            assert(invert.ensures((data@[j], prob), small@[j]));
        }
        assert(small@ =~= inverted(f, data@, count as int));
        let rs = (f.resampling)(ew as int, eh as int);
        assert(rs == (f.resampling)(sw as int, sh as int));
        assert(resamples(rs, col, rw, mix));
    }
    Ok(map)
}

/// The model may be asked for its input shape and for inference, and images may be
/// capped and resized.
pub open spec fn may_infer<M, C, Z, N>(
    model: M,
    capped: C,
    larger: Z,
    net: N,
    w: usize,
    h: usize,
) -> bool where
    M: Fn() -> Result<Vec<i64>, String>,
    C: Fn(usize, usize) -> (usize, usize),
    Z: Fn(Vec<u8>, usize, usize, usize, usize) -> Result<Vec<u8>, String>,
    N: Fn(&[u8], usize, usize) -> Result<Vec<Output>, String>,
 {
    &&& model.requires(())
    &&& forall|shape: Vec<i64>| #[trigger]
        model.ensures((), Ok(shape)) ==> sides_fit(shape@)
    &&& capped.requires((w, h))
    &&& may_resize(larger)
    &&& forall|input: &[u8], in_w: usize, in_h: usize| #[trigger] net.requires((input, in_w, in_h))
}

/// What the net returns for planes of a width and height.
pub open spec fn infers<N>(
    net: N,
    input: Seq<u8>,
    in_w: usize,
    in_h: usize,
    reply: Result<Vec<Output>, String>,
) -> bool where N: Fn(&[u8], usize, usize) -> Result<Vec<Output>, String> {
    exists|s: &[u8]| s@ == input && #[trigger] net.ensures((s, in_w, in_h), reply)
}

/// The net's reply to an image: what it returns for the planes of the resized
/// image, at the size that the model or the cap asks for.
pub open spec fn replies<M, C, Z, N>(
    model: M,
    capped: C,
    larger: Z,
    net: N,
    rgba: Seq<u8>,
    w: usize,
    h: usize,
    reply: Result<Vec<Output>, String>,
) -> bool where
    M: Fn() -> Result<Vec<i64>, String>,
    C: Fn(usize, usize) -> (usize, usize),
    Z: Fn(Vec<u8>, usize, usize, usize, usize) -> Result<Vec<u8>, String>,
    N: Fn(&[u8], usize, usize) -> Result<Vec<Output>, String>,
 {
    ||| exists|e: String| #[trigger]
        model.ensures((), Err(e)) && reply == Err::<Vec<Output>, String>(e)
    ||| exists|
        shape: Vec<i64>,
        c: (usize, usize),
        in_w: usize,
        in_h: usize,
        fed: Result<Vec<u8>, String>,
    |
        #![trigger model.ensures((), Ok(shape)), capped.ensures((w, h), c), is_fed(larger, rgba, w, h, in_w, in_h, fed)]
        {
            &&& model.ensures((), Ok(shape))
            &&& capped.ensures((w, h), c)
            &&& (in_h as int, in_w as int) == input_size(shape@, (c.0 as int, c.1 as int))
            &&& is_fed(larger, rgba, w, h, in_w, in_h, fed)
            &&& match fed {
                Ok(input) => infers(net, input@, in_w, in_h, reply),
                Err(e) => reply == Err::<Vec<Output>, String>(e),
            }
        }
}

/// Computes the edge probabilities of an RGBA image, `width * height` of them.
///
/// `model` gives the model's input shape, `capped` the height and width of the
/// image scaled down to [`MAX_EDGE`], and `net` the outputs for planes of the given
/// width and height. `larger` resizes the RGB pixels of images for which resizing is
/// not known to succeed.
pub fn edge_map<M, C, Z, N, Q, V, X, Y, B>(
    rgba: &[u8],
    width: usize,
    height: usize,
    model: &M,
    capped: &C,
    larger: &Z,
    net: &N,
    key: &Q,
    invert: &V,
    column: &X,
    row: &Y,
    blend: &B,
) -> (r: Result<Vec<u32>, String>) where
    M: Fn() -> Result<Vec<i64>, String>,
    C: Fn(usize, usize) -> (usize, usize),
    Z: Fn(Vec<u8>, usize, usize, usize, usize) -> Result<Vec<u8>, String>,
    N: Fn(&[u8], usize, usize) -> Result<Vec<Output>, String>,
    Q: Fn(u32) -> Option<i32>,
    V: Fn(u32, bool) -> u32,
    X: Fn(usize, usize) -> i64,
    Y: Fn(usize, usize) -> i64,
    B: Fn(usize, usize, usize, usize, Taps) -> u32,

    requires
        may_infer(*model, *capped, *larger, *net, width, height),
        may_sample_edges(*key, *invert, *column, *row, *blend),
    ensures
        buffer_fault(rgba@.len() as int, width as int, height as int) matches Some(fault) ==> (
        r matches Err(e) && e@ == fault),
        buffer_fault(rgba@.len() as int, width as int, height as int) is None ==> exists|
            reply: Result<Vec<Output>, String>,
        |
            {
                &&& #[trigger] replies(*model, *capped, *larger, *net, rgba@, width, height, reply)
                &&& reply matches Err(e) ==> r == Err::<Vec<u32>, String>(e)
                &&& reply matches Ok(outputs) ==> (forall|f: Samples| #[trigger]
                    samples_edges(f, *key, *invert, *column, *row, *blend) ==> match r {
                        Ok(map) => edges_of(f, outputs@, width as int, height as int) == Ok::<
                            Seq<u32>,
                            Seq<char>,
                        >(map@),
                        Err(e) => edges_of(f, outputs@, width as int, height as int) == Err::<
                            Seq<u32>,
                            Seq<char>,
                        >(e@),
                    })
            },
{
    if let Err(e) = check_buffer(rgba.len(), width, height) {
        return Err(e);
    }
    let shape: Vec<i64> = match model() {
        Err(e) => {
            assert(replies(*model, *capped, *larger, *net, rgba@, width, height, Err(e)));
            return Err(e);
        },
        Ok(shape) => shape,
    };
    let c: (usize, usize) = capped(width, height);
    let (in_h, in_w): (usize, usize) = choose_input_size(shape.as_slice(), c);
    let input: Vec<u8> = match feed(rgba, width, height, in_w, in_h, larger) {
        Err(e) => {
            assert(is_fed(*larger, rgba@, width, height, in_w, in_h, Err(e)));
            assert(replies(*model, *capped, *larger, *net, rgba@, width, height, Err(e)));
            return Err(e);
        },
        Ok(input) => input,
    };
    assert(is_fed(*larger, rgba@, width, height, in_w, in_h, Ok(input)));
    let reply: Result<Vec<Output>, String> = net(input.as_slice(), in_w, in_h);
    assert(infers(*net, input@, in_w, in_h, reply));
    assert(replies(*model, *capped, *larger, *net, rgba@, width, height, reply));
    match reply {
        Err(e) => Err(e),
        Ok(outputs) => edge_map_of(&outputs, width, height, key, invert, column, row, blend),
    }
}

/// A side that is not fixed by the model is fed as a multiple of 8, at least 8, and
/// no longer than the image's own where that allows.
pub proof fn law_capped_sides_are_aligned(v: int)
    ensures
        rounded8(v) % 8 == 0,
        rounded8(v) >= 8,
        v >= 8 ==> v - 8 < rounded8(v) <= v,
{
}

/// Every channel of every pixel stands in its plane: what is fed to the net at the
/// image's own size is the image.
pub proof fn law_planes_hold_the_image(rgba: Seq<u8>, n: int, c: int, p: int)
    requires
        0 <= c < 3,
        0 <= p < n,
    ensures
        planes(without_alpha(rgba, n), n)[c * n + p] == rgba[p * 4 + c],
{
    let k = c * n + p;
    vstd::arithmetic::div_mod::lemma_fundamental_div_mod_converse(k, n, c, p);
    assert(0 <= k < n * 3) by (nonlinear_arith)
        requires
            0 <= c < 3,
            0 <= p < n,
            k == c * n + p,
    ;
    let j = p * 3 + c;
    assert(j / 3 == p && j % 3 == c);
}

/// Taking out alpha keeps every colour channel of every pixel, in order.
pub proof fn law_colors_stay_without_alpha(rgba: Seq<u8>, n: int, c: int, p: int)
    requires
        0 <= c < 3,
        0 <= p < n,
    ensures
        without_alpha(rgba, n).len() == n * 3,
        without_alpha(rgba, n)[p * 3 + c] == rgba[p * 4 + c],
{
    let j = p * 3 + c;
    assert(j / 3 == p && j % 3 == c);
}

/// Planes hold the channels one after the other: first the reds of all pixels, in order,
/// then the greens, then the blues.
pub proof fn law_planes_hold_one_channel_each(rgb: Seq<u8>, n: int, c: int, p: int)
    requires
        0 <= c < 3,
        0 <= p < n,
    ensures
        planes(rgb, n).len() == n * 3,
        planes(rgb, n)[c * n + p] == rgb[p * 3 + c],
{
    let k = c * n + p;
    vstd::arithmetic::div_mod::lemma_fundamental_div_mod_converse(k, n, c, p);
    assert(0 <= k < n * 3) by (nonlinear_arith)
        requires
            0 <= c < 3,
            0 <= p < n,
            k == c * n + p,
    ;
}

/// The size that the net is fed: that of the model where it fixes both sides, else the
/// capped one, each side cut down to a multiple of 8 but to no less than 8.
pub proof fn law_input_size_is_fixed_or_aligned(shape: Seq<i64>, capped: (int, int))
    ensures
        ({
            let (h, w) = input_size(shape, capped);
            if shape.len() > 3 && shape[2] > 0 && shape[3] > 0 {
                h == shape[2] && w == shape[3]
            } else {
                &&& h % 8 == 0 && h >= 8 && (capped.0 < 8 ==> h == 8)
                &&& w % 8 == 0 && w >= 8 && (capped.1 < 8 ==> w == 8)
                &&& capped.0 >= 8 ==> capped.0 - 8 < h <= capped.0
                &&& capped.1 >= 8 ==> capped.1 - 8 < w <= capped.1
            }
        }),
{
}

/// Which images are taken: those with pixels, whose buffer holds four bytes for each of
/// them. Anything else is told what is wrong with it.
pub proof fn law_buffer_must_hold_the_pixels(len: int, w: int, h: int)
    requires
        0 <= w,
        0 <= h,
        0 <= len <= usize::MAX,
    ensures
        buffer_fault(len, w, h) is None <==> w > 0 && h > 0 && w * h * 4 <= len,
        w * h * 4 > usize::MAX ==> buffer_fault(len, w, h) == Some("image dimensions overflow"@),
        w * h * 4 <= usize::MAX && (w * h == 0 || w * h * 4 > len) ==> buffer_fault(len, w, h)
            == Some("empty or truncated RGBA buffer"@),
{
    assert(w * h > 0 <==> w > 0 && h > 0) by (nonlinear_arith)
        requires
            0 <= w,
            0 <= h,
    ;
    assert(w * h >= 0) by (nonlinear_arith)
        requires
            0 <= w,
            0 <= h,
    ;
}

proof fn lemma_last_map(ranks: Seq<int>, count: int)
    requires
        0 <= count <= ranks.len(),
    ensures
        match last_map(ranks, count) {
            None => forall|j: int| 0 <= j < count ==> #[trigger] ranks[j] != 4,
            Some(k) => 0 <= k < count && ranks[k] == 4 && forall|j: int|
                k < j < count ==> #[trigger] ranks[j] != 4,
        },
    decreases count,
{
    if count > 0 {
        lemma_last_map(ranks, count - 1);
    }
}

/// Outputs without a map of rank 4 are no edge map.
pub proof fn law_outputs_without_a_map_are_refused(
    f: Samples,
    outputs: Seq<Output>,
    w: int,
    h: int,
)
    requires
        forall|j: int| 0 <= j < outputs.len() ==> (#[trigger] outputs[j]).0@.len() != 4,
    ensures
        edges_of(f, outputs, w, h) == Err::<Seq<u32>, Seq<char>>(
            "model produced no rank-4 edge map"@,
        ),
{
    let ranks = ranks_of(outputs);
    lemma_last_map(ranks, outputs.len() as int);
    if let Some(k) = last_map(ranks, outputs.len() as int) {
        assert(ranks[k] == outputs[k].0@.len());
    }
}

/// The edge map, in full: it is made of the last output of rank 4, `k`. Where that has
/// both sides and a sample for each of its pixels, its samples are inverted, as
/// probabilities where none of them lies out of bounds and as logits else, and resampled to
/// the size of the image. Where it has not, its shape is told.
pub proof fn law_edge_map_is_the_last_map(
    f: Samples,
    outputs: Seq<Output>,
    w: int,
    h: int,
    k: int,
)
    requires
        0 <= k < outputs.len(),
        outputs[k].0@.len() == 4,
        forall|j: int| k < j < outputs.len() ==> (#[trigger] outputs[j]).0@.len() != 4,
    ensures
        ({
            let (eh, ew) = (outputs[k].0@[2] as int, outputs[k].0@[3] as int);
            let data = outputs[k].1@;
            let prob = forall|i: int|
                0 <= i < eh * ew && (f.key)(#[trigger] data[i]) is Some ==> -0x3a83_126f <= (f.key)(
                    data[i],
                ).unwrap() <= 0x3f80_20c5;
            edges_of(f, outputs, w, h) == if eh >= 1 && ew >= 1 && eh * ew <= data.len() {
                Ok::<Seq<u32>, Seq<char>>(
                    resampled(
                        (f.resampling)(ew, eh),
                        Seq::new((eh * ew) as nat, |i: int| (f.invert)(data[i], prob)),
                        ew,
                        eh,
                        w,
                        w * h,
                    ),
                )
            } else {
                Err(shape_fault(outputs[k].0@))
            }
        }),
{
    let ranks = ranks_of(outputs);
    let n = outputs.len() as int;
    lemma_last_map(ranks, n);
    assert(ranks[k] == 4);
    let found = last_map(ranks, n).unwrap();
    if found < k {
        assert(ranks[k] != 4);
    } else if found > k {
        assert(ranks[found] == outputs[found].0@.len());
    }
    let (eh, ew) = (outputs[k].0@[2] as int, outputs[k].0@[3] as int);
    let data = outputs[k].1@;
    let prob = forall|i: int|
        0 <= i < eh * ew && (f.key)(#[trigger] data[i]) is Some ==> -0x3a83_126f <= (f.key)(
            data[i],
        ).unwrap() <= 0x3f80_20c5;
    assert(prob == probabilities(f.key, data, eh * ew)) by {
        if prob {
            assert forall|i: int| 0 <= i < eh * ew implies ((f.key)(
                #[trigger] data[i],
            ) matches Some(v) ==> PROBABILITY_BOUNDS.0 <= v && v <= PROBABILITY_BOUNDS.1) by {}
        }
    }
    assert(inverted(f, data, eh * ew) =~= Seq::new(
        (eh * ew) as nat,
        |i: int| (f.invert)(data[i], prob),
    ));
}

proof fn lemma_items(shape: Seq<i64>, count: int)
    requires
        0 <= count <= shape.len(),
    ensures
        shape_items(shape, count) == Seq::new(
            count as nat,
            |i: int|
                if i == 0 {
                    integer_text(shape[i] as int)
                } else {
                    ", "@ + integer_text(shape[i] as int)
                },
        ).flatten(),
    decreases count,
{
    let piece = |i: int|
        if i == 0 {
            integer_text(shape[i] as int)
        } else {
            ", "@ + integer_text(shape[i] as int)
        };
    let all = Seq::new(count as nat, piece);
    if count == 0 {
        assert(all =~= Seq::empty());
        assert(all.flatten() =~= Seq::empty());
    } else {
        lemma_items(shape, count - 1);
        let part = Seq::new((count - 1) as nat, piece);
        assert(all =~= part.push(piece(count - 1)));
        part.lemma_flatten_push(piece(count - 1));
        if count == 1 {
            assert(part =~= Seq::empty());
            assert(part.flatten() =~= Seq::empty());
            assert(shape_items(shape, 1) =~= all.flatten());
        } else {
            assert(shape_items(shape, count) =~= all.flatten());
        }
    }
}

/// What is said of an output that is no edge map: its shape, all of its numbers in order,
/// with a comma and a space between them. Each number is written such that it reads back.
pub proof fn law_unexpected_shape_is_told(shape: Seq<i64>, v: i64)
    ensures
        shape_fault(shape) == "unexpected edge output shape ["@ + Seq::new(
            shape.len(),
            |i: int|
                if i == 0 {
                    integer_text(shape[i] as int)
                } else {
                    ", "@ + integer_text(shape[i] as int)
                },
        ).flatten() + "]"@,
        signed_value(integer_text(v as int), i64::MIN as int, i64::MAX as int) == Some(v as int),
        integer_text(v as int)[0] != '+',
{
    lemma_items(shape, shape.len() as int);
    let n = (if v < 0 {
        -v
    } else {
        v as int
    }) as nat;
    law_written_numbers_are_read(n, i64::MIN as int, i64::MAX as int, Seq::empty());
    law_decimal_reads_back(n);
    assert(48 <= decimal(n)[0] as int <= 57);
}

/// What is fed to the net: three planes of the resized colours, channel by channel, for
/// every image that can be resized; for any other, the planes of what `larger` makes of its
/// colours, or what that says.
pub proof fn law_net_is_fed_planes<Z>(
    larger: Z,
    rgba: Seq<u8>,
    w: usize,
    h: usize,
    in_w: usize,
    in_h: usize,
    fed: Result<Vec<u8>, String>,
    c: int,
    p: int,
) where Z: Fn(Vec<u8>, usize, usize, usize, usize) -> Result<Vec<u8>, String>
    requires
        is_fed(larger, rgba, w, h, in_w, in_h, fed),
        0 <= c < 3,
        0 <= p < in_w * in_h,
    ensures
        ({
            let n = in_w * in_h;
            let colors = without_alpha(rgba, w * h);
            if resizable(w as int, h as int, in_w as int, in_h as int) {
                &&& fed is Ok
                &&& fed->Ok_0@.len() == n * 3
                &&& fed->Ok_0@[c * n + p] == resized(
                    colors,
                    w as u32,
                    h as u32,
                    in_w as u32,
                    in_h as u32,
                )[p * 3 + c]
            } else {
                exists|rgb: Vec<u8>, small: Result<Vec<u8>, String>|
                    {
                        &&& rgb@ == colors
                        &&& #[trigger] larger.ensures((rgb, w, h, in_w, in_h), small)
                        &&& small is Ok <==> fed is Ok
                        &&& small is Ok ==> fed->Ok_0@.len() == n * 3 && fed->Ok_0@[c * n + p]
                            == small->Ok_0@[p * 3 + c]
                        &&& small is Err ==> fed->Err_0 == small->Err_0
                    }
            }
        }),
{
    let n = in_w * in_h;
    let colors = without_alpha(rgba, w * h);
    if resizable(w as int, h as int, in_w as int, in_h as int) {
        law_planes_hold_one_channel_each(
            resized(colors, w as u32, h as u32, in_w as u32, in_h as u32),
            n,
            c,
            p,
        );
    } else {
        let (rgb, small) = choose|rgb: Vec<u8>, small: Result<Vec<u8>, String>|
            #![trigger larger.ensures((rgb, w, h, in_w, in_h), small)]
            {
                &&& rgb@ == without_alpha(rgba, w * h)
                &&& larger.ensures((rgb, w, h, in_w, in_h), small)
                &&& match small {
                    Ok(small) => fed matches Ok(input) && input@ == planes(small@, in_w * in_h),
                    Err(e) => fed == Err::<Vec<u8>, String>(e),
                }
            };
        if small is Ok {
            law_planes_hold_one_channel_each(small->Ok_0@, n, c, p);
        }
        assert(larger.ensures((rgb, w, h, in_w, in_h), small));
    }
}

/// What the net replies to: where the model cannot be asked for its shape, what that says
/// is the reply. Else the net is fed at the height and width that the shape and the capped
/// size lead to, in this order, and what it returns for that width and height is the reply; or
/// why it could not be fed.
pub proof fn law_net_replies_to_what_it_is_fed<M, C, Z, N>(
    model: M,
    capped: C,
    larger: Z,
    net: N,
    rgba: Seq<u8>,
    w: usize,
    h: usize,
    reply: Result<Vec<Output>, String>,
) where
    M: Fn() -> Result<Vec<i64>, String>,
    C: Fn(usize, usize) -> (usize, usize),
    Z: Fn(Vec<u8>, usize, usize, usize, usize) -> Result<Vec<u8>, String>,
    N: Fn(&[u8], usize, usize) -> Result<Vec<Output>, String>,

    requires
        replies(model, capped, larger, net, rgba, w, h, reply),
    ensures
        (exists|e: String| #[trigger]
            model.ensures((), Err(e)) && reply == Err::<Vec<Output>, String>(e)) || (exists|
            shape: Vec<i64>,
            c: (usize, usize),
            in_w: usize,
            in_h: usize,
            fed: Result<Vec<u8>, String>,
        |
            #![trigger model.ensures((), Ok(shape)), capped.ensures((w, h), c), is_fed(larger, rgba, w, h, in_w, in_h, fed)]
            {
                &&& model.ensures((), Ok(shape))
                &&& capped.ensures((w, h), c)
                &&& in_h == input_size(shape@, (c.0 as int, c.1 as int)).0
                &&& in_w == input_size(shape@, (c.0 as int, c.1 as int)).1
                &&& is_fed(larger, rgba, w, h, in_w, in_h, fed)
                &&& fed is Err ==> reply is Err && reply->Err_0 == fed->Err_0
                &&& fed is Ok ==> exists|s: &[u8]|
                    s@ == fed->Ok_0@ && #[trigger] net.ensures((s, in_w, in_h), reply)
            }),
{
    if !(exists|e: String| #[trigger]
        model.ensures((), Err(e)) && reply == Err::<Vec<Output>, String>(e)) {
        let (shape, c, in_w, in_h, fed) = choose|
            shape: Vec<i64>,
            c: (usize, usize),
            in_w: usize,
            in_h: usize,
            fed: Result<Vec<u8>, String>,
        |
            #![trigger model.ensures((), Ok(shape)), capped.ensures((w, h), c), is_fed(larger, rgba, w, h, in_w, in_h, fed)]
            {
                &&& model.ensures((), Ok(shape))
                &&& capped.ensures((w, h), c)
                &&& (in_h as int, in_w as int) == input_size(shape@, (c.0 as int, c.1 as int))
                &&& is_fed(larger, rgba, w, h, in_w, in_h, fed)
                &&& match fed {
                    Ok(input) => infers(net, input@, in_w, in_h, reply),
                    Err(e) => reply == Err::<Vec<Output>, String>(e),
                }
            };
        assert(model.ensures((), Ok(shape)) && capped.ensures((w, h), c) && is_fed(
            larger,
            rgba,
            w,
            h,
            in_w,
            in_h,
            fed,
        ));
    }
}

/// Which images are resized here: those whose sides, before and after, are between 1 and two
/// million pixels, and whose buffers fit into memory.
pub proof fn law_sides_within_bounds_are_resized(w: int, h: int, nw: int, nh: int)
    ensures
        resizable(w, h, nw, nh) <==> {
            &&& 1 <= w <= 2097152 && 1 <= h <= 2097152 && 1 <= nw <= 2097152 && 1 <= nh <= 2097152
            &&& w * h * 4 <= isize::MAX && w * nh * 16 <= isize::MAX && nw * nh * 3 <= isize::MAX
        },
{
}

} // verus!
