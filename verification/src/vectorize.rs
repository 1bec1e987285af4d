//! The clustering tracer of the `vtracer` crate, as far as its own arithmetic is
//! known to hold.

use vstd::arithmetic::power::pow;
use vstd::arithmetic::power2::{lemma2_to64, lemma2_to64_rest, lemma_pow2, pow2};
use vstd::prelude::*;
use vtracer::{ColorImage, ColorMode, Config, Hierarchical};
use visioncortex::PathSimplifyMode;
use crate::params::{in_range, PathMode, Settings};
use crate::text::{
    decimal, digit, is_number, law_decimal_reads_back, number, push_decimal, push_digit,
};

verus! {

/// The tracer's arithmetic holds for a raster of that size: a cluster index has 16
/// bits, and every other pixel of every row may be a cluster of its own; and the
/// square of a diagonal is held in 31 bits.
pub open spec fn traceable(len: int, w: int, h: int) -> bool {
    &&& 0 < w
    &&& 0 < h
    &&& len == w * h * 4
    &&& h * ((w + 1) / 2) < 0xffff
    &&& w * w + h * h <= 0x7fff_ffff
}

/// Whether a raster is [`traceable`].
pub fn is_traceable(len: usize, w: usize, h: usize) -> (b: bool)
    ensures
        b == traceable(len as int, w as int, h as int),
{
    if w == 0 || h == 0 || w > 0xffff || h > 0xffff {
        proof {
            if w > 0xffff {
                assert(w * w > 0x7fff_ffff) by (nonlinear_arith)
                    requires
                        w > 0xffff,
                ;
                assert(h * h >= 0) by (nonlinear_arith);
            }
            if h > 0xffff && w > 0 {
                assert(h * h > 0x7fff_ffff) by (nonlinear_arith)
                    requires
                        h > 0xffff,
                ;
                assert(w * w >= 0) by (nonlinear_arith);
            }
        }
        return false;
    }
    let (x, y): (u64, u64) = (w as u64, h as u64);
    assert(0 <= x * x <= 0xffff * 0xffff && 0 <= y * y <= 0xffff * 0xffff && 0 <= y * x <= 0xffff
        * 0xffff && 0 <= y * ((x + 1) / 2) <= 0xffff * 0xffff) by (nonlinear_arith)
        requires
            0 < x <= 0xffff,
            0 < y <= 0xffff,
    ;
    assert(y * x == x * y) by (nonlinear_arith);
    len as u64 == y * x * 4 && y * ((x + 1) / 2) < 0xffff && x * x + y * y <= 0x7fff_ffff
}

/// The tracer can cluster with these settings. In colour and without a difference
/// between layers it joins pixels across corners, and loses track of which cluster
/// such a pixel belongs to.
pub open spec fn can_cluster(s: Settings) -> bool {
    s.binary || s.layer_difference > 0
}

/// The digits of `r / d` behind the point, at most `count` of them.
pub open spec fn fraction_digits(r: int, d: int, count: nat) -> Seq<char>
    decreases count,
{
    if r == 0 || count == 0 {
        Seq::empty()
    } else {
        seq![digit(r * 10 / d)] + fraction_digits(r * 10 % d, d, (count - 1) as nat)
    }
}

/// The denominator of the number with an order key between those of 2 and 16: a
/// number has 52 bits behind its first one.
pub open spec fn denominator(key: int) -> int {
    if key < 0x4010_0000_0000_0000 {
        0x8_0000_0000_0000
    } else if key < 0x4020_0000_0000_0000 {
        0x4_0000_0000_0000
    } else {
        0x2_0000_0000_0000
    }
}

/// The numerator of the number with an order key between those of 2 and 16.
pub open spec fn numerator(key: int) -> int {
    key % 0x10_0000_0000_0000 + 0x10_0000_0000_0000
}

/// The number with an order key between those of 2 and 16, in decimal, exactly.
pub open spec fn number_text(key: int) -> Seq<char> {
    let (n, d) = (numerator(key), denominator(key));
    decimal((n / d) as nat) + seq!['.'] + fraction_digits(n % d, d, 51)
}

/// Writes the number with an order key between those of 2 and 16, in decimal,
/// exactly.
pub fn write_number(key: i64) -> (s: String)
    requires
        0x4000_0000_0000_0000 <= key < 0x4030_0000_0000_0000,
    ensures
        s@ == number_text(key as int),
{
    let d: u64 = if key < 0x4010_0000_0000_0000 {
        0x8_0000_0000_0000
    } else if key < 0x4020_0000_0000_0000 {
        0x4_0000_0000_0000
    } else {
        0x2_0000_0000_0000
    };
    let n: u64 = key as u64 % 0x10_0000_0000_0000 + 0x10_0000_0000_0000;
    let mut s = String::new();
    push_decimal(&mut s, (n / d) as u128);
    s.push('.');
    let ghost head = s@;
    let mut r: u64 = n % d;
    let mut left: usize = 51;
    let ghost rest = fraction_digits(r as int, d as int, 51);
    assert(head =~= decimal((n / d) as nat) + seq!['.']);
    assert(s@ + rest =~= head + rest);
    while r > 0 && left > 0
        invariant
            0 < d <= 0x8_0000_0000_0000,
            r < d,
            s@ + fraction_digits(r as int, d as int, left as nat) == head + rest,
        decreases left,
    {
        let ghost before = s@;
        let ghost tail = fraction_digits(r as int, d as int, left as nat);
        let q: u64 = r * 10 / d;
        assert(0 <= (r * 10) / (d as int) < 10 && 0 <= (r * 10) % (d as int) < d) by (
            nonlinear_arith)
            requires
                0 < d,
                0 <= r < d,
        ;
        push_digit(&mut s, q as u8);
        r = r * 10 % d;
        left = left - 1;
        assert(s@ + fraction_digits(r as int, d as int, left as nat) =~= before + tail);
    }
    assert(s@ =~= head + rest);
    s
}

/// What a document of the tracer starts with.
pub open spec fn tracer_head(w: int, h: int) -> Seq<char> {
    "<?xml version=\"1.0\" encoding=\"UTF-8\"?>\n<!-- Generator: visioncortex VTracer 0.6.5 -->\n<svg version=\"1.1\" xmlns=\"http://www.w3.org/2000/svg\" width=\""@
        + decimal(w as nat) + "\" height=\""@ + decimal(h as nat) + "\">\n"@
}

/// A path element of the tracer, from the text of its path, its fill and its
/// offset.
pub open spec fn path_element(path: Seq<char>, fill: Seq<char>, offset: Seq<char>) -> Seq<char> {
    "<path d=\""@ + path + "\" fill=\""@ + fill + "\" transform=\"translate("@ + offset
        + ")\"/>\n"@
}

/// One path element for each fill, in order, with the texts of its path and its
/// offset.
pub open spec fn path_elements(texts: Seq<(Seq<char>, Seq<char>)>, fills: Seq<Seq<char>>) -> Seq<
    char,
>
    decreases fills.len(),
{
    if fills.len() == 0 {
        Seq::empty()
    } else {
        path_elements(texts.drop_last(), fills.drop_last()) + path_element(
            texts.last().0,
            fills.last(),
            texts.last().1,
        )
    }
}

/// A document of the tracer with these texts and fills.
pub open spec fn tracer_document(
    w: int,
    h: int,
    texts: Seq<(Seq<char>, Seq<char>)>,
    fills: Seq<Seq<char>>,
) -> Seq<char> {
    tracer_head(w, h) + path_elements(texts, fills) + "</svg>\n"@
}

/// A document of the tracer with one path element for each of these fills, in
/// order.
pub open spec fn is_filled_with(s: Seq<char>, w: int, h: int, fills: Seq<Seq<char>>) -> bool {
    exists|texts: Seq<(Seq<char>, Seq<char>)>|
        texts.len() == fills.len() && s == #[trigger] tracer_document(w, h, texts, fills)
}

/// A document of the tracer. In black and white every path is black.
pub open spec fn is_tracer_document(s: Seq<char>, w: int, h: int, binary: bool) -> bool {
    exists|fills: Seq<Seq<char>>| #[trigger]
        is_filled_with(s, w, h, fills) && (binary ==> forall|i: int|
            0 <= i < fills.len() ==> #[trigger] fills[i] == "#000000"@)
}

/// Two documents of the tracer with as many paths, filled alike in the same order.
pub open spec fn are_filled_alike(s: Seq<char>, t: Seq<char>, w: int, h: int) -> bool {
    exists|fills: Seq<Seq<char>>| #[trigger]
        is_filled_with(s, w, h, fills) && is_filled_with(t, w, h, fills)
}

/// Whether a colour occurs in a raster.
pub open spec fn holds_color(pixels: Seq<u8>, r: u8, g: u8, b: u8) -> bool {
    exists|i: int|
        0 <= i < pixels.len() / 4 && #[trigger] pixels[i * 4] == r && pixels[i * 4 + 1] == g
            && pixels[i * 4 + 2] == b
}

/// Whether every colour occurs that the tracer would mark transparent pixels with
/// before it resorts to chance.
pub open spec fn holds_key_colors(pixels: Seq<u8>) -> bool {
    &&& holds_color(pixels, 255, 0, 0)
    &&& holds_color(pixels, 0, 255, 0)
    &&& holds_color(pixels, 0, 0, 255)
    &&& holds_color(pixels, 255, 255, 0)
    &&& holds_color(pixels, 0, 255, 255)
    &&& holds_color(pixels, 255, 0, 255)
}

/// The document that `vtracer::convert` makes of a raster with settings that fit
/// no splines, where no marking colour is drawn by chance.
pub uninterp spec fn cluster_document(pixels: Seq<u8>, w: int, h: int, s: Settings) -> Seq<char>;

/// Whether no marking colour is drawn by chance: none is needed in black and white,
/// and where a key colour is free it is taken.
pub open spec fn no_chance(pixels: Seq<u8>, s: Settings) -> bool {
    s.binary || !holds_key_colors(pixels)
}

/// The settings with outlines along the pixels.
pub open spec fn along_pixels(s: Settings) -> Settings {
    Settings { mode: PathMode::Pixel, ..s }
}

/// What the tracer may return for a raster: a document of its size, with one path
/// element for each cluster that is kept; or, in colour only and where every marking
/// colour occurs, that it found no colour to mark transparent pixels with.
pub open spec fn tracer_may_return(
    pixels: Seq<u8>,
    w: int,
    h: int,
    s: Settings,
    r: Result<String, String>,
) -> bool {
    match r {
        Ok(svg) => is_tracer_document(svg@, w, h, s.binary),
        Err(e) => {
            &&& !no_chance(pixels, s)
            &&& e@ == "unable to find unused color in image to use as key"@
        },
    }
}

/// How the document `svg` is tied to what the tracer makes of the raster with the
/// same settings (`same`) and with outlines along the pixels (`outlined`): without
/// splines it is the same each time, and in any mode it has as many paths as the
/// outlined one, filled alike in the same order.
pub open spec fn is_tied(
    svg: Seq<char>,
    same: Seq<char>,
    outlined: Seq<char>,
    w: int,
    h: int,
    mode: PathMode,
) -> bool {
    &&& mode != PathMode::Spline ==> svg == same
    &&& are_filled_alike(svg, outlined, w, h)
}

/// `vtracer::convert` and the text of its document. It returns what
/// [`tracer_may_return`] says. Where no marking colour is drawn by chance, the
/// document without splines depends on the arguments alone, and the clusters, one
/// path element each with its fill, do not depend on how outlines are drawn. The
/// coordinates of splines are left unsaid: they rest on the machine's trigonometric
/// functions.
#[verifier::external_body]
fn trace_clusters(pixels: Vec<u8>, width: usize, height: usize, s: Settings, length: String) -> (r:
    Result<String, String>)
    requires
        traceable(pixels@.len() as int, width as int, height as int),
        in_range(s),
        can_cluster(s),
        length@ == number_text(s.length_threshold as int),
    ensures
        tracer_may_return(pixels@, width as int, height as int, s, r),
        match r {
            Ok(svg) => no_chance(pixels@, s) ==> is_tied(
                svg@,
                cluster_document(pixels@, width as int, height as int, s),
                cluster_document(pixels@, width as int, height as int, along_pixels(s)),
                width as int,
                height as int,
                s.mode,
            ),
            Err(_) => true,
        },
{
    let color_mode = if s.binary { ColorMode::Binary } else { ColorMode::Color };
    let hierarchical = if s.cutout { Hierarchical::Cutout } else { Hierarchical::Stacked };
    let mode = match s.mode {
        PathMode::Pixel => PathSimplifyMode::None,
        PathMode::Polygon => PathSimplifyMode::Polygon,
        PathMode::Spline => PathSimplifyMode::Spline,
    };
    let config = Config { color_mode, hierarchical, mode, filter_speckle: s.filter_speckle,
        color_precision: s.color_precision, layer_difference: s.layer_difference,
        corner_threshold: s.corner_threshold, length_threshold: length.parse().unwrap_or_default(),
        max_iterations: s.max_iterations, splice_threshold: s.splice_threshold,
        path_precision: s.path_precision };
    vtracer::convert(ColorImage { pixels, width, height }, config).map(|svg| svg.to_string())
}

/// The tracer was handed this raster with these settings, and returned `r`.
pub closed spec fn was_traced(
    pixels: Seq<u8>,
    w: usize,
    h: usize,
    s: Settings,
    r: Result<String, String>,
) -> bool {
    exists|p: Vec<u8>, length: String|
        p@ == pixels && length@ == number_text(s.length_threshold as int)
            && #[trigger] call_ensures(trace_clusters, (p, w, h, s, length), r)
}

/// Everything that is known of what the tracer returns for a raster.
pub open spec fn traced(
    pixels: Seq<u8>,
    w: usize,
    h: usize,
    s: Settings,
    r: Result<String, String>,
) -> bool {
    &&& was_traced(pixels, w, h, s, r)
    &&& tracer_may_return(pixels, w as int, h as int, s, r)
    &&& r matches Ok(svg) ==> (no_chance(pixels, s) ==> is_tied(
        svg@,
        cluster_document(pixels, w as int, h as int, s),
        cluster_document(pixels, w as int, h as int, along_pixels(s)),
        w as int,
        h as int,
        s.mode,
    ))
}

/// Calls `f`.
fn call<F, R>(f: F, pixels: Vec<u8>, w: usize, h: usize, s: Settings, length: String) -> (r:
    R) where F: Fn(Vec<u8>, usize, usize, Settings, String) -> R
    requires
        f.requires((pixels, w, h, s, length)),
    ensures
        f.ensures((pixels, w, h, s, length), r),
{
    f(pixels, w, h, s, length)
}

/// Traces a raster with the clustering tracer.
pub fn vectorize(pixels: Vec<u8>, width: usize, height: usize, s: &Settings) -> (r: Result<
    String,
    String,
>)
    requires
        traceable(pixels@.len() as int, width as int, height as int),
        in_range(*s),
        can_cluster(*s),
    ensures
        traced(pixels@, width, height, *s, r),
        no_chance(pixels@, *s) ==> r is Ok,
{
    let length = write_number(s.length_threshold);
    call(trace_clusters, pixels, width, height, *s, length)
}

proof fn lemma_number_joins(a: Seq<char>, b: Seq<char>)
    ensures
        number(a + b) == number(a) * pow(10, b.len()) + number(b),
    decreases b.len(),
{
    if b.len() == 0 {
        assert(a + b =~= a);
        assert(pow(10, 0) == 1) by {
            reveal(pow);
        }
    } else {
        let front = b.drop_last();
        lemma_number_joins(a, front);
        assert((a + b).drop_last() =~= a + front);
        assert((a + b).last() == b.last());
        assert(pow(10, b.len()) == 10 * pow(10, front.len())) by {
            reveal(pow);
        }
        let p = pow(10, front.len());
        let x = number(a);
        let y = number(front);
        assert((x * p + y) * 10 == x * (10 * p) + y * 10) by (nonlinear_arith);
    }
}

proof fn lemma_fraction(r: int, d: int, count: nat)
    requires
        0 <= r < d,
        (r * pow(10, count)) % d == 0,
    ensures
        ({
            let f = fraction_digits(r, d, count);
            &&& f.len() <= count
            &&& forall|i: int| 0 <= i < f.len() ==> 48 <= #[trigger] f[i] as int <= 57
            &&& number(f) * d == r * pow(10, f.len())
            &&& f.len() > 0 ==> f.last() != '0'
        }),
    decreases count,
{
    let f = fraction_digits(r, d, count);
    if r == 0 {
        assert(0 * pow(10, f.len()) == 0) by (nonlinear_arith);
    } else if count == 0 {
        assert(pow(10, 0) == 1) by {
            reveal(pow);
        }
        vstd::arithmetic::div_mod::lemma_small_mod(r as nat, d as nat);
    } else {
        let k = (count - 1) as nat;
        let q = r * 10 / d;
        let s = r * 10 % d;
        let rest = fraction_digits(s, d, k);
        let big = pow(10, k);
        assert(pow(10, count) == 10 * big) by {
            reveal(pow);
        }
        vstd::arithmetic::div_mod::lemma_fundamental_div_mod(r * 10, d);
        vstd::arithmetic::div_mod::lemma_mod_bound(r * 10, d);
        assert(0 <= q < 10) by (nonlinear_arith)
            requires
                0 <= r < d,
                r * 10 == d * q + s,
                0 <= s < d,
        ;
        let m = (r * pow(10, count)) / d;
        vstd::arithmetic::div_mod::lemma_fundamental_div_mod(r * pow(10, count), d);
        assert(s * big == d * (m - q * big)) by (nonlinear_arith)
            requires
                r * 10 == d * q + s,
                r * (10 * big) == d * m,
        ;
        assert(d * (m - q * big) == (m - q * big) * d) by (nonlinear_arith);
        vstd::arithmetic::div_mod::lemma_mod_multiples_basic(m - q * big, d);
        lemma_fraction(s, d, k);
        let head = seq![digit(q)];
        assert(f == head + rest);
        lemma_number_joins(head, rest);
        assert(head.drop_last() =~= Seq::empty());
        assert(number(Seq::<char>::empty()) == 0);
        assert(head.last() as int == 48 + q);
        assert(number(head) == q);
        let p = pow(10, rest.len());
        assert(pow(10, f.len()) == 10 * p) by {
            reveal(pow);
        }
        assert((q * p + number(rest)) * d == r * (10 * p)) by (nonlinear_arith)
            requires
                r * 10 == d * q + s,
                number(rest) * d == s * p,
        ;
        if rest.len() > 0 {
            assert(f.last() == rest.last());
        } else {
            assert(f.last() == head[0]);
            if q == 0 {
                assert(number(rest) == 0);
                assert(s * p == 0);
                assert(p == 1) by {
                    reveal(pow);
                }
            }
        }
    }
}

/// The written number is the one that its key stands for, exactly: a key holds the exponent
/// of a number of double precision in its first twelve bits, with an excess of 1023, and
/// behind them the 52 bits that follow its first one. The text is the returned whole part
/// and fraction, with a point between them.
pub proof fn law_number_is_written_exactly(key: int) -> (r: (Seq<char>, Seq<char>))
    requires
        0x4000_0000_0000_0000 <= key < 0x4030_0000_0000_0000,
    ensures
        number_text(key) == r.0 + seq!['.'] + r.1,
        is_number(r.0),
        forall|i: int| 0 <= i < r.1.len() ==> 48 <= #[trigger] r.1[i] as int <= 57,
        ({
            let exponent = key / 0x10_0000_0000_0000 - 1023;
            let bits = 0x10_0000_0000_0000 + key % 0x10_0000_0000_0000;
            &&& 1 <= exponent <= 3
            &&& number(r.0 + r.1) * pow2((52 - exponent) as nat) == bits * pow(10, r.1.len())
        }),
{
    let (n, d) = (numerator(key), denominator(key));
    let whole = decimal((n / d) as nat);
    let frac = fraction_digits(n % d, d, 51);
    let exponent = key / 0x10_0000_0000_0000 - 1023;
    lemma2_to64();
    assert(pow2((52 - exponent) as nat) == d) by {
        lemma2_to64_rest();
    }
    let five = pow(5, 51);
    assert(pow(10, 51) == 0x8_0000_0000_0000 * five) by {
        vstd::arithmetic::power::lemma_pow_distributes(2, 5, 51);
        lemma_pow2(51);
        lemma2_to64_rest();
        lemma2_to64();
    }
    let rem = n % d;
    vstd::arithmetic::div_mod::lemma_fundamental_div_mod(n, d);
    vstd::arithmetic::div_mod::lemma_mod_bound(n, d);
    let times = if d == 0x8_0000_0000_0000 {
        1int
    } else if d == 0x4_0000_0000_0000 {
        2
    } else {
        4
    };
    assert(d * times == 0x8_0000_0000_0000);
    assert(rem * pow(10, 51) == (rem * times * five) * d) by (nonlinear_arith)
        requires
            pow(10, 51) == 0x8_0000_0000_0000 * five,
            d * times == 0x8_0000_0000_0000,
    ;
    vstd::arithmetic::div_mod::lemma_mod_multiples_basic(rem * times * five, d);
    lemma_fraction(rem, d, 51);
    law_decimal_reads_back((n / d) as nat);
    lemma_number_joins(whole, frac);
    let p = pow(10, frac.len());
    let w = n / d;
    assert((w * p + number(frac)) * d == n * p) by (nonlinear_arith)
        requires
            n == d * w + rem,
            number(frac) * d == rem * p,
    ;
    (whole, frac)
}

} // verus!
