//! Additive least-squares moments over a set of pixels.
//!
//! Positions and colours are integers, so the sums are exact, and the moments of
//! a union of disjoint regions are the sum of theirs.

use vstd::prelude::*;
use crate::segment::Segmentation;

verus! {

/// The sums of one colour channel `v`: of `v`, `v x`, `v y` and `v v`.
#[derive(Clone, Copy)]
pub struct Channel {
    pub sv: u128,
    pub svx: u128,
    pub svy: u128,
    pub svv: u128,
}

/// The moments of a set of pixels: their number, the sums of their positions
/// and of the products of those, and the sums of each colour channel.
#[derive(Clone, Copy)]
pub struct Moments {
    pub n: u128,
    pub sx: u128,
    pub sy: u128,
    pub sxx: u128,
    pub sxy: u128,
    pub syy: u128,
    pub r: Channel,
    pub g: Channel,
    pub b: Channel,
}

/// [`Channel`] over the integers.
#[verifier::ext_equal]
pub ghost struct ChannelSums {
    pub sv: int,
    pub svx: int,
    pub svy: int,
    pub svv: int,
}

/// [`Moments`] over the integers.
#[verifier::ext_equal]
pub ghost struct Sums {
    pub n: int,
    pub sx: int,
    pub sy: int,
    pub sxx: int,
    pub sxy: int,
    pub syy: int,
    pub r: ChannelSums,
    pub g: ChannelSums,
    pub b: ChannelSums,
}

impl ChannelSums {
    pub open spec fn zero() -> ChannelSums {
        ChannelSums { sv: 0, svx: 0, svy: 0, svv: 0 }
    }

    pub open spec fn of(x: int, y: int, v: int) -> ChannelSums {
        ChannelSums { sv: v, svx: v * x, svy: v * y, svv: v * v }
    }

    pub open spec fn plus(self, o: ChannelSums) -> ChannelSums {
        ChannelSums {
            sv: self.sv + o.sv,
            svx: self.svx + o.svx,
            svy: self.svy + o.svy,
            svv: self.svv + o.svv,
        }
    }

    pub open spec fn at_most(self, limit: int) -> bool {
        &&& 0 <= self.sv <= limit
        &&& 0 <= self.svx <= limit
        &&& 0 <= self.svy <= limit
        &&& 0 <= self.svv <= limit
    }
}

impl Sums {
    pub open spec fn zero() -> Sums {
        Sums {
            n: 0,
            sx: 0,
            sy: 0,
            sxx: 0,
            sxy: 0,
            syy: 0,
            r: ChannelSums::zero(),
            g: ChannelSums::zero(),
            b: ChannelSums::zero(),
        }
    }

    /// The moments of one pixel.
    pub open spec fn of(x: int, y: int, rgb: (int, int, int)) -> Sums {
        Sums {
            n: 1,
            sx: x,
            sy: y,
            sxx: x * x,
            sxy: x * y,
            syy: y * y,
            r: ChannelSums::of(x, y, rgb.0),
            g: ChannelSums::of(x, y, rgb.1),
            b: ChannelSums::of(x, y, rgb.2),
        }
    }

    pub open spec fn plus(self, o: Sums) -> Sums {
        Sums {
            n: self.n + o.n,
            sx: self.sx + o.sx,
            sy: self.sy + o.sy,
            sxx: self.sxx + o.sxx,
            sxy: self.sxy + o.sxy,
            syy: self.syy + o.syy,
            r: self.r.plus(o.r),
            g: self.g.plus(o.g),
            b: self.b.plus(o.b),
        }
    }

    /// Every sum is at most `n` times the largest term that a pixel on a raster
    /// of at most `2^32` by `2^32` can add.
    pub open spec fn bounded(self) -> bool {
        let limit = self.n * 0x1_0000_0000_0000_0000;
        &&& 0 <= self.n
        &&& 0 <= self.sx <= limit
        &&& 0 <= self.sy <= limit
        &&& 0 <= self.sxx <= limit
        &&& 0 <= self.sxy <= limit
        &&& 0 <= self.syy <= limit
        &&& self.r.at_most(limit)
        &&& self.g.at_most(limit)
        &&& self.b.at_most(limit)
    }
}

impl View for Channel {
    type V = ChannelSums;

    open spec fn view(&self) -> ChannelSums {
        ChannelSums {
            sv: self.sv as int,
            svx: self.svx as int,
            svy: self.svy as int,
            svv: self.svv as int,
        }
    }
}

impl View for Moments {
    type V = Sums;

    open spec fn view(&self) -> Sums {
        Sums {
            n: self.n as int,
            sx: self.sx as int,
            sy: self.sy as int,
            sxx: self.sxx as int,
            sxy: self.sxy as int,
            syy: self.syy as int,
            r: self.r@,
            g: self.g@,
            b: self.b@,
        }
    }
}

/// As many pixels as the moments can count.
pub open spec fn max_pixels() -> int {
    0x4000_0000_0000_0000
}

impl Channel {
    fn zero() -> (c: Channel)
        ensures
            c@ == ChannelSums::zero(),
    {
        Channel { sv: 0, svx: 0, svy: 0, svv: 0 }
    }

    fn add_value(&mut self, x: u128, y: u128, v: u128)
        requires
            x < 0x1_0000_0000,
            y < 0x1_0000_0000,
            v < 256,
            old(self)@.at_most(0x1_0000_0000_0000_0000int * 0x4000_0000_0000_0000int),
        ensures
            final(self)@ == old(self)@.plus(ChannelSums::of(x as int, y as int, v as int)),
    {
        proof {
            lemma_product_bound(v as int, x as int);
            lemma_product_bound(v as int, y as int);
            lemma_product_bound(v as int, v as int);
        }
        self.sv = self.sv + v;
        self.svx = self.svx + v * x;
        self.svy = self.svy + v * y;
        self.svv = self.svv + v * v;
    }

    fn merge(&mut self, o: &Channel)
        requires
            old(self)@.at_most(0x1_0000_0000_0000_0000int * 0x4000_0000_0000_0000int),
            o@.at_most(0x1_0000_0000_0000_0000int * 0x4000_0000_0000_0000int),
        ensures
            final(self)@ == old(self)@.plus(o@),
    {
        self.sv = self.sv + o.sv;
        self.svx = self.svx + o.svx;
        self.svy = self.svy + o.svy;
        self.svv = self.svv + o.svv;
    }
}

proof fn lemma_product_bound(a: int, b: int)
    requires
        0 <= a < 0x1_0000_0000,
        0 <= b < 0x1_0000_0000,
    ensures
        0 <= a * b <= 0x1_0000_0000_0000_0000,
{
    assert(0 <= a * b <= 0x1_0000_0000_0000_0000) by (nonlinear_arith)
        requires
            0 <= a < 0x1_0000_0000,
            0 <= b < 0x1_0000_0000,
    ;
}

impl Moments {
    /// The moments of no pixel.
    pub fn zero() -> (m: Moments)
        ensures
            m@ == Sums::zero(),
    {
        Moments {
            n: 0,
            sx: 0,
            sy: 0,
            sxx: 0,
            sxy: 0,
            syy: 0,
            r: Channel::zero(),
            g: Channel::zero(),
            b: Channel::zero(),
        }
    }

    /// Adds the pixel at `(x, y)` with the colour `rgb`.
    pub fn add_pixel(&mut self, x: u128, y: u128, rgb: (u8, u8, u8))
        requires
            x < 0x1_0000_0000,
            y < 0x1_0000_0000,
            old(self)@.bounded(),
            old(self).n < max_pixels(),
        ensures
            final(self)@ == old(self)@.plus(
                Sums::of(x as int, y as int, (rgb.0 as int, rgb.1 as int, rgb.2 as int)),
            ),
            final(self)@.bounded(),
    {
        proof {
            lemma_product_bound(x as int, x as int);
            lemma_product_bound(x as int, y as int);
            lemma_product_bound(y as int, y as int);
            lemma_pixel_bounded(x as int, y as int, rgb.0 as int);
            lemma_pixel_bounded(x as int, y as int, rgb.1 as int);
            lemma_pixel_bounded(x as int, y as int, rgb.2 as int);
        }
        self.n = self.n + 1;
        self.sx = self.sx + x;
        self.sy = self.sy + y;
        self.sxx = self.sxx + x * x;
        self.sxy = self.sxy + x * y;
        self.syy = self.syy + y * y;
        self.r.add_value(x, y, rgb.0 as u128);
        self.g.add_value(x, y, rgb.1 as u128);
        self.b.add_value(x, y, rgb.2 as u128);
    }

    /// Adds the moments of another, disjoint set of pixels.
    pub fn merge(&mut self, o: &Moments)
        requires
            old(self)@.bounded(),
            o@.bounded(),
            old(self).n + o.n <= max_pixels(),
        ensures
            final(self)@ == old(self)@.plus(o@),
            final(self)@.bounded(),
    {
        self.n = self.n + o.n;
        self.sx = self.sx + o.sx;
        self.sy = self.sy + o.sy;
        self.sxx = self.sxx + o.sxx;
        self.sxy = self.sxy + o.sxy;
        self.syy = self.syy + o.syy;
        self.r.merge(&o.r);
        self.g.merge(&o.g);
        self.b.merge(&o.b);
    }
}

proof fn lemma_pixel_bounded(x: int, y: int, v: int)
    requires
        0 <= x < 0x1_0000_0000,
        0 <= y < 0x1_0000_0000,
        0 <= v < 256,
    ensures
        ChannelSums::of(x, y, v).at_most(0x1_0000_0000_0000_0000),
{
    lemma_product_bound(v, x);
    lemma_product_bound(v, y);
    lemma_product_bound(v, v);
}

/// The colour of pixel `p` of an RGBA buffer.
pub open spec fn rgb_at(original: Seq<u8>, p: int) -> (int, int, int) {
    (original[p * 4] as int, original[p * 4 + 1] as int, original[p * 4 + 2] as int)
}

/// The moments of those among the first `count` pixels whose component is
/// drawn and selected by `sel`.
pub open spec fn region_sums(
    seg: Segmentation,
    original: Seq<u8>,
    sel: spec_fn(int) -> bool,
    count: int,
) -> Sums
    decreases count,
{
    if count <= 0 {
        Sums::zero()
    } else {
        let p = count - 1;
        let rest = region_sums(seg, original, sel, p);
        let c = seg.label(p);
        if seg.opaque(c) && sel(c) {
            rest.plus(
                Sums::of(p % seg.width as int, p / seg.width as int, rgb_at(original, p)),
            )
        } else {
            rest
        }
    }
}

/// The moments of the drawn components that `sel` selects.
pub open spec fn sums_of(
    seg: Segmentation,
    original: Seq<u8>,
    sel: spec_fn(int) -> bool,
) -> Sums {
    region_sums(seg, original, sel, seg.labels@.len() as int)
}

/// The sides of a raster that the moments can hold.
pub open spec fn small_sides(seg: Segmentation) -> bool {
    &&& seg.width <= 0x1_0000_0000
    &&& seg.height <= 0x1_0000_0000
    &&& seg.width * seg.height <= max_pixels()
}

pub proof fn lemma_region_bounded(
    seg: Segmentation,
    original: Seq<u8>,
    sel: spec_fn(int) -> bool,
    count: int,
)
    requires
        seg.wf(),
        small_sides(seg),
        0 <= count <= seg.labels@.len(),
    ensures
        region_sums(seg, original, sel, count).bounded(),
        region_sums(seg, original, sel, count).n <= count,
    decreases count,
{
    if count > 0 {
        lemma_region_bounded(seg, original, sel, count - 1);
        let p = count - 1;
        lemma_pixel_position(seg, p);
        let x = p % seg.width as int;
        let y = p / seg.width as int;
        lemma_product_bound(x, x);
        lemma_product_bound(x, y);
        lemma_product_bound(y, y);
        let rgb = rgb_at(original, p);
        lemma_pixel_bounded(x, y, rgb.0);
        lemma_pixel_bounded(x, y, rgb.1);
        lemma_pixel_bounded(x, y, rgb.2);
    }
}

pub proof fn lemma_pixel_position(seg: Segmentation, p: int)
    requires
        seg.wf(),
        0 <= p < seg.labels@.len(),
    ensures
        0 <= p % (seg.width as int) < seg.width,
        0 <= p / (seg.width as int) < seg.height,
        p == (p / (seg.width as int)) * seg.width + p % (seg.width as int),
{
    let w = seg.width as int;
    let h = seg.height as int;
    assert(w > 0) by (nonlinear_arith)
        requires
            0 <= p < w * h,
            w >= 0,
    ;
    vstd::arithmetic::div_mod::lemma_fundamental_div_mod(p, w);
    vstd::arithmetic::div_mod::lemma_mod_bound(p, w);
    let q = p / w;
    assert(0 <= q < h) by (nonlinear_arith)
        requires
            0 <= p < w * h,
            w > 0,
            p == w * q + p % w,
            0 <= p % w < w,
    ;
    assert(w * q == q * w) by (nonlinear_arith);
}

/// The moments of a union of disjoint sets of components are the sum of theirs,
/// so the fit of a merged region comes straight from the summed moments.
pub proof fn law_moments_are_additive(
    seg: Segmentation,
    original: Seq<u8>,
    a: spec_fn(int) -> bool,
    b: spec_fn(int) -> bool,
    both: spec_fn(int) -> bool,
    count: int,
)
    requires
        forall|c: int| !(#[trigger] a(c) && b(c)),
        forall|c: int| #[trigger] both(c) <==> a(c) || b(c),
    ensures
        region_sums(seg, original, both, count) == region_sums(seg, original, a, count).plus(
            region_sums(seg, original, b, count),
        ),
    decreases count,
{
    if count > 0 {
        law_moments_are_additive(seg, original, a, b, both, count - 1);
        let c = seg.label(count - 1);
        assert(both(c) <==> a(c) || b(c));
        assert(!(a(c) && b(c)));
    }
}

/// The moments depend on the selected components alone.
pub proof fn lemma_same_selection(
    seg: Segmentation,
    original: Seq<u8>,
    a: spec_fn(int) -> bool,
    b: spec_fn(int) -> bool,
    count: int,
)
    requires
        seg.wf(),
        0 <= count <= seg.labels@.len(),
        forall|c: int|
            0 <= c < seg.num_components && seg.opaque(c) ==> (#[trigger] a(c) <==> b(c)),
    ensures
        region_sums(seg, original, a, count) == region_sums(seg, original, b, count),
    decreases count,
{
    if count > 0 {
        lemma_same_selection(seg, original, a, b, count - 1);
        let c = seg.label(count - 1);
        assert(seg.labels@[count - 1] < seg.num_components);
        assert(seg.opaque(c) ==> (a(c) <==> b(c)));
    }
}

/// The sum of `v` over the pixels `ps`.
pub open spec fn total(ps: Seq<int>, v: spec_fn(int) -> int) -> int {
    ps.fold_left(0, |sum: int, p: int| sum + v(p))
}

proof fn lemma_one_more(ps: Seq<int>, p: int)
    ensures
        forall|v: spec_fn(int) -> int| #[trigger] total(ps.push(p), v) == total(ps, v) + v(p),
{
    assert forall|v: spec_fn(int) -> int| #[trigger] total(ps.push(p), v) == total(ps, v) + v(
        p,
    ) by {
        assert(ps.push(p).drop_last() =~= ps);
    }
}

/// The pixels among the first `count` whose component is drawn and selected.
spec fn picked(seg: Segmentation, sel: spec_fn(int) -> bool, count: int) -> Seq<int> {
    Seq::new(count as nat, |p: int| p).filter(
        |p: int|
            seg.component_color@[seg.labels@[p] as int] != 0 && sel(seg.labels@[p] as int),
    )
}

proof fn lemma_picked(seg: Segmentation, sel: spec_fn(int) -> bool, count: int)
    requires
        0 < count,
    ensures
        picked(seg, sel, count) == if seg.opaque(seg.label(count - 1)) && sel(
            seg.label(count - 1),
        ) {
            picked(seg, sel, count - 1).push(count - 1)
        } else {
            picked(seg, sel, count - 1)
        },
{
    reveal(Seq::filter);
    let all = Seq::new(count as nat, |p: int| p);
    assert(all.drop_last() =~= Seq::new((count - 1) as nat, |p: int| p));
    assert(all.last() == count - 1);
}

spec fn channel_adds_up(
    c: ChannelSums,
    ps: Seq<int>,
    w: int,
    original: Seq<u8>,
    k: int,
) -> bool {
    &&& c.sv == total(ps, |p: int| original[p * 4 + k] as int)
    &&& c.svx == total(ps, |p: int| original[p * 4 + k] * (p % w))
    &&& c.svy == total(ps, |p: int| original[p * 4 + k] * (p / w))
    &&& c.svv == total(ps, |p: int| original[p * 4 + k] * original[p * 4 + k])
}

spec fn adds_up(s: Sums, ps: Seq<int>, w: int, original: Seq<u8>) -> bool {
    &&& s.n == ps.len()
    &&& s.sx == total(ps, |p: int| p % w)
    &&& s.sy == total(ps, |p: int| p / w)
    &&& s.sxx == total(ps, |p: int| (p % w) * (p % w))
    &&& s.sxy == total(ps, |p: int| (p % w) * (p / w))
    &&& s.syy == total(ps, |p: int| (p / w) * (p / w))
    &&& channel_adds_up(s.r, ps, w, original, 0)
    &&& channel_adds_up(s.g, ps, w, original, 1)
    &&& channel_adds_up(s.b, ps, w, original, 2)
}

proof fn lemma_adds_up(
    seg: Segmentation,
    original: Seq<u8>,
    sel: spec_fn(int) -> bool,
    count: int,
)
    requires
        0 <= count,
    ensures
        adds_up(
            region_sums(seg, original, sel, count),
            picked(seg, sel, count),
            seg.width as int,
            original,
        ),
    decreases count,
{
    if count == 0 {
        reveal(Seq::filter);
        assert(picked(seg, sel, 0) =~= Seq::empty());
    } else {
        lemma_adds_up(seg, original, sel, count - 1);
        lemma_picked(seg, sel, count);
        lemma_one_more(picked(seg, sel, count - 1), count - 1);
    }
}

/// The moments are what their names say: the number of the drawn and selected pixels,
/// and the sums over them of the positions, of the products of those, and of each colour
/// channel, alone and times the position and itself.
pub proof fn law_moments_are_sums_over_pixels(
    seg: Segmentation,
    original: Seq<u8>,
    sel: spec_fn(int) -> bool,
)
    ensures
        ({
            let w = seg.width as int;
            let ps = Seq::new(seg.labels@.len(), |p: int| p).filter(
                |p: int|
                    seg.component_color@[seg.labels@[p] as int] != 0 && sel(
                        seg.labels@[p] as int,
                    ),
            );
            let s = sums_of(seg, original, sel);
            &&& s.n == ps.len()
            &&& s.sx == total(ps, |p: int| p % w)
            &&& s.sy == total(ps, |p: int| p / w)
            &&& s.sxx == total(ps, |p: int| (p % w) * (p % w))
            &&& s.sxy == total(ps, |p: int| (p % w) * (p / w))
            &&& s.syy == total(ps, |p: int| (p / w) * (p / w))
            &&& s.r.sv == total(ps, |p: int| original[p * 4 + 0] as int)
            &&& s.r.svx == total(ps, |p: int| original[p * 4 + 0] * (p % w))
            &&& s.r.svy == total(ps, |p: int| original[p * 4 + 0] * (p / w))
            &&& s.r.svv == total(ps, |p: int| original[p * 4 + 0] * original[p * 4 + 0])
            &&& s.g.sv == total(ps, |p: int| original[p * 4 + 1] as int)
            &&& s.g.svx == total(ps, |p: int| original[p * 4 + 1] * (p % w))
            &&& s.g.svy == total(ps, |p: int| original[p * 4 + 1] * (p / w))
            &&& s.g.svv == total(ps, |p: int| original[p * 4 + 1] * original[p * 4 + 1])
            &&& s.b.sv == total(ps, |p: int| original[p * 4 + 2] as int)
            &&& s.b.svx == total(ps, |p: int| original[p * 4 + 2] * (p % w))
            &&& s.b.svy == total(ps, |p: int| original[p * 4 + 2] * (p / w))
            &&& s.b.svv == total(ps, |p: int| original[p * 4 + 2] * original[p * 4 + 2])
        }),
{
    lemma_adds_up(seg, original, sel, seg.labels@.len() as int);
}

} // verus!
