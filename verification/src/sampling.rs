//! Bilinear sampling of single-channel maps: which samples are blended where.
//!
//! A map holds the bit patterns of its samples, row by row. Positions and the
//! blending itself come from the caller.

use vstd::prelude::*;

verus! {

/// The index nearest to `pos` in a row of `len`.
pub open spec fn nearest(pos: int, len: int) -> int {
    if pos < 0 {
        0
    } else if pos >= len {
        len - 1
    } else {
        pos
    }
}

/// The two indices that a sample at `pos` or a little above blends, clamped at
/// the borders.
pub fn neighbours(pos: i64, len: usize) -> (r: (usize, usize))
    requires
        len > 0,
    ensures
        r.0 == nearest(pos as int, len as int),
        r.1 == nearest(pos + 1, len as int),
{
    if pos < 0 {
        (0, 0)
    } else if pos as u128 >= (len - 1) as u128 {
        (len - 1, len - 1)
    } else {
        (pos as usize, pos as usize + 1)
    }
}

/// Where the sample of column `x` and row `y` stands in a map of width `w`.
pub open spec fn at(w: int, x: int, y: int) -> int {
    y * w + x
}

/// The four samples around a position: at its column and row, at the next column,
/// at the next row, and at both.
pub open spec fn around(map: Seq<u32>, w: int, h: int, x: int, y: int) -> (u32, u32, u32, u32) {
    let (x0, x1) = (nearest(x, w), nearest(x + 1, w));
    let (y0, y1) = (nearest(y, h), nearest(y + 1, h));
    (map[at(w, x0, y0)], map[at(w, x1, y0)], map[at(w, x0, y1)], map[at(w, x1, y1)])
}

/// A position inside a map stands inside its buffer.
pub proof fn lemma_at_in_range(w: int, h: int, x: int, y: int)
    requires
        0 <= x < w,
        0 <= y < h,
    ensures
        0 <= y * w,
        0 <= at(w, x, y) < w * h,
{
    assert(0 <= y * w && y * w + x < w * h) by (nonlinear_arith)
        requires
            0 <= x < w,
            0 <= y < h,
    ;
}

/// The four samples around a position, clamped at the borders.
pub fn samples_around(map: &[u32], w: usize, h: usize, x: i64, y: i64) -> (r: (u32, u32, u32, u32))
    requires
        w > 0,
        h > 0,
        w * h <= map@.len(),
    ensures
        r == around(map@, w as int, h as int, x as int, y as int),
{
    let (x0, x1): (usize, usize) = neighbours(x, w);
    let (y0, y1): (usize, usize) = neighbours(y, h);
    proof {
        lemma_at_in_range(w as int, h as int, x0 as int, y0 as int);
        lemma_at_in_range(w as int, h as int, x1 as int, y0 as int);
        lemma_at_in_range(w as int, h as int, x0 as int, y1 as int);
        lemma_at_in_range(w as int, h as int, x1 as int, y1 as int);
    }
    let len: usize = map.len();
    assert(w * h <= len);
    (map[y0 * w + x0], map[y0 * w + x1], map[y1 * w + x0], map[y1 * w + x1])
}

/// The four samples that are blended into one.
pub type Taps = (u32, u32, u32, u32);

/// The positions and the blend may be asked for.
pub open spec fn may_resample<X, Y, B>(column: X, row: Y, blend: B) -> bool where
    X: Fn(usize) -> i64,
    Y: Fn(usize) -> i64,
    B: Fn(usize, usize, Taps) -> u32,
 {
    &&& forall|x: usize| #[trigger] column.requires((x,))
    &&& forall|y: usize| #[trigger] row.requires((y,))
    &&& forall|x: usize, y: usize, t: Taps| #[trigger] blend.requires((x, y, t))
}

/// The mathematical functions behind a resampling.
pub ghost struct Resampling {
    /// The source column of a target column.
    pub column: spec_fn(int) -> int,
    /// The source row of a target row.
    pub row: spec_fn(int) -> int,
    /// The sample of a target column and row.
    pub blend: spec_fn(int, int, Taps) -> u32,
}

/// The three functions compute those of `r`.
pub open spec fn resamples<X, Y, B>(r: Resampling, column: X, row: Y, blend: B) -> bool where
    X: Fn(usize) -> i64,
    Y: Fn(usize) -> i64,
    B: Fn(usize, usize, Taps) -> u32,
 {
    &&& forall|x: usize, c: i64| #[trigger] column.ensures((x,), c) ==> c == (r.column)(x as int)
    &&& forall|y: usize, c: i64| #[trigger] row.ensures((y,), c) ==> c == (r.row)(y as int)
    &&& forall|x: usize, y: usize, t: Taps, v: u32| #[trigger]
        blend.ensures((x, y, t), v) ==> v == (r.blend)(x as int, y as int, t)
}

/// The sample of column `x` and row `y` of the resampled map; all bits are zero
/// where the source map is empty.
pub open spec fn resampled_at(
    r: Resampling,
    src: Seq<u32>,
    sw: int,
    sh: int,
    x: int,
    y: int,
) -> u32 {
    if sw == 0 || sh == 0 {
        0
    } else {
        (r.blend)(x, y, around(src, sw, sh, (r.column)(x), (r.row)(y)))
    }
}

/// The first `count` samples of the resampled map, row by row.
pub open spec fn resampled(
    r: Resampling,
    src: Seq<u32>,
    sw: int,
    sh: int,
    dw: int,
    count: int,
) -> Seq<u32> {
    Seq::new(count as nat, |p: int| resampled_at(r, src, sw, sh, p % dw, p / dw))
}

/// Resamples a single-channel map from `sw` by `sh` to `dw` by `dh`.
pub fn resample<X, Y, B>(
    src: &[u32],
    sw: usize,
    sh: usize,
    dw: usize,
    dh: usize,
    column: &X,
    row: &Y,
    blend: &B,
) -> (out: Vec<u32>) where
    X: Fn(usize) -> i64,
    Y: Fn(usize) -> i64,
    B: Fn(usize, usize, Taps) -> u32,

    requires
        sw * sh <= src@.len(),
        dw * dh <= usize::MAX,
        may_resample(*column, *row, *blend),
    ensures
        out@.len() == dw * dh,
        forall|r: Resampling| #[trigger]
            resamples(r, *column, *row, *blend) ==> out@ == resampled(
                r,
                src@,
                sw as int,
                sh as int,
                dw as int,
                dw * dh,
            ),
{
    let mut out: Vec<u32> = Vec::new();
    let mut y: usize = 0;
    while y < dh
        invariant
            sw * sh <= src@.len(),
            dw * dh <= usize::MAX,
            may_resample(*column, *row, *blend),
            y <= dh,
            out@.len() == y * dw,
            forall|r: Resampling| #[trigger]
                resamples(r, *column, *row, *blend) ==> out@ == resampled(
                    r,
                    src@,
                    sw as int,
                    sh as int,
                    dw as int,
                    y * dw,
                ),
        decreases dh - y,
    {
        let sy: i64 = row(y);
        let mut x: usize = 0;
        while x < dw
            invariant
                sw * sh <= src@.len(),
                may_resample(*column, *row, *blend),
                row.ensures((y,), sy),
                x <= dw,
                out@.len() == y * dw + x,
                forall|r: Resampling| #[trigger]
                    resamples(r, *column, *row, *blend) ==> out@ == resampled(
                        r,
                        src@,
                        sw as int,
                        sh as int,
                        dw as int,
                        y * dw + x,
                    ),
            decreases dw - x,
        {
            let ghost before = out@;
            if sw == 0 || sh == 0 {
                out.push(0);
            } else {
                let sx: i64 = column(x);
                let taps: Taps = samples_around(src, sw, sh, sx, sy);
                out.push(blend(x, y, taps));
            }
            proof {
                let p = y * dw + x;
                vstd::arithmetic::div_mod::lemma_fundamental_div_mod_converse(
                    p,
                    dw as int,
                    y as int,
                    x as int,
                );
                assert forall|r: Resampling| #[trigger]
                    resamples(r, *column, *row, *blend) implies out@ == resampled(
                    r,
                    src@,
                    sw as int,
                    sh as int,
                    dw as int,
                    p + 1,
                ) by {
                    assert(before == resampled(r, src@, sw as int, sh as int, dw as int, p));
                    assert(out@ =~= resampled(r, src@, sw as int, sh as int, dw as int, p + 1));
                }
            }
            x = x + 1;
        }
        assert(y * dw + dw == (y + 1) * dw) by (nonlinear_arith);
        y = y + 1;
    }
    assert(dh * dw == dw * dh) by (nonlinear_arith);
    out
}

/// A map of one value keeps that value, at any size, where blending four equal
/// samples gives that sample.
pub proof fn law_constant_stays_constant(
    r: Resampling,
    src: Seq<u32>,
    sw: int,
    sh: int,
    dw: int,
    count: int,
    v: u32,
    p: int,
)
    requires
        0 < sw,
        0 < sh,
        sw * sh <= src.len(),
        forall|i: int| 0 <= i < src.len() ==> src[i] == v,
        forall|x: int, y: int| #[trigger] (r.blend)(x, y, (v, v, v, v)) == v,
        0 <= p < count,
    ensures
        resampled(r, src, sw, sh, dw, count)[p] == v,
{
    let (x, y) = ((r.column)(p % dw), (r.row)(p / dw));
    lemma_at_in_range(sw, sh, nearest(x, sw), nearest(y, sh));
    lemma_at_in_range(sw, sh, nearest(x + 1, sw), nearest(y, sh));
    lemma_at_in_range(sw, sh, nearest(x, sw), nearest(y + 1, sh));
    lemma_at_in_range(sw, sh, nearest(x + 1, sw), nearest(y + 1, sh));
    assert(around(src, sw, sh, x, y) == (v, v, v, v));
}

/// At the same size nothing changes, where every column and row is its own source
/// and the blend takes the first sample.
pub proof fn law_same_size_is_identity(r: Resampling, src: Seq<u32>, w: int, h: int, p: int)
    requires
        0 < w,
        0 < h,
        w * h <= src.len(),
        forall|x: int| 0 <= x < w ==> #[trigger] (r.column)(x) == x,
        forall|y: int| 0 <= y < h ==> #[trigger] (r.row)(y) == y,
        forall|x: int, y: int, t: Taps| #[trigger] (r.blend)(x, y, t) == t.0,
        0 <= p < w * h,
    ensures
        resampled(r, src, w, h, w, w * h)[p] == src[p],
{
    let (x, y) = (p % w, p / w);
    assert(0 <= x < w && 0 <= y < h && y * w + x == p) by (nonlinear_arith)
        requires
            0 < w,
            0 <= p < w * h,
            x == p % w,
            y == p / w,
    ;
    assert((r.column)(x) == x && (r.row)(y) == y);
}

/// Clamping takes the nearest index: no other index of the row is closer to the position,
/// and a position within the row is its own.
pub proof fn law_clamping_takes_the_nearest(pos: int, len: int, q: int)
    requires
        0 < len,
        0 <= q < len,
    ensures
        0 <= nearest(pos, len) < len,
        0 <= pos < len ==> nearest(pos, len) == pos,
        pos < 0 ==> nearest(pos, len) - pos <= q - pos,
        pos >= len ==> pos - nearest(pos, len) <= pos - q,
{
}

/// The sample of column `x` and row `y` of a resampled map, in full: the blend of the four
/// samples at the source column and row and at the ones after them, each held inside the
/// source map.
pub proof fn law_resampled_blends_the_neighbours(
    r: Resampling,
    src: Seq<u32>,
    sw: int,
    sh: int,
    dw: int,
    dh: int,
    x: int,
    y: int,
)
    requires
        0 <= x < dw,
        0 <= y < dh,
        0 <= sw,
        0 <= sh,
    ensures
        resampled(r, src, sw, sh, dw, dw * dh).len() == dw * dh,
        ({
            let hold = |v: int, len: int|
                if v < 0 {
                    0
                } else if v >= len {
                    len - 1
                } else {
                    v
                };
            let (c, d) = ((r.column)(x), (r.row)(y));
            resampled(r, src, sw, sh, dw, dw * dh)[y * dw + x] == if sw == 0 || sh == 0 {
                0
            } else {
                (r.blend)(
                    x,
                    y,
                    (
                        src[hold(d, sh) * sw + hold(c, sw)],
                        src[hold(d, sh) * sw + hold(c + 1, sw)],
                        src[hold(d + 1, sh) * sw + hold(c, sw)],
                        src[hold(d + 1, sh) * sw + hold(c + 1, sw)],
                    ),
                )
            }
        }),
{
    let p = y * dw + x;
    lemma_at_in_range(dw, dh, x, y);
    vstd::arithmetic::div_mod::lemma_fundamental_div_mod_converse(p, dw, y, x);
}

} // verus!
