//! SVG serialization, and the geometry that the contour and curve stages produce.
//!
//! Emits one `<path>` per colour (holes are extra subpaths of the same path). An
//! optional background `<rect>` lets the caller drop the single largest region,
//! which the others then stack on top of.

use vstd::prelude::*;
use vstd::string::StringExecFns;
use crate::simplify::Pt;
use crate::text::{decimal, digit, law_decimal_reads_back, number, push_decimal, push_digit};

verus! {

/// A coordinate in hundredths of a pixel, the precision of the output.
pub type Coord = i128;

/// A point with coordinates in hundredths of a pixel.
pub type Ptf = (Coord, Coord);

/// A path segment; its start point is implicit. Polygons use only `Line`, curve
/// fitting emits `Cubic` (two control points and the end point).
#[derive(Clone, Copy, Debug, PartialEq, Eq)]
pub enum Seg {
    Line(Ptf),
    Cubic(Ptf, Ptf, Ptf),
}

/// A closed subpath: a start point and the segments that lead back to it.
pub struct Subpath {
    pub start: Ptf,
    pub segs: Vec<Seg>,
}

/// A region of one colour: its outer subpath and those of its holes.
pub struct Region {
    pub color: [u8; 3],
    pub subpaths: Vec<Subpath>,
}

/// What a subpath draws.
pub ghost struct Outline {
    pub start: Ptf,
    pub segs: Seq<Seg>,
}

impl View for Subpath {
    type V = Outline;

    open spec fn view(&self) -> Outline {
        Outline { start: self.start, segs: self.segs@ }
    }
}

/// What subpaths draw.
pub open spec fn outlines(sps: Seq<Subpath>) -> Seq<Outline> {
    sps.map_values(|sp: Subpath| sp@)
}

/// What a region paints.
pub ghost struct Patch {
    /// The number of the colour.
    pub color: int,
    pub subpaths: Seq<Outline>,
}

impl View for Region {
    type V = Patch;

    open spec fn view(&self) -> Patch {
        Patch { color: color_key(self.color), subpaths: outlines(self.subpaths@) }
    }
}

/// What regions paint.
pub open spec fn patches(regions: Seq<Region>) -> Seq<Patch> {
    regions.map_values(|r: Region| r@)
}

/// A lattice point in hundredths.
pub open spec fn on_grid(p: Pt) -> Ptf {
    ((p.0 * 100) as i128, (p.1 * 100) as i128)
}

/// The lines to the given points.
pub open spec fn lines_to(pts: Seq<Ptf>) -> Seq<Seg> {
    pts.map_values(|p: Ptf| Seg::Line(p))
}

/// A lattice point as an output point.
pub fn scaled(p: Pt) -> (q: Ptf)
    ensures
        q == on_grid(p),
{
    (p.0 as i128 * 100, p.1 as i128 * 100)
}

/// Builds a closed polygon from lattice points.
pub fn polygon_subpath(pts: &[Pt]) -> (sp: Subpath)
    requires
        pts@.len() > 0,
    ensures
        sp.start == on_grid(pts@[0]),
        sp.segs@ == lines_to(pts@.skip(1).map_values(|p: Pt| on_grid(p))),
{
    let start: Ptf = scaled(pts[0]);
    let mut segs: Vec<Seg> = Vec::new();
    let mut i: usize = 1;
    let ghost all = lines_to(pts@.skip(1).map_values(|p: Pt| on_grid(p)));
    while i < pts.len()
        invariant
            1 <= i <= pts@.len(),
            all == lines_to(pts@.skip(1).map_values(|p: Pt| on_grid(p))),
            segs@ == all.take(i - 1),
        decreases pts.len() - i,
    {
        segs.push(Seg::Line(scaled(pts[i])));
        i = i + 1;
        assert(segs@ =~= all.take(i - 1));
    }
    assert(segs@ =~= all);
    Subpath { start, segs }
}

/// Builds a closed polygon from output points; from none, the empty polygon at
/// the origin.
pub fn polygon_subpath_f(pts: &[Ptf]) -> (sp: Subpath)
    ensures
        sp.start == if pts@.len() > 0 {
            pts@[0]
        } else {
            (0i128, 0i128)
        },
        sp.segs@ == if pts@.len() > 0 {
            lines_to(pts@.skip(1))
        } else {
            Seq::empty()
        },
{
    let mut segs: Vec<Seg> = Vec::new();
    if pts.len() == 0 {
        return Subpath { start: (0, 0), segs };
    }
    let mut i: usize = 1;
    while i < pts.len()
        invariant
            1 <= i <= pts@.len(),
            segs@ == lines_to(pts@.skip(1)).take(i - 1),
        decreases pts.len() - i,
    {
        segs.push(Seg::Line(pts[i]));
        i = i + 1;
        assert(segs@ =~= lines_to(pts@.skip(1)).take(i - 1));
    }
    assert(segs@ =~= lines_to(pts@.skip(1)));
    Subpath { start: pts[0], segs }
}

/// The hexadecimal digit `d`, in lower case.
pub open spec fn hex_digit(d: int) -> char {
    if d < 10 {
        digit(d)
    } else {
        (87 + d) as char
    }
}

/// The two hexadecimal digits of a byte.
pub open spec fn hex_byte(b: u8) -> Seq<char> {
    seq![hex_digit(b as int / 16), hex_digit(b as int % 16)]
}

/// A colour as `#rrggbb`.
pub open spec fn hex_text(c: [u8; 3]) -> Seq<char> {
    "#"@ + hex_byte(c@[0]) + hex_byte(c@[1]) + hex_byte(c@[2])
}

fn push_hex_byte(s: &mut String, b: u8)
    ensures
        final(s)@ == old(s)@ + hex_byte(b),
{
    let ghost s0 = s@;
    let hi: u8 = b / 16;
    let lo: u8 = b % 16;
    let chi: char = if hi < 10 { (48 + hi) as char } else { (87 + hi) as char };
    let clo: char = if lo < 10 { (48 + lo) as char } else { (87 + lo) as char };
    s.push(chi);
    s.push(clo);
    assert(s@ =~= s0 + hex_byte(b));
}

/// A colour as `#rrggbb`.
pub fn hex(c: [u8; 3]) -> (s: String)
    ensures
        s@ == hex_text(c),
{
    let mut s = String::new();
    s.append("#");
    push_hex_byte(&mut s, c[0]);
    push_hex_byte(&mut s, c[1]);
    push_hex_byte(&mut s, c[2]);
    assert(s@ =~= hex_text(c));
    s
}

/// A coordinate with up to two decimals, without trailing zeros.
pub open spec fn coord_text(h: int) -> Seq<char> {
    let a = if h < 0 {
        -h
    } else {
        h
    };
    let sign = if h < 0 {
        seq!['-']
    } else {
        Seq::empty()
    };
    let r = a % 100;
    let frac = if r == 0 {
        Seq::empty()
    } else if r % 10 == 0 {
        seq!['.', digit(r / 10)]
    } else {
        seq!['.', digit(r / 10), digit(r % 10)]
    };
    sign + decimal((a / 100) as nat) + frac
}

/// Formats a coordinate with up to two decimals, without trailing zeros.
pub fn fnum(h: Coord) -> (s: String)
    ensures
        s@ == coord_text(h as int),
{
    let mut s = String::new();
    let a: u128 = if h < 0 {
        s.push('-');
        (-(h + 1)) as u128 + 1
    } else {
        h as u128
    };
    push_decimal(&mut s, a / 100);
    let r: u8 = (a % 100) as u8;
    if r != 0 {
        s.push('.');
        push_digit(&mut s, r / 10);
        if r % 10 != 0 {
            push_digit(&mut s, r % 10);
        }
    }
    assert(s@ =~= coord_text(h as int));
    s
}

/// A point as two coordinates.
pub open spec fn point_text(p: Ptf) -> Seq<char> {
    coord_text(p.0 as int) + " "@ + coord_text(p.1 as int)
}

/// A segment as a path command.
pub open spec fn seg_text(seg: Seg) -> Seq<char> {
    match seg {
        Seg::Line(p) => "L"@ + point_text(p),
        Seg::Cubic(c1, c2, e) => "C"@ + point_text(c1) + " "@ + point_text(c2) + " "@ + point_text(e),
    }
}

/// Segments as path commands, one after the other.
pub open spec fn segs_text(segs: Seq<Seg>) -> Seq<char>
    decreases segs.len(),
{
    if segs.len() == 0 {
        Seq::empty()
    } else {
        segs_text(segs.drop_last()) + seg_text(segs.last())
    }
}

/// A subpath as path commands; one of fewer than two segments is not drawn.
pub open spec fn subpath_text(sp: Outline) -> Seq<char> {
    if sp.segs.len() < 2 {
        Seq::empty()
    } else {
        "M"@ + point_text(sp.start) + segs_text(sp.segs) + "Z"@
    }
}

fn push_point(d: &mut String, p: Ptf)
    ensures
        final(d)@ == old(d)@ + point_text(p),
{
    let ghost d0 = d@;
    let x = fnum(p.0);
    let y = fnum(p.1);
    d.append(x.as_str());
    d.append(" ");
    d.append(y.as_str());
    assert(d@ =~= d0 + point_text(p));
}

fn push_seg(d: &mut String, seg: &Seg)
    ensures
        final(d)@ == old(d)@ + seg_text(*seg),
{
    let ghost d0 = d@;
    match seg {
        Seg::Line(p) => {
            d.append("L");
            push_point(d, *p);
        },
        Seg::Cubic(c1, c2, e) => {
            d.append("C");
            push_point(d, *c1);
            d.append(" ");
            push_point(d, *c2);
            d.append(" ");
            push_point(d, *e);
        },
    }
    assert(d@ =~= d0 + seg_text(*seg));
}

/// Appends a subpath to the path data `d`.
pub fn write_subpath(d: &mut String, sp: &Subpath)
    ensures
        final(d)@ == old(d)@ + subpath_text(sp@),
{
    let ghost d0 = d@;
    if sp.segs.len() < 2 {
        assert(d@ =~= d0 + subpath_text(sp@));
        return;
    }
    d.append("M");
    push_point(d, sp.start);
    let ghost head = d@;
    let mut i: usize = 0;
    assert(d@ =~= head + segs_text(sp.segs@.take(0)));
    while i < sp.segs.len()
        invariant
            i <= sp.segs@.len(),
            d@ == head + segs_text(sp.segs@.take(i as int)),
        decreases sp.segs@.len() - i,
    {
        push_seg(d, &sp.segs[i]);
        i = i + 1;
        proof {
            let done = sp.segs@.take(i as int);
            assert(done.drop_last() =~= sp.segs@.take(i - 1));
            assert(d@ =~= head + (segs_text(done.drop_last()) + seg_text(done.last())));
        }
    }
    assert(sp.segs@.take(i as int) =~= sp.segs@);
    d.append("Z");
    assert(d@ =~= d0 + subpath_text(sp@));
}

/// Subpaths as path commands, one after the other.
pub open spec fn subpaths_text(sps: Seq<Outline>) -> Seq<char>
    decreases sps.len(),
{
    if sps.len() == 0 {
        Seq::empty()
    } else {
        subpaths_text(sps.drop_last()) + subpath_text(sps.last())
    }
}

/// The number of a colour, in the order of its channels.
pub open spec fn color_key(c: [u8; 3]) -> int {
    c@[0] * 0x1_0000 + c@[1] * 0x100 + c@[2]
}

/// The number of a colour, if there is one.
pub open spec fn optional_key(c: Option<[u8; 3]>) -> Option<int> {
    match c {
        None => None,
        Some(c) => Some(color_key(c)),
    }
}

/// The path data of one colour: the subpaths of all regions of that colour.
pub open spec fn color_data(regions: Seq<Patch>, key: int) -> Seq<char>
    decreases regions.len(),
{
    if regions.len() == 0 {
        Seq::empty()
    } else {
        let rest = color_data(regions.drop_last(), key);
        if regions.last().color == key {
            rest + subpaths_text(regions.last().subpaths)
        } else {
            rest
        }
    }
}

/// The channels of a colour number as `#rrggbb`.
pub open spec fn key_text(key: int) -> Seq<char> {
    "#"@ + hex_byte((key / 0x1_0000) as u8) + hex_byte(((key / 0x100) % 0x100) as u8) + hex_byte(
        (key % 0x100) as u8,
    )
}

/// A `<path>` element.
pub open spec fn path_element(data: Seq<char>, key: int) -> Seq<char> {
    "<path d=\""@ + data + "\" fill=\""@ + key_text(key) + "\" fill-rule=\"nonzero\"/>\n"@
}

/// The elements of the colours below `key`, in ascending order. A colour without
/// path data has none, and neither has the background colour.
pub open spec fn elements_below(
    regions: Seq<Patch>,
    background: Option<int>,
    key: int,
) -> Seq<char>
    decreases key,
{
    if key <= 0 {
        Seq::empty()
    } else {
        elements_below(regions, background, key - 1) + color_element(regions, background, key - 1)
    }
}

/// The element of one colour, if it has one.
pub open spec fn color_element(
    regions: Seq<Patch>,
    background: Option<int>,
    key: int,
) -> Seq<char> {
    if background == Some(key) || color_data(regions, key).len() == 0 {
        Seq::empty()
    } else {
        path_element(color_data(regions, key), key)
    }
}

/// The elements of all colours.
pub open spec fn elements(regions: Seq<Patch>, background: Option<int>) -> Seq<char> {
    elements_below(regions, background, 0x100_0000)
}

/// A colour's number tells its channels.
proof fn lemma_key_text(c: [u8; 3])
    ensures
        0 <= color_key(c) < 0x100_0000,
        key_text(color_key(c)) == hex_text(c),
{
    let key = color_key(c);
    assert(key / 0x1_0000 == c@[0]);
    assert((key / 0x100) % 0x100 == c@[1]);
    assert(key % 0x100 == c@[2]);
}

/// The number of a colour, in the order of its channels.
pub(crate) fn key_of(c: &[u8; 3]) -> (key: u32)
    ensures
        key == color_key(*c),
        key < 0x100_0000,
{
    c[0] as u32 * 0x1_0000 + c[1] as u32 * 0x100 + c[2] as u32
}

/// The data of each colour that occurs, in ascending order of the colours.
spec fn gathers(paths: Seq<(u32, String)>, regions: Seq<Patch>) -> bool {
    &&& forall|i: int, j: int| 0 <= i < j < paths.len() ==> paths[i].0 < paths[j].0
    &&& forall|i: int|
        0 <= i < paths.len() ==> (#[trigger] paths[i]).0 < 0x100_0000 && paths[i].1@ == color_data(
            regions,
            paths[i].0 as int,
        )
    &&& forall|key: int|
        (forall|i: int| 0 <= i < paths.len() ==> (#[trigger] paths[i]).0 != key)
            ==> #[trigger] color_data(regions, key).len() == 0
}

/// The place of `key` in the ascending colours, or the place where it belongs.
fn place_of(paths: &Vec<(u32, String)>, key: u32) -> (at: usize)
    requires
        forall|i: int, j: int| 0 <= i < j < paths@.len() ==> paths@[i].0 < paths@[j].0,
    ensures
        at <= paths@.len(),
        forall|i: int| 0 <= i < at ==> (#[trigger] paths@[i]).0 < key,
        forall|i: int| at <= i < paths@.len() ==> key <= (#[trigger] paths@[i]).0,
{
    let mut lo: usize = 0;
    let mut hi: usize = paths.len();
    while lo < hi
        invariant
            lo <= hi <= paths@.len(),
            forall|i: int, j: int| 0 <= i < j < paths@.len() ==> paths@[i].0 < paths@[j].0,
            forall|i: int| 0 <= i < lo ==> (#[trigger] paths@[i]).0 < key,
            forall|i: int| hi <= i < paths@.len() ==> key <= (#[trigger] paths@[i]).0,
        decreases hi - lo,
    {
        let mid: usize = lo + (hi - lo) / 2;
        if paths[mid].0 < key {
            lo = mid + 1;
        } else {
            hi = mid;
        }
    }
    lo
}

/// Appends the subpaths to the path data `d`.
fn write_subpaths(d: &mut String, sps: &Vec<Subpath>)
    ensures
        final(d)@ == old(d)@ + subpaths_text(outlines(sps@)),
{
    let ghost d0 = d@;
    let ghost all = outlines(sps@);
    let mut i: usize = 0;
    assert(d@ =~= d0 + subpaths_text(all.take(0)));
    while i < sps.len()
        invariant
            all == outlines(sps@),
            i <= sps@.len(),
            d@ == d0 + subpaths_text(all.take(i as int)),
        decreases sps@.len() - i,
    {
        write_subpath(d, &sps[i]);
        i = i + 1;
        proof {
            let done = all.take(i as int);
            assert(done.drop_last() =~= all.take(i - 1));
            assert(done.last() == sps@[i - 1]@);
            assert(d@ =~= d0 + (subpaths_text(done.drop_last()) + subpath_text(done.last())));
        }
    }
    assert(all.take(i as int) =~= all);
}

/// Adds a region's path data to those of its colour.
fn file_region(paths: &mut Vec<(u32, String)>, region: &Region, Ghost(done): Ghost<Seq<Patch>>)
    requires
        gathers(old(paths)@, done),
    ensures
        gathers(final(paths)@, done.push(region@)),
{
    let key: u32 = key_of(&region.color);
    let at: usize = place_of(paths, key);
    let ghost before = paths@;
    let found: bool = at < paths.len() && paths[at].0 == key;
    let mut d: String;
    if found {
        d = paths.remove(at).1;
    } else {
        d = String::new();
        proof {
            assert forall|j: int| 0 <= j < before.len() implies (#[trigger] before[j]).0 != key by {
                if j > at {
                    assert(before[at as int].0 < before[j].0);
                }
            }
            assert(color_data(done, key as int).len() == 0);
        }
        assert(d@ =~= color_data(done, key as int));
    }
    write_subpaths(&mut d, &region.subpaths);
    paths.insert(at, (key, d));
    proof {
        let more = done.push(region@);
        assert(more.drop_last() =~= done);
        assert(more.last() == region@);
        assert(paths@[at as int].0 == key && paths@[at as int].1@ == color_data(more, key as int));
        lemma_filed(before, paths@, at as int, found, key, done, more);
    }
}

proof fn lemma_filed(
    before: Seq<(u32, String)>,
    now: Seq<(u32, String)>,
    at: int,
    found: bool,
    key: u32,
    done: Seq<Patch>,
    more: Seq<Patch>,
)
    requires
        gathers(before, done),
        more.len() > 0,
        more.drop_last() == done,
        more.last().color == key,
        key < 0x100_0000,
        0 <= at <= before.len(),
        found ==> at < before.len() && before[at].0 == key,
        forall|j: int| 0 <= j < at ==> (#[trigger] before[j]).0 < key,
        !found ==> forall|j: int| at <= j < before.len() ==> key < (#[trigger] before[j]).0,
        now.len() == before.len() + if found {
            0int
        } else {
            1int
        },
        now[at].0 == key,
        now[at].1@ == color_data(more, key as int),
        forall|j: int| 0 <= j < at ==> #[trigger] now[j] == before[j],
        forall|j: int|
            at < j < now.len() ==> #[trigger] now[j] == before[if found {
                j
            } else {
                j - 1
            }],
    ensures
        gathers(now, more),
{
    assert forall|k: int| k != key implies #[trigger] color_data(more, k) == color_data(done, k) by {}
    assert forall|i: int, j: int| 0 <= i < j < now.len() implies now[i].0 < now[j].0 by {
        if j < at {
            assert(now[i] == before[i] && now[j] == before[j]);
        } else if i < at {
            assert(now[i] == before[i]);
            if j > at {
                assert(now[j] == before[if found {
                    j
                } else {
                    j - 1
                }]);
            }
        } else {
            assert(now[j] == before[if found {
                j
            } else {
                j - 1
            }]);
            if i > at {
                assert(now[i] == before[if found {
                    i
                } else {
                    i - 1
                }]);
            }
        }
    }
    assert forall|i: int| 0 <= i < now.len() implies (#[trigger] now[i]).0 < 0x100_0000
        && now[i].1@ == color_data(more, now[i].0 as int) by {
        if i < at {
            assert(now[i] == before[i]);
        } else if i > at {
            let o = if found {
                i
            } else {
                i - 1
            };
            assert(now[i] == before[o]);
            assert(now[at].0 < now[i].0);
        }
    }
    assert forall|k: int|
        (forall|j: int| 0 <= j < now.len() ==> (#[trigger] now[j]).0 != k) implies #[trigger] color_data(
        more,
        k,
    ).len() == 0 by {
        assert(now[at].0 != k);
        assert forall|j: int| 0 <= j < before.len() implies (#[trigger] before[j]).0 != k by {
            if j < at {
                assert(now[j] == before[j]);
            } else if !(found && j == at) {
                let o = if found {
                    j
                } else {
                    j + 1
                };
                assert(now[o] == before[j]);
            }
        }
        assert(color_data(done, k).len() == 0);
    }
}

/// Gathers the path data of the regions by colour.
fn gather(regions: &[Region]) -> (paths: Vec<(u32, String)>)
    ensures
        gathers(paths@, patches(regions@)),
{
    let ghost all = patches(regions@);
    let mut paths: Vec<(u32, String)> = Vec::new();
    let mut i: usize = 0;
    while i < regions.len()
        invariant
            all == patches(regions@),
            i <= regions@.len(),
            gathers(paths@, all.take(i as int)),
        decreases regions@.len() - i,
    {
        file_region(&mut paths, &regions[i], Ghost(all.take(i as int)));
        i = i + 1;
        assert(all.take(i - 1).push(regions@[i - 1]@) =~= all.take(i as int));
    }
    assert(all.take(i as int) =~= all);
    paths
}

/// Colours without path data have no elements.
proof fn lemma_no_elements(
    regions: Seq<Patch>,
    background: Option<int>,
    lo: int,
    hi: int,
)
    requires
        0 <= lo <= hi,
        forall|k: int| lo <= k < hi ==> #[trigger] color_data(regions, k).len() == 0,
    ensures
        elements_below(regions, background, hi) == elements_below(regions, background, lo),
    decreases hi - lo,
{
    if lo < hi {
        lemma_no_elements(regions, background, lo, hi - 1);
        assert(color_data(regions, hi - 1).len() == 0);
        assert(elements_below(regions, background, hi) =~= elements_below(
            regions,
            background,
            hi - 1,
        ));
    }
}

fn push_element(s: &mut String, data: &String, key: u32)
    requires
        key < 0x100_0000,
    ensures
        final(s)@ == old(s)@ + path_element(data@, key as int),
{
    let ghost s0 = s@;
    s.append("<path d=\"");
    s.append(data.as_str());
    s.append("\" fill=\"");
    let color: [u8; 3] = [
        (key / 0x1_0000) as u8,
        ((key / 0x100) % 0x100) as u8,
        (key % 0x100) as u8,
    ];
    let fill = hex(color);
    s.append(fill.as_str());
    s.append("\" fill-rule=\"nonzero\"/>\n");
    assert(s@ =~= s0 + path_element(data@, key as int));
}

/// Appends the elements of all colours.
fn push_elements(s: &mut String, regions: &[Region], background: Option<[u8; 3]>)
    ensures
        final(s)@ == old(s)@ + elements(patches(regions@), optional_key(background)),
{
    let ghost s0 = s@;
    let ghost all = patches(regions@);
    let ghost back = optional_key(background);
    let paths = gather(regions);
    let mut i: usize = 0;
    let ghost mut next: int = 0;
    assert(s@ =~= s0 + elements_below(all, back, 0));
    while i < paths.len()
        invariant
            back == optional_key(background),
            i <= paths@.len(),
            gathers(paths@, all),
            next == if i == 0 {
                0
            } else {
                paths@[i - 1].0 + 1
            },
            0 <= next <= 0x100_0000,
            s@ == s0 + elements_below(all, back, next),
        decreases paths@.len() - i,
    {
        let key: u32 = paths[i].0;
        let dropped: bool = match background {
            Some(bg) => key_of(&bg) == key,
            None => false,
        };
        let ghost before = s@;
        proof {
            assert(paths@[i as int].1@ == color_data(all, key as int));
            assert forall|k: int| next <= k < key implies #[trigger] color_data(all, k).len()
                == 0 by {
                assert forall|j: int| 0 <= j < paths@.len() implies (#[trigger] paths@[j]).0 != k by {
                    if j < i {
                        assert(paths@[j].0 <= paths@[i - 1].0);
                    } else if j > i {
                        assert(paths@[i as int].0 < paths@[j].0);
                    }
                }
            }
            lemma_no_elements(all, back, next, key as int);
        }
        if !dropped && !paths[i].1.as_str().is_empty() {
            push_element(s, &paths[i].1, key);
        }
        assert(s@ =~= before + color_element(all, back, key as int));
        i = i + 1;
        proof {
            next = key + 1;
            assert(s@ =~= s0 + elements_below(all, back, next));
        }
    }
    proof {
        assert forall|k: int| next <= k < 0x100_0000 implies #[trigger] color_data(all, k).len()
            == 0 by {
            assert forall|j: int| 0 <= j < paths@.len() implies (#[trigger] paths@[j]).0 != k by {
                assert(paths@[j].0 <= paths@[i - 1].0);
            }
        }
        lemma_no_elements(all, back, next, 0x100_0000);
    }
}

/// The opening tag of a document.
pub open spec fn svg_open(width: int, height: int) -> Seq<char> {
    "<svg xmlns=\"http://www.w3.org/2000/svg\" width=\""@ + decimal(width as nat) + "\" height=\""@
        + decimal(height as nat) + "\" viewBox=\"0 0 "@ + decimal(width as nat) + " "@ + decimal(
        height as nat,
    ) + "\">\n"@
}

/// The rectangle that paints the whole canvas, if there is a background.
pub open spec fn backdrop(width: int, height: int, background: Option<int>) -> Seq<char> {
    match background {
        None => Seq::empty(),
        Some(bg) => "<rect width=\""@ + decimal(width as nat) + "\" height=\""@ + decimal(
            height as nat,
        ) + "\" fill=\""@ + key_text(bg) + "\"/>\n"@,
    }
}

/// A flat document.
pub open spec fn document(
    width: int,
    height: int,
    background: Option<int>,
    regions: Seq<Patch>,
) -> Seq<char> {
    "<?xml version=\"1.0\" encoding=\"UTF-8\"?>\n"@ + "<!-- Generator: svgit owned pipeline -->\n"@
        + svg_open(width, height) + backdrop(width, height, background) + elements(
        regions,
        background,
    ) + "</svg>\n"@
}

fn push_svg_open(s: &mut String, width: usize, height: usize)
    ensures
        final(s)@ == old(s)@ + svg_open(width as int, height as int),
{
    let ghost s0 = s@;
    s.append("<svg xmlns=\"http://www.w3.org/2000/svg\" width=\"");
    push_decimal(s, width as u128);
    s.append("\" height=\"");
    push_decimal(s, height as u128);
    s.append("\" viewBox=\"0 0 ");
    push_decimal(s, width as u128);
    s.append(" ");
    push_decimal(s, height as u128);
    s.append("\">\n");
    assert(s@ =~= s0 + svg_open(width as int, height as int));
}

fn push_backdrop(s: &mut String, width: usize, height: usize, background: Option<[u8; 3]>)
    ensures
        final(s)@ == old(s)@ + backdrop(width as int, height as int, optional_key(background)),
{
    let ghost s0 = s@;
    if let Some(bg) = background {
        s.append("<rect width=\"");
        push_decimal(s, width as u128);
        s.append("\" height=\"");
        push_decimal(s, height as u128);
        s.append("\" fill=\"");
        let fill = hex(bg);
        proof {
            lemma_key_text(bg);
        }
        s.append(fill.as_str());
        s.append("\"/>\n");
    }
    assert(s@ =~= s0 + backdrop(width as int, height as int, optional_key(background)));
}

/// Builds a full SVG document from regions, optionally with a background
/// rectangle. The subpaths of one fill colour share one `<path>`, the paths come
/// in the order of their colours, and a region of the background's colour is
/// dropped: the rectangle has painted it.
pub fn to_svg(
    width: usize,
    height: usize,
    background: Option<[u8; 3]>,
    regions: &[Region],
) -> (s: String)
    ensures
        s@ == document(width as int, height as int, optional_key(background), patches(regions@)),
{
    let mut s = String::new();
    s.append("<?xml version=\"1.0\" encoding=\"UTF-8\"?>\n");
    s.append("<!-- Generator: svgit owned pipeline -->\n");
    push_svg_open(&mut s, width, height);
    push_backdrop(&mut s, width, height, background);
    push_elements(&mut s, regions, background);
    s.append("</svg>\n");
    assert(s@ =~= document(width as int, height as int, optional_key(background), patches(regions@)));
    s
}

/// What stands for a character inside a double-quoted attribute value.
pub open spec fn escaped_char(c: char) -> Seq<char> {
    if c == '&' {
        "&amp;"@
    } else if c == '<' {
        "&lt;"@
    } else if c == '>' {
        "&gt;"@
    } else if c == '"' {
        "&quot;"@
    } else {
        seq![c]
    }
}

/// A text as it stands inside a double-quoted attribute value.
pub open spec fn escaped(s: Seq<char>) -> Seq<char>
    decreases s.len(),
{
    if s.len() == 0 {
        Seq::empty()
    } else {
        escaped(s.drop_last()) + escaped_char(s.last())
    }
}

fn push_escaped(s: &mut String, c: char)
    ensures
        final(s)@ == old(s)@ + escaped_char(c),
{
    let ghost s0 = s@;
    if c == '&' {
        s.append("&amp;");
    } else if c == '<' {
        s.append("&lt;");
    } else if c == '>' {
        s.append("&gt;");
    } else if c == '"' {
        s.append("&quot;");
    } else {
        s.push(c);
    }
    assert(s@ =~= s0 + escaped_char(c));
}

/// Escapes the few characters that are not legal inside a double-quoted XML
/// attribute value.
pub fn attr_escape(s: &str) -> (out: String)
    ensures
        out@ == escaped(s@),
{
    let mut out = String::new();
    for c in it: s.chars()
        invariant
            it.seq() == s@,
            out@ == escaped(s@.take(it.index())),
    {
        let ghost done = s@.take(it.index() + 1);
        push_escaped(&mut out, c);
        assert(done.drop_last() =~= s@.take(it.index()));
    }
    assert(s@.take(s@.len() as int) =~= s@);
    out
}

/// The group of one layer; a layer that draws nothing has none.
pub open spec fn layer_text(label: Seq<char>, regions: Seq<Patch>) -> Seq<char> {
    let body = elements(regions, None);
    if body.len() == 0 {
        Seq::empty()
    } else {
        "<g data-object=\""@ + escaped(label) + "\">\n"@ + body + "</g>\n"@
    }
}

/// What labelled layers paint.
pub open spec fn layer_views(layers: Seq<(String, Vec<Region>)>) -> Seq<(Seq<char>, Seq<Patch>)> {
    layers.map_values(|l: (String, Vec<Region>)| (l.0@, patches(l.1@)))
}

/// The groups of the layers, bottom first.
pub open spec fn layers_text(layers: Seq<(Seq<char>, Seq<Patch>)>) -> Seq<char>
    decreases layers.len(),
{
    if layers.len() == 0 {
        Seq::empty()
    } else {
        layers_text(layers.drop_last()) + layer_text(layers.last().0, layers.last().1)
    }
}

/// A layered document.
pub open spec fn layered_document(
    width: int,
    height: int,
    layers: Seq<(Seq<char>, Seq<Patch>)>,
) -> Seq<char> {
    "<?xml version=\"1.0\" encoding=\"UTF-8\"?>\n"@
        + "<!-- Generator: svgit owned pipeline (layered) -->\n"@ + svg_open(width, height)
        + layers_text(layers) + "</svg>\n"@
}

fn push_layer(s: &mut String, label: &String, regions: &Vec<Region>)
    ensures
        final(s)@ == old(s)@ + layer_text(label@, patches(regions@)),
{
    let ghost s0 = s@;
    let mut body = String::new();
    push_elements(&mut body, regions.as_slice(), None);
    assert(body@ =~= elements(patches(regions@), None));
    if !body.as_str().is_empty() {
        s.append("<g data-object=\"");
        let name = attr_escape(label.as_str());
        s.append(name.as_str());
        s.append("\">\n");
        s.append(body.as_str());
        s.append("</g>\n");
    }
    assert(s@ =~= s0 + layer_text(label@, patches(regions@)));
}

/// Builds a full SVG document where each layer becomes a
/// `<g data-object="...">` group, bottom first. Within a layer the subpaths of one
/// colour share one `<path>`, as in [`to_svg`].
pub fn to_svg_layered(width: usize, height: usize, layers: &[(String, Vec<Region>)]) -> (s: String)
    ensures
        s@ == layered_document(width as int, height as int, layer_views(layers@)),
{
    let mut s = String::new();
    s.append("<?xml version=\"1.0\" encoding=\"UTF-8\"?>\n");
    s.append("<!-- Generator: svgit owned pipeline (layered) -->\n");
    push_svg_open(&mut s, width, height);
    let ghost head = s@;
    let ghost all = layer_views(layers@);
    let mut i: usize = 0;
    assert(s@ =~= head + layers_text(all.take(0)));
    while i < layers.len()
        invariant
            all == layer_views(layers@),
            i <= layers@.len(),
            s@ == head + layers_text(all.take(i as int)),
        decreases layers@.len() - i,
    {
        push_layer(&mut s, &layers[i].0, &layers[i].1);
        i = i + 1;
        proof {
            let done = all.take(i as int);
            assert(done.drop_last() =~= all.take(i - 1));
            assert(s@ =~= head + (layers_text(done.drop_last()) + layer_text(
                done.last().0,
                done.last().1,
            )));
        }
    }
    assert(all.take(i as int) =~= all);
    s.append("</svg>\n");
    assert(s@ =~= layered_document(width as int, height as int, layer_views(layers@)));
    s
}

/// The hundredths that a coordinate without its sign stands for.
pub open spec fn unsigned_hundredths(s: Seq<char>) -> int {
    let n = s.len() as int;
    if n >= 3 && s[n - 3] == '.' {
        number(s.take(n - 3)) * 100 + number(s.skip(n - 2))
    } else if n >= 2 && s[n - 2] == '.' {
        number(s.take(n - 2)) * 100 + number(s.skip(n - 1)) * 10
    } else {
        number(s) * 100
    }
}

/// The hundredths that a coordinate stands for.
pub open spec fn hundredths(s: Seq<char>) -> int {
    if s.len() > 0 && s[0] == '-' {
        -unsigned_hundredths(s.skip(1))
    } else {
        unsigned_hundredths(s)
    }
}

proof fn lemma_unsigned_reads_back(a: int)
    requires
        0 <= a,
    ensures
        unsigned_hundredths(coord_text(a)) == a,
        coord_text(a).len() > 0,
        coord_text(a)[0] != '-',
{
    let whole = decimal((a / 100) as nat);
    law_decimal_reads_back((a / 100) as nat);
    let r = a % 100;
    let t = coord_text(a);
    let n = t.len() as int;
    assert(t[0] == whole[0]);
    reveal_with_fuel(number, 3);
    if r == 0 {
        assert(t =~= whole);
        if n >= 3 {
            assert(48 <= whole[n - 3] as int);
        }
        if n >= 2 {
            assert(48 <= whole[n - 2] as int);
        }
    } else if r % 10 == 0 {
        assert(t =~= whole + seq!['.', digit(r / 10)]);
        if n >= 3 {
            assert(t[n - 3] == whole[n - 3]);
        }
        assert(t.take(n - 2) =~= whole);
        assert(t.skip(n - 1) =~= seq![digit(r / 10)]);
        assert(seq![digit(r / 10)].drop_last() =~= Seq::empty());
        assert(number(t.skip(n - 1)) == r / 10);
    } else {
        assert(t =~= whole + seq!['.', digit(r / 10), digit(r % 10)]);
        assert(t.take(n - 3) =~= whole);
        let two = seq![digit(r / 10), digit(r % 10)];
        assert(t.skip(n - 2) =~= two);
        assert(two.drop_last() =~= seq![digit(r / 10)]);
        assert(two.drop_last().drop_last() =~= Seq::empty());
        assert(number(two) == r);
    }
}

/// A written coordinate stands for the hundredths it was written for, so two
/// coordinates are written alike only where they are equal; and one with decimals
/// ends neither in a zero nor in the point.
pub proof fn law_coordinate_reads_back(h: int)
    ensures
        hundredths(coord_text(h)) == h,
        coord_text(h).contains('.') ==> coord_text(h).last() != '0' && coord_text(h).last() != '.',
{
    let a = if h < 0 {
        -h
    } else {
        h
    };
    lemma_unsigned_reads_back(a);
    if h < 0 {
        assert(coord_text(h).skip(1) =~= coord_text(a));
    }
    law_decimal_reads_back((a / 100) as nat);
    if coord_text(h).contains('.') && a % 100 == 0 {
        let i = choose|i: int| 0 <= i < coord_text(h).len() && coord_text(h)[i] == '.';
        let whole = decimal((a / 100) as nat);
        if h < 0 {
            assert(coord_text(h)[i] == if i == 0 {
                '-'
            } else {
                whole[i - 1]
            });
        } else {
            assert(coord_text(h)[i] == whole[i]);
        }
    }
}

/// Selects the regions of one colour.
pub open spec fn of_color(key: int) -> spec_fn(Patch) -> bool {
    |r: Patch| r.color == key
}

/// Selects the regions of every other colour.
pub open spec fn not_of_color(key: int) -> spec_fn(Patch) -> bool {
    |r: Patch| r.color != key
}

/// A colour's path data comes from the regions of that colour alone.
proof fn lemma_color_data_of_color(regions: Seq<Patch>, key: int)
    ensures
        color_data(regions, key) == color_data(regions.filter(of_color(key)), key),
    decreases regions.len(),
{
    reveal(Seq::filter);
    if regions.len() > 0 {
        let rest = regions.drop_last();
        lemma_color_data_of_color(rest, key);
        if regions.last().color == key {
            let kept = rest.filter(of_color(key)).push(regions.last());
            assert(regions.filter(of_color(key)) == kept);
            assert(kept.drop_last() =~= rest.filter(of_color(key)));
        }
    }
}

proof fn lemma_elements_by_data(
    r1: Seq<Patch>,
    r2: Seq<Patch>,
    background: Option<int>,
    key: int,
)
    requires
        forall|k: int|
            background != Some(k) ==> #[trigger] color_data(r1, k)
                == color_data(r2, k),
    ensures
        elements_below(r1, background, key) == elements_below(r2, background, key),
    decreases key,
{
    if key > 0 {
        lemma_elements_by_data(r1, r2, background, key - 1);
        if background != Some(key - 1) {
            assert(color_data(r1, key - 1) == color_data(r2, key - 1));
        }
    }
}

/// The order of regions of different colours is irrelevant: two lists that hold
/// the same regions of each colour, in the same order, give the same document.
pub proof fn law_order_of_colors_is_irrelevant(
    width: int,
    height: int,
    background: Option<int>,
    r1: Seq<Patch>,
    r2: Seq<Patch>,
)
    requires
        forall|key: int| #[trigger] r1.filter(of_color(key)) == r2.filter(of_color(key)),
    ensures
        document(width, height, background, r1) == document(width, height, background, r2),
{
    assert forall|k: int| #[trigger] color_data(r1, k) == color_data(r2, k) by {
        lemma_color_data_of_color(r1, k);
        lemma_color_data_of_color(r2, k);
        assert(r1.filter(of_color(k)) == r2.filter(of_color(k)));
    }
    lemma_elements_by_data(r1, r2, background, 0x100_0000);
}

proof fn lemma_color_data_other(regions: Seq<Patch>, dropped: int, key: int)
    requires
        key != dropped,
    ensures
        color_data(regions.filter(not_of_color(dropped)), key) == color_data(regions, key),
    decreases regions.len(),
{
    reveal(Seq::filter);
    if regions.len() > 0 {
        let rest = regions.drop_last();
        lemma_color_data_other(rest, dropped, key);
        if regions.last().color != dropped {
            let kept = rest.filter(not_of_color(dropped)).push(regions.last());
            assert(regions.filter(not_of_color(dropped)) == kept);
            assert(kept.drop_last() =~= rest.filter(not_of_color(dropped)));
        }
    }
}

/// Regions of the background's colour leave no trace in the document.
pub proof fn law_background_regions_are_dropped(
    width: int,
    height: int,
    bg: int,
    regions: Seq<Patch>,
)
    ensures
        document(width, height, Some(bg), regions) == document(
            width,
            height,
            Some(bg),
            regions.filter(not_of_color(bg)),
        ),
{
    let kept = regions.filter(not_of_color(bg));
    assert forall|k: int| k != bg implies #[trigger] color_data(regions, k)
        == color_data(kept, k) by {
        lemma_color_data_other(regions, bg, k);
    }
    lemma_elements_by_data(regions, kept, Some(bg), 0x100_0000);
}

/// The colours below `key` that have an element, in the order of the document.
pub open spec fn drawn_below(regions: Seq<Patch>, background: Option<int>, key: int) -> Seq<
    int,
>
    decreases key,
{
    if key <= 0 {
        Seq::empty()
    } else if color_element(regions, background, key - 1).len() == 0 {
        drawn_below(regions, background, key - 1)
    } else {
        drawn_below(regions, background, key - 1).push(key - 1)
    }
}

/// The elements of the listed colours, one each.
pub open spec fn elements_of(
    regions: Seq<Patch>,
    background: Option<int>,
    keys: Seq<int>,
) -> Seq<char>
    decreases keys.len(),
{
    if keys.len() == 0 {
        Seq::empty()
    } else {
        elements_of(regions, background, keys.drop_last()) + color_element(
            regions,
            background,
            keys.last(),
        )
    }
}

proof fn lemma_color_present(regions: Seq<Patch>, key: int) -> (i: int)
    requires
        color_data(regions, key).len() > 0,
    ensures
        0 <= i < regions.len(),
        regions[i].color == key,
    decreases regions.len(),
{
    if regions.last().color == key {
        regions.len() - 1
    } else {
        lemma_color_present(regions.drop_last(), key)
    }
}

/// The elements come one per colour: the colours that are drawn are in strictly
/// ascending order, each is the colour of a region and none is the background's.
pub proof fn law_one_path_per_color(regions: Seq<Patch>, background: Option<int>, below: int)
    requires
        0 <= below,
    ensures
        ({
            let keys = drawn_below(regions, background, below);
            &&& elements_below(regions, background, below) == elements_of(regions, background, keys)
            &&& forall|i: int, j: int| 0 <= i < j < keys.len() ==> keys[i] < keys[j]
            &&& forall|i: int|
                #![trigger keys[i]]
                0 <= i < keys.len() ==> keys[i] < below && (exists|r: int|
                    0 <= r < regions.len() && (#[trigger] regions[r]).color == keys[i])
                    && background != Some(keys[i])
        }),
    decreases below,
{
    if below > 0 {
        law_one_path_per_color(regions, background, below - 1);
        let rest = drawn_below(regions, background, below - 1);
        let keys = drawn_below(regions, background, below);
        if color_element(regions, background, below - 1).len() == 0 {
            assert(elements_below(regions, background, below) =~= elements_below(
                regions,
                background,
                below - 1,
            ));
        } else {
            assert(keys.drop_last() =~= rest);
            let r = lemma_color_present(regions, below - 1);
            assert forall|i: int| #![trigger keys[i]] 0 <= i < keys.len() implies keys[i] < below
                && (exists|r: int|
                0 <= r < regions.len() && (#[trigger] regions[r]).color == keys[i]) && background != Some(keys[i]) by {
                if i < rest.len() {
                    assert(keys[i] == rest[i]);
                }
            }
        }
    }
}

/// An escaped text holds no character that would end the attribute or open or
/// close a tag.
pub proof fn law_escaped_is_legal(s: Seq<char>)
    ensures
        !escaped(s).contains('<'),
        !escaped(s).contains('>'),
        !escaped(s).contains('"'),
    decreases s.len(),
{
    if s.len() > 0 {
        law_escaped_is_legal(s.drop_last());
        reveal_strlit("&amp;");
        reveal_strlit("&lt;");
        reveal_strlit("&gt;");
        reveal_strlit("&quot;");
        let head = escaped(s.drop_last());
        let tail = escaped_char(s.last());
        assert forall|i: int| 0 <= i < escaped(s).len() implies ({
            let c = #[trigger] escaped(s)[i];
            c != '<' && c != '>' && c != '"'
        }) by {
            if i < head.len() {
                assert(escaped(s)[i] == head[i]);
                assert(head.contains(head[i]));
            } else {
                assert(escaped(s)[i] == tail[i - head.len()]);
            }
        }
    }
}

/// Reads an escaped text.
pub open spec fn unescaped(t: Seq<char>) -> Seq<char>
    decreases t.len(),
{
    if t.len() == 0 {
        Seq::empty()
    } else if t.len() >= 5 && t.take(5) == "&amp;"@ {
        seq!['&'] + unescaped(t.skip(5))
    } else if t.len() >= 4 && t.take(4) == "&lt;"@ {
        seq!['<'] + unescaped(t.skip(4))
    } else if t.len() >= 4 && t.take(4) == "&gt;"@ {
        seq!['>'] + unescaped(t.skip(4))
    } else if t.len() >= 6 && t.take(6) == "&quot;"@ {
        seq!['"'] + unescaped(t.skip(6))
    } else {
        seq![t[0]] + unescaped(t.skip(1))
    }
}

proof fn lemma_escaped_first(s: Seq<char>)
    requires
        s.len() > 0,
    ensures
        escaped(s) == escaped_char(s[0]) + escaped(s.skip(1)),
    decreases s.len(),
{
    let rest = s.drop_last();
    if s.len() == 1 {
        assert(rest =~= Seq::empty());
        assert(s.skip(1) =~= Seq::empty());
        assert(escaped(s) =~= escaped_char(s[0]) + escaped(s.skip(1)));
    } else {
        lemma_escaped_first(rest);
        assert(s.skip(1).drop_last() =~= rest.skip(1));
        assert(escaped(s) =~= escaped_char(s[0]) + escaped(s.skip(1)));
    }
}

/// Escaping loses nothing: the text can be read back.
#[verifier::rlimit(60)]
pub proof fn law_escaped_reads_back(s: Seq<char>)
    ensures
        unescaped(escaped(s)) == s,
    decreases s.len(),
{
    if s.len() > 0 {
        lemma_escaped_first(s);
        law_escaped_reads_back(s.skip(1));
        reveal_strlit("&amp;");
        reveal_strlit("&lt;");
        reveal_strlit("&gt;");
        reveal_strlit("&quot;");
        let first = escaped_char(s[0]);
        let t = escaped(s);
        let n = first.len() as int;
        assert(t.take(n) =~= first);
        assert(t.skip(n) =~= escaped(s.skip(1)));
        assert(t[0] == first[0]);
        assert(t.len() >= 4 ==> t.take(4)[1] == t[1] && t.take(4)[0] == t[0]);
        assert(t.len() >= 5 ==> t.take(5)[1] == t[1] && t.take(5)[0] == t[0]);
        assert(t.len() >= 6 ==> t.take(6)[1] == t[1] && t.take(6)[0] == t[0]);
        assert(n > 1 ==> t[1] == first[1]);
        assert(unescaped(t) =~= seq![s[0]] + unescaped(t.skip(n)));
        assert(seq![s[0]] + s.skip(1) =~= s);
    }
}

/// The commands of path data, in order: every capital letter, with the text up to the
/// next one.
pub open spec fn commands(d: Seq<char>) -> Seq<(char, Seq<char>)>
    decreases d.len(),
{
    if d.len() == 0 {
        Seq::empty()
    } else {
        let rest = commands(d.drop_last());
        let c = d.last();
        if 65 <= c as int <= 90 {
            rest.push((c, Seq::empty()))
        } else if rest.len() == 0 {
            rest
        } else {
            rest.update(rest.len() - 1, (rest.last().0, rest.last().1.push(c)))
        }
    }
}

/// The words of a text: what its spaces part.
pub open spec fn words(s: Seq<char>) -> Seq<Seq<char>>
    decreases s.len(),
{
    if s.len() == 0 {
        seq![Seq::empty()]
    } else {
        let rest = words(s.drop_last());
        if s.last() == ' ' {
            rest.push(Seq::empty())
        } else {
            rest.update(rest.len() - 1, rest.last().push(s.last()))
        }
    }
}

/// The hundredths that the words of a command stand for.
pub open spec fn arguments(s: Seq<char>) -> Seq<int> {
    if s.len() == 0 {
        Seq::empty()
    } else {
        words(s).map_values(|w: Seq<char>| hundredths(w))
    }
}

/// The strokes of a pen that follows path data: every command with its coordinates.
pub open spec fn strokes(d: Seq<char>) -> Seq<(char, Seq<int>)> {
    commands(d).map_values(|c: (char, Seq<char>)| (c.0, arguments(c.1)))
}

/// The stroke along a segment.
pub open spec fn stroke_of(seg: Seg) -> (char, Seq<int>) {
    match seg {
        Seg::Line(p) => ('L', seq![p.0 as int, p.1 as int]),
        Seg::Cubic(c, d, e) => (
            'C',
            seq![c.0 as int, c.1 as int, d.0 as int, d.1 as int, e.0 as int, e.1 as int],
        ),
    }
}

/// The strokes that draw an outline: a move to its start, one stroke along each of its
/// segments, and the way back. An outline of fewer than two segments has no strokes.
pub open spec fn strokes_of(o: Outline) -> Seq<(char, Seq<int>)> {
    if o.segs.len() < 2 {
        Seq::empty()
    } else {
        seq![('M', seq![o.start.0 as int, o.start.1 as int])] + o.segs.map_values(
            |s: Seg| stroke_of(s),
        ) + seq![('Z', Seq::<int>::empty())]
    }
}

/// No character of a text is a capital letter.
spec fn is_plain(s: Seq<char>) -> bool {
    forall|i: int| 0 <= i < s.len() ==> !(65 <= #[trigger] s[i] as int <= 90)
}

proof fn lemma_coord_plain(h: int)
    ensures
        is_plain(coord_text(h)),
        coord_text(h).len() > 0,
        forall|i: int| 0 <= i < coord_text(h).len() ==> #[trigger] coord_text(h)[i] != ' ',
{
    let a = if h < 0 {
        -h
    } else {
        h
    };
    law_decimal_reads_back((a / 100) as nat);
    let whole = decimal((a / 100) as nat);
    let t = coord_text(h);
    let lead = if h < 0 {
        1int
    } else {
        0int
    };
    assert forall|i: int| 0 <= i < t.len() implies !(65 <= #[trigger] t[i] as int <= 90) && t[i]
        != ' ' by {
        if lead <= i < lead + whole.len() {
            assert(t[i] == whole[i - lead]);
        }
    }
}

/// What follows a letter belongs to it.
proof fn lemma_command_follows(s: Seq<char>, letter: char, t: Seq<char>)
    requires
        65 <= letter as int <= 90,
        is_plain(t),
    ensures
        commands(s + seq![letter] + t) == commands(s).push((letter, t)),
    decreases t.len(),
{
    let all = s + seq![letter] + t;
    if t.len() == 0 {
        assert(all.drop_last() =~= s);
        assert(t =~= Seq::empty());
    } else {
        let front = t.drop_last();
        assert(is_plain(front)) by {
            assert forall|i: int| 0 <= i < front.len() implies !(65 <= #[trigger] front[i] as int
                <= 90) by {
                assert(front[i] == t[i]);
            }
        }
        lemma_command_follows(s, letter, front);
        assert(all.drop_last() =~= s + seq![letter] + front);
        assert(all.last() == t.last());
        assert(front.push(t.last()) =~= t);
        assert(commands(all) =~= commands(s).push((letter, t)));
    }
}

proof fn lemma_word_follows(s: Seq<char>, t: Seq<char>)
    requires
        forall|i: int| 0 <= i < t.len() ==> #[trigger] t[i] != ' ',
    ensures
        words(s).len() > 0,
        words(s + t) == words(s).update(words(s).len() - 1, words(s).last() + t),
    decreases t.len(),
{
    lemma_some_word(s);
    if t.len() == 0 {
        assert(s + t =~= s);
        assert(words(s).last() + t =~= words(s).last());
        assert(words(s + t) =~= words(s).update(words(s).len() - 1, words(s).last() + t));
    } else {
        let front = t.drop_last();
        lemma_word_follows(s, front);
        assert((s + t).drop_last() =~= s + front);
        assert((s + t).last() == t.last());
        assert((words(s).last() + front).push(t.last()) =~= words(s).last() + t);
        assert(words(s + t) =~= words(s).update(words(s).len() - 1, words(s).last() + t));
    }
}

proof fn lemma_some_word(s: Seq<char>)
    ensures
        words(s).len() > 0,
    decreases s.len(),
{
    if s.len() > 0 {
        lemma_some_word(s.drop_last());
    }
}

/// Another coordinate is another word.
proof fn lemma_next_word(s: Seq<char>, h: int)
    ensures
        words(s + seq![' '] + coord_text(h)) == words(s).push(coord_text(h)),
{
    let head = s + seq![' '];
    assert(head.drop_last() =~= s);
    assert(words(head) == words(s).push(Seq::empty()));
    lemma_coord_plain(h);
    lemma_word_follows(head, coord_text(h));
    assert(Seq::<char>::empty() + coord_text(h) =~= coord_text(h));
    assert(words(head + coord_text(h)) =~= words(s).push(coord_text(h)));
}

proof fn lemma_first_word(h: int)
    ensures
        words(coord_text(h)) == seq![coord_text(h)],
{
    lemma_coord_plain(h);
    let none = Seq::<char>::empty();
    lemma_word_follows(none, coord_text(h));
    assert(none + coord_text(h) =~= coord_text(h));
    assert(words(coord_text(h)) =~= seq![coord_text(h)]);
}

proof fn lemma_point_reads_back(p: Ptf)
    ensures
        words(point_text(p)) == seq![coord_text(p.0 as int), coord_text(p.1 as int)],
        arguments(point_text(p)) == seq![p.0 as int, p.1 as int],
        is_plain(point_text(p)),
        point_text(p).len() > 0,
{
    reveal_strlit(" ");
    let (x, y) = (p.0 as int, p.1 as int);
    lemma_coord_plain(x);
    lemma_coord_plain(y);
    lemma_first_word(x);
    assert(point_text(p) =~= coord_text(x) + seq![' '] + coord_text(y));
    lemma_next_word(coord_text(x), y);
    assert(words(point_text(p)) =~= seq![coord_text(x), coord_text(y)]);
    law_coordinate_reads_back(x);
    law_coordinate_reads_back(y);
    assert(arguments(point_text(p)) =~= seq![x, y]);
}

/// Another point is two more words.
#[verifier::rlimit(60)]
proof fn lemma_next_point(s: Seq<char>, p: Ptf)
    requires
        is_plain(s),
    ensures
        words(s + " "@ + point_text(p)) == words(s).push(coord_text(p.0 as int)).push(
            coord_text(p.1 as int),
        ),
        is_plain(s + " "@ + point_text(p)),
        (s + " "@ + point_text(p)).len() > 0,
{
    reveal_strlit(" ");
    lemma_point_reads_back(p);
    let t1 = s + seq![' '] + coord_text(p.0 as int);
    lemma_next_word(s, p.0 as int);
    lemma_next_word(t1, p.1 as int);
    let t = s + " "@ + point_text(p);
    assert(t =~= t1 + seq![' '] + coord_text(p.1 as int));
    assert forall|i: int| 0 <= i < t.len() implies !(65 <= #[trigger] t[i] as int <= 90) by {
        if i < s.len() {
            assert(t[i] == s[i]);
        } else if i > s.len() {
            assert(t[i] == point_text(p)[i - s.len() - 1]);
        }
    }
}

#[verifier::rlimit(60)]
proof fn lemma_points_read_back(c: Ptf, d: Ptf, e: Ptf)
    ensures
        ({
            let t = point_text(c) + " "@ + point_text(d) + " "@ + point_text(e);
            &&& arguments(t) == seq![
                c.0 as int,
                c.1 as int,
                d.0 as int,
                d.1 as int,
                e.0 as int,
                e.1 as int,
            ]
            &&& is_plain(t)
            &&& t.len() > 0
        }),
{
    lemma_point_reads_back(c);
    let t1 = point_text(c) + " "@ + point_text(d);
    let t = t1 + " "@ + point_text(e);
    lemma_next_point(point_text(c), d);
    lemma_next_point(t1, e);
    law_coordinate_reads_back(c.0 as int);
    law_coordinate_reads_back(c.1 as int);
    law_coordinate_reads_back(d.0 as int);
    law_coordinate_reads_back(d.1 as int);
    law_coordinate_reads_back(e.0 as int);
    law_coordinate_reads_back(e.1 as int);
    assert(arguments(t) =~= seq![
        c.0 as int,
        c.1 as int,
        d.0 as int,
        d.1 as int,
        e.0 as int,
        e.1 as int,
    ]);
}

#[verifier::rlimit(60)]
proof fn lemma_seg_reads_back(s: Seq<char>, seg: Seg)
    ensures
        strokes(s + seg_text(seg)) == strokes(s).push(stroke_of(seg)),
{
    reveal_strlit("L");
    reveal_strlit("C");
    match seg {
        Seg::Line(p) => {
            lemma_point_reads_back(p);
            lemma_command_follows(s, 'L', point_text(p));
            assert(s + seg_text(seg) =~= s + seq!['L'] + point_text(p));
        },
        Seg::Cubic(c, d, e) => {
            lemma_points_read_back(c, d, e);
            let t = point_text(c) + " "@ + point_text(d) + " "@ + point_text(e);
            lemma_command_follows(s, 'C', t);
            assert(s + seg_text(seg) =~= s + seq!['C'] + t);
        },
    }
    assert(strokes(s + seg_text(seg)) =~= strokes(s).push(stroke_of(seg)));
}

proof fn lemma_segs_read_back(s: Seq<char>, segs: Seq<Seg>)
    ensures
        strokes(s + segs_text(segs)) == strokes(s) + segs.map_values(|g: Seg| stroke_of(g)),
    decreases segs.len(),
{
    let all = segs.map_values(|g: Seg| stroke_of(g));
    if segs.len() == 0 {
        assert(s + segs_text(segs) =~= s);
        assert(strokes(s) =~= strokes(s) + all);
    } else {
        let front = segs.drop_last();
        lemma_segs_read_back(s, front);
        lemma_seg_reads_back(s + segs_text(front), segs.last());
        assert(s + segs_text(segs) =~= (s + segs_text(front)) + seg_text(segs.last()));
        assert(front.map_values(|g: Seg| stroke_of(g)).push(stroke_of(segs.last())) =~= all);
        assert(strokes(s + segs_text(segs)) =~= strokes(s) + all);
    }
}

#[verifier::rlimit(60)]
proof fn lemma_subpath_reads_back(s: Seq<char>, o: Outline)
    ensures
        strokes(s + subpath_text(o)) == strokes(s) + strokes_of(o),
{
    reveal_strlit("M");
    reveal_strlit("Z");
    if o.segs.len() < 2 {
        assert(s + subpath_text(o) =~= s);
        assert(strokes(s) =~= strokes(s) + strokes_of(o));
    } else {
        lemma_point_reads_back(o.start);
        let head = s + seq!['M'] + point_text(o.start);
        lemma_command_follows(s, 'M', point_text(o.start));
        assert(strokes(head) =~= strokes(s).push(
            ('M', seq![o.start.0 as int, o.start.1 as int]),
        ));
        lemma_segs_read_back(head, o.segs);
        let body = head + segs_text(o.segs);
        lemma_command_follows(body, 'Z', Seq::empty());
        let all = body + seq!['Z'] + Seq::<char>::empty();
        assert(s + subpath_text(o) =~= all);
        assert(strokes(all) =~= strokes(body).push(('Z', Seq::<int>::empty())));
        assert(strokes(all) =~= strokes(s) + strokes_of(o));
    }
}

/// Path data draws every subpath whole, one after the other: who reads its commands
/// back moves to the start of each outline, draws along each of its segments to the
/// coordinates it was given, and closes it. Nothing is left out but outlines of fewer
/// than two segments, and nothing else is drawn.
pub proof fn law_path_data_reads_back(sps: Seq<Outline>)
    ensures
        strokes(subpaths_text(sps)) == sps.map_values(|o: Outline| strokes_of(o)).flatten(),
    decreases sps.len(),
{
    let all = sps.map_values(|o: Outline| strokes_of(o));
    if sps.len() == 0 {
        assert(all.flatten() =~= Seq::empty());
        assert(strokes(subpaths_text(sps)) =~= Seq::empty());
    } else {
        let front = sps.drop_last();
        law_path_data_reads_back(front);
        lemma_subpath_reads_back(subpaths_text(front), sps.last());
        let part = front.map_values(|o: Outline| strokes_of(o));
        assert(part.push(strokes_of(sps.last())) =~= all);
        part.lemma_flatten_push(strokes_of(sps.last()));
    }
}

/// Texts put together one after the other, whichever are put together first.
proof fn lemma_regroup(a: Seq<char>, b: Seq<char>, c: Seq<char>, d: Seq<char>)
    ensures
        a + (b + c + d) == a + b + c + d,
        a + b + c + d == a + b + (c + d),
{
    assert(a + (b + c + d) =~= a + b + c + d);
    assert(a + b + c + d =~= a + b + (c + d));
}

proof fn lemma_nothing_before(a: Seq<char>)
    ensures
        Seq::<char>::empty() + a == a,
{
    assert(Seq::<char>::empty() + a =~= a);
}

/// No subpath is lost: the data of two lists of subpaths, one after the other, are the
/// data of both, one after the other, and a single subpath is written as it is.
pub proof fn law_path_data_is_joined(a: Seq<Outline>, b: Seq<Outline>, o: Outline)
    ensures
        subpaths_text(a + b) == subpaths_text(a) + subpaths_text(b),
        subpaths_text(seq![o]) == subpath_text(o),
        subpaths_text(a.push(o)) == subpaths_text(a) + subpath_text(o),
    decreases b.len(),
{
    assert(a.push(o).drop_last() =~= a);
    let one = seq![o];
    let none = Seq::<Outline>::empty();
    assert(one.drop_last() =~= none);
    assert(subpaths_text(none) =~= Seq::empty());
    assert(one.last() == o);
    assert(subpaths_text(one) =~= subpath_text(o));
    if b.len() == 0 {
        assert(a + b =~= a);
        assert(subpaths_text(a + b) =~= subpaths_text(a) + subpaths_text(b));
    } else {
        law_path_data_is_joined(a, b.drop_last(), o);
        let front = b.drop_last();
        assert((a + b).drop_last() =~= a + front);
        assert((a + b).last() == b.last());
        lemma_regroup(
            Seq::empty(),
            subpaths_text(a),
            subpaths_text(front),
            subpath_text(b.last()),
        );
        lemma_nothing_before(subpaths_text(a));
        assert(subpaths_text(a + b) == subpaths_text(a) + subpaths_text(front) + subpath_text(
            b.last(),
        ));
        assert(subpaths_text(b) == subpaths_text(front) + subpath_text(b.last()));
    }
}

/// A single subpath is written as its start, all of its segments and a closing
/// command; one of fewer than two segments is not written.
pub proof fn law_subpath_is_written_whole(o: Outline)
    ensures
        strokes(subpath_text(o)) == strokes_of(o),
        o.segs.len() < 2 <==> subpath_text(o).len() == 0,
        o.segs.len() >= 2 ==> subpath_text(o) == "M"@ + point_text(o.start) + o.segs.map_values(
            |g: Seg| seg_text(g),
        ).flatten() + "Z"@,
{
    reveal_strlit("M");
    let none = Seq::<char>::empty();
    lemma_subpath_reads_back(none, o);
    assert(none + subpath_text(o) =~= subpath_text(o));
    assert(strokes(none) =~= Seq::empty());
    assert(strokes(none) + strokes_of(o) =~= strokes_of(o));
    lemma_segs_joined(o.segs);
}

proof fn lemma_segs_joined(segs: Seq<Seg>)
    ensures
        segs_text(segs) == segs.map_values(|g: Seg| seg_text(g)).flatten(),
    decreases segs.len(),
{
    let all = segs.map_values(|g: Seg| seg_text(g));
    if segs.len() > 0 {
        let front = segs.drop_last();
        lemma_segs_joined(front);
        let part = front.map_values(|g: Seg| seg_text(g));
        assert(part.push(seg_text(segs.last())) =~= all);
        part.lemma_flatten_push(seg_text(segs.last()));
    } else {
        assert(all.flatten() =~= Seq::empty());
    }
}

/// The path data of a colour are those of all regions of that colour, in their order,
/// and of no other region.
pub proof fn law_color_data_is_that_of_its_regions(regions: Seq<Patch>, key: int)
    ensures
        color_data(regions, key) == regions.filter(|r: Patch| r.color == key).map_values(
            |r: Patch| subpaths_text(r.subpaths),
        ).flatten(),
    decreases regions.len(),
{
    let own = |r: Patch| r.color == key;
    let text = |r: Patch| subpaths_text(r.subpaths);
    reveal(Seq::filter);
    if regions.len() == 0 {
        assert(regions.filter(own).map_values(text).flatten() =~= Seq::empty());
    } else {
        let front = regions.drop_last();
        law_color_data_is_that_of_its_regions(front, key);
        assert(color_data(front, key) == front.filter(own).map_values(text).flatten());
        let last = regions.last();
        if last.color == key {
            let part = front.filter(own).map_values(text);
            assert(regions.filter(own).map_values(text) =~= part.push(text(last)));
            part.lemma_flatten_push(text(last));
        }
    }
}

/// The text of a subpath of a region stands in the path data of its colour.
#[verifier::rlimit(60)]
proof fn lemma_subpath_in_data(regions: Seq<Patch>, i: int, j: int) -> (r: (Seq<char>, Seq<char>))
    requires
        0 <= i < regions.len(),
        0 <= j < regions[i].subpaths.len(),
    ensures
        color_data(regions, regions[i].color) == r.0 + subpath_text(regions[i].subpaths[j]) + r.1,
    decreases regions.len(),
{
    let key = regions[i].color;
    let front = regions.drop_last();
    let last = regions.last();
    if i == regions.len() - 1 {
        let sps = last.subpaths;
        let (a, b) = (sps.take(j), sps.skip(j + 1));
        law_path_data_is_joined(a.push(sps[j]), b, sps[j]);
        law_path_data_is_joined(a, b, sps[j]);
        assert(a.push(sps[j]) + b =~= sps);
        let head = color_data(front, key) + subpaths_text(a);
        lemma_regroup(
            color_data(front, key),
            subpaths_text(a),
            subpath_text(sps[j]),
            subpaths_text(b),
        );
        (head, subpaths_text(b))
    } else {
        let (head, tail) = lemma_subpath_in_data(front, i, j);
        if last.color == key {
            let more = tail + subpaths_text(last.subpaths);
            lemma_regroup(
                head,
                subpath_text(regions[i].subpaths[j]),
                tail,
                subpaths_text(last.subpaths),
            );
            (head, more)
        } else {
            (head, tail)
        }
    }
}

proof fn lemma_element_in(
    regions: Seq<Patch>,
    background: Option<int>,
    below: int,
    key: int,
) -> (r: (Seq<char>, Seq<char>))
    requires
        0 <= key < below,
    ensures
        elements_below(regions, background, below) == r.0 + color_element(regions, background, key)
            + r.1,
    decreases below,
{
    let rest = elements_below(regions, background, below - 1);
    if key == below - 1 {
        assert(elements_below(regions, background, below) =~= rest + color_element(
            regions,
            background,
            key,
        ) + Seq::empty());
        (rest, Seq::empty())
    } else {
        let (head, tail) = lemma_element_in(regions, background, below - 1, key);
        let more = tail + color_element(regions, background, below - 1);
        assert(elements_below(regions, background, below) =~= head + color_element(
            regions,
            background,
            key,
        ) + more);
        (head, more)
    }
}

/// Every subpath of two or more segments, of every region that is not of the
/// background's colour, stands in the document: in the path data of the element that
/// is filled with the colour of its region.
#[verifier::rlimit(60)]
pub proof fn law_every_subpath_is_in_the_document(
    width: int,
    height: int,
    background: Option<int>,
    regions: Seq<Patch>,
    i: int,
    j: int,
) -> (r: (Seq<char>, Seq<char>, Seq<char>, Seq<char>))
    requires
        0 <= i < regions.len(),
        0 <= regions[i].color < 0x100_0000,
        background != Some(regions[i].color),
        0 <= j < regions[i].subpaths.len(),
        regions[i].subpaths[j].segs.len() >= 2,
    ensures
        document(width, height, background, regions) == r.0 + ("<path d=\""@ + (r.1 + subpath_text(
            regions[i].subpaths[j],
        ) + r.2) + "\" fill=\""@ + key_text(regions[i].color) + "\" fill-rule=\"nonzero\"/>\n"@)
            + r.3,
{
    let key = regions[i].color;
    let (d0, d1) = lemma_subpath_in_data(regions, i, j);
    law_subpath_is_written_whole(regions[i].subpaths[j]);
    let (head, tail) = lemma_element_in(regions, background, 0x100_0000, key);
    let element = path_element(color_data(regions, key), key);
    assert(color_element(regions, background, key) == element);
    let open = "<?xml version=\"1.0\" encoding=\"UTF-8\"?>\n"@
        + "<!-- Generator: svgit owned pipeline -->\n"@ + svg_open(width, height) + backdrop(
        width,
        height,
        background,
    );
    let close = "</svg>\n"@;
    let pre = open + head;
    let post = tail + close;
    assert(document(width, height, background, regions) == open + (head + element + tail) + close);
    lemma_regroup(open, head, element, tail);
    lemma_regroup(pre, element, tail, close);
    assert(open + (head + element + tail) + close == pre + element + tail + close);
    assert(pre + element + tail + close =~= pre + element + post);
    (pre, d0, d1, post)
}

/// Some region of a colour has something to draw.
spec fn is_drawn(regions: Seq<Patch>, key: int) -> bool {
    exists|i: int, j: int|
        0 <= i < regions.len() && regions[i].color == key && 0 <= j < regions[i].subpaths.len()
            && (#[trigger] regions[i].subpaths[j]).segs.len() >= 2
}

proof fn lemma_data_is_drawn(regions: Seq<Patch>, key: int)
    ensures
        color_data(regions, key).len() > 0 <==> is_drawn(regions, key),
    decreases regions.len(),
{
    if is_drawn(regions, key) {
        let (i, j) = choose|i: int, j: int|
            0 <= i < regions.len() && regions[i].color == key && 0 <= j < regions[i].subpaths.len()
                && (#[trigger] regions[i].subpaths[j]).segs.len() >= 2;
        let r = lemma_subpath_in_data(regions, i, j);
        law_subpath_is_written_whole(regions[i].subpaths[j]);
    }
    if color_data(regions, key).len() > 0 {
        let front = regions.drop_last();
        lemma_data_is_drawn(front, key);
        if is_drawn(front, key) {
            let (i, j) = choose|i: int, j: int|
                0 <= i < front.len() && front[i].color == key && 0 <= j < front[i].subpaths.len()
                    && (#[trigger] front[i].subpaths[j]).segs.len() >= 2;
            assert(regions[i].subpaths[j].segs.len() >= 2);
        } else {
            let sps = regions.last().subpaths;
            let j = lemma_text_is_drawn(sps);
            assert(regions[regions.len() - 1].subpaths[j].segs.len() >= 2);
        }
    }
}

proof fn lemma_text_is_drawn(sps: Seq<Outline>) -> (j: int)
    requires
        subpaths_text(sps).len() > 0,
    ensures
        0 <= j < sps.len(),
        sps[j].segs.len() >= 2,
    decreases sps.len(),
{
    if sps.last().segs.len() >= 2 {
        sps.len() - 1
    } else {
        lemma_text_is_drawn(sps.drop_last())
    }
}

proof fn lemma_keys_drawn(
    regions: Seq<Patch>,
    background: Option<int>,
    below: int,
    key: int,
)
    requires
        0 <= below,
    ensures
        drawn_below(regions, background, below).contains(key) <==> 0 <= key < below && background
            != Some(key) && is_drawn(regions, key),
    decreases below,
{
    if below > 0 {
        lemma_keys_drawn(regions, background, below - 1, key);
        lemma_data_is_drawn(regions, below - 1);
        reveal_strlit("<path d=\"");
        let rest = drawn_below(regions, background, below - 1);
        let keys = drawn_below(regions, background, below);
        if keys.contains(key) {
            let k = choose|k: int| 0 <= k < keys.len() && keys[k] == key;
            if k < rest.len() {
                assert(rest[k] == key);
            }
        }
        if rest.contains(key) {
            let k = choose|k: int| 0 <= k < rest.len() && rest[k] == key;
            assert(keys[k] == key);
        }
        if key == below - 1 && color_element(regions, background, key).len() > 0 {
            assert(keys[keys.len() - 1] == key);
        }
    }
}

/// The element of one colour: its path data, and its colour as the fill.
spec fn element_of(regions: Seq<Patch>, key: int) -> Seq<char> {
    "<path d=\""@ + regions.filter(|r: Patch| r.color == key).map_values(
        |r: Patch| subpaths_text(r.subpaths),
    ).flatten() + "\" fill=\""@ + key_text(key) + "\" fill-rule=\"nonzero\"/>\n"@
}

proof fn lemma_elements_listed(regions: Seq<Patch>, background: Option<int>, below: int)
    requires
        0 <= below,
    ensures
        elements_below(regions, background, below) == drawn_below(
            regions,
            background,
            below,
        ).map_values(|k: int| element_of(regions, k)).flatten(),
    decreases below,
{
    let keys = drawn_below(regions, background, below);
    let text = |k: int| element_of(regions, k);
    if below > 0 {
        lemma_elements_listed(regions, background, below - 1);
        let rest = drawn_below(regions, background, below - 1);
        let one = color_element(regions, background, below - 1);
        if one.len() == 0 {
            assert(elements_below(regions, background, below) =~= elements_below(
                regions,
                background,
                below - 1,
            ));
        } else {
            law_color_data_is_that_of_its_regions(regions, below - 1);
            assert(one == element_of(regions, below - 1));
            let part = rest.map_values(text);
            assert(keys.map_values(text) =~= part.push(text(below - 1)));
            part.lemma_flatten_push(text(below - 1));
        }
    } else {
        assert(keys.map_values(text).flatten() =~= Seq::empty());
    }
}

/// A flat document is a prologue, a canvas of the given size, the backdrop, and one
/// element for each colour that some region draws with, but for the background's: the
/// colours ascend, each is the fill of its element, and the element holds the data of
/// all regions of its colour, in their order.
#[verifier::rlimit(60)]
pub proof fn law_document_holds_each_color_once(
    width: int,
    height: int,
    background: Option<int>,
    regions: Seq<Patch>,
) -> (keys: Seq<int>)
    ensures
        forall|i: int, j: int| 0 <= i < j < keys.len() ==> keys[i] < keys[j],
        forall|key: int| #[trigger]
            keys.contains(key) <==> 0 <= key < 0x100_0000 && background != Some(key) && exists|
                i: int,
                j: int,
            |
                0 <= i < regions.len() && regions[i].color == key && 0 <= j
                    < regions[i].subpaths.len() && (#[trigger] regions[i].subpaths[j]).segs.len() >= 2,
        elements(regions, background) == keys.map_values(
            |k: int|
                "<path d=\""@ + regions.filter(|r: Patch| r.color == k).map_values(
                    |r: Patch| subpaths_text(r.subpaths),
                ).flatten() + "\" fill=\""@ + key_text(k) + "\" fill-rule=\"nonzero\"/>\n"@,
        ).flatten(),
        document(width, height, background, regions) == "<?xml version=\"1.0\" encoding=\"UTF-8\"?>\n"@
            + "<!-- Generator: svgit owned pipeline -->\n"@
            + "<svg xmlns=\"http://www.w3.org/2000/svg\" width=\""@ + decimal(width as nat)
            + "\" height=\""@ + decimal(height as nat) + "\" viewBox=\"0 0 "@ + decimal(
            width as nat,
        ) + " "@ + decimal(height as nat) + "\">\n"@ + (match background {
            None => Seq::empty(),
            Some(bg) => "<rect width=\""@ + decimal(width as nat) + "\" height=\""@ + decimal(
                height as nat,
            ) + "\" fill=\""@ + key_text(bg) + "\"/>\n"@,
        }) + elements(regions, background) + "</svg>\n"@,
{
    let keys = drawn_below(regions, background, 0x100_0000);
    law_one_path_per_color(regions, background, 0x100_0000);
    assert forall|key: int| #[trigger] keys.contains(key) <==> 0 <= key < 0x100_0000 && background
        != Some(key) && is_drawn(regions, key) by {
        lemma_keys_drawn(regions, background, 0x100_0000, key);
    }
    lemma_elements_listed(regions, background, 0x100_0000);
    let text = elements(regions, background);
    assert(keys.map_values(|k: int| element_of(regions, k)) =~= keys.map_values(
        |k: int|
            "<path d=\""@ + regions.filter(|r: Patch| r.color == k).map_values(
                |r: Patch| subpaths_text(r.subpaths),
            ).flatten() + "\" fill=\""@ + key_text(k) + "\" fill-rule=\"nonzero\"/>\n"@,
    ));
    let head = "<?xml version=\"1.0\" encoding=\"UTF-8\"?>\n"@
        + "<!-- Generator: svgit owned pipeline -->\n"@;
    let open = svg_open(width, height);
    let back = backdrop(width, height, background);
    assert(document(width, height, background, regions) == head + open + back + text + "</svg>\n"@);
    assert(head + open =~= head + "<svg xmlns=\"http://www.w3.org/2000/svg\" width=\""@ + decimal(
        width as nat,
    ) + "\" height=\""@ + decimal(height as nat) + "\" viewBox=\"0 0 "@ + decimal(width as nat)
        + " "@ + decimal(height as nat) + "\">\n"@);
    keys
}

/// The value of a hexadecimal digit.
pub open spec fn hex_value(c: char) -> int {
    if c as int >= 97 {
        c as int - 87
    } else {
        c as int - 48
    }
}

/// The number that hexadecimal digits stand for.
pub open spec fn hex_number(s: Seq<char>) -> int
    decreases s.len(),
{
    if s.len() == 0 {
        0
    } else {
        hex_number(s.drop_last()) * 16 + hex_value(s.last())
    }
}

/// A fill is a hash and six hexadecimal digits in lower case, which stand for the
/// colour: red first, then green, then blue.
pub proof fn law_fill_reads_back(c: [u8; 3])
    ensures
        hex_text(c).len() == 7,
        hex_text(c)[0] == '#',
        forall|i: int|
            1 <= i < 7 ==> 48 <= (#[trigger] hex_text(c)[i]) as int <= 57 || 97 <= hex_text(
                c,
            )[i] as int <= 102,
        hex_number(hex_text(c).skip(1)) == c@[0] * 0x1_0000 + c@[1] * 0x100 + c@[2],
        key_text(c@[0] * 0x1_0000 + c@[1] * 0x100 + c@[2]) == hex_text(c),
        color_key(c) == c@[0] * 0x1_0000 + c@[1] * 0x100 + c@[2],
{
    reveal_strlit("#");
    lemma_key_text(c);
    let t = hex_text(c);
    let s = t.skip(1);
    let (r, g, b) = (c@[0] as int, c@[1] as int, c@[2] as int);
    assert(s =~= seq![
        hex_digit(r / 16),
        hex_digit(r % 16),
        hex_digit(g / 16),
        hex_digit(g % 16),
        hex_digit(b / 16),
        hex_digit(b % 16),
    ]);
    let s5 = s.drop_last();
    let s4 = s5.drop_last();
    let s3 = s4.drop_last();
    let s2 = s3.drop_last();
    let s1 = s2.drop_last();
    assert(s1.drop_last() =~= Seq::empty());
    reveal_with_fuel(hex_number, 7);
    assert(hex_number(s1) == r / 16);
    assert(hex_number(s2) == r);
    assert(hex_number(s3) == r * 16 + g / 16);
    assert(hex_number(s4) == r * 256 + g);
    assert(hex_number(s5) == (r * 256 + g) * 16 + b / 16);
}

/// A layered document holds one group for each layer that draws something, bottom
/// first, with the layer's label and the elements of all of its colours.
#[verifier::rlimit(60)]
pub proof fn law_layers_are_groups(
    width: int,
    height: int,
    layers: Seq<(Seq<char>, Seq<Patch>)>,
)
    ensures
        layered_document(width, height, layers) == "<?xml version=\"1.0\" encoding=\"UTF-8\"?>\n"@
            + "<!-- Generator: svgit owned pipeline (layered) -->\n"@
            + "<svg xmlns=\"http://www.w3.org/2000/svg\" width=\""@ + decimal(width as nat)
            + "\" height=\""@ + decimal(height as nat) + "\" viewBox=\"0 0 "@ + decimal(
            width as nat,
        ) + " "@ + decimal(height as nat) + "\">\n"@ + layers.filter(
            |l: (Seq<char>, Seq<Patch>)| elements(l.1, None).len() > 0,
        ).map_values(
            |l: (Seq<char>, Seq<Patch>)|
                "<g data-object=\""@ + escaped(l.0) + "\">\n"@ + elements(l.1, None) + "</g>\n"@,
        ).flatten() + "</svg>\n"@,
{
    lemma_groups(layers);
    let head = "<?xml version=\"1.0\" encoding=\"UTF-8\"?>\n"@
        + "<!-- Generator: svgit owned pipeline (layered) -->\n"@;
    assert(head + svg_open(width, height) =~= head
        + "<svg xmlns=\"http://www.w3.org/2000/svg\" width=\""@ + decimal(width as nat)
        + "\" height=\""@ + decimal(height as nat) + "\" viewBox=\"0 0 "@ + decimal(width as nat)
        + " "@ + decimal(height as nat) + "\">\n"@);
}

#[verifier::rlimit(60)]
proof fn lemma_groups(layers: Seq<(Seq<char>, Seq<Patch>)>)
    ensures
        layers_text(layers) == layers.filter(
            |l: (Seq<char>, Seq<Patch>)| elements(l.1, None).len() > 0,
        ).map_values(
            |l: (Seq<char>, Seq<Patch>)|
                "<g data-object=\""@ + escaped(l.0) + "\">\n"@ + elements(l.1, None) + "</g>\n"@,
        ).flatten(),
    decreases layers.len(),
{
    let drawn = |l: (Seq<char>, Seq<Patch>)| elements(l.1, None).len() > 0;
    let text = |l: (Seq<char>, Seq<Patch>)|
        "<g data-object=\""@ + escaped(l.0) + "\">\n"@ + elements(l.1, None) + "</g>\n"@;
    reveal(Seq::filter);
    if layers.len() == 0 {
        assert(layers.filter(drawn).map_values(text).flatten() =~= Seq::empty());
    } else {
        let front = layers.drop_last();
        lemma_groups(front);
        assert(layers_text(front) == front.filter(drawn).map_values(text).flatten());
        let last = layers.last();
        if drawn(last) {
            let part = front.filter(drawn).map_values(text);
            assert(layers.filter(drawn).map_values(text) =~= part.push(text(last)));
            part.lemma_flatten_push(text(last));
        } else {
            assert(layers_text(layers) =~= layers_text(front));
        }
    }
}

/// A polygon visits its points in turn: one line to each of them, and a lattice point
/// is drawn where it is, in hundredths.
pub proof fn law_lines_visit_every_point(pts: Seq<Ptf>, i: int, p: Pt)
    requires
        0 <= i < pts.len(),
    ensures
        lines_to(pts).len() == pts.len(),
        lines_to(pts)[i] == Seg::Line(pts[i]),
        on_grid(p).0 == p.0 * 100,
        on_grid(p).1 == p.1 * 100,
{
}

/// A coordinate is written as short as it can be: a minus sign where it is negative and no
/// other sign, its whole part without leading zeros, and only where it has hundredths a
/// point with them, without zeros at the end.
pub proof fn law_coordinate_is_written_short(h: int)
    ensures
        ({
            let a = if h < 0 {
                -h
            } else {
                h
            };
            let whole = (if h < 0 {
                seq!['-']
            } else {
                Seq::empty()
            }) + decimal((a / 100) as nat);
            let n = whole.len() as int;
            let t = coord_text(h);
            &&& t.take(n) == whole
            &&& a % 100 == 0 ==> t == whole
            &&& a % 100 != 0 ==> t[n] == '.' && t[n + 1] as int - 48 == a % 100 / 10
            &&& a % 100 != 0 && a % 10 == 0 ==> t.len() == n + 2
            &&& a % 10 != 0 ==> t.len() == n + 3 && t[n + 2] as int - 48 == a % 10
        }),
{
    let a = if h < 0 {
        -h
    } else {
        h
    };
    let whole = (if h < 0 {
        seq!['-']
    } else {
        Seq::empty()
    }) + decimal((a / 100) as nat);
    let r = a % 100;
    assert(r % 10 == a % 10);
    assert(coord_text(h).take(whole.len() as int) =~= whole);
    assert(a % 100 == 0 ==> coord_text(h) =~= whole);
}

/// Escaping goes character by character: the four characters that mean something in an
/// attribute are written by their names, and every other as it is.
pub proof fn law_escaping_goes_by_character(s: Seq<char>)
    ensures
        escaped(s) == s.map_values(
            |c: char|
                if c == '&' {
                    "&amp;"@
                } else if c == '<' {
                    "&lt;"@
                } else if c == '>' {
                    "&gt;"@
                } else if c == '"' {
                    "&quot;"@
                } else {
                    seq![c]
                },
        ).flatten(),
    decreases s.len(),
{
    let name = |c: char|
        if c == '&' {
            "&amp;"@
        } else if c == '<' {
            "&lt;"@
        } else if c == '>' {
            "&gt;"@
        } else if c == '"' {
            "&quot;"@
        } else {
            seq![c]
        };
    if s.len() == 0 {
        assert(s.map_values(name).flatten() =~= Seq::empty());
    } else {
        let front = s.drop_last();
        law_escaping_goes_by_character(front);
        assert(escaped(front) == front.map_values(name).flatten());
        let part = front.map_values(name);
        assert(s.map_values(name) =~= part.push(name(s.last())));
        part.lemma_flatten_push(name(s.last()));
    }
}

/// What is painted is what the regions hold: each region, in its place, in its own colour,
/// red first, and each of its subpaths, in its place, from its own start along all of its
/// own segments.
pub proof fn law_patches_are_the_regions(
    regions: Seq<Region>,
    background: Option<[u8; 3]>,
    layers: Seq<(String, Vec<Region>)>,
    i: int,
    j: int,
)
    ensures
        patches(regions).len() == regions.len(),
        0 <= i < regions.len() ==> ({
            let r = regions[i];
            let p = patches(regions)[i];
            &&& p.color == r.color@[0] * 0x1_0000 + r.color@[1] * 0x100 + r.color@[2]
            &&& p.subpaths.len() == r.subpaths@.len()
            &&& 0 <= j < r.subpaths@.len() ==> p.subpaths[j].start == r.subpaths@[j].start
                && p.subpaths[j].segs == r.subpaths@[j].segs@
        }),
        background is None <==> optional_key(background) is None,
        background matches Some(c) ==> optional_key(background) == Some(
            c@[0] * 0x1_0000 + c@[1] * 0x100 + c@[2],
        ),
        layer_views(layers).len() == layers.len(),
        0 <= i < layers.len() ==> layer_views(layers)[i].0 == layers[i].0@ && layer_views(
            layers,
        )[i].1 == patches(layers[i].1@),
{
}

} // verus!
