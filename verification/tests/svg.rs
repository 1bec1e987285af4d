use svgit::svg::{
    attr_escape, fnum, hex, polygon_subpath, polygon_subpath_f, to_svg, to_svg_layered,
    write_subpath, Region, Seg, Subpath,
};

#[test]
fn colours_are_written_in_lower_case() {
    assert_eq!(hex([0xab, 0x0c, 0xff]), "#ab0cff");
    assert_eq!(hex([0, 0, 0]), "#000000");
}

#[test]
fn coordinates_lose_trailing_zeros() {
    assert_eq!(fnum(0), "0");
    assert_eq!(fnum(1200), "12");
    assert_eq!(fnum(1250), "12.5");
    assert_eq!(fnum(1205), "12.05");
    assert_eq!(fnum(-7), "-0.07");
    assert_eq!(fnum(-130), "-1.3");
    assert_eq!(fnum(10000), "100");
    assert_eq!(fnum(i64::MAX as i128 * 100), "9223372036854775807");
    assert_eq!(fnum(i128::MIN), "-1701411834604692317316873037158841057.28");
}

fn square(color: [u8; 3], x: i32) -> Region {
    let pts = [(x, 0), (x + 1, 0), (x + 1, 1), (x, 1)];
    Region { color, subpaths: vec![polygon_subpath(&pts)] }
}

#[test]
fn subpaths_are_path_commands() {
    let mut d = String::from("x");
    write_subpath(&mut d, &polygon_subpath(&[(0, 0), (2, 0), (2, 3)]));
    assert_eq!(d, "xM0 0L2 0L2 3Z");
    let curve = Subpath {
        start: (50, 0),
        segs: vec![Seg::Cubic((100, 25), (150, -25), (200, 0)), Seg::Line((50, 0))],
    };
    write_subpath(&mut d, &curve);
    assert_eq!(d, "xM0 0L2 0L2 3ZM0.5 0C1 0.25 1.5 -0.25 2 0L0.5 0Z");
    // Fewer than two segments are not drawn.
    write_subpath(&mut d, &polygon_subpath(&[(0, 0), (2, 0)]));
    write_subpath(&mut d, &polygon_subpath_f(&[]));
    assert_eq!(d.len(), "xM0 0L2 0L2 3ZM0.5 0C1 0.25 1.5 -0.25 2 0L0.5 0Z".len());
}

#[test]
fn polygons_from_points_off_the_lattice() {
    let sp = polygon_subpath_f(&[(5, 6), (7, 8), (9, 10)]);
    assert_eq!(sp.start, (5, 6));
    assert_eq!(sp.segs, vec![Seg::Line((7, 8)), Seg::Line((9, 10))]);
    let sp = polygon_subpath_f(&[]);
    assert_eq!(sp.start, (0, 0));
    assert!(sp.segs.is_empty());
}

const HEAD: &str = "<?xml version=\"1.0\" encoding=\"UTF-8\"?>\n";

#[test]
fn whole_document() {
    let regions = vec![square([2, 0, 0], 0), square([1, 0, 0], 1), square([2, 0, 0], 5)];
    let svg = to_svg(10, 20, Some([9, 9, 9]), &regions);
    let want = format!(
        "{HEAD}<!-- Generator: svgit owned pipeline -->\n\
<svg xmlns=\"http://www.w3.org/2000/svg\" width=\"10\" height=\"20\" viewBox=\"0 0 10 20\">\n\
<rect width=\"10\" height=\"20\" fill=\"#090909\"/>\n\
<path d=\"M1 0L2 0L2 1L1 1Z\" fill=\"#010000\" fill-rule=\"nonzero\"/>\n\
<path d=\"M0 0L1 0L1 1L0 1ZM5 0L6 0L6 1L5 1Z\" fill=\"#020000\" fill-rule=\"nonzero\"/>\n\
</svg>\n"
    );
    assert_eq!(svg, want);
}

#[test]
fn order_of_different_colours_is_irrelevant() {
    let a = vec![square([2, 0, 0], 0), square([1, 0, 0], 1), square([2, 0, 0], 5)];
    let b = vec![square([1, 0, 0], 1), square([2, 0, 0], 0), square([2, 0, 0], 5)];
    assert_eq!(to_svg(9, 9, None, &a), to_svg(9, 9, None, &b));
}

#[test]
fn regions_of_the_background_colour_are_dropped() {
    let with = vec![square([1, 2, 3], 0), square([7, 7, 7], 1)];
    let without = vec![square([7, 7, 7], 1)];
    let bg = Some([1, 2, 3]);
    assert_eq!(to_svg(9, 9, bg, &with), to_svg(9, 9, bg, &without));
    assert_eq!(to_svg(9, 9, bg, &with).matches("<path").count(), 1);
}

#[test]
fn colours_without_data_have_no_path() {
    let empty = Region { color: [4, 4, 4], subpaths: vec![polygon_subpath(&[(0, 0), (1, 0)])] };
    let svg = to_svg(3, 3, None, &[empty]);
    assert!(!svg.contains("<path"));
    assert!(svg.ends_with("viewBox=\"0 0 3 3\">\n</svg>\n"));
}

#[test]
fn attributes_are_escaped() {
    assert_eq!(attr_escape("a<b>&\"c\" &amp;"), "a&lt;b&gt;&amp;&quot;c&quot; &amp;amp;");
    assert_eq!(attr_escape(""), "");
    assert_eq!(attr_escape("é"), "é");
}

#[test]
fn layers_are_groups() {
    let layers = vec![
        ("sky & \"sea\"".to_string(), vec![square([0, 0, 9], 0)]),
        ("nothing".to_string(), vec![]),
        ("top".to_string(), vec![square([3, 0, 0], 1), square([1, 0, 0], 2)]),
    ];
    let svg = to_svg_layered(4, 5, &layers);
    let want = format!(
        "{HEAD}<!-- Generator: svgit owned pipeline (layered) -->\n\
<svg xmlns=\"http://www.w3.org/2000/svg\" width=\"4\" height=\"5\" viewBox=\"0 0 4 5\">\n\
<g data-object=\"sky &amp; &quot;sea&quot;\">\n\
<path d=\"M0 0L1 0L1 1L0 1Z\" fill=\"#000009\" fill-rule=\"nonzero\"/>\n\
</g>\n\
<g data-object=\"top\">\n\
<path d=\"M2 0L3 0L3 1L2 1Z\" fill=\"#010000\" fill-rule=\"nonzero\"/>\n\
<path d=\"M1 0L2 0L2 1L1 1Z\" fill=\"#030000\" fill-rule=\"nonzero\"/>\n\
</g>\n\
</svg>\n"
    );
    assert_eq!(svg, want);
}
