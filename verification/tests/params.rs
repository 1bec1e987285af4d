use svgit::params::{build_config, PathMode, RawParams, Settings};

fn order(v: f64) -> i64 {
    let bits = v.abs().to_bits() as i64;
    if v < 0.0 {
        -bits
    } else {
        bits
    }
}

fn read_number(text: &str) -> Option<i64> {
    text.parse::<f64>().ok().filter(|v| v.is_finite()).map(order)
}

fn form(fields: &[(&str, &str)]) -> RawParams {
    let mut p = RawParams::default();
    for (name, value) in fields {
        p.set_field(name, value, &read_number);
    }
    p
}

fn settings(fields: &[(&str, &str)]) -> Settings {
    build_config(&form(fields))
}

fn plain() -> Settings {
    Settings {
        binary: false,
        cutout: false,
        filter_speckle: 4,
        color_precision: 6,
        layer_difference: 16,
        mode: PathMode::Spline,
        corner_threshold: 60,
        length_threshold: order(4.0),
        max_iterations: 10,
        splice_threshold: 45,
        path_precision: Some(2),
    }
}

#[test]
fn presets_are_those_of_the_tracer() {
    assert_eq!(settings(&[]), plain());
    assert_eq!(settings(&[("preset", "watercolour")]), plain());
    assert_eq!(settings(&[("preset", "bw")]), Settings { binary: true, ..plain() });
    assert_eq!(settings(&[("preset", "poster")]), Settings { color_precision: 8, ..plain() });
    assert_eq!(
        settings(&[("preset", "photo")]),
        Settings {
            filter_speckle: 10,
            color_precision: 8,
            layer_difference: 48,
            corner_threshold: 180,
            ..plain()
        }
    );
}

#[test]
fn values_out_of_range_are_clamped() {
    let high = settings(&[
        ("filter_speckle", "99"),
        ("color_precision", "99"),
        ("layer_difference", "999"),
        ("corner_threshold", "999"),
        ("length_threshold", "1e300"),
        ("max_iterations", "99"),
        ("splice_threshold", "999"),
        ("path_precision", "99"),
    ]);
    assert_eq!(
        high,
        Settings {
            filter_speckle: 16,
            color_precision: 8,
            layer_difference: 255,
            corner_threshold: 180,
            length_threshold: order(10.0),
            max_iterations: 20,
            splice_threshold: 180,
            path_precision: Some(8),
            ..plain()
        }
    );
    let low = settings(&[
        ("filter_speckle", "0"),
        ("color_precision", "-7"),
        ("layer_difference", "-7"),
        ("corner_threshold", "-7"),
        ("length_threshold", "-1.5"),
        ("max_iterations", "0"),
        ("splice_threshold", "-1"),
        ("path_precision", "0"),
    ]);
    assert_eq!(
        low,
        Settings {
            filter_speckle: 0,
            color_precision: 1,
            layer_difference: 0,
            corner_threshold: 0,
            length_threshold: order(3.5),
            max_iterations: 1,
            splice_threshold: 0,
            path_precision: Some(0),
            ..plain()
        }
    );
    assert_eq!(settings(&[("length_threshold", "7.25")]).length_threshold, order(7.25));
}

#[test]
fn modes_are_named() {
    let mode = |v: &str| settings(&[("mode", v)]).mode;
    assert_eq!(mode("pixel"), PathMode::Pixel);
    assert_eq!(mode("none"), PathMode::Pixel);
    assert_eq!(mode("polygon"), PathMode::Polygon);
    assert_eq!(mode("spline"), PathMode::Spline);
    assert_eq!(mode("anything"), PathMode::Spline);
    for v in ["binary", "bw", "BW"] {
        assert!(settings(&[("color_mode", v)]).binary);
    }
    assert!(!settings(&[("preset", "bw"), ("color_mode", "color")]).binary);
    assert!(settings(&[("hierarchical", "cutout")]).cutout);
    assert!(!settings(&[("hierarchical", "stacked")]).cutout);
}

#[test]
fn fields_are_trimmed_and_read() {
    let p = form(&[
        ("colors", " 12 "),
        ("min_region", "+7"),
        ("color_precision", "\t-3\n"),
        ("corner_threshold", "12x"),
        ("path_precision", "-1"),
        ("filter_speckle", "18446744073709551616"),
        ("curve", " on"),
        ("simplify", "2.5"),
        ("curve_error", "inf"),
        ("engine", "own ed"),
    ]);
    assert_eq!(p.colors, Some(12));
    assert_eq!(p.min_region, Some(7));
    assert_eq!(p.color_precision, Some(-3));
    assert_eq!(p.corner_threshold, None);
    assert_eq!(p.path_precision, None);
    assert_eq!(p.filter_speckle, None);
    assert_eq!(p.curve.as_deref(), Some("on"));
    assert_eq!(p.simplify, Some(order(2.5)));
    assert_eq!(p.curve_error, None);
    assert_eq!(p.engine.as_deref(), Some("own ed"));
}

#[test]
fn numbers_are_read_up_to_their_limits() {
    let p = |v: &str| form(&[("layer_difference", v)]).layer_difference;
    assert_eq!(p("2147483647"), Some(i32::MAX));
    assert_eq!(p("2147483648"), None);
    assert_eq!(p("-2147483648"), Some(i32::MIN));
    assert_eq!(p("-2147483649"), None);
    assert_eq!(p("-0"), Some(0));
    assert_eq!(p("-"), None);
    assert_eq!(p("+"), None);
    assert_eq!(p("000012"), Some(12));
    assert_eq!(p("1 2"), None);
    let q = |v: &str| form(&[("min_region", v)]).min_region;
    assert_eq!(q("4294967295"), Some(u32::MAX));
    assert_eq!(q("4294967296"), None);
    assert_eq!(form(&[("colors", "18446744073709551615")]).colors, Some(usize::MAX));
}

#[test]
fn last_value_counts_unless_it_is_blank() {
    let p = form(&[("preset", "bw"), ("preset", "photo"), ("preset", "  "), ("shape", "round")]);
    assert_eq!(p.preset.as_deref(), Some("photo"));
    // A number that cannot be read takes the parameter back.
    assert_eq!(form(&[("colors", "5"), ("colors", "many")]).colors, None);
}

#[test]
fn blank_form_asks_for_the_defaults() {
    let job = RawParams::default().job();
    assert!(!job.quantize && !job.owned && !job.curve);
    assert_eq!(job.num_colors, 16);
    assert_eq!(job.min_region, 4);
    assert_eq!(job.simplify, order(1.2));
    assert_eq!(job.curve_corner, order(80.0));
    assert_eq!(job.curve_error, order(2.0));
    assert_eq!(job.settings, plain());
}

#[test]
fn jobs_are_clamped() {
    let job = form(&[
        ("engine", "owned"),
        ("quantize", "true"),
        ("curve", "1"),
        ("colors", "1"),
        ("min_region", "5000"),
        ("simplify", "-3"),
        ("curve_corner", "181"),
        ("curve_error", "0"),
    ])
    .job();
    assert!(job.quantize && job.owned && job.curve);
    assert_eq!(job.num_colors, 2);
    assert_eq!(job.min_region, 4096);
    assert_eq!(job.simplify, 0);
    assert_eq!(job.curve_corner, order(180.0));
    assert_eq!(job.curve_error, order(0.1));
    let job = form(&[("colors", "999"), ("simplify", "11"), ("curve_error", "21")]).job();
    assert_eq!(job.num_colors, 256);
    assert_eq!(job.simplify, order(10.0));
    assert_eq!(job.curve_error, order(20.0));
    assert!(!form(&[("quantize", "yes")]).job().quantize);
}
