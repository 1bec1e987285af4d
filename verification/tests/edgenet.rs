use svgit::edgenet::{
    check_buffer, choose_input_size, edge_map, edge_map_of, feed, planar, prepare_input, strip_alpha,
    Output, MAX_EDGE, MAX_SIDE, PROBABILITY_BOUNDS,
};
use svgit::sampling::{neighbours, resample, Taps};

fn order32(v: u32) -> Option<i32> {
    let v = f32::from_bits(v);
    let bits = v.abs().to_bits() as i32;
    if v.is_nan() {
        None
    } else if v < 0.0 {
        Some(-bits)
    } else {
        Some(bits)
    }
}

fn position(i: usize, source: usize, target: usize) -> f32 {
    (i as f32 + 0.5) * (source as f32 / target as f32) - 0.5
}

fn blend(sx: f32, sy: f32, t: Taps) -> u32 {
    let tx = (sx - sx.floor()).clamp(0.0, 1.0);
    let ty = (sy - sy.floor()).clamp(0.0, 1.0);
    let (a, b, c, d) =
        (f32::from_bits(t.0), f32::from_bits(t.1), f32::from_bits(t.2), f32::from_bits(t.3));
    let top = a + (b - a) * tx;
    let bot = c + (d - c) * tx;
    (top + (bot - top) * ty).to_bits()
}

fn resample_f(src: &[f32], sw: usize, sh: usize, dw: usize, dh: usize) -> Vec<f32> {
    let bits: Vec<u32> = src.iter().map(|v| v.to_bits()).collect();
    let out = resample(
        &bits,
        sw,
        sh,
        dw,
        dh,
        &|x: usize| position(x, sw, dw).floor() as i64,
        &|y: usize| position(y, sh, dh).floor() as i64,
        &|x: usize, y: usize, t: Taps| blend(position(x, sw, dw), position(y, sh, dh), t),
    );
    out.iter().map(|&v| f32::from_bits(v)).collect()
}

#[test]
fn resample_upscales_constant() {
    let src = vec![0.7f32; 4]; // 2x2 constant
    let out = resample_f(&src, 2, 2, 6, 6);
    assert_eq!(out.len(), 36);
    assert!(out.iter().all(|&v| (v - 0.7).abs() < 1e-5));
}

#[test]
fn resample_identity() {
    let src = vec![0.1, 0.2, 0.3, 0.4];
    let out = resample_f(&src, 2, 2, 2, 2);
    for (a, b) in src.iter().zip(out.iter()) {
        assert!((a - b).abs() < 1e-5);
    }
}

fn invert(v: u32, probability: bool) -> u32 {
    let v = f32::from_bits(v);
    (1.0 - if probability { v.clamp(0.0, 1.0) } else { 1.0 / (1.0 + (-v).exp()) }).to_bits()
}

fn capped(w: usize, h: usize) -> (usize, usize) {
    let scale = (MAX_EDGE as f32 / w.max(h) as f32).min(1.0);
    ((h as f32 * scale) as usize, (w as f32 * scale) as usize)
}

/// Takes the place of the resizer for images that it may not take.
fn larger(rgb: Vec<u8>, _: usize, _: usize, w: usize, h: usize) -> Result<Vec<u8>, String> {
    match rgb.first() {
        Some(0) => Err("too large".to_string()),
        first => Ok(vec![*first.unwrap_or(&0); w * h * 3]),
    }
}

fn edges(
    rgba: &[u8],
    w: usize,
    h: usize,
    model: Result<Vec<i64>, String>,
    net: &dyn Fn(&[u8], usize, usize) -> Result<Vec<Output>, String>,
) -> Result<Vec<u32>, String> {
    edge_map(
        rgba,
        w,
        h,
        &|| model.clone(),
        &capped,
        &larger,
        &|input: &[u8], in_w: usize, in_h: usize| net(input, in_w, in_h),
        &order32,
        &invert,
        &|x: usize, ew: usize| position(x, ew, w).floor() as i64,
        &|y: usize, eh: usize| position(y, eh, h).floor() as i64,
        &|x: usize, y: usize, ew: usize, eh: usize, t: Taps| {
            blend(position(x, ew, w), position(y, eh, h), t)
        },
    )
}

fn missing() -> Result<Vec<i64>, String> {
    Err("edge model not found".to_string())
}

fn unused(_: &[u8], _: usize, _: usize) -> Result<Vec<Output>, String> {
    panic!("the net must not be run")
}

#[test]
fn edge_map_rejects_truncated() {
    assert!(edges(&[0, 0, 0], 4, 4, missing(), &unused).is_err());
}

#[test]
fn buffers_are_checked_first() {
    let fault = |rgba: &[u8], w: usize, h: usize| edges(rgba, w, h, missing(), &unused).unwrap_err();
    assert_eq!(fault(&[0, 0, 0], 4, 4), "empty or truncated RGBA buffer");
    assert_eq!(fault(&[0; 64], 0, 4), "empty or truncated RGBA buffer");
    assert_eq!(fault(&[0; 64], usize::MAX, 2), "image dimensions overflow");
    assert_eq!(fault(&[0; 64], usize::MAX / 4, 2), "image dimensions overflow");
    assert_eq!(fault(&[0; 64], 4, 4), "edge model not found");
    assert_eq!(check_buffer(64, 4, 4), Ok(16));
    assert!(check_buffer(63, 4, 4).is_err());
}

#[test]
fn alpha_is_stripped_and_planes_are_split() {
    let rgba = [1, 2, 3, 9, 4, 5, 6, 9];
    assert_eq!(strip_alpha(&rgba, 2), vec![1, 2, 3, 4, 5, 6]);
    assert_eq!(planar(&[1, 2, 3, 4, 5, 6], 2), vec![1, 4, 2, 5, 3, 6]);
    // At its own size the image is fed as it is.
    assert_eq!(prepare_input(&rgba, 2, 1, 2, 1), vec![1, 4, 2, 5, 3, 6]);
}

#[test]
fn images_are_resized() {
    // A plain image stays plain at any size.
    let rgba: Vec<u8> = (0..16).flat_map(|_| [10u8, 20, 30, 255]).collect();
    let planes = prepare_input(&rgba, 4, 4, 3, 5);
    assert_eq!(planes, [vec![10u8; 15], vec![20; 15], vec![30; 15]].concat());
    // Two halves, black and white, average out.
    let rgba = [0, 0, 0, 255, 255, 255, 255, 255];
    let one = prepare_input(&rgba, 2, 1, 1, 1);
    assert_eq!(one.len(), 3);
    assert!(one.iter().all(|&v| (126..=129).contains(&v)), "{one:?}");
}

#[test]
fn model_sides_win_over_the_cap() {
    assert_eq!(choose_input_size(&[1, 3, 480, 640], (100, 200)), (480, 640));
    assert_eq!(choose_input_size(&[1, 3, -1, 640], (100, 207)), (96, 200));
    assert_eq!(choose_input_size(&[1, 3, 0, 640], (7, 8)), (8, 8));
    assert_eq!(choose_input_size(&[], (0, 15)), (8, 8));
    assert_eq!(choose_input_size(&[1, 3, 480], (16, 17)), (16, 16));
}

fn map_of(shape: &[i64], data: &[f32]) -> Output {
    (shape.to_vec(), data.iter().map(|v| v.to_bits()).collect())
}

#[test]
fn net_is_fed_the_resized_planes() {
    let rgba: Vec<u8> = (0..20 * 10).flat_map(|_| [1u8, 2, 3, 255]).collect();
    let net = |input: &[u8], w: usize, h: usize| {
        assert_eq!((w, h), (16, 8));
        assert_eq!(input, [vec![1u8; 128], vec![2; 128], vec![3; 128]].concat());
        Ok(vec![map_of(&[1, 1, 1, 1], &[0.25])])
    };
    let map = edges(&rgba, 20, 10, Ok(vec![1, 3, -1, -1]), &net).unwrap();
    assert_eq!(map, vec![0.75f32.to_bits(); 200]);
    let err = edges(&rgba, 20, 10, Ok(vec![]), &|_, _, _| Err("broken".to_string()));
    assert_eq!(err, Err("broken".to_string()));
}

fn made_of(outputs: Vec<Output>) -> Result<Vec<f32>, String> {
    let r = edge_map_of(
        &outputs,
        2,
        1,
        &order32,
        &invert,
        &|x: usize, ew: usize| position(x, ew, 2).floor() as i64,
        &|y: usize, eh: usize| position(y, eh, 1).floor() as i64,
        &|x: usize, y: usize, ew: usize, eh: usize, t: Taps| {
            blend(position(x, ew, 2), position(y, eh, 1), t)
        },
    );
    r.map(|m| m.iter().map(|&v| f32::from_bits(v)).collect())
}

#[test]
fn last_map_of_rank_four_counts() {
    let out = made_of(vec![
        map_of(&[1, 1, 1, 2], &[0.9, 0.9]),
        map_of(&[1, 1, 1, 2], &[0.25, 1.0]),
        map_of(&[2], &[0.0, 0.0]),
    ]);
    assert_eq!(out, Ok(vec![0.75, 0.0]));
    assert_eq!(
        made_of(vec![map_of(&[2], &[0.0, 0.0])]),
        Err("model produced no rank-4 edge map".to_string())
    );
    assert_eq!(made_of(vec![]), Err("model produced no rank-4 edge map".to_string()));
}

#[test]
fn maps_without_samples_are_rejected() {
    assert_eq!(
        made_of(vec![map_of(&[1, 1, 2, 2], &[0.0; 3])]),
        Err("unexpected edge output shape [1, 1, 2, 2]".to_string())
    );
    assert_eq!(
        made_of(vec![map_of(&[1, 1, -1, 2], &[0.0; 3])]),
        Err("unexpected edge output shape [1, 1, -1, 2]".to_string())
    );
}

#[test]
fn logits_are_told_from_probabilities() {
    // One sample out of bounds makes all of them logits.
    assert_eq!(made_of(vec![map_of(&[1, 1, 1, 2], &[0.0, 1.001])]), Ok(vec![1.0, 0.0]));
    let logits = made_of(vec![map_of(&[1, 1, 1, 2], &[0.0, 9.0])]).unwrap();
    assert_eq!(logits[0], 0.5);
    assert!(logits[1] < 0.001);
    let logits = made_of(vec![map_of(&[1, 1, 1, 2], &[0.0, -0.1])]).unwrap();
    assert_eq!(logits[0], 0.5);
    assert_eq!(order32((-1e-3f32).to_bits()), Some(PROBABILITY_BOUNDS.0));
    assert_eq!(order32((1.0f32 + 1e-3).to_bits()), Some(PROBABILITY_BOUNDS.1));
}

#[test]
fn neighbours_stay_inside() {
    assert_eq!(neighbours(0, 3), (0, 1));
    assert_eq!(neighbours(1, 3), (1, 2));
    assert_eq!(neighbours(2, 3), (2, 2));
    assert_eq!(neighbours(9, 3), (2, 2));
    assert_eq!(neighbours(-1, 3), (0, 0));
    assert_eq!(neighbours(i64::MIN, 3), (0, 0));
    assert_eq!(neighbours(i64::MAX, 1), (0, 0));
}

#[test]
fn images_that_may_not_be_resized_are_handed_over() {
    let w = MAX_SIDE + 1;
    let net = |input: &[u8], w: usize, h: usize| {
        assert_eq!((w, h), (16, 8));
        assert_eq!(input, vec![7u8; w * h * 3]);
        Ok(vec![map_of(&[1, 1, 1, 1], &[0.25])])
    };
    let map = edges(&vec![7; w * 4], w, 1, Ok(vec![1, 3, 8, 16]), &net).unwrap();
    assert_eq!((map.len(), map[w - 1]), (w, 0.75f32.to_bits()));
    assert_eq!(
        edges(&vec![0; w * 4], w, 1, Ok(vec![1, 3, 8, 16]), &unused),
        Err("too large".to_string())
    );
    // The three colour channels are handed over, at the size that is asked for.
    let shown = |rgb: Vec<u8>, w: usize, h: usize, in_w: usize, in_h: usize| {
        assert_eq!((w, h, in_w, in_h), (1, 2, 0, 5));
        assert_eq!(rgb, vec![1, 2, 3, 5, 6, 7]);
        Ok(Vec::new())
    };
    assert_eq!(feed(&[1, 2, 3, 4, 5, 6, 7, 8], 1, 2, 0, 5, &shown), Ok(Vec::new()));
    assert_eq!(feed(&[1, 2, 3, 4], 1, 1, 1, 1, &larger), Ok(vec![1, 2, 3]));
}
