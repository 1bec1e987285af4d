use std::io::Cursor;
use svgit::curvefit::Fit;
use svgit::params::{Job, PathMode, RawParams, Settings};
use svgit::raster::{
    accept_header, accept_pixels, check_size, is_png, is_sound, read_raster, HeaderFault, Raster,
};
use svgit::segment::Segmentation;
use svgit::service::{convert, convert_raster, AppError, Engine, Request};
use svgit::simplify::Pt;
use svgit::svg::Ptf;
use svgit::trace::{trace_config, trace_rgba};
use svgit::vectorize::{is_traceable, vectorize, write_number};

fn png(w: u32, h: u32, pixels: &[u8]) -> Vec<u8> {
    let mut out = Vec::new();
    image::RgbaImage::from_raw(w, h, pixels.to_vec())
        .expect("as many bytes as pixels")
        .write_to(&mut Cursor::new(&mut out), image::ImageOutputFormat::Png)
        .expect("a PNG file");
    out
}

/// The header of a bitmap file, and nothing else.
fn bmp_header(w: u32, h: u32) -> Vec<u8> {
    let mut b = b"BM".to_vec();
    b.extend([0; 8]);
    b.extend(54u32.to_le_bytes());
    b.extend(40u32.to_le_bytes());
    b.extend(w.to_le_bytes());
    b.extend(h.to_le_bytes());
    b.extend(1u16.to_le_bytes());
    b.extend(24u16.to_le_bytes());
    b.extend([0; 24]);
    b
}

fn probe(bytes: &[u8]) -> Result<(u32, u32), HeaderFault> {
    image::io::Reader::new(Cursor::new(bytes))
        .with_guessed_format()
        .map_err(|e| HeaderFault::Read(e.to_string()))?
        .into_dimensions()
        .map_err(|e| HeaderFault::Dimensions(e.to_string()))
}

fn load(bytes: &[u8]) -> Result<Vec<u8>, String> {
    image::load_from_memory(bytes).map(|d| d.to_rgba8().into_raw()).map_err(|e| e.to_string())
}

fn no_probe(_: &[u8]) -> Result<(u32, u32), HeaderFault> {
    panic!("the header must not be asked for")
}

fn no_load(_: &[u8]) -> Result<Vec<u8>, String> {
    panic!("the pixels must not be asked for")
}

/// The checksum of a chunk's type and data.
fn checksum(bytes: &[u8]) -> u32 {
    let mut crc = u32::MAX;
    for byte in bytes {
        crc ^= *byte as u32;
        for _ in 0..8 {
            crc = if crc & 1 == 1 { (crc >> 1) ^ 0xedb8_8320 } else { crc >> 1 };
        }
    }
    !crc
}

/// The file with other dimensions in its header.
fn resized_png(w: u32, h: u32) -> Vec<u8> {
    let mut b = png(1, 1, &[1, 2, 3, 255]);
    b[16..20].copy_from_slice(&w.to_be_bytes());
    b[20..24].copy_from_slice(&h.to_be_bytes());
    let crc = checksum(&b[12..29]);
    b[29..33].copy_from_slice(&crc.to_be_bytes());
    b
}

fn chunk(kind: &[u8], data: &[u8]) -> Vec<u8> {
    let mut c = (data.len() as u32).to_be_bytes().to_vec();
    c.extend(kind);
    c.extend(data);
    let crc = checksum(&c[4..]);
    c.extend(crc.to_be_bytes());
    c
}

/// A file of one pixel, the first of the colours in its palette.
fn indexed_png(palette: &[u8]) -> Vec<u8> {
    let mut b = b"\x89PNG\r\n\x1a\n".to_vec();
    b.extend(chunk(b"IHDR", &[0, 0, 0, 1, 0, 0, 0, 1, 8, 3, 0, 0, 0]));
    b.extend(chunk(b"PLTE", palette));
    // Two zero bytes, stored as they are.
    b.extend(chunk(b"IDAT", &[0x78, 1, 1, 2, 0, 0xfd, 0xff, 0, 0, 0, 2, 0, 1]));
    b.extend(chunk(b"IEND", &[]));
    b
}

fn err(bytes: &[u8]) -> String {
    match read_raster(bytes, &probe, &load) {
        Ok(_) => panic!("taken for an image"),
        Err(e) => e,
    }
}

#[test]
fn images_are_decoded() {
    let pixels = [1, 2, 3, 255, 4, 5, 6, 7, 8, 9, 10, 0, 11, 12, 13, 128, 0, 0, 0, 255, 9, 9, 9, 9];
    let r = read_raster(&png(3, 2, &pixels), &no_probe, &no_load).ok().expect("an image");
    assert_eq!((r.width, r.height), (3, 2));
    assert_eq!(r.pixels, pixels);
}

#[test]
fn what_is_no_image_is_turned_away() {
    assert!(err(b"not an image").starts_with("could not read image dimensions: "));
    assert!(err(b"").starts_with("could not read image dimensions: "));
    // A header without pixels.
    assert!(err(&bmp_header(2, 2)).starts_with("could not decode image: "));
    let file = png(3, 2, &[7; 24]);
    assert!(err(&file[..8]).starts_with("could not read image dimensions: "));
    assert!(err(&file[..file.len() - 20]).starts_with("could not decode image: "));
}

#[test]
fn other_files_are_read_by_the_caller() {
    let two = |_: &[u8]| -> Result<(u32, u32), HeaderFault> { Ok((2, 1)) };
    let four = |b: &[u8]| -> Result<Vec<u8>, String> { Ok(vec![b[0]; 8]) };
    let r = read_raster(b"xyz", &two, &four).ok().expect("a raster");
    assert_eq!((r.width, r.height, r.pixels), (2, 1, vec![b'x'; 8]));
    let torn = |_: &[u8]| -> Result<Vec<u8>, String> { Err("torn".to_string()) };
    let e = read_raster(b"xyz", &two, &torn).err();
    assert_eq!(e, Some("could not decode image: torn".to_string()));
    let gone =
        |_: &[u8]| -> Result<(u32, u32), HeaderFault> { Err(HeaderFault::Read("gone".to_string())) };
    let e = read_raster(b"xyz", &gone, &no_load).err();
    assert_eq!(e, Some("could not read image: gone".to_string()));
    // What is refused by its header is not decoded.
    for size in [(0, 5), (5, 0), (5_001, 5_000)] {
        let huge = |_: &[u8]| -> Result<(u32, u32), HeaderFault> { Ok(size) };
        assert!(read_raster(b"xyz", &huge, &no_load).is_err());
    }
}

#[test]
fn png_files_are_known_by_their_signature() {
    assert!(is_png(&png(1, 1, &[0; 4])));
    assert!(is_png(b"\x89PNG\r\n\x1a\n"));
    assert!(!is_png(b"\x89PNG\r\n\x1a"));
    assert!(!is_png(b"\x89PNG\n\r\x1a\n"));
    assert!(!is_png(b"RIFF....WEBP"));
    assert!(!is_png(b""));
}

#[test]
fn palettes_are_lists_of_colours() {
    let r = read_raster(&indexed_png(&[9, 8, 7]), &no_probe, &no_load).ok().expect("an image");
    assert_eq!((r.width, r.height, r.pixels), (1, 1, vec![9, 8, 7, 255]));
    assert!(is_sound(&indexed_png(&[1; 768])));
    assert!(is_sound(&indexed_png(&[])));
    assert!(is_sound(&png(3, 2, &[7; 24])));
    assert!(is_sound(b"\x89PNG\r\n\x1a\n"));
    assert!(!is_sound(b"GIF89a"));
    // A palette of odd length, or one that is too long, is left to the caller.
    for palette in [vec![9u8; 4], vec![9; 2], vec![9; 771]] {
        let file = indexed_png(&palette);
        assert!(!is_sound(&file));
        let one = |b: &[u8]| -> Result<(u32, u32), HeaderFault> {
            assert_eq!(b, &file[..]);
            Ok((1, 1))
        };
        let four = |_: &[u8]| -> Result<Vec<u8>, String> { Ok(vec![1, 2, 3, 4]) };
        let r = read_raster(&file, &one, &four).ok().expect("a raster");
        assert_eq!(r.pixels, vec![1, 2, 3, 4]);
    }
    // What the end of the file cuts off is not looked at.
    let file = indexed_png(&[9; 4]);
    assert!(is_sound(&file[..40]));
}

#[test]
fn oversized_images_are_turned_away_by_their_header() {
    assert_eq!(
        err(&bmp_header(10_000, 2_501)),
        "image too large: 10000×2501 exceeds the 25 megapixel limit"
    );
    assert_eq!(
        err(&resized_png(25_000_001, 1)),
        "image too large: 25000001×1 exceeds the 25 megapixel limit"
    );
}

#[test]
fn sizes_are_checked() {
    assert_eq!(check_size(5_000, 5_000), Ok(()));
    assert_eq!(
        check_size(5_000, 5_001),
        Err("image too large: 5000×5001 exceeds the 25 megapixel limit".to_string())
    );
    assert!(check_size(u32::MAX, u32::MAX).is_err());
    assert_eq!(check_size(0, 7), Err("image has a zero dimension".to_string()));
    assert_eq!(check_size(7, 0), Err("image has a zero dimension".to_string()));
}

#[test]
fn headers_and_pixels_are_judged() {
    assert_eq!(
        accept_header(Err(HeaderFault::Read("gone".to_string()))),
        Err("could not read image: gone".to_string())
    );
    assert_eq!(
        accept_header(Err(HeaderFault::Dimensions("none".to_string()))),
        Err("could not read image dimensions: none".to_string())
    );
    assert_eq!(accept_header(Ok((3, 4))), Ok((3, 4)));
    assert!(accept_header(Ok((0, 4))).is_err());
    let bad = accept_pixels((1, 1), Err("torn".to_string()));
    assert_eq!(bad.err(), Some("could not decode image: torn".to_string()));
    let good = accept_pixels((1, 1), Ok(vec![1, 2, 3, 4])).ok().expect("a raster");
    assert_eq!((good.width, good.height, good.pixels), (1, 1, vec![1, 2, 3, 4]));
}

fn plain() -> Settings {
    RawParams::default().job().settings
}

/// A black square on white.
fn square(w: usize, h: usize) -> Vec<u8> {
    let mut px = vec![255u8; w * h * 4];
    for y in h / 4..h * 3 / 4 {
        for x in w / 4..w * 3 / 4 {
            px[(y * w + x) * 4..(y * w + x) * 4 + 3].fill(0);
        }
    }
    px
}

#[test]
fn rasters_are_traced() {
    let svg = vectorize(square(16, 12), 16, 12, &plain()).expect("a document");
    // As many paths as along the pixels, filled alike.
    let fills = |svg: &str| -> Vec<String> {
        svg.split("fill=\"").skip(1).map(|t| t[..7].to_string()).collect()
    };
    let outlined =
        vectorize(square(16, 12), 16, 12, &Settings { mode: PathMode::Pixel, ..plain() }).unwrap();
    assert_eq!(fills(&svg), fills(&outlined));
    assert_eq!(fills(&svg).len(), svg.matches("<path d=\"").count());
    assert!(svg.starts_with(
        "<?xml version=\"1.0\" encoding=\"UTF-8\"?>\n\
<!-- Generator: visioncortex VTracer 0.6.5 -->\n\
<svg version=\"1.1\" xmlns=\"http://www.w3.org/2000/svg\" width=\"16\" height=\"12\">\n"
    ));
    assert!(svg.ends_with("</svg>\n"));
    assert!(svg.contains("#000000") && svg.contains("#FFFFFF"));
    let bw = vectorize(square(16, 12), 16, 12, &Settings { binary: true, ..plain() }).unwrap();
    assert_eq!(bw.matches("<path").count(), 1);
    assert_eq!(fills(&bw), vec!["#000000"]);
    for mode in [PathMode::Pixel, PathMode::Polygon] {
        for cutout in [true, false] {
            let s = Settings { mode, cutout, ..plain() };
            let svg = vectorize(square(16, 12), 16, 12, &s).unwrap();
            assert!(svg.contains("<path"));
            assert_eq!(vectorize(square(16, 12), 16, 12, &s).unwrap(), svg);
        }
    }
    assert!(vectorize(square(16, 12), 16, 12, &Settings { mode: PathMode::Spline, ..plain() })
        .unwrap()
        .contains('C'));
}

#[test]
fn marking_colours_do_not_stand_in_the_way() {
    // Every marking colour occurs, and most pixels are transparent.
    let mut px = vec![0u8; 8 * 8 * 4];
    let keys = [[255, 0, 0], [0, 255, 0], [0, 0, 255], [255, 255, 0], [0, 255, 255], [255, 0, 255]];
    for (i, k) in keys.iter().enumerate() {
        px[i * 4..i * 4 + 3].copy_from_slice(k);
        px[i * 4 + 3] = 255;
    }
    match vectorize(px, 8, 8, &plain()) {
        Ok(svg) => assert!(svg.ends_with("</svg>\n")),
        Err(e) => assert_eq!(e, "unable to find unused color in image to use as key"),
    }
}

#[test]
fn traceable_sizes() {
    assert!(is_traceable(4, 1, 1));
    assert!(is_traceable(362 * 362 * 4, 362, 362));
    assert!(!is_traceable(363 * 363 * 4, 363, 363));
    assert!(!is_traceable(3, 1, 1));
    assert!(!is_traceable(0, 0, 1));
    assert!(!is_traceable(0, 1, 0));
    assert!(!is_traceable(1 << 20, 1 << 18, 1));
    assert!(is_traceable(46340 * 4, 46340, 1));
    assert!(!is_traceable(46341 * 4, 46341, 1));
}

#[test]
fn numbers_are_written_exactly() {
    assert_eq!(write_number(3.5f64.to_bits() as i64), "3.5");
    assert_eq!(write_number(4f64.to_bits() as i64), "4.");
    for v in [2.0f64, 3.5, 3.7, 4.0, 4.1, 7.999, 8.0, 9.3, 10.0, 15.999999999999998] {
        let text = write_number(v.to_bits() as i64);
        assert_eq!(text.parse::<f64>().unwrap().to_bits(), v.to_bits(), "{text}");
    }
}

#[test]
fn errors_carry_a_status() {
    let e = AppError::bad("why".to_string());
    assert_eq!((e.code, e.msg.as_str()), (400, "why"));
    let e = AppError::internal("how".to_string());
    assert_eq!((e.code, e.msg.as_str()), (500, "how"));
}

fn no_number(_: &str) -> Option<i64> {
    None
}

#[test]
fn requests_need_an_image() {
    let mut r = Request::new();
    r.set_field("engine", "owned", &no_number);
    let e = match r.finish() {
        Ok(_) => panic!("there is no image"),
        Err(e) => e,
    };
    assert_eq!((e.code, e.msg.as_str()), (400, "missing `image` field"));
}

#[test]
fn requests_gather_image_and_fields() {
    let mut r = Request::new();
    r.set_image(vec![1, 2, 3]);
    r.set_field("engine", " owned ", &no_number);
    r.set_image(vec![4, 5]);
    r.set_field("colors", "7", &no_number);
    let (bytes, job) = r.finish().ok().expect("an image");
    assert_eq!(bytes, vec![4, 5]);
    assert!(job.owned);
    assert_eq!(job.num_colors, 7);
}

fn reduce(mut p: Vec<u8>, n: usize) -> Result<Vec<u8>, String> {
    if n == 2 {
        return Err("too few".to_string());
    }
    p[0] = n as u8;
    Ok(p)
}

/// Two components: the first pixel, and the others, of the last one's colour.
fn segment(idx: &[u32], w: usize, h: usize, _: u32) -> Segmentation {
    let mut labels = vec![1; w * h];
    labels[0] = 0;
    Segmentation {
        width: w,
        height: h,
        labels,
        num_components: 2,
        component_color: vec![idx[0], idx[w * h - 1]],
        component_area: vec![1, (w * h - 1) as u32],
    }
}

fn contours(_: &Segmentation, _: usize) -> Vec<Vec<Pt>> {
    vec![vec![(0, 0), (1, 0), (1, 1), (0, 1)]]
}

fn dist(p: Pt, _: Pt, _: Pt) -> u64 {
    (p.0 + p.1) as u64
}

fn sharp(_: Pt, _: Pt, _: Pt) -> bool {
    true
}

fn start(_: &[Pt], lo: usize, hi: usize) -> Fit<()> {
    Fit { err: 0, split: (lo + hi) / 2, c1: (100, 200), c2: (300, 400), state: () }
}

fn again(span: &[Pt], lo: usize, hi: usize, _: &Fit<()>) -> Fit<()> {
    start(span, lo, hi)
}

fn straight(p: Pt, q: Pt) -> (Ptf, Ptf) {
    ((p.0 as i128 * 100, p.1 as i128 * 100), (q.0 as i128 * 100, q.1 as i128 * 100))
}

fn engine() -> Engine<
    impl Fn(&[u32], usize, usize, u32) -> Segmentation,
    impl Fn(&Segmentation, usize) -> Vec<Vec<Pt>>,
    impl Fn(Pt, Pt, Pt) -> u64,
    impl Fn(Pt, Pt, Pt) -> bool,
    impl Fn(&[Pt], usize, usize) -> Fit<()>,
    impl Fn(&[Pt], usize, usize, &Fit<()>) -> Fit<()>,
    impl Fn(Pt, Pt) -> (Ptf, Ptf),
> {
    Engine { eps2: Some(1), tol: 5, near: 6, segment, contours, dist, sharp, start, again, straight }
}

fn large(p: Vec<u8>, w: usize, h: usize, s: &Settings) -> Result<String, String> {
    Err(format!("{} {w} {h} {}", p[0], s.filter_speckle))
}

fn raster(w: u32, h: u32) -> Raster {
    Raster { width: w, height: h, pixels: vec![255; (w * h * 4) as usize] }
}

#[test]
fn conversions_take_the_engine_that_is_asked_for() {
    let job = |fields: &[(&str, &str)]| {
        let mut p = RawParams::default();
        for (name, value) in fields {
            p.set_field(name, value, &no_number);
        }
        p.job()
    };
    let run = |w: u32, h: u32, j: &Job| convert_raster(raster(w, h), j, &reduce, &engine(), &large);
    // The library's own tracer always takes reduced colours.
    let j = job(&[("engine", "owned"), ("curve", "on")]);
    let e = engine();
    let cfg = trace_config(&j, e.eps2, e.tol, e.near);
    let reduced = reduce(raster(4, 3).pixels, 16).unwrap();
    let svg = trace_rgba(
        &reduced, 4, 3, &cfg, &segment, &contours, &dist, &sharp, &start, &again, &straight,
    );
    assert!(svg.contains("<rect width=\"4\" height=\"3\" fill=\"#ffffff\"/>"), "{svg}");
    assert!(svg.contains("<path") && svg.contains("fill=\"#10ffff\""), "{svg}");
    assert_eq!(run(4, 3, &j), Ok(svg));
    assert_eq!(
        run(4, 3, &job(&[("engine", "owned"), ("colors", "2")])),
        Err("too few".to_string())
    );
    // The clustering one takes them on demand.
    assert!(run(4, 3, &job(&[])).unwrap().contains("width=\"4\" height=\"3\""));
    assert_eq!(
        run(4, 3, &job(&[("quantize", "on"), ("colors", "2")])),
        Err("too few".to_string())
    );
    // Large rasters are handed over.
    assert_eq!(run(400, 400, &job(&[])), Err("255 400 400 4".to_string()));
    assert_eq!(run(400, 400, &job(&[("quantize", "on")])), Err("16 400 400 4".to_string()));
    // So are colours without a layer difference, but not two tones without one.
    let flat = job(&[("layer_difference", "0")]);
    assert_eq!(flat.settings.layer_difference, 0);
    assert_eq!(run(4, 3, &flat), Err("255 4 3 4".to_string()));
    assert!(run(4, 3, &job(&[("layer_difference", "0"), ("color_mode", "bw")])).is_ok());
}

#[test]
fn uploads_are_converted() {
    let job = RawParams::default().job();
    let bytes = png(16, 12, &square(16, 12));
    let svg = convert(&bytes, &job, &no_probe, &no_load, &reduce, &engine(), &large).ok().expect("a document");
    assert!(svg.contains("width=\"16\" height=\"12\"") && svg.contains("<path"));
    let fault = |bytes: &[u8], job: &Job| {
        match convert(bytes, job, &probe, &load, &reduce, &engine(), &large) {
            Ok(_) => panic!("there is nothing to convert"),
            Err(e) => (e.code, e.msg),
        }
    };
    let (code, msg) = fault(b"nothing", &job);
    assert_eq!(code, 400);
    assert!(msg.starts_with("could not read image dimensions: "));
    // What the stages turn away is the request's fault, too.
    let mut p = RawParams::default();
    p.set_field("engine", "owned", &no_number);
    p.set_field("colors", "2", &no_number);
    assert_eq!(fault(&bytes, &p.job()), (400, "too few".to_string()));
    assert_eq!(
        fault(&resized_png(5_001, 5_000), &job),
        (400, "image too large: 5001×5000 exceeds the 25 megapixel limit".to_string())
    );
}
