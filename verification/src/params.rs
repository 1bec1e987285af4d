//! The parameters of a conversion: what a form may say, and what is made of it.
//!
//! Every parameter is optional. Values out of range are clamped rather than
//! rejected, so that a slider can never produce an error. Real numbers are held as
//! order keys (see the crate documentation).

use vstd::math::{max, min};
use vstd::prelude::*;
use vtracer::{ColorMode, Config, Hierarchical, Preset};
use visioncortex::PathSimplifyMode;
use crate::text::{
    parse_signed, parse_unsigned, same, signed_value, text_of, trim_chars, trimmed, unsigned_value,
};

verus! {

/// How the outlines of clusters are drawn.
#[derive(Debug, Clone, Copy, PartialEq, Eq, Structural)]
pub enum PathMode {
    /// Along the pixels.
    Pixel,
    /// As polygons.
    Polygon,
    /// As splines.
    Spline,
}

/// The settings of the clustering tracer.
#[derive(Debug, Clone, Copy, PartialEq, Eq)]
pub struct Settings {
    /// Black and white instead of colours.
    pub binary: bool,
    /// Cut shapes out of each other instead of stacking them.
    pub cutout: bool,
    /// Clusters smaller than the square of this are discarded.
    pub filter_speckle: usize,
    /// The significant bits of a colour channel.
    pub color_precision: i32,
    /// The colour difference between layers.
    pub layer_difference: i32,
    /// How outlines are drawn.
    pub mode: PathMode,
    /// The least angle of a corner, in degrees.
    pub corner_threshold: i32,
    /// Order key of the length that segments are subdivided down to.
    pub length_threshold: i64,
    /// How often segments are subdivided at most.
    pub max_iterations: usize,
    /// The least angle at which a spline is spliced, in degrees.
    pub splice_threshold: i32,
    /// The decimals of coordinates.
    pub path_precision: Option<u32>,
}

/// What settings start from.
#[derive(Debug, Clone, Copy, PartialEq, Eq, Structural)]
pub enum Base {
    Plain,
    Bw,
    Poster,
    Photo,
}

/// The settings of a base.
pub open spec fn base_of(base: Base) -> Settings {
    Settings {
        binary: base == Base::Bw,
        cutout: false,
        filter_speckle: if base == Base::Photo {
            10
        } else {
            4
        },
        color_precision: if base == Base::Poster || base == Base::Photo {
            8
        } else {
            6
        },
        layer_difference: if base == Base::Photo {
            48
        } else {
            16
        },
        mode: PathMode::Spline,
        corner_threshold: if base == Base::Photo {
            180
        } else {
            60
        },
        length_threshold: 0x4010_0000_0000_0000,
        max_iterations: 10,
        splice_threshold: 45,
        path_precision: Some(2),
    }
}

/// `vtracer::Config::default` and `vtracer::Config::from_preset`: the settings that
/// [`base_of`] lists, field by field. The length threshold is 4 for each of them.
#[verifier::external_body]
fn base_settings(base: Base) -> (s: Settings)
    ensures
        s == base_of(base),
{
    let c = match base {
        Base::Plain => Config::default(),
        Base::Bw => Config::from_preset(Preset::Bw),
        Base::Poster => Config::from_preset(Preset::Poster),
        Base::Photo => Config::from_preset(Preset::Photo),
    };
    Settings { binary: matches!(c.color_mode, ColorMode::Binary), cutout: matches!(c.hierarchical, Hierarchical::Cutout),
        filter_speckle: c.filter_speckle, color_precision: c.color_precision, layer_difference: c.layer_difference,
        mode: match c.mode { PathSimplifyMode::None => PathMode::Pixel, PathSimplifyMode::Polygon => PathMode::Polygon, PathSimplifyMode::Spline => PathMode::Spline },
        corner_threshold: c.corner_threshold, length_threshold: c.length_threshold.to_bits() as i64, max_iterations: c.max_iterations,
        splice_threshold: c.splice_threshold, path_precision: c.path_precision }
}

/// Raw, unvalidated parameters as a form gives them. Missing ones fall back to the
/// defaults, or to the chosen preset.
pub struct RawParams {
    pub preset: Option<String>,
    pub engine: Option<String>,
    pub quantize: Option<String>,
    pub colors: Option<usize>,
    pub simplify: Option<i64>,
    pub min_region: Option<u32>,
    pub curve: Option<String>,
    pub curve_corner: Option<i64>,
    pub curve_error: Option<i64>,
    pub color_mode: Option<String>,
    pub hierarchical: Option<String>,
    pub mode: Option<String>,
    pub filter_speckle: Option<usize>,
    pub color_precision: Option<i32>,
    pub layer_difference: Option<i32>,
    pub corner_threshold: Option<i32>,
    pub length_threshold: Option<i64>,
    pub splice_threshold: Option<i32>,
    pub max_iterations: Option<usize>,
    pub path_precision: Option<u32>,
}

/// What raw parameters say.
pub ghost struct Form {
    pub preset: Option<Seq<char>>,
    pub engine: Option<Seq<char>>,
    pub quantize: Option<Seq<char>>,
    pub colors: Option<int>,
    pub simplify: Option<i64>,
    pub min_region: Option<int>,
    pub curve: Option<Seq<char>>,
    pub curve_corner: Option<i64>,
    pub curve_error: Option<i64>,
    pub color_mode: Option<Seq<char>>,
    pub hierarchical: Option<Seq<char>>,
    pub mode: Option<Seq<char>>,
    pub filter_speckle: Option<int>,
    pub color_precision: Option<int>,
    pub layer_difference: Option<int>,
    pub corner_threshold: Option<int>,
    pub length_threshold: Option<i64>,
    pub splice_threshold: Option<int>,
    pub max_iterations: Option<int>,
    pub path_precision: Option<int>,
}

/// The text of an optional parameter.
pub open spec fn text_view(t: Option<String>) -> Option<Seq<char>> {
    match t {
        None => None,
        Some(t) => Some(t@),
    }
}

/// An optional number.
pub open spec fn usize_view(n: Option<usize>) -> Option<int> {
    match n {
        None => None,
        Some(n) => Some(n as int),
    }
}

/// An optional number.
pub open spec fn u32_view(n: Option<u32>) -> Option<int> {
    match n {
        None => None,
        Some(n) => Some(n as int),
    }
}

/// An optional number.
pub open spec fn i32_view(n: Option<i32>) -> Option<int> {
    match n {
        None => None,
        Some(n) => Some(n as int),
    }
}

impl View for RawParams {
    type V = Form;

    open spec fn view(&self) -> Form {
        Form {
            preset: text_view(self.preset),
            engine: text_view(self.engine),
            quantize: text_view(self.quantize),
            colors: usize_view(self.colors),
            simplify: self.simplify,
            min_region: u32_view(self.min_region),
            curve: text_view(self.curve),
            curve_corner: self.curve_corner,
            curve_error: self.curve_error,
            color_mode: text_view(self.color_mode),
            hierarchical: text_view(self.hierarchical),
            mode: text_view(self.mode),
            filter_speckle: usize_view(self.filter_speckle),
            color_precision: i32_view(self.color_precision),
            layer_difference: i32_view(self.layer_difference),
            corner_threshold: i32_view(self.corner_threshold),
            length_threshold: self.length_threshold,
            splice_threshold: i32_view(self.splice_threshold),
            max_iterations: usize_view(self.max_iterations),
            path_precision: u32_view(self.path_precision),
        }
    }
}

/// Parameters that say nothing.
pub open spec fn blank() -> Form {
    Form {
        preset: None,
        engine: None,
        quantize: None,
        colors: None,
        simplify: None,
        min_region: None,
        curve: None,
        curve_corner: None,
        curve_error: None,
        color_mode: None,
        hierarchical: None,
        mode: None,
        filter_speckle: None,
        color_precision: None,
        layer_difference: None,
        corner_threshold: None,
        length_threshold: None,
        splice_threshold: None,
        max_iterations: None,
        path_precision: None,
    }
}

impl Default for RawParams {
    fn default() -> (p: Self)
        ensures
            p@ == blank(),
    {
        RawParams {
            preset: None,
            engine: None,
            quantize: None,
            colors: None,
            simplify: None,
            min_region: None,
            curve: None,
            curve_corner: None,
            curve_error: None,
            color_mode: None,
            hierarchical: None,
            mode: None,
            filter_speckle: None,
            color_precision: None,
            layer_difference: None,
            corner_threshold: None,
            length_threshold: None,
            splice_threshold: None,
            max_iterations: None,
            path_precision: None,
        }
    }
}

/// The parameters after a field of the form, without the white space around its
/// value. A number that cannot be read takes the parameter back; a blank value and
/// a field that is not known change nothing. `decimal` reads a finite number.
pub open spec fn with_field(
    p: Form,
    name: Seq<char>,
    value: Seq<char>,
    decimal: spec_fn(Seq<char>) -> Option<i64>,
) -> Form {
    let v = trimmed(value);
    if v.len() == 0 {
        p
    } else if name == "preset"@ {
        Form { preset: Some(v), ..p }
    } else if name == "engine"@ {
        Form { engine: Some(v), ..p }
    } else if name == "quantize"@ {
        Form { quantize: Some(v), ..p }
    } else if name == "colors"@ {
        Form { colors: unsigned_value(v, usize::MAX as int), ..p }
    } else if name == "simplify"@ {
        Form { simplify: decimal(v), ..p }
    } else if name == "min_region"@ {
        Form { min_region: unsigned_value(v, u32::MAX as int), ..p }
    } else if name == "curve"@ {
        Form { curve: Some(v), ..p }
    } else if name == "curve_corner"@ {
        Form { curve_corner: decimal(v), ..p }
    } else if name == "curve_error"@ {
        Form { curve_error: decimal(v), ..p }
    } else if name == "color_mode"@ {
        Form { color_mode: Some(v), ..p }
    } else if name == "hierarchical"@ {
        Form { hierarchical: Some(v), ..p }
    } else if name == "mode"@ {
        Form { mode: Some(v), ..p }
    } else if name == "filter_speckle"@ {
        Form { filter_speckle: unsigned_value(v, usize::MAX as int), ..p }
    } else if name == "color_precision"@ {
        Form { color_precision: signed_value(v, i32::MIN as int, i32::MAX as int), ..p }
    } else if name == "layer_difference"@ {
        Form { layer_difference: signed_value(v, i32::MIN as int, i32::MAX as int), ..p }
    } else if name == "corner_threshold"@ {
        Form { corner_threshold: signed_value(v, i32::MIN as int, i32::MAX as int), ..p }
    } else if name == "length_threshold"@ {
        Form { length_threshold: decimal(v), ..p }
    } else if name == "splice_threshold"@ {
        Form { splice_threshold: signed_value(v, i32::MIN as int, i32::MAX as int), ..p }
    } else if name == "max_iterations"@ {
        Form { max_iterations: unsigned_value(v, usize::MAX as int), ..p }
    } else if name == "path_precision"@ {
        Form { path_precision: unsigned_value(v, u32::MAX as int), ..p }
    } else {
        p
    }
}

/// `decimal` computes `m`.
pub open spec fn reads<N: Fn(&str) -> Option<i64>>(
    decimal: N,
    m: spec_fn(Seq<char>) -> Option<i64>,
) -> bool {
    forall|s: &str, k: Option<i64>| #[trigger] decimal.ensures((s,), k) ==> k == m(s@)
}

fn parse_usize(cs: &Vec<char>) -> (r: Option<usize>)
    ensures
        usize_view(r) == unsigned_value(cs@, usize::MAX as int),
{
    match parse_unsigned(cs, usize::MAX as u64) {
        Some(n) => Some(n as usize),
        None => None,
    }
}

fn parse_u32(cs: &Vec<char>) -> (r: Option<u32>)
    ensures
        u32_view(r) == unsigned_value(cs@, u32::MAX as int),
{
    match parse_unsigned(cs, 0xffff_ffff) {
        Some(n) => Some(n as u32),
        None => None,
    }
}

impl RawParams {
    /// Takes in a field of the form.
    pub fn set_field<N: Fn(&str) -> Option<i64>>(&mut self, name: &str, value: &str, decimal: &N)
        requires
            forall|s: &str| #[trigger] decimal.requires((s,)),
        ensures
            forall|m: spec_fn(Seq<char>) -> Option<i64>| #[trigger]
                reads(*decimal, m) ==> final(self)@ == with_field(old(self)@, name@, value@, m),
    {
        let cs = trim_chars(value);
        if cs.len() == 0 {
            return;
        }
        let v = text_of(&cs);
        if same(name, "preset") {
            self.preset = Some(v);
        } else if same(name, "engine") {
            self.engine = Some(v);
        } else if same(name, "quantize") {
            self.quantize = Some(v);
        } else if same(name, "colors") {
            self.colors = parse_usize(&cs);
        } else if same(name, "simplify") {
            self.simplify = decimal(v.as_str());
        } else if same(name, "min_region") {
            self.min_region = parse_u32(&cs);
        } else if same(name, "curve") {
            self.curve = Some(v);
        } else if same(name, "curve_corner") {
            self.curve_corner = decimal(v.as_str());
        } else if same(name, "curve_error") {
            self.curve_error = decimal(v.as_str());
        } else if same(name, "color_mode") {
            self.color_mode = Some(v);
        } else if same(name, "hierarchical") {
            self.hierarchical = Some(v);
        } else if same(name, "mode") {
            self.mode = Some(v);
        } else if same(name, "filter_speckle") {
            self.filter_speckle = parse_usize(&cs);
        } else if same(name, "color_precision") {
            self.color_precision = parse_signed(&cs);
        } else if same(name, "layer_difference") {
            self.layer_difference = parse_signed(&cs);
        } else if same(name, "corner_threshold") {
            self.corner_threshold = parse_signed(&cs);
        } else if same(name, "length_threshold") {
            self.length_threshold = decimal(v.as_str());
        } else if same(name, "splice_threshold") {
            self.splice_threshold = parse_signed(&cs);
        } else if same(name, "max_iterations") {
            self.max_iterations = parse_usize(&cs);
        } else if same(name, "path_precision") {
            self.path_precision = parse_u32(&cs);
        }
    }
}

/// A number held between two bounds.
pub open spec fn clamped(v: int, lo: int, hi: int) -> int {
    if v < lo {
        lo
    } else if v > hi {
        hi
    } else {
        v
    }
}

fn clamp_i32(v: i32, lo: i32, hi: i32) -> (r: i32)
    ensures
        r == clamped(v as int, lo as int, hi as int),
{
    if v < lo {
        lo
    } else if v > hi {
        hi
    } else {
        v
    }
}

fn clamp_usize(v: usize, lo: usize, hi: usize) -> (r: usize)
    ensures
        r == clamped(v as int, lo as int, hi as int),
{
    if v < lo {
        lo
    } else if v > hi {
        hi
    } else {
        v
    }
}

fn clamp_key(v: i64, lo: i64, hi: i64) -> (r: i64)
    ensures
        r == clamped(v as int, lo as int, hi as int),
{
    if v < lo {
        lo
    } else if v > hi {
        hi
    } else {
        v
    }
}

/// The base that a preset names; the plain defaults where it names none.
pub open spec fn base_named(preset: Option<Seq<char>>) -> Base {
    if preset == Some("bw"@) {
        Base::Bw
    } else if preset == Some("poster"@) {
        Base::Poster
    } else if preset == Some("photo"@) {
        Base::Photo
    } else {
        Base::Plain
    }
}

/// The mode that a text names.
pub open spec fn mode_named(v: Seq<char>) -> PathMode {
    if v == "pixel"@ || v == "none"@ {
        PathMode::Pixel
    } else if v == "polygon"@ {
        PathMode::Polygon
    } else {
        PathMode::Spline
    }
}

/// The settings that parameters ask for: those of the preset, with what the form
/// says in its place, clamped.
pub open spec fn settings_of(p: Form) -> Settings {
    let base = base_of(base_named(p.preset));
    Settings {
        binary: match p.color_mode {
            Some(v) => v == "binary"@ || v == "bw"@ || v == "BW"@,
            None => base.binary,
        },
        cutout: match p.hierarchical {
            Some(v) => v == "cutout"@,
            None => base.cutout,
        },
        filter_speckle: match p.filter_speckle {
            Some(v) => clamped(v, 0, 16) as usize,
            None => base.filter_speckle,
        },
        color_precision: match p.color_precision {
            Some(v) => clamped(v, 1, 8) as i32,
            None => base.color_precision,
        },
        layer_difference: match p.layer_difference {
            Some(v) => clamped(v, 0, 255) as i32,
            None => base.layer_difference,
        },
        mode: match p.mode {
            Some(v) => mode_named(v),
            None => base.mode,
        },
        corner_threshold: match p.corner_threshold {
            Some(v) => clamped(v, 0, 180) as i32,
            None => base.corner_threshold,
        },
        length_threshold: match p.length_threshold {
            Some(v) => clamped(v as int, 0x400c_0000_0000_0000, 0x4024_0000_0000_0000) as i64,
            None => base.length_threshold,
        },
        max_iterations: match p.max_iterations {
            Some(v) => clamped(v, 1, 20) as usize,
            None => base.max_iterations,
        },
        splice_threshold: match p.splice_threshold {
            Some(v) => clamped(v, 0, 180) as i32,
            None => base.splice_threshold,
        },
        path_precision: match p.path_precision {
            Some(v) => Some(clamped(v, 0, 8) as u32),
            None => base.path_precision,
        },
    }
}

/// Whether an optional text is the given one.
fn is(t: &Option<String>, want: &str) -> (b: bool)
    ensures
        b == (text_view(*t) == Some(want@)),
{
    match t {
        None => false,
        Some(t) => same(t.as_str(), want),
    }
}

fn i32_or(v: Option<i32>, lo: i32, hi: i32, d: i32) -> (r: i32)
    ensures
        r == match i32_view(v) {
            Some(v) => clamped(v, lo as int, hi as int) as i32,
            None => d,
        },
{
    match v {
        Some(v) => clamp_i32(v, lo, hi),
        None => d,
    }
}

fn usize_or(v: Option<usize>, lo: usize, hi: usize, d: usize) -> (r: usize)
    ensures
        r == match usize_view(v) {
            Some(v) => clamped(v, lo as int, hi as int) as usize,
            None => d,
        },
{
    match v {
        Some(v) => clamp_usize(v, lo, hi),
        None => d,
    }
}

fn pick_base(preset: &Option<String>) -> (base: Base)
    ensures
        base == base_named(text_view(*preset)),
{
    if is(preset, "bw") {
        Base::Bw
    } else if is(preset, "poster") {
        Base::Poster
    } else if is(preset, "photo") {
        Base::Photo
    } else {
        Base::Plain
    }
}

fn pick_mode(mode: &Option<String>, d: PathMode) -> (m: PathMode)
    ensures
        m == match text_view(*mode) {
            Some(v) => mode_named(v),
            None => d,
        },
{
    if mode.is_none() {
        d
    } else if is(mode, "pixel") || is(mode, "none") {
        PathMode::Pixel
    } else if is(mode, "polygon") {
        PathMode::Polygon
    } else {
        PathMode::Spline
    }
}

fn pick_binary(color_mode: &Option<String>, d: bool) -> (b: bool)
    ensures
        b == match text_view(*color_mode) {
            Some(v) => v == "binary"@ || v == "bw"@ || v == "BW"@,
            None => d,
        },
{
    if color_mode.is_none() {
        d
    } else {
        is(color_mode, "binary") || is(color_mode, "bw") || is(color_mode, "BW")
    }
}

fn pick_cutout(hierarchical: &Option<String>, d: bool) -> (b: bool)
    ensures
        b == match text_view(*hierarchical) {
            Some(v) => v == "cutout"@,
            None => d,
        },
{
    if hierarchical.is_none() {
        d
    } else {
        is(hierarchical, "cutout")
    }
}

/// Turns raw parameters into valid settings. Values out of range are clamped rather
/// than rejected.
pub fn build_config(p: &RawParams) -> (s: Settings)
    ensures
        s == settings_of(p@),
{
    let base: Settings = base_settings(pick_base(&p.preset));
    let length_threshold: i64 = match p.length_threshold {
        Some(v) => clamp_key(v, 0x400c_0000_0000_0000, 0x4024_0000_0000_0000),
        None => base.length_threshold,
    };
    let path_precision: Option<u32> = match p.path_precision {
        Some(v) => Some(if v > 8 { 8 } else { v }),
        None => base.path_precision,
    };
    Settings {
        binary: pick_binary(&p.color_mode, base.binary),
        cutout: pick_cutout(&p.hierarchical, base.cutout),
        filter_speckle: usize_or(p.filter_speckle, 0, 16, base.filter_speckle),
        color_precision: i32_or(p.color_precision, 1, 8, base.color_precision),
        layer_difference: i32_or(p.layer_difference, 0, 255, base.layer_difference),
        mode: pick_mode(&p.mode, base.mode),
        corner_threshold: i32_or(p.corner_threshold, 0, 180, base.corner_threshold),
        length_threshold,
        max_iterations: usize_or(p.max_iterations, 1, 20, base.max_iterations),
        splice_threshold: i32_or(p.splice_threshold, 0, 180, base.splice_threshold),
        path_precision,
    }
}

/// A conversion as it was asked for.
pub struct Job {
    /// Reduce the colours first.
    pub quantize: bool,
    /// How many colours to reduce to.
    pub num_colors: usize,
    /// Trace with the tracer of this library.
    pub owned: bool,
    /// Order key of the simplification tolerance in pixels.
    pub simplify: i64,
    /// Regions of fewer pixels merge into their neighbours.
    pub min_region: u32,
    /// Fit curves.
    pub curve: bool,
    /// Order key of the corner threshold in degrees.
    pub curve_corner: i64,
    /// Order key of the curve-fit tolerance in pixels.
    pub curve_error: i64,
    /// The settings of the clustering tracer.
    pub settings: Settings,
}

/// Whether a switch of the form is on.
pub open spec fn switched_on(v: Option<Seq<char>>) -> bool {
    v == Some("on"@) || v == Some("true"@) || v == Some("1"@)
}

/// A parameter, or its default.
pub open spec fn or_default<T>(v: Option<T>, d: T) -> T {
    match v {
        Some(v) => v,
        None => d,
    }
}

/// The conversion that parameters ask for.
pub open spec fn job_of(p: Form) -> Job {
    Job {
        quantize: switched_on(p.quantize),
        num_colors: clamped(or_default(p.colors, 16), 2, 256) as usize,
        owned: p.engine == Some("owned"@),
        simplify: clamped(
            or_default(p.simplify, 0x3ff3_3333_3333_3333) as int,
            0,
            0x4024_0000_0000_0000,
        ) as i64,
        min_region: clamped(or_default(p.min_region, 4), 0, 4096) as u32,
        curve: switched_on(p.curve),
        curve_corner: clamped(
            or_default(p.curve_corner, 0x4054_0000_0000_0000) as int,
            0,
            0x4066_8000_0000_0000,
        ) as i64,
        curve_error: clamped(
            or_default(p.curve_error, 0x4000_0000_0000_0000) as int,
            0x3fb9_9999_9999_999a,
            0x4034_0000_0000_0000,
        ) as i64,
        settings: settings_of(p),
    }
}

fn switch(t: &Option<String>) -> (b: bool)
    ensures
        b == switched_on(text_view(*t)),
{
    is(t, "on") || is(t, "true") || is(t, "1")
}

fn key_or(v: Option<i64>, d: i64) -> (r: i64)
    ensures
        r == or_default(v, d),
{
    match v {
        Some(v) => v,
        None => d,
    }
}

impl RawParams {
    /// The conversion that is asked for.
    pub fn job(&self) -> (j: Job)
        ensures
            j == job_of(self@),
    {
        let colors: usize = match self.colors {
            Some(v) => v,
            None => 16,
        };
        let region: u32 = match self.min_region {
            Some(v) => v,
            None => 4,
        };
        Job {
            quantize: switch(&self.quantize),
            num_colors: clamp_usize(colors, 2, 256),
            owned: is(&self.engine, "owned"),
            simplify: clamp_key(
                key_or(self.simplify, 0x3ff3_3333_3333_3333),
                0,
                0x4024_0000_0000_0000,
            ),
            min_region: if region > 4096 { 4096 } else { region },
            curve: switch(&self.curve),
            curve_corner: clamp_key(
                key_or(self.curve_corner, 0x4054_0000_0000_0000),
                0,
                0x4066_8000_0000_0000,
            ),
            curve_error: clamp_key(
                key_or(self.curve_error, 0x4000_0000_0000_0000),
                0x3fb9_9999_9999_999a,
                0x4034_0000_0000_0000,
            ),
            settings: build_config(self),
        }
    }
}

/// Settings within the range of every slider.
pub open spec fn in_range(s: Settings) -> bool {
    &&& s.filter_speckle <= 16
    &&& 1 <= s.color_precision <= 8
    &&& 0 <= s.layer_difference <= 255
    &&& 0 <= s.corner_threshold <= 180
    &&& 0x400c_0000_0000_0000 <= s.length_threshold <= 0x4024_0000_0000_0000
    &&& 1 <= s.max_iterations <= 20
    &&& 0 <= s.splice_threshold <= 180
    &&& s.path_precision matches Some(v) && v <= 8
}

/// No form leads out of range: whatever its fields say, the settings and the other
/// numbers of the conversion are valid.
pub proof fn law_jobs_are_in_range(p: Form)
    ensures
        in_range(settings_of(p)),
        2 <= job_of(p).num_colors <= 256,
        job_of(p).min_region <= 4096,
        0 <= job_of(p).simplify <= 0x4024_0000_0000_0000,
        0 <= job_of(p).curve_corner <= 0x4066_8000_0000_0000,
        0x3fb9_9999_9999_999a <= job_of(p).curve_error <= 0x4034_0000_0000_0000,
{
}

/// A form that says nothing asks for the defaults.
pub proof fn law_blank_form_asks_for_defaults()
    ensures
        settings_of(blank()) == base_of(Base::Plain),
        !job_of(blank()).owned,
        !job_of(blank()).quantize,
        !job_of(blank()).curve,
        job_of(blank()).num_colors == 16,
        job_of(blank()).min_region == 4,
{
}

/// Whether a form has a field of that name.
pub open spec fn is_field(name: Seq<char>) -> bool {
    ||| name == "preset"@
    ||| name == "engine"@
    ||| name == "quantize"@
    ||| name == "colors"@
    ||| name == "simplify"@
    ||| name == "min_region"@
    ||| name == "curve"@
    ||| name == "curve_corner"@
    ||| name == "curve_error"@
    ||| name == "color_mode"@
    ||| name == "hierarchical"@
    ||| name == "mode"@
    ||| name == "filter_speckle"@
    ||| name == "color_precision"@
    ||| name == "layer_difference"@
    ||| name == "corner_threshold"@
    ||| name == "length_threshold"@
    ||| name == "splice_threshold"@
    ||| name == "max_iterations"@
    ||| name == "path_precision"@
}

/// A field that is not known, and one with a blank value, change nothing.
pub proof fn law_unknown_and_blank_fields_are_ignored(
    p: Form,
    name: Seq<char>,
    value: Seq<char>,
    m: spec_fn(Seq<char>) -> Option<i64>,
)
    requires
        !is_field(name) || trimmed(value).len() == 0,
    ensures
        with_field(p, name, value, m) == p,
{
}

/// Of two values for one field the last one counts, unless it is blank.
pub proof fn law_the_last_value_counts(
    p: Form,
    name: Seq<char>,
    first: Seq<char>,
    second: Seq<char>,
    m: spec_fn(Seq<char>) -> Option<i64>,
)
    requires
        trimmed(second).len() > 0,
    ensures
        with_field(with_field(p, name, first, m), name, second, m) == with_field(
            p,
            name,
            second,
            m,
        ),
{
}

proof fn lemma_field_names_differ()
    ensures
        forall|a: int, b: int|
            0 <= a < b < 20 ==> #[trigger] field_names()[a] != #[trigger] field_names()[b],
{
    reveal_strlit("preset");
    reveal_strlit("engine");
    reveal_strlit("quantize");
    reveal_strlit("colors");
    reveal_strlit("simplify");
    reveal_strlit("min_region");
    reveal_strlit("curve");
    reveal_strlit("curve_corner");
    reveal_strlit("curve_error");
    reveal_strlit("color_mode");
    reveal_strlit("hierarchical");
    reveal_strlit("mode");
    reveal_strlit("filter_speckle");
    reveal_strlit("color_precision");
    reveal_strlit("layer_difference");
    reveal_strlit("corner_threshold");
    reveal_strlit("length_threshold");
    reveal_strlit("splice_threshold");
    reveal_strlit("max_iterations");
    reveal_strlit("path_precision");
    let names = field_names();
    assert(names.len() == 20);
    assert(names[0].len() == 6 && names[0][0] == 'p');
    assert(names[1].len() == 6 && names[1][0] == 'e');
    assert(names[2].len() == 8 && names[2][0] == 'q');
    assert(names[3].len() == 6 && names[3][0] == 'c');
    assert(names[4].len() == 8 && names[4][0] == 's');
    assert(names[5].len() == 10 && names[5][0] == 'm');
    assert(names[6].len() == 5);
    assert(names[7].len() == 12 && names[7][0] == 'c');
    assert(names[8].len() == 11);
    assert(names[9].len() == 10 && names[9][0] == 'c');
    assert(names[10].len() == 12 && names[10][0] == 'h');
    assert(names[11].len() == 4);
    assert(names[12].len() == 14 && names[12][0] == 'f');
    assert(names[13].len() == 15);
    assert(names[14].len() == 16 && names[14][0] == 'l' && names[14][1] == 'a');
    assert(names[15].len() == 16 && names[15][0] == 'c');
    assert(names[16].len() == 16 && names[16][0] == 'l' && names[16][1] == 'e');
    assert(names[17].len() == 16 && names[17][0] == 's');
    assert(names[18].len() == 14 && names[18][0] == 'm');
    assert(names[19].len() == 14 && names[19][0] == 'p');
}

/// The names of the fields of a form.
pub open spec fn field_names() -> Seq<Seq<char>> {
    seq![
        "preset"@,
        "engine"@,
        "quantize"@,
        "colors"@,
        "simplify"@,
        "min_region"@,
        "curve"@,
        "curve_corner"@,
        "curve_error"@,
        "color_mode"@,
        "hierarchical"@,
        "mode"@,
        "filter_speckle"@,
        "color_precision"@,
        "layer_difference"@,
        "corner_threshold"@,
        "length_threshold"@,
        "splice_threshold"@,
        "max_iterations"@,
        "path_precision"@,
    ]
}

/// Every field sets the parameter of its name, and no other: a text as it is without the
/// white space around it, a number as it is read, and where it cannot be read, to nothing.
pub proof fn law_each_field_sets_its_own_parameter(
    p: Form,
    name: Seq<char>,
    value: Seq<char>,
    m: spec_fn(Seq<char>) -> Option<i64>,
)
    ensures
        ({
            let v = trimmed(value);
            let q = with_field(p, name, value, m);
            let sets = |field: Seq<char>| v.len() > 0 && name == field;
            let text = |field: Seq<char>, before: Option<Seq<char>>|
                if sets(field) {
                    Some(v)
                } else {
                    before
                };
            let unsigned = |field: Seq<char>, before: Option<int>, most: int|
                if sets(field) {
                    unsigned_value(v, most)
                } else {
                    before
                };
            let signed = |field: Seq<char>, before: Option<int>|
                if sets(field) {
                    signed_value(v, -0x8000_0000, 0x7fff_ffff)
                } else {
                    before
                };
            let real_number = |field: Seq<char>, before: Option<i64>|
                if sets(field) {
                    m(v)
                } else {
                    before
                };
            &&& q.preset == text("preset"@, p.preset)
            &&& q.engine == text("engine"@, p.engine)
            &&& q.quantize == text("quantize"@, p.quantize)
            &&& q.colors == unsigned("colors"@, p.colors, usize::MAX as int)
            &&& q.simplify == real_number("simplify"@, p.simplify)
            &&& q.min_region == unsigned("min_region"@, p.min_region, 0xffff_ffff)
            &&& q.curve == text("curve"@, p.curve)
            &&& q.curve_corner == real_number("curve_corner"@, p.curve_corner)
            &&& q.curve_error == real_number("curve_error"@, p.curve_error)
            &&& q.color_mode == text("color_mode"@, p.color_mode)
            &&& q.hierarchical == text("hierarchical"@, p.hierarchical)
            &&& q.mode == text("mode"@, p.mode)
            &&& q.filter_speckle == unsigned(
                "filter_speckle"@,
                p.filter_speckle,
                usize::MAX as int,
            )
            &&& q.color_precision == signed("color_precision"@, p.color_precision)
            &&& q.layer_difference == signed("layer_difference"@, p.layer_difference)
            &&& q.corner_threshold == signed("corner_threshold"@, p.corner_threshold)
            &&& q.length_threshold == real_number("length_threshold"@, p.length_threshold)
            &&& q.splice_threshold == signed("splice_threshold"@, p.splice_threshold)
            &&& q.max_iterations == unsigned(
                "max_iterations"@,
                p.max_iterations,
                usize::MAX as int,
            )
            &&& q.path_precision == unsigned("path_precision"@, p.path_precision, 0xffff_ffff)
        }),
{
    lemma_field_names_differ();
    let names = field_names();
    assert(names[0] == "preset"@ && names[1] == "engine"@ && names[2] == "quantize"@ && names[3]
        == "colors"@ && names[4] == "simplify"@ && names[5] == "min_region"@ && names[6]
        == "curve"@ && names[7] == "curve_corner"@ && names[8] == "curve_error"@ && names[9]
        == "color_mode"@ && names[10] == "hierarchical"@ && names[11] == "mode"@ && names[12]
        == "filter_speckle"@ && names[13] == "color_precision"@ && names[14]
        == "layer_difference"@ && names[15] == "corner_threshold"@ && names[16]
        == "length_threshold"@ && names[17] == "splice_threshold"@ && names[18]
        == "max_iterations"@ && names[19] == "path_precision"@);
}

/// The settings of the clustering tracer, in full. What a form says counts, held within
/// the range of its slider; what it does not say is as the preset has it.
pub proof fn law_settings_follow_the_form(p: Form)
    ensures
        ({
            let s = settings_of(p);
            let bw = p.preset == Some("bw"@);
            let poster = p.preset == Some("poster"@);
            let photo = p.preset == Some("photo"@);
            let held = |v: Option<int>, lo: int, hi: int, otherwise: int|
                match v {
                    Some(v) => max(lo, min(v, hi)),
                    None => otherwise,
                };
            &&& s.binary == match p.color_mode {
                None => bw,
                Some(v) => v == "binary"@ || v == "bw"@ || v == "BW"@,
            }
            &&& s.cutout == (p.hierarchical == Some("cutout"@))
            &&& s.filter_speckle == held(p.filter_speckle, 0, 16, if photo {
                10
            } else {
                4
            })
            &&& s.color_precision == held(p.color_precision, 1, 8, if poster || photo {
                8
            } else {
                6
            })
            &&& s.layer_difference == held(p.layer_difference, 0, 255, if photo {
                48
            } else {
                16
            })
            &&& s.mode == PathMode::Pixel <==> p.mode == Some("pixel"@) || p.mode == Some("none"@)
            &&& s.mode == PathMode::Polygon <==> p.mode == Some("polygon"@)
            &&& s.corner_threshold == held(p.corner_threshold, 0, 180, if photo {
                180
            } else {
                60
            })
            &&& s.length_threshold == match p.length_threshold {
                Some(v) => max(0x400c_0000_0000_0000, min(v as int, 0x4024_0000_0000_0000)),
                None => 0x4010_0000_0000_0000,
            }
            &&& s.max_iterations == held(p.max_iterations, 1, 20, 10)
            &&& s.splice_threshold == held(p.splice_threshold, 0, 180, 45)
            &&& s.path_precision is Some && s.path_precision.unwrap() == held(
                p.path_precision,
                0,
                8,
                2,
            )
        }),
{
    reveal_strlit("bw");
    reveal_strlit("poster");
    reveal_strlit("photo");
    reveal_strlit("pixel");
    reveal_strlit("none");
    reveal_strlit("polygon");
    assert("bw"@.len() == 2 && "poster"@.len() == 6 && "photo"@.len() == 5);
    assert("pixel"@.len() == 5 && "none"@.len() == 4 && "polygon"@.len() == 7);
}

/// The conversion that a form asks for, in full: the switches that are on, the numbers held
/// within their ranges, and their defaults where the form does not say them.
pub proof fn law_job_follows_the_form(p: Form)
    ensures
        ({
            let j = job_of(p);
            let on = |v: Option<Seq<char>>| v is Some && seq!["on"@, "true"@, "1"@].contains(v.unwrap());
            &&& j.quantize == on(p.quantize)
            &&& j.curve == on(p.curve)
            &&& j.owned == (p.engine == Some("owned"@))
            &&& j.num_colors == match p.colors {
                Some(v) => max(2, min(v, 256)),
                None => 16,
            }
            &&& j.min_region == match p.min_region {
                Some(v) => max(0, min(v, 4096)),
                None => 4,
            }
            &&& j.simplify == match p.simplify {
                Some(v) => max(0, min(v as int, 0x4024_0000_0000_0000)),
                None => 0x3ff3_3333_3333_3333,
            }
            &&& j.curve_corner == match p.curve_corner {
                Some(v) => max(0, min(v as int, 0x4066_8000_0000_0000)),
                None => 0x4054_0000_0000_0000,
            }
            &&& j.curve_error == match p.curve_error {
                Some(v) => max(0x3fb9_9999_9999_999a, min(v as int, 0x4034_0000_0000_0000)),
                None => 0x4000_0000_0000_0000,
            }
            &&& j.settings == settings_of(p)
        }),
{
    let names = seq!["on"@, "true"@, "1"@];
    assert(names[0] == "on"@ && names[1] == "true"@ && names[2] == "1"@);
}

/// The presets: black and white in everything but its colours is the plain one, a poster
/// takes all bits of a colour, and a photo also larger clusters, coarser layers and no
/// corners.
pub proof fn law_presets_differ_from_the_plain_one()
    ensures
        ({
            let plain = base_of(Base::Plain);
            &&& !plain.binary && !plain.cutout && plain.mode == PathMode::Spline
            &&& plain.filter_speckle == 4 && plain.color_precision == 6 && plain.layer_difference
                == 16
            &&& plain.corner_threshold == 60 && plain.length_threshold == 0x4010_0000_0000_0000
            &&& plain.max_iterations == 10 && plain.splice_threshold == 45 && plain.path_precision
                == Some(2u32)
            &&& base_of(Base::Bw) == (Settings { binary: true, ..plain })
            &&& base_of(Base::Poster) == (Settings { color_precision: 8, ..plain })
            &&& base_of(Base::Photo) == (Settings {
                color_precision: 8,
                filter_speckle: 10,
                layer_difference: 48,
                corner_threshold: 180,
                ..plain
            })
        }),
{
}

} // verus!
