//! The conversion service: what a request says, step by step, and how it is
//! answered.

use vstd::prelude::*;
use vstd::string::StringExecFns;
use crate::curvefit::Fit;
use crate::params::{
    blank, in_range, job_of, law_jobs_are_in_range, reads, with_field, Form, Job, RawParams, Settings,
};
use crate::raster::{
    header_of, holds_raster, is_sound_png, may_read, raster_view, read_raster, size_fault, Bitmap,
    HeaderFault, Raster,
};
use crate::segment::Segmentation;
use crate::simplify::Pt;
use crate::svg::Ptf;
use crate::trace::{
    config_of, draws_loops, finds_regions, may_draw_loops, may_find_regions, trace_config, trace_rgba,
    traced_document, TraceConfig, Tracer,
};
use crate::vectorize::{can_cluster, is_traceable, traceable, traced, vectorize, was_traced};

verus! {

/// An error as it is answered: an HTTP status and a plain-text message.
pub struct AppError {
    pub code: u16,
    pub msg: String,
}

impl AppError {
    /// The request is at fault.
    pub fn bad(msg: String) -> (e: Self)
        ensures
            e.code == 400,
            e.msg == msg,
    {
        AppError { code: 400, msg }
    }

    /// The service is at fault.
    pub fn internal(msg: String) -> (e: Self)
        ensures
            e.code == 500,
            e.msg == msg,
    {
        AppError { code: 500, msg }
    }
}

/// A conversion whose numbers are in range, as those of every form are.
pub open spec fn is_valid(job: Job) -> bool {
    in_range(job.settings) && job.curve_corner >= 0
}

/// A request as far as it has been read: the image, and the parameters.
pub struct Request {
    image: Option<Vec<u8>>,
    params: RawParams,
}

impl Request {
    /// The image, if there has been one.
    pub closed spec fn image(&self) -> Option<Seq<u8>> {
        match self.image {
            None => None,
            Some(bytes) => Some(bytes@),
        }
    }

    /// The parameters.
    pub closed spec fn params(&self) -> Form {
        self.params@
    }

    /// A request of which nothing has been read.
    pub fn new() -> (r: Self)
        ensures
            r.image() is None,
            r.params() == blank(),
    {
        Request { image: None, params: RawParams::default() }
    }

    /// Takes in the image; of several the last one counts.
    pub fn set_image(&mut self, bytes: Vec<u8>)
        ensures
            final(self).image() == Some(bytes@),
            final(self).params() == old(self).params(),
    {
        self.image = Some(bytes);
    }

    /// Takes in another field.
    pub fn set_field<N: Fn(&str) -> Option<i64>>(&mut self, name: &str, value: &str, decimal: &N)
        requires
            forall|s: &str| #[trigger] decimal.requires((s,)),
        ensures
            final(self).image() == old(self).image(),
            forall|m: spec_fn(Seq<char>) -> Option<i64>| #[trigger]
                reads(*decimal, m) ==> final(self).params() == with_field(
                    old(self).params(),
                    name@,
                    value@,
                    m,
                ),
    {
        self.params.set_field(name, value, decimal);
    }

    /// The image and the conversion that are asked for; a request without an image is
    /// at fault.
    pub fn finish(self) -> (r: Result<(Vec<u8>, Job), AppError>)
        ensures
            match r {
                Ok((bytes, job)) => self.image() == Some(bytes@) && job == job_of(self.params())
                    && is_valid(job),
                Err(e) => self.image() is None && e.code == 400 && e.msg@ == "missing `image` field"@,
            },
    {
        match self.image {
            None => Err(AppError::bad(String::from_str("missing `image` field"))),
            Some(bytes) => {
                proof {
                    law_jobs_are_in_range(self.params@);
                }
                Ok((bytes, self.params.job()))
            },
        }
    }
}

/// What the library's own tracer leaves to the caller: the order keys of a
/// conversion's tolerances (see [`trace_config`]), the components of a raster and
/// their contours, and the measures of simplification and curve fitting.
pub struct Engine<G, K, D, T, A, B, L> {
    pub eps2: Option<u64>,
    pub tol: u64,
    pub near: u64,
    pub segment: G,
    pub contours: K,
    pub dist: D,
    pub sharp: T,
    pub start: A,
    pub again: B,
    pub straight: L,
}

/// The stages of a conversion may be run on any raster.
pub open spec fn may_convert<S, Q, V, G, K, D, T, A, B, L>(
    quantize: Q,
    engine: Engine<G, K, D, T, A, B, L>,
    tracer: V,
) -> bool where
    Q: Fn(Vec<u8>, usize) -> Result<Vec<u8>, String>,
    V: Fn(Vec<u8>, usize, usize, &Settings) -> Result<String, String>,
    G: Fn(&[u32], usize, usize, u32) -> Segmentation,
    K: Fn(&Segmentation, usize) -> Vec<Vec<Pt>>,
    D: Fn(Pt, Pt, Pt) -> u64,
    T: Fn(Pt, Pt, Pt) -> bool,
    A: Fn(&[Pt], usize, usize) -> Fit<S>,
    B: Fn(&[Pt], usize, usize, &Fit<S>) -> Fit<S>,
    L: Fn(Pt, Pt) -> (Ptf, Ptf),
 {
    &&& forall|p: Vec<u8>, n: usize| #[trigger] quantize.requires((p, n))
    &&& forall|p: Vec<u8>, w: usize, h: usize, s: &Settings| #[trigger]
        tracer.requires((p, w, h, s))
    &&& may_find_regions(engine.segment, engine.contours)
    &&& may_draw_loops(engine.dist, engine.sharp, engine.start, engine.again, engine.straight)
}

/// What the colours of a raster are reduced to, if that is asked for.
pub open spec fn reduces<Q>(
    quantize: Q,
    job: Job,
    pixels: Seq<u8>,
    r: Result<Vec<u8>, String>,
) -> bool where Q: Fn(Vec<u8>, usize) -> Result<Vec<u8>, String> {
    if job.owned || job.quantize {
        exists|p: Vec<u8>| p@ == pixels && #[trigger] quantize.ensures((p, job.num_colors), r)
    } else {
        r matches Ok(p) && p@ == pixels
    }
}

/// `svg` is what the library's own tracer makes of a raster.
pub open spec fn owned_traces<S, G, K, D, T, A, B, L>(
    engine: Engine<G, K, D, T, A, B, L>,
    job: Job,
    pixels: Seq<u8>,
    w: u32,
    h: u32,
    svg: Seq<char>,
) -> bool where
    G: Fn(&[u32], usize, usize, u32) -> Segmentation,
    K: Fn(&Segmentation, usize) -> Vec<Vec<Pt>>,
    D: Fn(Pt, Pt, Pt) -> u64,
    T: Fn(Pt, Pt, Pt) -> bool,
    A: Fn(&[Pt], usize, usize) -> Fit<S>,
    B: Fn(&[Pt], usize, usize, &Fit<S>) -> Fit<S>,
    L: Fn(Pt, Pt) -> (Ptf, Ptf),
 {
    let cfg = config_of(job, engine.eps2, engine.tol, engine.near);
    forall|t: Tracer<S>|
        #![trigger finds_regions(t, engine.segment, engine.contours)]
        finds_regions(t, engine.segment, engine.contours) && draws_loops(
            t,
            cfg,
            engine.dist,
            engine.sharp,
            engine.start,
            engine.again,
            engine.straight,
        ) ==> svg == traced_document(t, pixels, w as int, h as int, cfg)
}

/// How a raster is traced: by the library's own tracer if that is asked for, else
/// by the clustering one; the latter by way of `tracer` where its arithmetic may
/// not hold, or where it cannot cluster with the settings.
pub open spec fn traces<S, V, G, K, D, T, A, B, L>(
    engine: Engine<G, K, D, T, A, B, L>,
    tracer: V,
    job: Job,
    p: Vec<u8>,
    w: u32,
    h: u32,
    r: Result<String, String>,
) -> bool where
    V: Fn(Vec<u8>, usize, usize, &Settings) -> Result<String, String>,
    G: Fn(&[u32], usize, usize, u32) -> Segmentation,
    K: Fn(&Segmentation, usize) -> Vec<Vec<Pt>>,
    D: Fn(Pt, Pt, Pt) -> u64,
    T: Fn(Pt, Pt, Pt) -> bool,
    A: Fn(&[Pt], usize, usize) -> Fit<S>,
    B: Fn(&[Pt], usize, usize, &Fit<S>) -> Fit<S>,
    L: Fn(Pt, Pt) -> (Ptf, Ptf),
 {
    if job.owned {
        r matches Ok(svg) && owned_traces(engine, job, p@, w, h, svg@)
    } else if traceable(p@.len() as int, w as int, h as int) && can_cluster(job.settings) {
        traced(p@, w as usize, h as usize, job.settings, r)
    } else {
        tracer.ensures((p, w as usize, h as usize, &job.settings), r)
    }
}

/// The outcome of a conversion: what the tracer makes of the reduced raster, or why
/// it could not be reduced.
pub open spec fn converts<S, Q, V, G, K, D, T, A, B, L>(
    quantize: Q,
    engine: Engine<G, K, D, T, A, B, L>,
    tracer: V,
    job: Job,
    bitmap: Bitmap,
    r: Result<String, String>,
) -> bool where
    Q: Fn(Vec<u8>, usize) -> Result<Vec<u8>, String>,
    V: Fn(Vec<u8>, usize, usize, &Settings) -> Result<String, String>,
    G: Fn(&[u32], usize, usize, u32) -> Segmentation,
    K: Fn(&Segmentation, usize) -> Vec<Vec<Pt>>,
    D: Fn(Pt, Pt, Pt) -> u64,
    T: Fn(Pt, Pt, Pt) -> bool,
    A: Fn(&[Pt], usize, usize) -> Fit<S>,
    B: Fn(&[Pt], usize, usize, &Fit<S>) -> Fit<S>,
    L: Fn(Pt, Pt) -> (Ptf, Ptf),
 {
    exists|reduced: Result<Vec<u8>, String>|
        {
            &&& #[trigger] reduces(quantize, job, bitmap.pixels, reduced)
            &&& match reduced {
                Err(e) => r == Err::<String, String>(e),
                Ok(p) => traces(engine, tracer, job, p, bitmap.width, bitmap.height, r),
            }
        }
}

/// Converts a decoded raster. The library's own tracer always takes reduced
/// colours, the clustering one only on demand.
pub fn convert_raster<S, Q, V, G, K, D, T, A, B, L>(
    raster: Raster,
    job: &Job,
    quantize: &Q,
    engine: &Engine<G, K, D, T, A, B, L>,
    tracer: &V,
) -> (r: Result<String, String>) where
    Q: Fn(Vec<u8>, usize) -> Result<Vec<u8>, String>,
    V: Fn(Vec<u8>, usize, usize, &Settings) -> Result<String, String>,
    G: Fn(&[u32], usize, usize, u32) -> Segmentation,
    K: Fn(&Segmentation, usize) -> Vec<Vec<Pt>>,
    D: Fn(Pt, Pt, Pt) -> u64,
    T: Fn(Pt, Pt, Pt) -> bool,
    A: Fn(&[Pt], usize, usize) -> Fit<S>,
    B: Fn(&[Pt], usize, usize, &Fit<S>) -> Fit<S>,
    L: Fn(Pt, Pt) -> (Ptf, Ptf),

    requires
        is_valid(*job),
        raster.width * raster.height * 4 <= usize::MAX,
        may_convert(*quantize, *engine, *tracer),
    ensures
        converts(*quantize, *engine, *tracer, *job, raster@, r),
{
    let (w, h): (u32, u32) = (raster.width, raster.height);
    let ghost pixels = raster@.pixels;
    let reduced: Result<Vec<u8>, String> = if job.owned || job.quantize {
        quantize(raster.pixels, job.num_colors)
    } else {
        Ok(raster.pixels)
    };
    assert(reduces(*quantize, *job, pixels, reduced));
    match reduced {
        Err(e) => Err(e),
        Ok(p) => if job.owned {
            let cfg = trace_config(job, engine.eps2, engine.tol, engine.near);
            Ok(
                trace_rgba(
                    p.as_slice(),
                    w as usize,
                    h as usize,
                    &cfg,
                    &engine.segment,
                    &engine.contours,
                    &engine.dist,
                    &engine.sharp,
                    &engine.start,
                    &engine.again,
                    &engine.straight,
                ),
            )
        } else if is_traceable(p.len(), w as usize, h as usize) && (job.settings.binary
            || job.settings.layer_difference > 0) {
            vectorize(p, w as usize, h as usize, &job.settings)
        } else {
            tracer(p, w as usize, h as usize, &job.settings)
        },
    }
}

/// How the outcome of a conversion is answered: a document as it is, anything else as
/// a request at fault.
pub open spec fn answers(r: Result<String, AppError>, outcome: Result<String, String>) -> bool {
    match outcome {
        Ok(svg) => r == Ok::<String, AppError>(svg),
        Err(e) => r matches Err(a) && a.code == 400 && a.msg == e,
    }
}

/// How an upload is answered, from what it holds: why it holds no raster, or the
/// outcome of the conversion.
pub open spec fn is_answered<S, Q, V, G, K, D, T, A, B, L>(
    quantize: Q,
    engine: Engine<G, K, D, T, A, B, L>,
    tracer: V,
    job: Job,
    raster: Result<Bitmap, Seq<char>>,
    r: Result<String, AppError>,
) -> bool where
    Q: Fn(Vec<u8>, usize) -> Result<Vec<u8>, String>,
    V: Fn(Vec<u8>, usize, usize, &Settings) -> Result<String, String>,
    G: Fn(&[u32], usize, usize, u32) -> Segmentation,
    K: Fn(&Segmentation, usize) -> Vec<Vec<Pt>>,
    D: Fn(Pt, Pt, Pt) -> u64,
    T: Fn(Pt, Pt, Pt) -> bool,
    A: Fn(&[Pt], usize, usize) -> Fit<S>,
    B: Fn(&[Pt], usize, usize, &Fit<S>) -> Fit<S>,
    L: Fn(Pt, Pt) -> (Ptf, Ptf),
 {
    match raster {
        Err(fault) => r matches Err(e) && e.code == 400 && e.msg@ == fault,
        Ok(bitmap) => exists|outcome: Result<String, String>| #[trigger]
            converts(quantize, engine, tracer, job, bitmap, outcome) && answers(r, outcome),
    }
}

/// Converts an uploaded image into a document, or says why it cannot be converted.
///
/// `probe` reads the header and `load` the pixels of a file that is not a sound PNG
/// file; `quantize` reduces colours, `engine` is what the library's own tracer leaves
/// to the caller, and `tracer` the clustering one where it may fail.
pub fn convert<S, H, P, Q, V, G, K, D, T, A, B, L>(
    bytes: &[u8],
    job: &Job,
    probe: &H,
    load: &P,
    quantize: &Q,
    engine: &Engine<G, K, D, T, A, B, L>,
    tracer: &V,
) -> (r: Result<String, AppError>) where
    H: Fn(&[u8]) -> Result<(u32, u32), HeaderFault>,
    P: Fn(&[u8]) -> Result<Vec<u8>, String>,
    Q: Fn(Vec<u8>, usize) -> Result<Vec<u8>, String>,
    V: Fn(Vec<u8>, usize, usize, &Settings) -> Result<String, String>,
    G: Fn(&[u32], usize, usize, u32) -> Segmentation,
    K: Fn(&Segmentation, usize) -> Vec<Vec<Pt>>,
    D: Fn(Pt, Pt, Pt) -> u64,
    T: Fn(Pt, Pt, Pt) -> bool,
    A: Fn(&[Pt], usize, usize) -> Fit<S>,
    B: Fn(&[Pt], usize, usize, &Fit<S>) -> Fit<S>,
    L: Fn(Pt, Pt) -> (Ptf, Ptf),

    requires
        is_valid(*job),
        may_read(*probe, *load),
        may_convert(*quantize, *engine, *tracer),
    ensures
        exists|raster: Result<Bitmap, Seq<char>>| #[trigger]
            holds_raster(bytes, *probe, *load, raster) && is_answered(
                *quantize,
                *engine,
                *tracer,
                *job,
                raster,
                r,
            ),
        r matches Err(e) ==> e.code == 400,
        is_sound_png(bytes@) ==> (header_of(bytes@) matches Ok(d) ==> (size_fault(d.0, d.1) matches Some(
            fault,
        ) ==> (r matches Err(e) && e.code == 400 && e.msg@ == fault))),
{
    let raster = read_raster(bytes, probe, load);
    let ghost seen = raster_view(raster);
    assert(holds_raster(bytes, *probe, *load, seen));
    match raster {
        Err(e) => {
            let r: Result<String, AppError> = Err(AppError::bad(e));
            assert(is_answered(*quantize, *engine, *tracer, *job, seen, r));
            r
        },
        Ok(raster) => {
            assert(raster.width * raster.height * 4 <= usize::MAX);
            let outcome = convert_raster(raster, job, quantize, engine, tracer);
            let ghost found = outcome;
            let r: Result<String, AppError> = match outcome {
                Ok(svg) => Ok(svg),
                Err(e) => Err(AppError::bad(e)),
            };
            proof {
                let bitmap = seen->Ok_0;
                assert(converts(*quantize, *engine, *tracer, *job, bitmap, found) && answers(
                    r,
                    found,
                ));
                assert(exists|o: Result<String, String>| #[trigger]
                    converts(*quantize, *engine, *tracer, *job, bitmap, o) && answers(r, o));
                assert(is_answered(*quantize, *engine, *tracer, *job, seen, r));
            }
            r
        },
    }
}

/// Colours are reduced first where that is asked for, and always for the library's own
/// tracer: to the number of colours that is asked for, from the pixels of the raster. What
/// the reduction says instead is the outcome; what it makes of the pixels is traced. Else the
/// pixels themselves are traced.
pub proof fn law_colors_are_reduced_first<S, Q, V, G, K, D, T, A, B, L>(
    quantize: Q,
    engine: Engine<G, K, D, T, A, B, L>,
    tracer: V,
    job: Job,
    bitmap: Bitmap,
    r: Result<String, String>,
) where
    Q: Fn(Vec<u8>, usize) -> Result<Vec<u8>, String>,
    V: Fn(Vec<u8>, usize, usize, &Settings) -> Result<String, String>,
    G: Fn(&[u32], usize, usize, u32) -> Segmentation,
    K: Fn(&Segmentation, usize) -> Vec<Vec<Pt>>,
    D: Fn(Pt, Pt, Pt) -> u64,
    T: Fn(Pt, Pt, Pt) -> bool,
    A: Fn(&[Pt], usize, usize) -> Fit<S>,
    B: Fn(&[Pt], usize, usize, &Fit<S>) -> Fit<S>,
    L: Fn(Pt, Pt) -> (Ptf, Ptf),

    requires
        converts(quantize, engine, tracer, job, bitmap, r),
    ensures
        !job.owned && !job.quantize ==> exists|p: Vec<u8>|
            p@ == bitmap.pixels && #[trigger] traces(
                engine,
                tracer,
                job,
                p,
                bitmap.width,
                bitmap.height,
                r,
            ),
        job.owned || job.quantize ==> exists|p: Vec<u8>, reduced: Result<Vec<u8>, String>|
            p@ == bitmap.pixels && #[trigger] quantize.ensures((p, job.num_colors), reduced) && (
            reduced matches Err(e) ==> r == Err::<String, String>(e)) && (reduced matches Ok(q)
                ==> traces(engine, tracer, job, q, bitmap.width, bitmap.height, r)),
{
    let reduced = choose|reduced: Result<Vec<u8>, String>|
        {
            &&& #[trigger] reduces(quantize, job, bitmap.pixels, reduced)
            &&& match reduced {
                Err(e) => r == Err::<String, String>(e),
                Ok(p) => traces(engine, tracer, job, p, bitmap.width, bitmap.height, r),
            }
        };
    if job.owned || job.quantize {
        let p = choose|p: Vec<u8>|
            p@ == bitmap.pixels && #[trigger] quantize.ensures((p, job.num_colors), reduced);
        assert(quantize.ensures((p, job.num_colors), reduced));
    } else {
        assert(reduced is Ok);
        assert(traces(
            engine,
            tracer,
            job,
            reduced->Ok_0,
            bitmap.width,
            bitmap.height,
            r,
        ));
    }
}

/// Who traces: the library's own tracer where it is asked for, which always gives a
/// document; else the clustering one, by way of `tracer` where the raster is too large for
/// its arithmetic, does not have four bytes for each pixel, or has no difference between
/// layers in colour.
pub proof fn law_tracer_is_the_one_asked_for<S, V, G, K, D, T, A, B, L>(
    engine: Engine<G, K, D, T, A, B, L>,
    tracer: V,
    job: Job,
    p: Vec<u8>,
    w: u32,
    h: u32,
    r: Result<String, String>,
    t: Tracer<S>,
) where
    V: Fn(Vec<u8>, usize, usize, &Settings) -> Result<String, String>,
    G: Fn(&[u32], usize, usize, u32) -> Segmentation,
    K: Fn(&Segmentation, usize) -> Vec<Vec<Pt>>,
    D: Fn(Pt, Pt, Pt) -> u64,
    T: Fn(Pt, Pt, Pt) -> bool,
    A: Fn(&[Pt], usize, usize) -> Fit<S>,
    B: Fn(&[Pt], usize, usize, &Fit<S>) -> Fit<S>,
    L: Fn(Pt, Pt) -> (Ptf, Ptf),

    requires
        traces(engine, tracer, job, p, w, h, r),
        0 <= job.curve_corner,
    ensures
        ({
            let cfg = TraceConfig {
                alpha_threshold: 0,
                min_area: job.min_region,
                simplify: engine.eps2,
                background: true,
                curve: job.curve,
                corner_threshold: job.curve_corner as u64,
                curve_error: engine.tol,
                curve_near: engine.near,
            };
            let fits = 0 < w && 0 < h && p@.len() == w * h * 4 && h * ((w + 1) / 2) < 0xffff && w
                * w + h * h < 0x8000_0000;
            let clusters = job.settings.binary || job.settings.layer_difference > 0;
            &&& job.owned ==> r is Ok
            &&& job.owned && finds_regions(t, engine.segment, engine.contours) && draws_loops(
                t,
                cfg,
                engine.dist,
                engine.sharp,
                engine.start,
                engine.again,
                engine.straight,
            ) ==> r->Ok_0@ == traced_document(t, p@, w as int, h as int, cfg)
            &&& !job.owned && fits && clusters ==> was_traced(
                p@,
                w as usize,
                h as usize,
                job.settings,
                r,
            )
            &&& !job.owned && !(fits && clusters) ==> tracer.ensures(
                (p, w as usize, h as usize, &job.settings),
                r,
            )
        }),
{
}

/// How an upload is answered: where it holds no raster, with what is said of it, and as a
/// request at fault; where it holds one, with the document that the conversion gives, or
/// with what that says, again as a request at fault.
pub proof fn law_answer_is_the_outcome<S, Q, V, G, K, D, T, A, B, L>(
    quantize: Q,
    engine: Engine<G, K, D, T, A, B, L>,
    tracer: V,
    job: Job,
    raster: Result<Bitmap, Seq<char>>,
    r: Result<String, AppError>,
) where
    Q: Fn(Vec<u8>, usize) -> Result<Vec<u8>, String>,
    V: Fn(Vec<u8>, usize, usize, &Settings) -> Result<String, String>,
    G: Fn(&[u32], usize, usize, u32) -> Segmentation,
    K: Fn(&Segmentation, usize) -> Vec<Vec<Pt>>,
    D: Fn(Pt, Pt, Pt) -> u64,
    T: Fn(Pt, Pt, Pt) -> bool,
    A: Fn(&[Pt], usize, usize) -> Fit<S>,
    B: Fn(&[Pt], usize, usize, &Fit<S>) -> Fit<S>,
    L: Fn(Pt, Pt) -> (Ptf, Ptf),

    requires
        is_answered(quantize, engine, tracer, job, raster, r),
    ensures
        raster matches Err(fault) ==> r is Err && r->Err_0.code == 400 && r->Err_0.msg@ == fault,
        raster matches Ok(bitmap) ==> exists|outcome: Result<String, String>| #[trigger]
            converts(quantize, engine, tracer, job, bitmap, outcome) && (outcome is Ok <==> r is Ok)
                && (r is Ok ==> r->Ok_0 == outcome->Ok_0) && (r is Err ==> r->Err_0.code == 400
                && r->Err_0.msg == outcome->Err_0),
{
    if let Ok(bitmap) = raster {
        let outcome = choose|outcome: Result<String, String>| #[trigger]
            converts(quantize, engine, tracer, job, bitmap, outcome) && answers(r, outcome);
        assert(converts(quantize, engine, tracer, job, bitmap, outcome));
    }
}

} // verus!
