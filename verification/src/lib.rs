//! Raster to vector graphics: the decisions of a tracing pipeline, and of the
//! service around it, with proofs.
//!
//! A colour-reduced raster falls into components ([`segment`]). The tracer
//! ([`trace`]) draws each component along its contours, simplified ([`simplify`]) or
//! fitted with cubic curves ([`curvefit`]), into an SVG document ([`svg`]). Contours
//! can be refined with an edge map first ([`refine`], [`edgenet`], [`sampling`]), and
//! components can be filled with gradients that they share ([`gradient`],
//! [`moments`], [`dsu`]). The service ([`service`]) reads a form ([`params`]) and an
//! upload ([`raster`]), and traces it with this tracer or with a clustering one
//! ([`vectorize`]).
//!
//! # Order keys
//!
//! Geometry and colour statistics are computed in floating point, by the caller.
//! What this crate decides on such numbers depends on their order alone, so they
//! come as integers in the same order, their *order keys*. The key of a number that
//! is not negative is its bit pattern. The key of a negative number is the negated
//! bit pattern of its absolute value. Zero has the key 0, whatever its sign. What is
//! not a number has no key; where it may occur, a key is optional. Numbers of double
//! precision have keys of 64 bits, and of single precision of 32.
//!
//! Such computations come as functions that the caller passes in. A contract then
//! speaks of every mathematical function that the caller's function computes: it is
//! stated for all of them, under a premise that names it.
//!
//! # Coordinates
//!
//! Contours run along lattice points, the corners of pixels. Documents are written
//! in hundredths of a pixel.

use vstd::prelude::*;

pub mod curvefit;
pub mod dsu;
pub mod edgenet;
pub mod gradient;
pub mod moments;
pub mod params;
pub mod points;
pub mod raster;
pub mod refine;
pub mod sampling;
pub mod segment;
pub mod service;
pub mod simplify;
pub mod svg;
pub mod text;
pub mod trace;
pub mod vectorize;

verus! {

} // verus!
