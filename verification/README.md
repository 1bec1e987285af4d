# svgit

Turns raster images into vector graphics.

The library in `src/` is verified with [Verus](https://github.com/verus-lang/verus):
every function states what it returns, and the proofs are checked with the code.
`app/` is an HTTP service around it. `tests/` runs the library on concrete images,
loops and forms.

| module | what it decides |
| --- | --- |
| `simplify`, `points` | which vertices of a loop stay (Ramer-Douglas-Peucker, split at shared junctions) |
| `curvefit` | where a loop is cut, and which cubic is drawn along each piece |
| `refine`, `sampling` | which ridge of an edge map a vertex is drawn to, and what is pinned |
| `segment`, `moments`, `dsu`, `gradient` | which components share a gradient, and which one |
| `trace`, `svg` | how components become regions, and regions a document |
| `edgenet` | what an edge net is fed, and what is made of its outputs |
| `params`, `raster`, `vectorize`, `service` | what a form asks for, which uploads are taken, and how they are converted |
| `text` | numbers and white space in text |

## Floating point

The verified code holds no floating-point numbers. A caller hands in distances,
errors and strengths as *order keys*, integers that compare as the numbers do, and
computes them in closures; the crate documentation has the details. What the library
guarantees is stated for whatever functions those closures compute.

## What is trusted

`String::push`, and five calls into outside crates, each behind a function whose doc
comment says what is claimed of it: `image`'s header reader and decoder on PNG files
and its resizer, and `vtracer`'s presets and its tracer.

Three things are left to functions of the caller, and judged by the library:

- Files that are not PNG files, and PNG files with a palette that is no list of at most
  256 colours. The decoders may panic on them, or depend on the machine.
- The clustering of large rasters, on which the tracer's 16-bit cluster indices can
  overflow, and of colours without a layer difference: the tracer then joins pixels
  diagonally, and may average the colours of a cluster that it has emptied.
- The resizing of images with sides for which the resizer is not known to find a source
  pixel for every target pixel.
