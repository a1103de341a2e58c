# swatchthis

Colour swatch extraction from images — k-means, octree quantisation and
median cut over 8-bit RGB pixels, with SEEDS and SLIC superpixel
preprocessing — written in Verus, with contracts on the functions of the
library.

## Layout

- `src/` — the verified library.
  - `color.rs`: `Rgb`, hex strings, squared distances.
  - `swatch.rs`: `Swatch`.
  - `palette.rs`: palettes as `(colour, population)` pairs; stable sorting by
    population.
  - `algorithms/kmeans.rs`: seeded xorshift generator, random and k-means++
    initialisation, Lloyd rounds over RGB; CIELAB clustering is a caller-supplied
    step.
  - `algorithms/octree.rs`: octree quantisation with leaf reduction.
  - `algorithms/median_cut.rs`: median cut.
  - `preprocessors.rs`, `preprocessors/seeds.rs`, `preprocessors/slic.rs`:
    superpixel averages, the SEEDS block grid, histograms and refinement, the
    SLIC centre grid, gradient search and connectivity pass.
  - `lib.rs`: RGBA parsing, sampling of large inputs, swatch generation.
- `tests/` — tests run against the compiled library.
- `app/` — plain Rust around the library: CIELAB conversions and distances,
  CIELAB k-means, image resampling, the SLIC clustering loop, the SEEDS and
  SLIC pipelines and the WebAssembly entry points. All of these work in
  floating point.

Wherever the library needs a floating-point step in the middle of its work
(a CIELAB conversion, a comparison of histogram scores), it takes that step
as a function argument, and its contract says what it does with the answer.
