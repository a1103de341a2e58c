//! Colour swatch extraction from images: k-means, octree and median-cut
//! palette algorithms over 8-bit RGB pixels, with superpixel preprocessing
//! helpers. Every function here carries a contract that Verus checks.

pub mod algorithms;
pub mod color;
pub mod palette;
pub mod preprocessors;
pub mod swatch;

use vstd::prelude::*;

use algorithms::kmeans::{extract_colors_kmeans, kmeans_result, InitMethod, KmeansColorSpace};
use algorithms::median_cut::{extract_colors_median_cut, median_cut_result};
use algorithms::octree::{extract_colors_octree, octree_result, OctreeColorSpace, OctreeDepth};
use color::Rgb;
use palette::{is_stable_pop_sort, sort_by_population};
use swatch::Swatch;

verus! {

/// The `i`-th pixel of an RGBA byte sequence (alpha discarded).
pub open spec fn rgba_pixel(data: Seq<u8>, i: int) -> Rgb {
    Rgb { r: data[4 * i], g: data[4 * i + 1], b: data[4 * i + 2] }
}

/// The pixels of an RGBA byte sequence, one per whole group of four bytes.
pub open spec fn rgba_pixels(data: Seq<u8>) -> Seq<Rgb> {
    Seq::new(data.len() / 4, |i: int| rgba_pixel(data, i))
}

/// Parses raw RGBA bytes into [`Rgb`] pixels. Alpha is discarded, as is a
/// trailing group of fewer than four bytes.
pub fn pixels_from_rgba(data: &[u8]) -> (pixels: Vec<Rgb>)
    ensures
        pixels@ == rgba_pixels(data@),
        pixels@.len() == data@.len() / 4,
        forall|i: int| 0 <= i < pixels@.len() ==> #[trigger] pixels@[i] == rgba_pixel(data@, i),
{
    let len = data.len();
    let n = len / 4;
    let mut out: Vec<Rgb> = Vec::with_capacity(n);
    let mut i: usize = 0;
    assert(4 * n <= len) by (nonlinear_arith)
        requires
            n == len / 4,
    ;
    while i < n
        invariant
            n == data@.len() / 4,
            len == data@.len(),
            4 * n <= len,
            i <= n,
            out@.len() == i,
            forall|j: int| 0 <= j < i ==> #[trigger] out@[j] == rgba_pixel(data@, j),
        decreases n - i,
    {
        let base = 4 * i;
        out.push(Rgb::new(data[base], data[base + 1], data[base + 2]));
        i = i + 1;
    }
    assert(out@ =~= rgba_pixels(data@));
    out
}

/// Parsing the RGBA bytes that [`preprocessors::rgb_vec_to_rgba`] writes for
/// some pixels gives those pixels back.
pub proof fn lemma_rgba_round_trip(p: Seq<Rgb>, bytes: Seq<u8>)
    requires
        bytes.len() == 4 * p.len(),
        forall|i: int|
            0 <= i < p.len() ==> {
                &&& #[trigger] bytes[4 * i] == p[i].r
                &&& bytes[4 * i + 1] == p[i].g
                &&& bytes[4 * i + 2] == p[i].b
            },
    ensures
        rgba_pixels(bytes) == p,
{
    assert(bytes.len() / 4 == p.len());
    assert forall|i: int| 0 <= i < p.len() implies #[trigger] rgba_pixels(bytes)[i] == p[i] by {
        assert(bytes[4 * i] == p[i].r);
    }
    assert(rgba_pixels(bytes) =~= p);
}

/// Inputs of at most [`MAX_SAMPLE`] pixels are not thinned out.
pub proof fn lemma_small_inputs_unsampled(s: Seq<Rgb>)
    requires
        s.len() <= MAX_SAMPLE,
    ensures
        sampled(s) == s,
{
    let st = spec_sample_step(s.len() as int);
    assert(st == 1);
    assert((s.len() + st - 1) / st == s.len());
    assert forall|i: int| 0 <= i < s.len() implies #[trigger] sampled(s)[i] == s[i] by {
        assert(i * st == i);
    }
    assert(sampled(s) =~= s);
}

/// Inputs longer than this are thinned out by taking every `step`-th pixel.
pub const MAX_SAMPLE: usize = 20000;

/// The stride used to thin out an input of `len` pixels.
pub open spec fn spec_sample_step(len: int) -> int {
    if len > MAX_SAMPLE {
        len / (MAX_SAMPLE as int)
    } else {
        1
    }
}

/// The pixels that the palette algorithms work on: every
/// `spec_sample_step`-th pixel of the input, starting with the first.
pub open spec fn sampled(s: Seq<Rgb>) -> Seq<Rgb> {
    let st = spec_sample_step(s.len() as int);
    Seq::new(((s.len() + st - 1) / st) as nat, |i: int| s[i * st])
}

fn sample_step(len: usize) -> (step: usize)
    ensures
        step == spec_sample_step(len as int),
        step >= 1,
{
    if len > MAX_SAMPLE {
        len / MAX_SAMPLE
    } else {
        1
    }
}

/// Takes every `spec_sample_step`-th pixel, so that large images are
/// thinned to at most about twice `MAX_SAMPLE` pixels.
pub fn sample_pixels(pixels: &[Rgb]) -> (out: Vec<Rgb>)
    ensures
        out@ == sampled(pixels@),
        out@.len() <= 2 * MAX_SAMPLE,
        out@.len() <= pixels@.len(),
        pixels@.len() > 0 ==> out@.len() >= 1,
{
    let len = pixels.len();
    let step = sample_step(len);
    proof {
        if len % step != 0 {
            assert(step >= 2);
            assert(len / step < len) by (nonlinear_arith)
                requires
                    step >= 2,
                    len >= 1,
            ;
        }
    }
    let count = if len % step == 0 {
        len / step
    } else {
        len / step + 1
    };
    proof {
        let l = len as int;
        let st = step as int;
        let (q0, r0) = (l / st, l % st);
        vstd::arithmetic::div_mod::lemma_fundamental_div_mod(l, st);
        let rem = if r0 == 0 {
            st - 1
        } else {
            r0 - 1
        };
        assert(l + st - 1 == count * st + rem) by (nonlinear_arith)
            requires
                l == st * q0 + r0,
                count == if r0 == 0 {
                    q0
                } else {
                    q0 + 1
                },
                rem == if r0 == 0 {
                    st - 1
                } else {
                    r0 - 1
                },
        ;
        vstd::arithmetic::div_mod::lemma_fundamental_div_mod_converse(l + st - 1, st, count as int, rem);
        assert((count - 1) * st < l || count == 0) by (nonlinear_arith)
            requires
                st >= 1,
                l >= 0,
                count == if l % st == 0 {
                    l / st
                } else {
                    l / st + 1
                },
        ;
        assert(count <= l) by (nonlinear_arith)
            requires
                st >= 1,
                l >= 0,
                count == (l + st - 1) / st,
        ;
        if l > MAX_SAMPLE {
            assert(count <= 2 * MAX_SAMPLE) by (nonlinear_arith)
                requires
                    l > 20000,
                    st == l / 20000,
                    count == (l + st - 1) / st,
            ;
        } else {
            assert(st == 1);
        }
        if l > 0 {
            assert(count >= 1) by (nonlinear_arith)
                requires
                    st >= 1,
                    l >= 1,
                    count == (l + st - 1) / st,
            ;
        }
    }
    let mut out: Vec<Rgb> = Vec::with_capacity(count);
    let mut j: usize = 0;
    while j < count
        invariant
            len == pixels@.len(),
            step == spec_sample_step(len as int),
            step >= 1,
            count == (len + step - 1) / (step as int),
            (count - 1) * step < len || count == 0,
            j <= count,
            out@.len() == j,
            forall|m: int| 0 <= m < j ==> #[trigger] out@[m] == pixels@[m * step],
        decreases count - j,
    {
        proof {
            assert(j * step <= (count - 1) * step) by (nonlinear_arith)
                requires
                    j < count,
                    step >= 1,
            ;
        }
        out.push(pixels[j * step]);
        j = j + 1;
    }
    assert(out@ =~= sampled(pixels@));
    out
}


/// The `(colour, population)` pairs of a run of swatches.
pub open spec fn swatch_pairs(s: Seq<Swatch>) -> Seq<(Rgb, u32)> {
    s.map_values(|w: Swatch| (w.color, w.population))
}

/// Turns a palette into swatches, most populous first; swatches of equal
/// population keep the palette's order.
fn collect_sorted_swatches(raw: Vec<(Rgb, u32)>) -> (swatches: Vec<Swatch>)
    ensures
        is_stable_pop_sort(swatch_pairs(swatches@), raw@),
        swatches@.len() == raw@.len(),
{
    let sorted = sort_by_population(raw);
    let mut swatches: Vec<Swatch> = Vec::with_capacity(sorted.len());
    let mut i: usize = 0;
    while i < sorted.len()
        invariant
            i <= sorted@.len(),
            swatches@.len() == i,
            forall|j: int| 0 <= j < i ==> #[trigger] swatches@[j] == (Swatch { color: sorted@[j].0, population: sorted@[j].1 }),
        decreases sorted@.len() - i,
    {
        let (c, p) = sorted[i];
        swatches.push(Swatch::new(c, p));
        i = i + 1;
    }
    assert(swatch_pairs(swatches@) =~= sorted@);
    swatches
}

/// Extracts dominant colour swatches with k-means, sorted by population (most
/// common first). Large images are subsampled; population counts reflect the
/// sampled pixels. `cluster_lab` does the clustering for the CIELAB colour
/// spaces, as for [`extract_colors_kmeans`].
pub fn generate_swatches_kmeans<F: Fn(Vec<Rgb>, usize, KmeansColorSpace, InitMethod, u64) -> Vec<(Rgb, u32)>>(
    pixels: &[Rgb],
    count: usize,
    color_space: KmeansColorSpace,
    init: InitMethod,
    seed: u64,
    cluster_lab: F,
) -> (swatches: Vec<Swatch>)
    requires
        forall|v: Vec<Rgb>, n: usize, cs: KmeansColorSpace, im: InitMethod, sd: u64|
            call_requires(cluster_lab, (v, n, cs, im, sd)),
    ensures
        exists|raw: Vec<(Rgb, u32)>|
            kmeans_result(pixels@, count as int, color_space, init, seed, cluster_lab, raw)
                && is_stable_pop_sort(swatch_pairs(swatches@), raw@),
{
    let raw = extract_colors_kmeans(pixels, count, color_space, init, seed, cluster_lab);
    let ghost r = raw;
    let swatches = collect_sorted_swatches(raw);
    assert(kmeans_result(pixels@, count as int, color_space, init, seed, cluster_lab, r));
    swatches
}

/// Extracts dominant colour swatches with octree quantisation, sorted by
/// population (most common first). `lab_channels` and `lab_color` serve the
/// CIELAB colour space, as for [`extract_colors_octree`].
pub fn generate_swatches_octree<F: Fn(Rgb) -> (i32, i32, i32), G: Fn(i64, i64, i64, u32) -> Rgb>(
    pixels: &[Rgb],
    count: usize,
    color_space: OctreeColorSpace,
    max_depth: OctreeDepth,
    lab_channels: F,
    lab_color: G,
) -> (swatches: Vec<Swatch>)
    requires
        forall|c: Rgb| call_requires(lab_channels, (c,)),
        forall|s0: i64, s1: i64, s2: i64, n: u32| call_requires(lab_color, (s0, s1, s2, n)),
    ensures
        exists|raw: Seq<(Rgb, u32)>|
            octree_result(pixels@, count as int, color_space, max_depth, lab_channels, lab_color, raw)
                && is_stable_pop_sort(swatch_pairs(swatches@), raw),
{
    let raw = extract_colors_octree(pixels, count, color_space, max_depth, lab_channels, lab_color);
    let ghost r = raw@;
    let swatches = collect_sorted_swatches(raw);
    assert(octree_result(pixels@, count as int, color_space, max_depth, lab_channels, lab_color, r));
    swatches
}

/// Extracts dominant colour swatches with median cut, sorted by population
/// (most common first).
pub fn generate_swatches_median_cut(pixels: &[Rgb], count: usize) -> (swatches: Vec<Swatch>)
    ensures
        exists|raw: Seq<(Rgb, u32)>|
            median_cut_result(pixels@, count as int, raw) && is_stable_pop_sort(
                swatch_pairs(swatches@),
                raw,
            ),
{
    let raw = extract_colors_median_cut(pixels, count);
    let ghost r = raw@;
    let swatches = collect_sorted_swatches(raw);
    assert(median_cut_result(pixels@, count as int, r));
    swatches
}

} // verus!
