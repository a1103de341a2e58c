//! Superpixel preprocessing: reducing an image to the average colours of its
//! regions before palette extraction.
//!
//! Shrinking an image before segmentation and scaling its label map back up
//! are floating-point computations and are left to the caller; what is here
//! works on whole numbers only.

pub mod seeds;
pub mod slic;

use vstd::prelude::*;

use crate::color::{chan, Rgb};

verus! {

/// Images are shrunk so that their longest side is at most this many pixels.
pub const DEFAULT_MAX_DIM: usize = 512;

/// Averaging sums channels in 64 bits: fewer pixels than this keep every sum
/// in range.
pub const MAX_AVERAGED: u64 = 0x100_0000_0000_0000;

/// How many of the first `i` (pixel, label) pairs carry label `lab`.
pub open spec fn label_size(p: Seq<Rgb>, l: Seq<u32>, lab: int, i: int) -> int
    decreases i,
{
    if i <= 0 {
        0
    } else {
        label_size(p, l, lab, i - 1) + if l[i - 1] == lab {
            1int
        } else {
            0
        }
    }
}

/// The sum of channel `ch` over the first `i` pixels whose label is `lab`.
pub open spec fn label_total(p: Seq<Rgb>, l: Seq<u32>, lab: int, ch: int, i: int) -> int
    decreases i,
{
    if i <= 0 {
        0
    } else {
        label_total(p, l, lab, ch, i - 1) + if l[i - 1] == lab {
            chan(p[i - 1], ch)
        } else {
            0
        }
    }
}

/// The number of (pixel, label) pairs: the shorter of the two runs.
pub open spec fn pair_count(p: Seq<Rgb>, l: Seq<u32>) -> int {
    if p.len() < l.len() {
        p.len() as int
    } else {
        l.len() as int
    }
}

/// The truncated mean colour of the pixels labelled `lab`.
pub open spec fn label_mean(p: Seq<Rgb>, l: Seq<u32>, lab: int) -> Rgb {
    let n = pair_count(p, l);
    let c = label_size(p, l, lab, n);
    Rgb {
        r: (label_total(p, l, lab, 0, n) / c) as u8,
        g: (label_total(p, l, lab, 1, n) / c) as u8,
        b: (label_total(p, l, lab, 2, n) / c) as u8,
    }
}

/// The mean colours of the labels below `m` that label at least one pixel,
/// in label order.
pub open spec fn superpixel_means(p: Seq<Rgb>, l: Seq<u32>, m: int) -> Seq<Rgb>
    decreases m,
{
    if m <= 0 {
        Seq::empty()
    } else if label_size(p, l, m - 1, pair_count(p, l)) > 0 {
        superpixel_means(p, l, m - 1).push(label_mean(p, l, m - 1))
    } else {
        superpixel_means(p, l, m - 1)
    }
}

proof fn lemma_label_bounds(p: Seq<Rgb>, l: Seq<u32>, lab: int, i: int)
    requires
        0 <= i <= pair_count(p, l),
    ensures
        0 <= label_size(p, l, lab, i) <= i,
        0 <= label_total(p, l, lab, 0, i) <= 255 * label_size(p, l, lab, i),
        0 <= label_total(p, l, lab, 1, i) <= 255 * label_size(p, l, lab, i),
        0 <= label_total(p, l, lab, 2, i) <= 255 * label_size(p, l, lab, i),
    decreases i,
{
    if i > 0 {
        lemma_label_bounds(p, l, lab, i - 1);
    }
}

/// Averages the pixels per superpixel label, pairing pixels and labels
/// position by position; labels that no pixel carries are left out.
pub fn compute_superpixel_averages(pixels: &[Rgb], labels: &[u32], num_labels: usize) -> (avgs: Vec<Rgb>)
    requires
        forall|i: int| 0 <= i < pair_count(pixels@, labels@) ==> #[trigger] labels@[i] < num_labels,
        pixels@.len() < MAX_AVERAGED,
    ensures
        avgs@ == superpixel_means(pixels@, labels@, num_labels as int),
{
    let ghost p = pixels@;
    let ghost l = labels@;
    let n = if pixels.len() < labels.len() {
        pixels.len()
    } else {
        labels.len()
    };
    let mut sums: Vec<(u64, u64, u64, u64)> = Vec::with_capacity(num_labels);
    let mut c: usize = 0;
    while c < num_labels
        invariant
            c <= num_labels,
            sums@.len() == c,
            forall|m: int| 0 <= m < c ==> #[trigger] sums@[m] == (0u64, 0u64, 0u64, 0u64),
        decreases num_labels - c,
    {
        sums.push((0, 0, 0, 0));
        c = c + 1;
    }
    let mut i: usize = 0;
    while i < n
        invariant
            p == pixels@,
            l == labels@,
            n == pair_count(p, l),
            p.len() < MAX_AVERAGED,
            forall|m: int| 0 <= m < n ==> #[trigger] l[m] < num_labels,
            i <= n,
            sums@.len() == num_labels,
            forall|lab: int|
                0 <= lab < num_labels ==> {
                    &&& (#[trigger] sums@[lab]).0 == label_total(p, l, lab, 0, i as int)
                    &&& sums@[lab].1 == label_total(p, l, lab, 1, i as int)
                    &&& sums@[lab].2 == label_total(p, l, lab, 2, i as int)
                    &&& sums@[lab].3 == label_size(p, l, lab, i as int)
                },
        decreases n - i,
    {
        let lab = labels[i] as usize;
        let px = pixels[i];
        proof {
            lemma_label_bounds(p, l, lab as int, i as int);
        }
        let (r, g, b, cnt) = sums[lab];
        sums.set(lab, (r + px.r as u64, g + px.g as u64, b + px.b as u64, cnt + 1));
        i = i + 1;
    }
    let mut avgs: Vec<Rgb> = Vec::new();
    let mut j: usize = 0;
    while j < num_labels
        invariant
            p == pixels@,
            l == labels@,
            n == pair_count(p, l),
            sums@.len() == num_labels,
            forall|lab: int|
                0 <= lab < num_labels ==> {
                    &&& (#[trigger] sums@[lab]).0 == label_total(p, l, lab, 0, n as int)
                    &&& sums@[lab].1 == label_total(p, l, lab, 1, n as int)
                    &&& sums@[lab].2 == label_total(p, l, lab, 2, n as int)
                    &&& sums@[lab].3 == label_size(p, l, lab, n as int)
                },
            j <= num_labels,
            avgs@ == superpixel_means(p, l, j as int),
        decreases num_labels - j,
    {
        let (r, g, b, count) = sums[j];
        proof {
            lemma_label_bounds(p, l, j as int, n as int);
        }
        if count > 0 {
            proof {
                let (ri, gi, bi, ci) = (r as int, g as int, b as int, count as int);
                assert(ri / ci <= 255 && gi / ci <= 255 && bi / ci <= 255) by (nonlinear_arith)
                    requires
                        0 <= ri <= 255 * ci,
                        0 <= gi <= 255 * ci,
                        0 <= bi <= 255 * ci,
                        ci >= 1,
                ;
            }
            avgs.push(Rgb::new((r / count) as u8, (g / count) as u8, (b / count) as u8));
        }
        j = j + 1;
    }
    avgs
}

/// The largest label of a label map, or zero for an empty one.
pub open spec fn max_label(l: Seq<u32>) -> int
    decreases l.len(),
{
    if l.len() == 0 {
        0
    } else if l.last() > max_label(l.drop_last()) {
        l.last() as int
    } else {
        max_label(l.drop_last())
    }
}

proof fn lemma_max_label(l: Seq<u32>, i: int)
    requires
        0 <= i < l.len(),
    ensures
        l[i] <= max_label(l),
        0 <= max_label(l) <= u32::MAX,
    decreases l.len(),
{
    if i < l.len() - 1 {
        lemma_max_label(l.drop_last(), i);
    } else if l.len() > 1 {
        lemma_max_label(l.drop_last(), 0);
    }
}

proof fn lemma_max_label_below(l: Seq<u32>, bound: int)
    requires
        bound > 0,
        forall|i: int| 0 <= i < l.len() ==> #[trigger] l[i] < bound,
    ensures
        max_label(l) < bound,
    decreases l.len(),
{
    if l.len() > 0 {
        lemma_max_label_below(l.drop_last(), bound);
        assert(l.last() == l[l.len() - 1]);
    }
}

/// Averages full-resolution pixels per label of a full-resolution label map,
/// with one slot per label up to the largest one.
pub fn superpixel_averages(pixels: &[Rgb], labels: &[u32]) -> (avgs: Vec<Rgb>)
    requires
        forall|i: int| 0 <= i < labels@.len() ==> #[trigger] labels@[i] < u32::MAX,
        pixels@.len() < MAX_AVERAGED,
    ensures
        avgs@ == superpixel_means(pixels@, labels@, max_label(labels@) + 1),
{
    let mut max: u32 = 0;
    let mut i: usize = 0;
    while i < labels.len()
        invariant
            i <= labels@.len(),
            max == max_label(labels@.subrange(0, i as int)),
        decreases labels@.len() - i,
    {
        proof {
            assert(labels@.subrange(0, i + 1).drop_last() =~= labels@.subrange(0, i as int));
        }
        if labels[i] > max {
            max = labels[i];
        }
        i = i + 1;
    }
    proof {
        assert(labels@.subrange(0, labels@.len() as int) =~= labels@);
        lemma_max_label_below(labels@, u32::MAX as int);
        assert forall|i: int| 0 <= i < pair_count(pixels@, labels@) implies #[trigger] labels@[i] < max + 1 by {
            lemma_max_label(labels@, i);
        }
    }
    compute_superpixel_averages(pixels, labels, max as usize + 1)
}

/// Converts pixels to RGBA bytes, with alpha 255.
pub fn rgb_vec_to_rgba(pixels: &[Rgb]) -> (out: Vec<u8>)
    requires
        4 * pixels@.len() <= usize::MAX,
    ensures
        out@.len() == 4 * pixels@.len(),
        forall|i: int|
            0 <= i < pixels@.len() ==> {
                &&& #[trigger] out@[4 * i] == pixels@[i].r
                &&& out@[4 * i + 1] == pixels@[i].g
                &&& out@[4 * i + 2] == pixels@[i].b
                &&& out@[4 * i + 3] == 255
            },
{
    let mut out: Vec<u8> = Vec::with_capacity(pixels.len() * 4);
    let mut i: usize = 0;
    while i < pixels.len()
        invariant
            4 * pixels@.len() <= usize::MAX,
            i <= pixels@.len(),
            out@.len() == 4 * i,
            forall|m: int|
                0 <= m < i ==> {
                    &&& #[trigger] out@[4 * m] == pixels@[m].r
                    &&& out@[4 * m + 1] == pixels@[m].g
                    &&& out@[4 * m + 2] == pixels@[m].b
                    &&& out@[4 * m + 3] == 255
                },
        decreases pixels@.len() - i,
    {
        let px = pixels[i];
        let ghost before = out@;
        out.push(px.r);
        out.push(px.g);
        out.push(px.b);
        out.push(255);
        proof {
            assert(out@ =~= before + seq![px.r, px.g, px.b, 255u8]);
            assert forall|m: int| 0 <= m < i + 1 implies {
                &&& #[trigger] out@[4 * m] == pixels@[m].r
                &&& out@[4 * m + 1] == pixels@[m].g
                &&& out@[4 * m + 2] == pixels@[m].b
                &&& out@[4 * m + 3] == 255
            } by {
                if m < i {
                    assert(out@[4 * m] == before[4 * m]);
                    assert(out@[4 * m + 1] == before[4 * m + 1]);
                    assert(out@[4 * m + 2] == before[4 * m + 2]);
                    assert(out@[4 * m + 3] == before[4 * m + 3]);
                }
            }
        }
        i = i + 1;
    }
    out
}

} // verus!
