//! SEEDS superpixels.
//!
//! The image is cut into a grid of blocks, one label each. Colour histograms
//! are kept per label, flattened into one vector: the histogram of label
//! `lab` occupies the `bins³` entries from `lab * bins³` on. Blocks are then
//! refined level by level, from coarse sub-blocks to fine ones: a sub-block
//! moves to a neighbouring label when its colours match that label's
//! histogram clearly better. Finally single pixels move to a neighbouring
//! label whose histogram gives their colour a higher share.

use vstd::prelude::*;
use vstd::arithmetic::power2::pow2;

use crate::color::Rgb;

verus! {

/// The bin of one channel value, with `bins` bins over `0..256`.
pub open spec fn chan_bin(v: u8, bins: int) -> int {
    let q = v * bins / 256;
    if q < bins - 1 {
        q
    } else {
        bins - 1
    }
}

/// The histogram bin of a colour, with `bins` bins per channel.
pub open spec fn color_bin(px: Rgb, bins: int) -> int {
    chan_bin(px.r, bins) * bins * bins + chan_bin(px.g, bins) * bins + chan_bin(px.b, bins)
}

/// Bin counts that a histogram of `bins` bins per channel allows.
pub open spec fn bins_ok(bins: int) -> bool {
    &&& 1 <= bins
    &&& 256 * bins <= usize::MAX
    &&& bins * bins <= usize::MAX
    &&& bins * bins * bins <= usize::MAX
}

proof fn lemma_color_bin(px: Rgb, bins: int)
    requires
        bins_ok(bins),
    ensures
        0 <= chan_bin(px.r, bins) < bins,
        0 <= chan_bin(px.g, bins) < bins,
        0 <= chan_bin(px.b, bins) < bins,
        0 <= color_bin(px, bins) < bins * bins * bins,
{
    let (r, g, b) = (chan_bin(px.r, bins), chan_bin(px.g, bins), chan_bin(px.b, bins));
    assert(px.r * bins >= 0 && px.g * bins >= 0 && px.b * bins >= 0) by (nonlinear_arith)
        requires
            bins >= 1,
    ;
    assert(0 <= r * bins * bins + g * bins + b < bins * bins * bins) by (nonlinear_arith)
        requires
            0 <= r < bins,
            0 <= g < bins,
            0 <= b < bins,
    ;
}

/// The histogram bin of a pixel.
fn rgb_to_bin(px: &Rgb, bins: usize) -> (bin: usize)
    requires
        bins_ok(bins as int),
    ensures
        bin == color_bin(*px, bins as int),
        bin < bins * bins * bins,
{
    proof {
        lemma_color_bin(*px, bins as int);
        assert(px.r * bins <= 255 * bins && px.g * bins <= 255 * bins && px.b * bins <= 255 * bins)
            by (nonlinear_arith)
            requires
                bins >= 1,
        ;
    }
    let rq = px.r as usize * bins / 256;
    let gq = px.g as usize * bins / 256;
    let bq = px.b as usize * bins / 256;
    let rb = if rq < bins - 1 {
        rq
    } else {
        bins - 1
    };
    let gb = if gq < bins - 1 {
        gq
    } else {
        bins - 1
    };
    let bb = if bq < bins - 1 {
        bq
    } else {
        bins - 1
    };
    proof {
        let (r, g, b, n) = (rb as int, gb as int, bb as int, bins as int);
        assert(r * n * n + g * n + b < n * n * n && r * n * n <= n * n * n && g * n < n * n
            && n * n <= n * n * n && r * n <= n * n) by (nonlinear_arith)
            requires
                0 <= r < n,
                0 <= g < n,
                0 <= b < n,
        ;
    }
    rb * bins * bins + gb * bins + bb
}

/// Entry `b` of the histogram of label `lab` in a flat histogram vector
/// with `tb` bins per label.
pub open spec fn hist_at(h: Seq<u32>, tb: int, lab: int, b: int) -> u32 {
    h[lab * tb + b]
}

proof fn lemma_hist_index(lab: int, b: int, num: int, tb: int)
    requires
        0 <= lab < num,
        0 <= b < tb,
    ensures
        0 <= lab * tb + b < num * tb,
        0 <= lab * tb,
{
    assert(0 <= lab * tb + b < num * tb && 0 <= lab * tb) by (nonlinear_arith)
        requires
            0 <= lab < num,
            0 <= b < tb,
    ;
}

/// How many of the first `i` pixels have label `lab` and colour bin `b`.
pub open spec fn bin_count(p: Seq<Rgb>, l: Seq<u32>, lab: int, b: int, bins: int, i: int) -> int
    decreases i,
{
    if i <= 0 {
        0
    } else {
        bin_count(p, l, lab, b, bins, i - 1) + if l[i - 1] == lab && color_bin(p[i - 1], bins) == b {
            1int
        } else {
            0
        }
    }
}

proof fn lemma_bin_count_update(p: Seq<Rgb>, l: Seq<u32>, i: int, v: u32, lab: int, b: int, bins: int, m: int)
    requires
        0 <= i < l.len(),
        m <= l.len(),
    ensures
        bin_count(p, l.update(i, v), lab, b, bins, m) == bin_count(p, l, lab, b, bins, m) - (if 0 <= i < m && l[i]
            == lab && color_bin(p[i], bins) == b {
            1int
        } else {
            0
        }) + (if 0 <= i < m && v == lab && color_bin(p[i], bins) == b {
            1int
        } else {
            0
        }),
    decreases m,
{
    if m > 0 {
        lemma_bin_count_update(p, l, i, v, lab, b, bins, m - 1);
    }
}

proof fn lemma_slot_unique(lab: int, b: int, c: int, cb: int, tb: int)
    requires
        0 <= lab,
        0 <= c,
        0 <= b < tb,
        0 <= cb < tb,
        lab * tb + b == c * tb + cb,
    ensures
        lab == c && b == cb,
{
    if lab < c {
        assert(lab * tb + b < c * tb + cb) by (nonlinear_arith)
            requires
                lab < c,
                0 <= b < tb,
                0 <= cb,
        ;
    } else if c < lab {
        assert(c * tb + cb < lab * tb + b) by (nonlinear_arith)
            requires
                c < lab,
                0 <= cb < tb,
                0 <= b,
        ;
    }
}

/// Moving pixel `i` from label `cur` to label `nl` and its colour bin's count
/// with it keeps the histograms counting the pixels.
proof fn lemma_move_counts(p: Seq<Rgb>, l: Seq<u32>, h: Seq<u32>, num: int, bins: int, i: int, nl: u32)
    requires
        hist_of(p, l, num, bins, h),
        bins_ok(bins),
        l.len() == p.len(),
        p.len() <= u32::MAX,
        0 <= i < l.len(),
        l[i] < num,
        nl < num,
        nl != l[i],
    ensures
        ({
            let tb = bins * bins * bins;
            let ci = l[i] * tb + color_bin(p[i], bins);
            let ni = nl * tb + color_bin(p[i], bins);
            &&& h[ci] >= 1
            &&& h[ni] < u32::MAX
            &&& hist_of(p, l.update(i, nl), num, bins, h.update(ci, (h[ci] - 1) as u32).update(ni, (h[ni] + 1) as u32))
        }),
{
    let tb = bins * bins * bins;
    let cur = l[i] as int;
    let bin = color_bin(p[i], bins);
    lemma_color_bin(p[i], bins);
    let ci = cur * tb + bin;
    let ni = nl * tb + bin;
    let n = p.len() as int;
    let l2 = l.update(i, nl);
    lemma_hist_index(cur, bin, num, tb);
    lemma_hist_index(nl as int, bin, num, tb);
    assert(hist_at(h, tb, cur, bin) == bin_count(p, l, cur, bin, bins, n));
    assert(hist_at(h, tb, nl as int, bin) == bin_count(p, l, nl as int, bin, bins, n));
    lemma_bin_count_update(p, l, i, nl, cur, bin, bins, n);
    lemma_bin_count_update(p, l, i, nl, nl as int, bin, bins, n);
    lemma_bin_count_bound(p, l2, cur, bin, bins, n);
    lemma_bin_count_bound(p, l2, nl as int, bin, bins, n);
    if ci == ni {
        lemma_slot_unique(cur, bin, nl as int, bin, tb);
    }
    let h2 = h.update(ci, (h[ci] - 1) as u32).update(ni, (h[ni] + 1) as u32);
    assert forall|lab: int, b: int|
        0 <= lab < num && 0 <= b < tb implies #[trigger] hist_at(h2, tb, lab, b) == bin_count(
        p,
        l2,
        lab,
        b,
        bins,
        p.len() as int,
    ) by {
        lemma_hist_index(lab, b, num, tb);
        lemma_bin_count_update(p, l, i, nl, lab, b, bins, n);
        let j = lab * tb + b;
        if j == ni {
            lemma_slot_unique(lab, b, nl as int, bin, tb);
        } else if j == ci {
            lemma_slot_unique(lab, b, cur, bin, tb);
        } else {
            if lab == cur && b == bin {
                assert(j == ci);
            }
            if lab == nl && b == bin {
                assert(j == ni);
            }
            assert(hist_at(h, tb, lab, b) == bin_count(p, l, lab, b, bins, n));
        }
    }
}

/// Every label of `l` already occurs in `l0`.
pub open spec fn labels_from(l0: Seq<u32>, l: Seq<u32>) -> bool {
    forall|i: int| 0 <= i < l.len() ==> #[trigger] label_in(l0, l[i])
}

/// Label `v` occurs in `l0`.
pub open spec fn label_in(l0: Seq<u32>, v: u32) -> bool {
    exists|j: int| 0 <= j < l0.len() && l0[j] == v
}

proof fn lemma_hist_sum_pos(h: Seq<u32>, tb: int, lab: int, m: int)
    requires
        hist_sum(h, tb, lab, m) > 0,
    ensures
        exists|b: int| 0 <= b < m && #[trigger] hist_at(h, tb, lab, b) > 0,
    decreases m,
{
    if m > 0 && hist_at(h, tb, lab, m - 1) == 0 {
        lemma_hist_sum_pos(h, tb, lab, m - 1);
        let b = choose|b: int| 0 <= b < m - 1 && #[trigger] hist_at(h, tb, lab, b) > 0;
        assert(hist_at(h, tb, lab, b) > 0);
    }
}

proof fn lemma_bin_count_pos(p: Seq<Rgb>, l: Seq<u32>, lab: int, b: int, bins: int, m: int)
    requires
        bin_count(p, l, lab, b, bins, m) > 0,
    ensures
        exists|i: int| 0 <= i < m && l[i] == lab,
    decreases m,
{
    if m > 0 && !(l[m - 1] == lab) {
        lemma_bin_count_pos(p, l, lab, b, bins, m - 1);
        let i = choose|i: int| 0 <= i < m - 1 && l[i] == lab;
        assert(l[i] == lab);
    }
}

proof fn lemma_bin_count_bound(p: Seq<Rgb>, l: Seq<u32>, lab: int, b: int, bins: int, i: int)
    requires
        i >= 0,
    ensures
        0 <= bin_count(p, l, lab, b, bins, i) <= i,
    decreases i,
{
    if i > 0 {
        lemma_bin_count_bound(p, l, lab, b, bins, i - 1);
    }
}

/// The colour histogram of each label, flattened.
fn build_histograms(pixels: &[Rgb], labels: &[u32], num_labels: usize, bins: usize) -> (h: Vec<u32>)
    requires
        bins_ok(bins as int),
        labels@.len() == pixels@.len(),
        pixels@.len() <= u32::MAX,
        num_labels * (bins * bins * bins) <= usize::MAX,
        forall|i: int| 0 <= i < labels@.len() ==> #[trigger] labels@[i] < num_labels,
    ensures
        h@.len() == num_labels * (bins * bins * bins),
        forall|lab: int|
            0 <= lab < num_labels ==> #[trigger] hist_sum(h@, bins * bins * bins, lab, bins * bins * bins)
                <= pixels@.len(),
        forall|lab: int, b: int|
            0 <= lab < num_labels && 0 <= b < bins * bins * bins ==> #[trigger] hist_at(
                h@,
                bins * bins * bins,
                lab,
                b,
            ) == bin_count(pixels@, labels@, lab, b, bins as int, pixels@.len() as int),
{
    proof {
        let n = bins as int;
        assert(n * n <= n * n * n) by (nonlinear_arith)
            requires
                n >= 1,
        ;
    }
    let tb = bins * bins * bins;
    let size = num_labels * tb;
    let mut h: Vec<u32> = Vec::with_capacity(size);
    let mut t: usize = 0;
    while t < size
        invariant
            t <= size,
            h@.len() == t,
            forall|m: int| 0 <= m < t ==> #[trigger] h@[m] == 0,
        decreases size - t,
    {
        h.push(0);
        t = t + 1;
    }
    proof {
        assert forall|lab: int| 0 <= lab < num_labels implies #[trigger] hist_sum(h@, tb as int, lab, tb as int) <= 0 by {
            lemma_hist_sum_zero(h@, tb as int, num_labels as int, lab, tb as int);
        }
    }
    proof {
        assert forall|lab: int, b: int| 0 <= lab < num_labels && 0 <= b < tb implies #[trigger] hist_at(
            h@,
            tb as int,
            lab,
            b,
        ) == bin_count(pixels@, labels@, lab, b, bins as int, 0) by {
            lemma_hist_index(lab, b, num_labels as int, tb as int);
        }
    }
    let mut i: usize = 0;
    while i < pixels.len()
        invariant
            bins_ok(bins as int),
            tb == bins * bins * bins,
            size == num_labels * tb,
            labels@.len() == pixels@.len(),
            pixels@.len() <= u32::MAX,
            forall|m: int| 0 <= m < labels@.len() ==> #[trigger] labels@[m] < num_labels,
            i <= pixels@.len(),
            h@.len() == size,
            size <= usize::MAX,
            forall|lab: int| 0 <= lab < num_labels ==> #[trigger] hist_sum(h@, tb as int, lab, tb as int) <= i,
            forall|lab: int, b: int|
                0 <= lab < num_labels && 0 <= b < tb ==> #[trigger] hist_at(h@, tb as int, lab, b)
                    == bin_count(pixels@, labels@, lab, b, bins as int, i as int),
        decreases pixels@.len() - i,
    {
        let bin = rgb_to_bin(&pixels[i], bins);
        let lab = labels[i] as usize;
        proof {
            lemma_hist_index(lab as int, bin as int, num_labels as int, tb as int);
            lemma_bin_count_bound(pixels@, labels@, lab as int, bin as int, bins as int, i as int);
        }
        let idx = lab * tb + bin;
        let v = h[idx];
        assert(hist_at(h@, tb as int, lab as int, bin as int) == v);
        let ghost old_h = h@;
        h.set(idx, v + 1);
        proof {
            assert forall|l2: int| 0 <= l2 < num_labels implies #[trigger] hist_sum(h@, tb as int, l2, tb as int) <= i + 1 by {
                lemma_hist_sum_update(old_h, tb as int, num_labels as int, lab as int, bin as int, (v + 1) as u32, l2, tb as int);
                assert(hist_sum(old_h, tb as int, l2, tb as int) <= i);
            }
            assert forall|l2: int, b2: int| 0 <= l2 < num_labels && 0 <= b2 < tb implies #[trigger] hist_at(
                h@,
                tb as int,
                l2,
                b2,
            ) == bin_count(pixels@, labels@, l2, b2, bins as int, i + 1) by {
                lemma_hist_index(l2, b2, num_labels as int, tb as int);
                assert(hist_at(old_h, tb as int, l2, b2) == bin_count(pixels@, labels@, l2, b2, bins as int, i as int));
                if l2 != lab || b2 != bin {
                    assert(l2 * tb + b2 != lab * tb + bin) by (nonlinear_arith)
                        requires
                            0 <= b2 < tb,
                            0 <= bin < tb,
                            l2 != lab || b2 != bin,
                    ;
                }
            }
        }
        i = i + 1;
    }
    h
}


/// Cell `(x, y)` of a row-major grid `w` cells wide lies in the block
/// `[x0, x1) × [y0, y1)`, where `x = i % w` and `y = i / w`.
pub open spec fn in_block(i: int, w: int, x0: int, y0: int, x1: int, y1: int) -> bool {
    &&& y0 <= i / w < y1
    &&& x0 <= i % w < x1
}

/// A block `[x0, x1) × [y0, y1)` lies inside a `w × h` grid whose cell count
/// is a `usize`.
pub open spec fn block_ok(w: int, h: int, x0: int, y0: int, x1: int, y1: int) -> bool {
    &&& w * h <= usize::MAX
    &&& 0 <= x0 <= x1 <= w
    &&& 0 <= y0 <= y1 <= h
}

/// Cell `(x, y)` of a `w × h` grid sits at `y * w + x`, inside the grid.
pub proof fn lemma_cell(w: int, h: int, x: int, y: int)
    requires
        0 <= x < w,
        0 <= y < h,
    ensures
        0 <= y * w <= y * w + x < w * h,
        (y * w + x) / w == y,
        (y * w + x) % w == x,
{
    assert(0 <= y * w <= y * w + x < w * h) by (nonlinear_arith)
        requires
            0 <= x < w,
            0 <= y < h,
    ;
    vstd::arithmetic::div_mod::lemma_fundamental_div_mod_converse(y * w + x, w, y, x);
}

/// How many of the cells `x0..x` of row `y` have colour bin `b`.
pub open spec fn row_bins(p: Seq<Rgb>, w: int, y: int, x0: int, x: int, bins: int, b: int) -> int
    decreases x - x0,
{
    if x <= x0 {
        0
    } else {
        row_bins(p, w, y, x0, x - 1, bins, b) + if color_bin(p[y * w + x - 1], bins) == b {
            1int
        } else {
            0
        }
    }
}

/// How many cells of the block `[x0, x1) × [y0, y)` have colour bin `b`.
pub open spec fn block_bins(p: Seq<Rgb>, w: int, x0: int, x1: int, y0: int, y: int, bins: int, b: int) -> int
    decreases y - y0,
{
    if y <= y0 {
        0
    } else {
        block_bins(p, w, x0, x1, y0, y - 1, bins, b) + row_bins(p, w, y - 1, x0, x1, bins, b)
    }
}

proof fn lemma_row_bins_bound(p: Seq<Rgb>, w: int, y: int, x0: int, x: int, bins: int, b: int)
    requires
        x0 <= x,
    ensures
        0 <= row_bins(p, w, y, x0, x, bins, b) <= x - x0,
    decreases x - x0,
{
    if x > x0 {
        lemma_row_bins_bound(p, w, y, x0, x - 1, bins, b);
    }
}

proof fn lemma_block_bins_bound(p: Seq<Rgb>, w: int, x0: int, x1: int, y0: int, y: int, bins: int, b: int)
    requires
        x0 <= x1,
        y0 <= y,
    ensures
        0 <= block_bins(p, w, x0, x1, y0, y, bins, b) <= (y - y0) * (x1 - x0),
    decreases y - y0,
{
    if y > y0 {
        lemma_block_bins_bound(p, w, x0, x1, y0, y - 1, bins, b);
        lemma_row_bins_bound(p, w, y - 1, x0, x1, bins, b);
        assert((y - 1 - y0) * (x1 - x0) + (x1 - x0) == (y - y0) * (x1 - x0)) by (nonlinear_arith);
    }
}

/// Fills `hist` with the colour histogram of the block `[x0, x1) × [y0, y1)`
/// of a row-major image `width` pixels wide.
fn fill_sub_histogram(
    pixels: &[Rgb],
    width: usize,
    height: usize,
    x0: usize,
    y0: usize,
    x1: usize,
    y1: usize,
    bins: usize,
    hist: &mut Vec<u32>,
)
    requires
        bins_ok(bins as int),
        old(hist)@.len() == bins * bins * bins,
        pixels@.len() == width * height,
        block_ok(width as int, height as int, x0 as int, y0 as int, x1 as int, y1 as int),
        (x1 - x0) * (y1 - y0) <= u32::MAX,
    ensures
        final(hist)@.len() == bins * bins * bins,
        seq_sum(final(hist)@, bins * bins * bins) == (x1 - x0) * (y1 - y0),
        forall|b: int|
            0 <= b < bins * bins * bins ==> #[trigger] final(hist)@[b] == block_bins(
                pixels@,
                width as int,
                x0 as int,
                x1 as int,
                y0 as int,
                y1 as int,
                bins as int,
                b,
            ),
{
    let tb = hist.len();
    let mut t: usize = 0;
    while t < tb
        invariant
            tb == hist@.len(),
            t <= tb,
            forall|m: int| 0 <= m < t ==> #[trigger] hist@[m] == 0,
            seq_sum(hist@, t as int) == 0,
        decreases tb - t,
    {
        proof {
            lemma_seq_sum_update(hist@, t as int, 0, t + 1);
        }
        hist.set(t, 0);
        t = t + 1;
    }
    let ghost p = pixels@;
    proof {
        assert(tb == bins * bins * bins);
    }
    let mut y: usize = y0;
    while y < y1
        invariant
            bins_ok(bins as int),
            tb == bins * bins * bins,
            hist@.len() == tb,
            p == pixels@,
            p.len() == width * height,
            block_ok(width as int, height as int, x0 as int, y0 as int, x1 as int, y1 as int),
            (x1 - x0) * (y1 - y0) <= u32::MAX,
            y0 <= y <= y1,
            seq_sum(hist@, tb as int) == (y - y0) * (x1 - x0),
            forall|b: int|
                0 <= b < tb ==> #[trigger] hist@[b] == block_bins(
                    p,
                    width as int,
                    x0 as int,
                    x1 as int,
                    y0 as int,
                    y as int,
                    bins as int,
                    b,
                ),
        decreases y1 - y,
    {
        let mut x: usize = x0;
        while x < x1
            invariant
                bins_ok(bins as int),
                tb == bins * bins * bins,
                hist@.len() == tb,
                p == pixels@,
                p.len() == width * height,
                block_ok(width as int, height as int, x0 as int, y0 as int, x1 as int, y1 as int),
                (x1 - x0) * (y1 - y0) <= u32::MAX,
                y0 <= y < y1,
                x0 <= x <= x1,
                seq_sum(hist@, tb as int) == (y - y0) * (x1 - x0) + (x - x0),
                forall|b: int|
                    0 <= b < tb ==> #[trigger] hist@[b] == block_bins(
                        p,
                        width as int,
                        x0 as int,
                        x1 as int,
                        y0 as int,
                        y as int,
                        bins as int,
                        b,
                    ) + row_bins(p, width as int, y as int, x0 as int, x as int, bins as int, b),
            decreases x1 - x,
        {
            proof {
                lemma_cell(width as int, height as int, x as int, y as int);
            }
            let bin = rgb_to_bin(&pixels[y * width + x], bins);
            proof {
                lemma_block_bins_bound(p, width as int, x0 as int, x1 as int, y0 as int, y as int, bins as int, bin as int);
                lemma_row_bins_bound(p, width as int, y as int, x0 as int, x as int, bins as int, bin as int);
                assert((y - y0) * (x1 - x0) + (x - x0) < (x1 - x0) * (y1 - y0)) by (nonlinear_arith)
                    requires
                        y0 <= y < y1,
                        x0 <= x < x1,
                ;
            }
            let v = hist[bin];
            proof {
                lemma_seq_sum_update(hist@, bin as int, (v + 1) as u32, tb as int);
            }
            hist.set(bin, v + 1);
            x = x + 1;
        }
        proof {
            assert((y - y0) * (x1 - x0) + (x1 - x0) == (y + 1 - y0) * (x1 - x0)) by (nonlinear_arith);
        }
        y = y + 1;
    }
    proof {
        assert((y1 - y0) * (x1 - x0) == (x1 - x0) * (y1 - y0)) by (nonlinear_arith);
    }
}

/// The label at the centre of the block `[x0, x1) × [y0, y1)`.
fn center_label(labels: &[u32], width: usize, height: usize, x0: usize, y0: usize, x1: usize, y1: usize) -> (l: u32)
    requires
        labels@.len() == width * height,
        block_ok(width as int, height as int, x0 as int, y0 as int, x1 as int, y1 as int),
        x0 < x1,
        y0 < y1,
    ensures
        l == labels@[((y0 + y1) / 2) * width + (x0 + x1) / 2],
{
    let cy = y0 + (y1 - y0) / 2;
    let cx = x0 + (x1 - x0) / 2;
    proof {
        lemma_cell(width as int, height as int, cx as int, cy as int);
    }
    labels[cy * width + cx]
}

/// The cells `base, base + stride, ...`, `cnt` of them.
pub open spec fn cells(base: int, stride: int, cnt: int) -> Seq<int> {
    Seq::new(cnt as nat, |t: int| base + t * stride)
}

/// The cells just outside the block `[x0, x1) × [y0, y1)` of a `w × h`
/// grid, in the order the neighbour search visits them: the row above, the
/// row below, the column to the left, the column to the right.
pub open spec fn border_cells(w: int, h: int, x0: int, y0: int, x1: int, y1: int) -> Seq<int> {
    (if y0 > 0 {
        cells((y0 - 1) * w + x0, 1, x1 - x0)
    } else {
        Seq::empty()
    }) + (if y1 < h {
        cells(y1 * w + x0, 1, x1 - x0)
    } else {
        Seq::empty()
    }) + (if x0 > 0 {
        cells(y0 * w + x0 - 1, w, y1 - y0)
    } else {
        Seq::empty()
    }) + (if x1 < w {
        cells(y0 * w + x1, w, y1 - y0)
    } else {
        Seq::empty()
    })
}

/// The label of the first of `cs` whose label differs from `cur`.
pub open spec fn first_other(l: Seq<u32>, cs: Seq<int>, cur: u32) -> Option<u32>
    decreases cs.len(),
{
    if cs.len() == 0 {
        None
    } else if l[cs[0]] != cur {
        Some(l[cs[0]])
    } else {
        first_other(l, cs.drop_first(), cur)
    }
}

proof fn lemma_first_other_append(l: Seq<u32>, a: Seq<int>, b: Seq<int>, cur: u32)
    ensures
        first_other(l, a + b, cur) == if first_other(l, a, cur) is Some {
            first_other(l, a, cur)
        } else {
            first_other(l, b, cur)
        },
    decreases a.len(),
{
    if a.len() == 0 {
        assert(a + b =~= b);
    } else {
        assert((a + b).drop_first() =~= a.drop_first() + b);
        lemma_first_other_append(l, a.drop_first(), b, cur);
    }
}

/// Scans `cnt` cells from `base` with step `stride` for a label other
/// than `cur`.
fn scan_cells(labels: &[u32], base: usize, stride: usize, cnt: usize, cur: u32) -> (r: Option<u32>)
    requires
        cnt > 0 ==> base + (cnt - 1) * stride < labels@.len(),
        labels@.len() <= usize::MAX,
    ensures
        r == first_other(labels@, cells(base as int, stride as int, cnt as int), cur),
        r matches Some(v) ==> v != cur && exists|i: int| 0 <= i < labels@.len() && labels@[i] == v,
{
    let ghost cs = cells(base as int, stride as int, cnt as int);
    assert(cs.skip(0) =~= cs);
    let mut t: usize = 0;
    while t < cnt
        invariant
            cs == cells(base as int, stride as int, cnt as int),
            cnt > 0 ==> base + (cnt - 1) * stride < labels@.len(),
            labels@.len() <= usize::MAX,
            t <= cnt,
            first_other(labels@, cs, cur) == first_other(labels@, cs.skip(t as int), cur),
        decreases cnt - t,
    {
        proof {
            assert(t * stride <= (cnt - 1) * stride) by (nonlinear_arith)
                requires
                    t < cnt,
            ;
            assert(cs.skip(t as int)[0] == base + t * stride);
            assert(cs.skip(t as int).drop_first() =~= cs.skip(t + 1));
        }
        let l = labels[base + t * stride];
        if l != cur {
            proof {
                assert(labels@[base + t * stride] == l);
            }
            return Some(l);
        }
        t = t + 1;
    }
    proof {
        assert(cs.skip(cnt as int) =~= Seq::<int>::empty());
    }
    None
}

/// The label of the first cell next to the block (above, below, left, then
/// right of it) whose label differs from `current_label`, if any.
fn find_neighbor_label(
    labels: &[u32],
    width: usize,
    height: usize,
    x0: usize,
    y0: usize,
    x1: usize,
    y1: usize,
    current_label: u32,
) -> (r: Option<u32>)
    requires
        labels@.len() == width * height,
        block_ok(width as int, height as int, x0 as int, y0 as int, x1 as int, y1 as int),
    ensures
        r == first_other(
            labels@,
            border_cells(width as int, height as int, x0 as int, y0 as int, x1 as int, y1 as int),
            current_label,
        ),
        r matches Some(v) ==> v != current_label && exists|i: int| 0 <= i < labels@.len() && labels@[i] == v,
{
    let ghost l = labels@;
    let ghost (w, h) = (width as int, height as int);
    let ghost top = if y0 > 0 {
        cells((y0 - 1) * w + x0, 1, x1 - x0)
    } else {
        Seq::empty()
    };
    let ghost bottom = if y1 < h {
        cells(y1 * w + x0, 1, x1 - x0)
    } else {
        Seq::empty()
    };
    let ghost left = if x0 > 0 {
        cells(y0 * w + x0 - 1, w, y1 - y0)
    } else {
        Seq::empty()
    };
    let ghost right = if x1 < w {
        cells(y0 * w + x1, w, y1 - y0)
    } else {
        Seq::empty()
    };
    proof {
        lemma_first_other_append(l, top + bottom + left, right, current_label);
        lemma_first_other_append(l, top + bottom, left, current_label);
        lemma_first_other_append(l, top, bottom, current_label);
        assert(first_other(l, Seq::<int>::empty(), current_label) == None::<u32>);
        assert(x1 == x0 ==> top =~= Seq::<int>::empty() && bottom =~= Seq::<int>::empty());
        assert(y1 == y0 ==> left =~= Seq::<int>::empty() && right =~= Seq::<int>::empty());
    }
    if y0 > 0 && x1 > x0 {
        proof {
            lemma_cell(w, h, x1 - 1, y0 - 1);
            assert((y0 - 1) * w + x1 - 1 == (y0 - 1) * width + x0 + (x1 - x0 - 1) * 1);
        }
        let r = scan_cells(labels, (y0 - 1) * width + x0, 1, x1 - x0, current_label);
        if r.is_some() {
            return r;
        }
    }
    if y1 < height && x1 > x0 {
        proof {
            lemma_cell(w, h, x1 - 1, y1 as int);
        }
        let r = scan_cells(labels, y1 * width + x0, 1, x1 - x0, current_label);
        if r.is_some() {
            return r;
        }
    }
    if x0 > 0 && y1 > y0 {
        proof {
            lemma_cell(w, h, x0 - 1, y1 - 1);
            assert(y0 * w + x0 - 1 + (y1 - y0 - 1) * w == (y1 - 1) * w + x0 - 1) by (nonlinear_arith);
            lemma_cell(w, h, x0 - 1, y0 as int);
        }
        let r = scan_cells(labels, y0 * width + x0 - 1, width, y1 - y0, current_label);
        if r.is_some() {
            return r;
        }
    }
    if x1 < width && y1 > y0 {
        proof {
            lemma_cell(w, h, x1 as int, y1 - 1);
            assert(y0 * w + x1 + (y1 - y0 - 1) * w == (y1 - 1) * w + x1) by (nonlinear_arith);
            lemma_cell(w, h, x1 as int, y0 as int);
        }
        let r = scan_cells(labels, y0 * width + x1, width, y1 - y0, current_label);
        if r.is_some() {
            return r;
        }
    }
    None
}


/// Gives every cell of the block `[x0, x1) × [y0, y1)` the label `new_label`.
fn relabel_block(
    labels: &mut Vec<u32>,
    width: usize,
    height: usize,
    x0: usize,
    y0: usize,
    x1: usize,
    y1: usize,
    new_label: u32,
)
    requires
        old(labels)@.len() == width * height,
        block_ok(width as int, height as int, x0 as int, y0 as int, x1 as int, y1 as int),
    ensures
        final(labels)@.len() == old(labels)@.len(),
        forall|i: int|
            0 <= i < old(labels)@.len() ==> #[trigger] final(labels)@[i] == if in_block(
                i,
                width as int,
                x0 as int,
                y0 as int,
                x1 as int,
                y1 as int,
            ) {
                new_label
            } else {
                old(labels)@[i]
            },
{
    let ghost l0 = labels@;
    let ghost (w, h) = (width as int, height as int);
    let mut y: usize = y0;
    while y < y1
        invariant
            l0 == old(labels)@,
            l0.len() == w * h,
            w == width,
            h == height,
            labels@.len() == l0.len(),
            block_ok(w, h, x0 as int, y0 as int, x1 as int, y1 as int),
            y0 <= y <= y1,
            forall|i: int|
                0 <= i < l0.len() ==> #[trigger] labels@[i] == if in_block(i, w, x0 as int, y0 as int, x1 as int, y as int) {
                    new_label
                } else {
                    l0[i]
                },
        decreases y1 - y,
    {
        let mut x: usize = x0;
        while x < x1
            invariant
                l0 == old(labels)@,
                l0.len() == w * h,
                w == width,
                h == height,
                labels@.len() == l0.len(),
                block_ok(w, h, x0 as int, y0 as int, x1 as int, y1 as int),
                y0 <= y < y1,
                x0 <= x <= x1,
                forall|i: int|
                    0 <= i < l0.len() ==> #[trigger] labels@[i] == if in_block(i, w, x0 as int, y0 as int, x1 as int, y as int)
                        || (i / w == y && x0 <= i % w < x) {
                        new_label
                    } else {
                        l0[i]
                    },
            decreases x1 - x,
        {
            proof {
                lemma_cell(w, h, x as int, y as int);
            }
            let idx = y * width + x;
            labels.set(idx, new_label);
            proof {
                assert forall|i: int| 0 <= i < l0.len() implies #[trigger] labels@[i] == if in_block(
                    i,
                    w,
                    x0 as int,
                    y0 as int,
                    x1 as int,
                    y as int,
                ) || (i / w == y && x0 <= i % w < x + 1) {
                    new_label
                } else {
                    l0[i]
                } by {
                    if i != idx {
                        vstd::arithmetic::div_mod::lemma_fundamental_div_mod(i, w);
                        let (q, r) = (i / w, i % w);
                        if q == y && r == x {
                            assert(i == y * w + x) by (nonlinear_arith)
                                requires
                                    i == w * q + r,
                                    q == y,
                                    r == x,
                            ;
                        }
                    }
                }
            }
            x = x + 1;
        }
        proof {
            assert forall|i: int| 0 <= i < l0.len() implies #[trigger] labels@[i] == if in_block(
                i,
                w,
                x0 as int,
                y0 as int,
                x1 as int,
                y + 1,
            ) {
                new_label
            } else {
                l0[i]
            } by {}
        }
        y = y + 1;
    }
}

/// Entry `b` of the histogram of label `lab` after the block histogram
/// `sub` moves from label `from` to label `to`: subtracted (stopping at zero)
/// from `from`'s entry and added to `to`'s.
pub open spec fn moved_entry(h: Seq<u32>, sub: Seq<u32>, tb: int, from: int, to: int, lab: int, b: int) -> int {
    if lab == from {
        if hist_at(h, tb, lab, b) >= sub[b] {
            hist_at(h, tb, lab, b) - sub[b]
        } else {
            0
        }
    } else if lab == to {
        hist_at(h, tb, lab, b) + sub[b]
    } else {
        hist_at(h, tb, lab, b) as int
    }
}

/// Moves the block histogram `sub` from label `old_label` to `new_label`.
fn update_histograms(h: &mut Vec<u32>, sub: &Vec<u32>, tb: usize, num_labels: usize, old_label: usize, new_label: usize)
    requires
        old(h)@.len() == num_labels * tb,
        num_labels * tb <= usize::MAX,
        sub@.len() == tb,
        old_label < num_labels,
        new_label < num_labels,
        old_label != new_label,
        forall|b: int| 0 <= b < tb ==> hist_at(old(h)@, tb as int, new_label as int, b) + #[trigger] sub@[b] <= u32::MAX,
    ensures
        final(h)@.len() == old(h)@.len(),
        forall|lab: int, b: int|
            0 <= lab < num_labels && 0 <= b < tb ==> #[trigger] hist_at(final(h)@, tb as int, lab, b)
                == moved_entry(old(h)@, sub@, tb as int, old_label as int, new_label as int, lab, b),
{
    let ghost h0 = h@;
    let mut i: usize = 0;
    while i < tb
        invariant
            h0 == old(h)@,
            h0.len() == num_labels * tb,
            num_labels * tb <= usize::MAX,
            h@.len() == h0.len(),
            sub@.len() == tb,
            old_label < num_labels,
            new_label < num_labels,
            old_label != new_label,
            forall|b: int| 0 <= b < tb ==> hist_at(h0, tb as int, new_label as int, b) + #[trigger] sub@[b] <= u32::MAX,
            i <= tb,
            forall|lab: int, b: int|
                0 <= lab < num_labels && 0 <= b < tb ==> #[trigger] hist_at(h@, tb as int, lab, b) == if b < i {
                    moved_entry(h0, sub@, tb as int, old_label as int, new_label as int, lab, b)
                } else {
                    hist_at(h0, tb as int, lab, b) as int
                },
        decreases tb - i,
    {
        proof {
            lemma_hist_index(old_label as int, i as int, num_labels as int, tb as int);
            lemma_hist_index(new_label as int, i as int, num_labels as int, tb as int);
            assert(hist_at(h@, tb as int, old_label as int, i as int) == hist_at(h0, tb as int, old_label as int, i as int));
            assert(hist_at(h@, tb as int, new_label as int, i as int) == hist_at(h0, tb as int, new_label as int, i as int));
        }
        let count = sub[i];
        let oi = old_label * tb + i;
        let ni = new_label * tb + i;
        let ov = h[oi];
        let ghost mid0 = h@;
        h.set(oi, ov.saturating_sub(count));
        let nv = h[ni];
        h.set(ni, nv + count);
        proof {
            assert forall|lab: int, b: int| 0 <= lab < num_labels && 0 <= b < tb implies #[trigger] hist_at(
                h@,
                tb as int,
                lab,
                b,
            ) == if b < i + 1 {
                moved_entry(h0, sub@, tb as int, old_label as int, new_label as int, lab, b)
            } else {
                hist_at(h0, tb as int, lab, b) as int
            } by {
                lemma_hist_index(lab, b, num_labels as int, tb as int);
                assert(hist_at(mid0, tb as int, lab, b) == if b < i {
                    moved_entry(h0, sub@, tb as int, old_label as int, new_label as int, lab, b)
                } else {
                    hist_at(h0, tb as int, lab, b) as int
                });
                if lab * tb + b != oi && lab * tb + b != ni {
                    assert(hist_at(h@, tb as int, lab, b) == hist_at(mid0, tb as int, lab, b));
                }
                if lab != old_label as int || b != i as int {
                    assert(lab * tb + b != oi) by (nonlinear_arith)
                        requires
                            0 <= b < tb,
                            0 <= i < tb,
                            oi == old_label * tb + i,
                            lab != old_label || b != i,
                    ;
                }
                if lab != new_label as int || b != i as int {
                    assert(lab * tb + b != ni) by (nonlinear_arith)
                        requires
                            0 <= b < tb,
                            0 <= i < tb,
                            ni == new_label * tb + i,
                            lab != new_label || b != i,
                    ;
                }
                assert(oi != ni) by (nonlinear_arith)
                    requires
                        0 <= i < tb,
                        oi == old_label * tb + i,
                        ni == new_label * tb + i,
                        old_label != new_label,
                ;
            }
        }
        i = i + 1;
    }
}

/// The sum of the first `m` entries of the histogram of label `lab`.
pub open spec fn hist_sum(h: Seq<u32>, tb: int, lab: int, m: int) -> int
    decreases m,
{
    if m <= 0 {
        0
    } else {
        hist_sum(h, tb, lab, m - 1) + hist_at(h, tb, lab, m - 1)
    }
}

/// The sum of the first `m` entries of a single histogram.
pub open spec fn seq_sum(a: Seq<u32>, m: int) -> int
    decreases m,
{
    if m <= 0 {
        0
    } else {
        seq_sum(a, m - 1) + a[m - 1]
    }
}

/// `Σ min(a[i] · sb, h[lab][i] · sa)` over the first `m` bins: the
/// intersection of the two histograms, each normalised by the other's total.
pub open spec fn overlap_numer(a: Seq<u32>, h: Seq<u32>, tb: int, lab: int, sa: int, sb: int, m: int) -> int
    decreases m,
{
    if m <= 0 {
        0
    } else {
        let x = a[m - 1] * sb;
        let y = hist_at(h, tb, lab, m - 1) * sa;
        overlap_numer(a, h, tb, lab, sa, sb, m - 1) + if x < y {
            x
        } else {
            y
        }
    }
}

proof fn lemma_seq_sum_entry(a: Seq<u32>, m: int, i: int)
    requires
        0 <= i < m <= a.len(),
    ensures
        a[i] <= seq_sum(a, m),
        seq_sum(a, m) >= 0,
    decreases m,
{
    lemma_seq_sum_nonneg(a, m - 1);
    if i < m - 1 {
        lemma_seq_sum_entry(a, m - 1, i);
    }
}

proof fn lemma_seq_sum_nonneg(a: Seq<u32>, m: int)
    ensures
        seq_sum(a, m) >= 0,
    decreases m,
{
    if m > 0 {
        lemma_seq_sum_nonneg(a, m - 1);
    }
}

proof fn lemma_hist_sum_entry(h: Seq<u32>, tb: int, lab: int, m: int, i: int)
    requires
        0 <= i < m,
    ensures
        hist_at(h, tb, lab, i) <= hist_sum(h, tb, lab, m),
        hist_sum(h, tb, lab, m) >= 0,
    decreases m,
{
    lemma_hist_sum_nonneg(h, tb, lab, m - 1);
    if i < m - 1 {
        lemma_hist_sum_entry(h, tb, lab, m - 1, i);
    }
}

proof fn lemma_hist_sum_nonneg(h: Seq<u32>, tb: int, lab: int, m: int)
    ensures
        hist_sum(h, tb, lab, m) >= 0,
    decreases m,
{
    if m > 0 {
        lemma_hist_sum_nonneg(h, tb, lab, m - 1);
    }
}

/// Totals that keep the cross products of the intersection within 64 bits.
pub const OVERLAP_LIMIT: u64 = 0x8000_0000;

/// The whole-number part of the intersection of the block histogram `a`
/// with the histogram of label `lab`: the numerator
/// `Σ min(a[i] · Σh, h[i] · Σa)` (zero when either total is zero) and the two
/// totals; the intersection is the numerator over the product of the totals.
fn histogram_overlap(a: &Vec<u32>, h: &Vec<u32>, tb: usize, num_labels: usize, lab: usize) -> (r: (u128, u64, u64))
    requires
        a@.len() == tb,
        h@.len() == num_labels * tb,
        num_labels * tb <= usize::MAX,
        lab < num_labels,
        seq_sum(a@, tb as int) <= OVERLAP_LIMIT,
        hist_sum(h@, tb as int, lab as int, tb as int) <= OVERLAP_LIMIT,
    ensures
        r.1 == seq_sum(a@, tb as int),
        r.2 == hist_sum(h@, tb as int, lab as int, tb as int),
        r.0 == if r.1 == 0 || r.2 == 0 {
            0
        } else {
            overlap_numer(a@, h@, tb as int, lab as int, r.1 as int, r.2 as int, tb as int)
        },
{
    let mut a_sum: u64 = 0;
    let mut b_sum: u64 = 0;
    let mut i: usize = 0;
    while i < tb
        invariant
            a@.len() == tb,
            h@.len() == num_labels * tb,
            num_labels * tb <= usize::MAX,
            lab < num_labels,
            seq_sum(a@, tb as int) <= OVERLAP_LIMIT,
            hist_sum(h@, tb as int, lab as int, tb as int) <= OVERLAP_LIMIT,
            i <= tb,
            a_sum == seq_sum(a@, i as int),
            b_sum == hist_sum(h@, tb as int, lab as int, i as int),
        decreases tb - i,
    {
        proof {
            lemma_hist_index(lab as int, i as int, num_labels as int, tb as int);
            lemma_seq_sum_entry(a@, tb as int, i as int);
            lemma_hist_sum_entry(h@, tb as int, lab as int, tb as int, i as int);
            lemma_seq_sum_mono(a@, i + 1, tb as int);
            lemma_hist_sum_mono(h@, tb as int, lab as int, i + 1, tb as int);
        }
        a_sum = a_sum + a[i] as u64;
        b_sum = b_sum + h[lab * tb + i] as u64;
        i = i + 1;
    }
    if a_sum == 0 || b_sum == 0 {
        return (0, a_sum, b_sum);
    }
    let mut numer: u128 = 0;
    let mut i: usize = 0;
    while i < tb
        invariant
            a@.len() == tb,
            h@.len() == num_labels * tb,
            num_labels * tb <= usize::MAX,
            lab < num_labels,
            a_sum == seq_sum(a@, tb as int),
            b_sum == hist_sum(h@, tb as int, lab as int, tb as int),
            a_sum <= OVERLAP_LIMIT,
            b_sum <= OVERLAP_LIMIT,
            i <= tb,
            numer == overlap_numer(a@, h@, tb as int, lab as int, a_sum as int, b_sum as int, i as int),
            numer <= i * 0x4000_0000_0000_0000,
        decreases tb - i,
    {
        proof {
            lemma_hist_index(lab as int, i as int, num_labels as int, tb as int);
            lemma_seq_sum_entry(a@, tb as int, i as int);
            lemma_hist_sum_entry(h@, tb as int, lab as int, tb as int, i as int);
            let (x, y) = (a@[i as int] as int, hist_at(h@, tb as int, lab as int, i as int) as int);
            assert(x * b_sum <= 0x4000_0000_0000_0000 && y * a_sum <= 0x4000_0000_0000_0000
                && x * b_sum >= 0 && y * a_sum >= 0) by (nonlinear_arith)
                requires
                    0 <= x <= 0x8000_0000,
                    0 <= y <= 0x8000_0000,
                    0 <= a_sum <= 0x8000_0000,
                    0 <= b_sum <= 0x8000_0000,
            ;
        }
        let scaled_a = a[i] as u64 * b_sum;
        let scaled_b = h[lab * tb + i] as u64 * a_sum;
        let m = if scaled_a < scaled_b {
            scaled_a
        } else {
            scaled_b
        };
        numer = numer + m as u128;
        i = i + 1;
    }
    (numer, a_sum, b_sum)
}

proof fn lemma_seq_sum_mono(a: Seq<u32>, m: int, n: int)
    requires
        0 <= m <= n,
    ensures
        seq_sum(a, m) <= seq_sum(a, n),
    decreases n - m,
{
    if m < n {
        lemma_seq_sum_mono(a, m, n - 1);
    }
}

proof fn lemma_hist_sum_mono(h: Seq<u32>, tb: int, lab: int, m: int, n: int)
    requires
        0 <= m <= n,
    ensures
        hist_sum(h, tb, lab, m) <= hist_sum(h, tb, lab, n),
    decreases n - m,
{
    if m < n {
        lemma_hist_sum_mono(h, tb, lab, m, n - 1);
    }
}


proof fn lemma_seq_sum_update(a: Seq<u32>, i: int, v: u32, m: int)
    requires
        0 <= i < a.len(),
        0 <= m <= a.len(),
    ensures
        seq_sum(a.update(i, v), m) == seq_sum(a, m) + if i < m {
            v - a[i]
        } else {
            0
        },
    decreases m,
{
    if m > 0 {
        lemma_seq_sum_update(a, i, v, m - 1);
    }
}

proof fn lemma_hist_sum_update(h: Seq<u32>, tb: int, num: int, lab: int, bin: int, v: u32, l2: int, m: int)
    requires
        h.len() == num * tb,
        0 <= lab < num,
        0 <= bin < tb,
        0 <= l2 < num,
        0 <= m <= tb,
    ensures
        hist_sum(h.update(lab * tb + bin, v), tb, l2, m) == hist_sum(h, tb, l2, m) + if l2 == lab && bin < m {
            v - hist_at(h, tb, lab, bin)
        } else {
            0
        },
    decreases m,
{
    if m > 0 {
        lemma_hist_sum_update(h, tb, num, lab, bin, v, l2, m - 1);
        lemma_hist_index(lab, bin, num, tb);
        lemma_hist_index(l2, m - 1, num, tb);
        if l2 != lab || m - 1 != bin {
            assert(l2 * tb + (m - 1) != lab * tb + bin) by (nonlinear_arith)
                requires
                    0 <= m - 1 < tb,
                    0 <= bin < tb,
                    l2 != lab || m - 1 != bin,
            ;
        }
    }
}

proof fn lemma_moved_sums(h0: Seq<u32>, h1: Seq<u32>, sub: Seq<u32>, tb: int, num: int, from: int, to: int, lab: int, m: int)
    requires
        0 <= m <= tb,
        sub.len() == tb,
        0 <= lab < num,
        from != to,
        forall|l: int, b: int|
            0 <= l < num && 0 <= b < tb ==> #[trigger] hist_at(h1, tb, l, b) == moved_entry(h0, sub, tb, from, to, l, b),
    ensures
        lab == to ==> hist_sum(h1, tb, lab, m) == hist_sum(h0, tb, lab, m) + seq_sum(sub, m),
        lab == from ==> hist_sum(h1, tb, lab, m) <= hist_sum(h0, tb, lab, m),
        lab != to && lab != from ==> hist_sum(h1, tb, lab, m) == hist_sum(h0, tb, lab, m),
    decreases m,
{
    if m > 0 {
        lemma_moved_sums(h0, h1, sub, tb, num, from, to, lab, m - 1);
        assert(hist_at(h1, tb, lab, m - 1) == moved_entry(h0, sub, tb, from, to, lab, m - 1));
    }
}


proof fn lemma_hist_sum_zero(h: Seq<u32>, tb: int, num: int, lab: int, m: int)
    requires
        h.len() == num * tb,
        0 <= lab < num,
        0 <= m <= tb,
        forall|i: int| 0 <= i < h.len() ==> #[trigger] h[i] == 0,
    ensures
        hist_sum(h, tb, lab, m) == 0,
    decreases m,
{
    if m > 0 {
        lemma_hist_sum_zero(h, tb, num, lab, m - 1);
        lemma_hist_index(lab, m - 1, num, tb);
    }
}

/// `a / b`, rounded up.
pub open spec fn ceil_div(a: int, b: int) -> int {
    (a + b - 1) / b
}

fn div_ceil(a: usize, b: usize) -> (c: usize)
    requires
        b >= 1,
    ensures
        c == ceil_div(a as int, b as int),
        c * b >= a,
        a > 0 ==> c >= 1,
        (c - 1) * b < a || c == 0,
{
    proof {
        if a % b != 0 {
            if a == 0 {
                assert(a % b == 0) by (nonlinear_arith)
                    requires
                        a == 0,
                        b >= 1,
                ;
            }
            assert(b >= 2);
            assert(a / b < a) by (nonlinear_arith)
                requires
                    b >= 2,
                    a >= 1,
            ;
        }
    }
    let c = a / b + if a % b != 0 {
        1
    } else {
        0
    };
    proof {
        let (ai, bi) = (a as int, b as int);
        vstd::arithmetic::div_mod::lemma_fundamental_div_mod(ai, bi);
        assert(c == (ai + bi - 1) / bi && c * bi >= ai && (ai > 0 ==> c >= 1) && ((c - 1) * bi < ai || c == 0))
            by (nonlinear_arith)
            requires
                bi >= 1,
                ai >= 0,
                ai == bi * (ai / bi) + ai % bi,
                0 <= ai % bi < bi,
                c == ai / bi + if ai % bi != 0 {
                    1int
                } else {
                    0
                },
        ;
    }
    c
}

/// The initial label of cell `(x, y)`: the index of its block in a grid of
/// `bx × by` blocks of `bw × bh` cells, the last row and column of blocks
/// taking what is left over.
pub open spec fn grid_label(x: int, y: int, bw: int, bh: int, bx: int, by: int) -> int {
    let gy = if y / bh < by - 1 {
        y / bh
    } else {
        by - 1
    };
    let gx = if x / bw < bx - 1 {
        x / bw
    } else {
        bx - 1
    };
    gy * bx + gx
}

/// Labels every cell of a `sw × sh` grid with its block in a `blocks_x ×
/// blocks_y` grid of blocks, and returns the labels with one more than the
/// largest of them.
fn grid_labels(sw: usize, sh: usize, blocks_x: usize, blocks_y: usize) -> (r: (Vec<u32>, u32))
    requires
        1 <= sw <= crate::preprocessors::DEFAULT_MAX_DIM,
        1 <= sh <= crate::preprocessors::DEFAULT_MAX_DIM,
        1 <= blocks_x <= sw,
        1 <= blocks_y <= sh,
    ensures
        r.0@.len() == sw * sh,
        forall|i: int|
            0 <= i < sw * sh ==> #[trigger] r.0@[i] == grid_label(
                i % (sw as int),
                i / (sw as int),
                ceil_div(sw as int, blocks_x as int),
                ceil_div(sh as int, blocks_y as int),
                blocks_x as int,
                blocks_y as int,
            ),
        r.1 == crate::preprocessors::max_label(r.0@) + 1,
        forall|i: int| 0 <= i < sw * sh ==> #[trigger] r.0@[i] < r.1,
        r.1 <= blocks_x * blocks_y,
{
    let block_w = div_ceil(sw, blocks_x);
    let block_h = div_ceil(sh, blocks_y);
    proof {
        assert(blocks_x * blocks_y <= sw * sh && sw * sh <= 512 * 512) by (nonlinear_arith)
            requires
                1 <= blocks_x <= sw <= 512,
                1 <= blocks_y <= sh <= 512,
        ;
    }
    let mut labels: Vec<u32> = Vec::with_capacity(sw * sh);
    let mut num_labels: u32 = 0;
    let mut y: usize = 0;
    while y < sh
        invariant
            1 <= sw <= 512,
            1 <= sh <= 512,
            1 <= blocks_x <= sw,
            1 <= blocks_y <= sh,
            blocks_x * blocks_y <= sw * sh <= 512 * 512,
            block_w == ceil_div(sw as int, blocks_x as int),
            block_h == ceil_div(sh as int, blocks_y as int),
            block_w >= 1,
            block_h >= 1,
            y <= sh,
            labels@.len() == y * sw,
            forall|i: int|
                0 <= i < labels@.len() ==> #[trigger] labels@[i] == grid_label(
                    i % (sw as int),
                    i / (sw as int),
                    block_w as int,
                    block_h as int,
                    blocks_x as int,
                    blocks_y as int,
                ),
            labels@.len() > 0 ==> num_labels == crate::preprocessors::max_label(labels@) + 1,
            labels@.len() == 0 ==> num_labels == 0,
            forall|i: int| 0 <= i < labels@.len() ==> #[trigger] labels@[i] < num_labels,
            num_labels <= blocks_x * blocks_y,
        decreases sh - y,
    {
        let qy = y / block_h;
        let gy = if qy < blocks_y - 1 {
            qy
        } else {
            blocks_y - 1
        };
        let mut x: usize = 0;
        while x < sw
            invariant
                1 <= sw <= 512,
                1 <= sh <= 512,
                1 <= blocks_x <= sw,
                1 <= blocks_y <= sh,
                blocks_x * blocks_y <= sw * sh <= 512 * 512,
                block_w == ceil_div(sw as int, blocks_x as int),
                block_h == ceil_div(sh as int, blocks_y as int),
                block_w >= 1,
                block_h >= 1,
                y < sh,
                gy == (if ((y / block_h) as int) < blocks_y - 1 {
                    (y / block_h) as int
                } else {
                    blocks_y - 1
                }),
                x <= sw,
                labels@.len() == y * sw + x,
                forall|i: int|
                    0 <= i < labels@.len() ==> #[trigger] labels@[i] == grid_label(
                        i % (sw as int),
                        i / (sw as int),
                        block_w as int,
                        block_h as int,
                        blocks_x as int,
                        blocks_y as int,
                    ),
                labels@.len() > 0 ==> num_labels == crate::preprocessors::max_label(labels@) + 1,
                labels@.len() == 0 ==> num_labels == 0,
                forall|i: int| 0 <= i < labels@.len() ==> #[trigger] labels@[i] < num_labels,
                num_labels <= blocks_x * blocks_y,
            decreases sw - x,
        {
            let qx = x / block_w;
            let gx = if qx < blocks_x - 1 {
                qx
            } else {
                blocks_x - 1
            };
            proof {
                assert(gy * blocks_x + gx < blocks_x * blocks_y) by (nonlinear_arith)
                    requires
                        0 <= gy < blocks_y,
                        0 <= gx < blocks_x,
                ;
                lemma_cell(sw as int, sh as int, x as int, y as int);
            }
            let label = (gy * blocks_x + gx) as u32;
            let ghost before = labels@;
            labels.push(label);
            if label >= num_labels {
                num_labels = label + 1;
            }
            proof {
                assert(labels@.drop_last() =~= before);
                assert(labels@.last() == label);
                assert(crate::preprocessors::max_label(labels@) == if label > crate::preprocessors::max_label(before) {
                    label as int
                } else {
                    crate::preprocessors::max_label(before)
                });
                if before.len() == 0 {
                    assert(crate::preprocessors::max_label(before) == 0);
                }
                assert forall|i: int| 0 <= i < labels@.len() implies #[trigger] labels@[i] < num_labels by {
                    if i < before.len() {
                        assert(before[i] < num_labels);
                    }
                }
            }
            x = x + 1;
        }
        proof {
            assert(y * sw + sw == (y + 1) * sw) by (nonlinear_arith);
        }
        y = y + 1;
    }
    proof {
        assert(sh * sw == sw * sh && sw * sh >= 1) by (nonlinear_arith)
            requires
                sw >= 1,
                sh >= 1,
        ;
    }
    (labels, num_labels)
}


/// The cell next to `(x, y)` in direction `d` (right, left, below, above),
/// when it lies inside the `w × h` grid.
pub open spec fn neighbor_of(x: int, y: int, w: int, h: int, d: int) -> Option<int> {
    if d == 0 {
        if x + 1 < w {
            Some(y * w + x + 1)
        } else {
            None
        }
    } else if d == 1 {
        if x > 0 {
            Some(y * w + x - 1)
        } else {
            None
        }
    } else if d == 2 {
        if y + 1 < h {
            Some((y + 1) * w + x)
        } else {
            None
        }
    } else {
        if y > 0 {
            Some((y - 1) * w + x)
        } else {
            None
        }
    }
}

pub(crate) fn neighbor_cell(x: usize, y: usize, width: usize, height: usize, d: usize) -> (r: Option<usize>)
    requires
        x < width,
        y < height,
        width * height <= usize::MAX,
        d < 4,
    ensures
        r == match neighbor_of(x as int, y as int, width as int, height as int, d as int) {
            Some(i) => Some(i as usize),
            None => None::<usize>,
        },
        r matches Some(i) ==> i < width * height,
        r matches Some(i) ==> neighbor_of(x as int, y as int, width as int, height as int, d as int) == Some(i as int),
        r is None ==> neighbor_of(x as int, y as int, width as int, height as int, d as int) is None,
{
    proof {
        lemma_cell(width as int, height as int, x as int, y as int);
    }
    if d == 0 {
        if x + 1 < width {
            proof {
                lemma_cell(width as int, height as int, x + 1, y as int);
            }
            Some(y * width + x + 1)
        } else {
            None
        }
    } else if d == 1 {
        if x > 0 {
            Some(y * width + x - 1)
        } else {
            None
        }
    } else if d == 2 {
        if y + 1 < height {
            proof {
                lemma_cell(width as int, height as int, x as int, y + 1);
            }
            Some((y + 1) * width + x)
        } else {
            None
        }
    } else {
        if y > 0 {
            proof {
                lemma_cell(width as int, height as int, x as int, y - 1);
            }
            Some((y - 1) * width + x)
        } else {
            None
        }
    }
}

/// The total of each label's histogram.
fn histogram_totals(h: &Vec<u32>, tb: usize, num_labels: usize) -> (totals: Vec<u64>)
    requires
        h@.len() == num_labels * tb,
        num_labels * tb <= usize::MAX,
        forall|lab: int| 0 <= lab < num_labels ==> #[trigger] hist_sum(h@, tb as int, lab, tb as int) <= u32::MAX,
    ensures
        totals@.len() == num_labels,
        forall|lab: int| 0 <= lab < num_labels ==> #[trigger] totals@[lab] == hist_sum(h@, tb as int, lab, tb as int),
{
    let mut totals: Vec<u64> = Vec::with_capacity(num_labels);
    let mut lab: usize = 0;
    while lab < num_labels
        invariant
            h@.len() == num_labels * tb,
            num_labels * tb <= usize::MAX,
            forall|l: int| 0 <= l < num_labels ==> #[trigger] hist_sum(h@, tb as int, l, tb as int) <= u32::MAX,
            lab <= num_labels,
            totals@.len() == lab,
            forall|l: int| 0 <= l < lab ==> #[trigger] totals@[l] == hist_sum(h@, tb as int, l, tb as int),
        decreases num_labels - lab,
    {
        let mut sum: u64 = 0;
        let mut b: usize = 0;
        while b < tb
            invariant
                h@.len() == num_labels * tb,
                num_labels * tb <= usize::MAX,
                lab < num_labels,
                hist_sum(h@, tb as int, lab as int, tb as int) <= u32::MAX,
                b <= tb,
                sum == hist_sum(h@, tb as int, lab as int, b as int),
            decreases tb - b,
        {
            proof {
                lemma_hist_index(lab as int, b as int, num_labels as int, tb as int);
                lemma_hist_sum_mono(h@, tb as int, lab as int, b + 1, tb as int);
            }
            sum = sum + h[lab * tb + b] as u64;
            b = b + 1;
        }
        totals.push(sum);
        lab = lab + 1;
    }
    totals
}

/// `better` never judges a share higher.
pub open spec fn never_better<G: Fn(u32, u64, u32, u64) -> bool>(better: G) -> bool {
    forall|a: u32, b: u64, c: u32, d: u64, r: bool| #[trigger] call_ensures(better, (a, b, c, d), r) ==> !r
}

/// `prefer` never prefers the neighbouring label.
pub open spec fn never_prefers<F: Fn((u128, u64, u64), (u128, u64, u64)) -> bool>(prefer: F) -> bool {
    forall|c: (u128, u64, u64), o: (u128, u64, u64), r: bool| #[trigger] call_ensures(prefer, (c, o), r) ==> !r
}

/// The labels, flattened histograms and per-label histogram totals that
/// pixel-level refinement works on.
pub type RefineState = (Seq<u32>, Seq<u32>, Seq<u64>);

/// The total of each label's histogram.
pub open spec fn totals_of(h: Seq<u32>, tb: int, num: int) -> Seq<u64> {
    Seq::new(num as nat, |l: int| hist_sum(h, tb, l, tb) as u64)
}

/// The neighbour scan of pixel `(x, y)` (label `cur`, colour bin `bin`) from
/// direction `d` on, with best share so far `bh / bt` held by `nb`, can end
/// with `fin` as the chosen label: a neighbour inside the image whose label
/// differs from `cur` and whose total is not zero is weighed with `better`,
/// and becomes the best when `better` answers yes.
pub open spec fn scan_ok<G: Fn(u32, u64, u32, u64) -> bool>(
    s: RefineState,
    w: int,
    hgt: int,
    x: int,
    y: int,
    bin: int,
    tb: int,
    better: G,
    cur: u32,
    d: int,
    bh: u32,
    bt: u64,
    nb: Option<u32>,
    fin: Option<u32>,
) -> bool
    decreases 4 - d,
{
    if d >= 4 {
        fin == nb
    } else {
        match neighbor_of(x, y, w, hgt, d) {
            Some(ni) => {
                let l2 = s.0[ni];
                if l2 == cur || s.2[l2 as int] == 0 {
                    scan_ok(s, w, hgt, x, y, bin, tb, better, cur, d + 1, bh, bt, nb, fin)
                } else {
                    let nh = hist_at(s.1, tb, l2 as int, bin);
                    let nt = s.2[l2 as int];
                    exists|r: bool|
                        #[trigger] call_ensures(better, (nh, nt, bh, bt), r) && if r {
                            scan_ok(s, w, hgt, x, y, bin, tb, better, cur, d + 1, nh, nt, Some(l2), fin)
                        } else {
                            scan_ok(s, w, hgt, x, y, bin, tb, better, cur, d + 1, bh, bt, nb, fin)
                        }
                }
            },
            None => scan_ok(s, w, hgt, x, y, bin, tb, better, cur, d + 1, bh, bt, nb, fin),
        }
    }
}

/// The share `h / t` exceeds the share `bh / bt` (both totals non-zero),
/// compared by cross-multiplication.
pub open spec fn share_exceeds(h: u32, t: u64, bh: u32, bt: u64) -> bool {
    h as int * bt as int > bh as int * t as int
}

/// `better` answers yes only when its first share exceeds its second.
pub open spec fn better_only_when_exceeds<G: Fn(u32, u64, u32, u64) -> bool>(better: G) -> bool {
    forall|h: u32, t: u64, bh: u32, bt: u64, r: bool|
        #[trigger] call_ensures(better, (h, t, bh, bt), r) && r ==> share_exceeds(h, t, bh, bt)
}

/// No neighbour of `(x, y)` from direction `d` on whose label differs from
/// `cur` and has a non-zero total gives bin `bin` a larger share than `cur`.
pub open spec fn own_share_best(s: RefineState, w: int, hgt: int, x: int, y: int, bin: int, tb: int, cur: u32, d: int) -> bool {
    forall|e: int|
        d <= e < 4 && #[trigger] neighbor_of(x, y, w, hgt, e) is Some && s.0[neighbor_of(x, y, w, hgt, e)->0] != cur
            && s.2[s.0[neighbor_of(x, y, w, hgt, e)->0] as int] != 0 ==> !share_exceeds(
            hist_at(s.1, tb, s.0[neighbor_of(x, y, w, hgt, e)->0] as int, bin),
            s.2[s.0[neighbor_of(x, y, w, hgt, e)->0] as int],
            hist_at(s.1, tb, cur as int, bin),
            s.2[cur as int],
        )
}

proof fn lemma_scan_keeps_own<G: Fn(u32, u64, u32, u64) -> bool>(
    s: RefineState,
    w: int,
    hgt: int,
    x: int,
    y: int,
    bin: int,
    tb: int,
    better: G,
    cur: u32,
    d: int,
    fin: Option<u32>,
)
    requires
        better_only_when_exceeds(better),
        own_share_best(s, w, hgt, x, y, bin, tb, cur, d),
        scan_ok(s, w, hgt, x, y, bin, tb, better, cur, d, hist_at(s.1, tb, cur as int, bin), s.2[cur as int], None, fin),
    ensures
        fin == None::<u32>,
    decreases 4 - d,
{
    if d < 4 {
        assert(own_share_best(s, w, hgt, x, y, bin, tb, cur, d + 1));
        match neighbor_of(x, y, w, hgt, d) {
            Some(ni) => {
                let l2 = s.0[ni];
                if l2 == cur || s.2[l2 as int] == 0 {
                    lemma_scan_keeps_own(s, w, hgt, x, y, bin, tb, better, cur, d + 1, fin);
                } else {
                    let nh = hist_at(s.1, tb, l2 as int, bin);
                    let nt = s.2[l2 as int];
                    let bh = hist_at(s.1, tb, cur as int, bin);
                    let bt = s.2[cur as int];
                    let r = choose|r: bool|
                        #[trigger] call_ensures(better, (nh, nt, bh, bt), r) && if r {
                            scan_ok(s, w, hgt, x, y, bin, tb, better, cur, d + 1, nh, nt, Some(l2), fin)
                        } else {
                            scan_ok(s, w, hgt, x, y, bin, tb, better, cur, d + 1, bh, bt, None, fin)
                        };
                    assert(!share_exceeds(nh, nt, bh, bt));
                    assert(!r);
                    lemma_scan_keeps_own(s, w, hgt, x, y, bin, tb, better, cur, d + 1, fin);
                }
            },
            None => {
                lemma_scan_keeps_own(s, w, hgt, x, y, bin, tb, better, cur, d + 1, fin);
            },
        }
    }
}

/// `better` is asked whether a neighbour's share beats the best so far, in
/// that order: where it says yes only when its first share exceeds its
/// second, a pixel whose own label gives its colour bin a share at least as
/// large as every neighbouring label's keeps its label, and nothing changes.
pub proof fn lemma_refine_step_keeps_best_share<G: Fn(u32, u64, u32, u64) -> bool>(
    p: Seq<Rgb>,
    w: int,
    hgt: int,
    bins: int,
    better: G,
    i: int,
    a: RefineState,
    b: RefineState,
)
    requires
        better_only_when_exceeds(better),
        refine_step(p, w, hgt, bins, better, i, a, b),
        own_share_best(a, w, hgt, i % w, i / w, color_bin(p[i], bins), bins * bins * bins, a.0[i], 0),
    ensures
        b == a,
{
    let tb = bins * bins * bins;
    let cur = a.0[i];
    let bin = color_bin(p[i], bins);
    if a.2[cur as int] != 0 {
        let fin = choose|fin: Option<u32>|
            #[trigger] scan_ok(
                a,
                w,
                hgt,
                i % w,
                i / w,
                bin,
                tb,
                better,
                cur,
                0,
                hist_at(a.1, tb, cur as int, bin),
                a.2[cur as int],
                None,
                fin,
            ) && b == match fin {
                None => a,
                Some(nl) => moved_pixel(a, i, cur, bin, tb, nl),
            };
        lemma_scan_keeps_own(a, w, hgt, i % w, i / w, bin, tb, better, cur, 0, fin);
    }
}

/// Label `l` is that of a neighbour of `(x, y)` in a direction below `d`,
/// differs from `cur`, has a non-zero total, and gives bin `bin` a larger
/// share than `cur` does.
pub open spec fn better_neighbor(s: RefineState, w: int, hgt: int, x: int, y: int, bin: int, tb: int, cur: u32, d: int, l: u32) -> bool {
    &&& exists|e: int|
        0 <= e < d && #[trigger] neighbor_of(x, y, w, hgt, e) is Some && s.0[neighbor_of(x, y, w, hgt, e)->0] == l
    &&& l != cur
    &&& s.2[l as int] != 0
    &&& share_exceeds(hist_at(s.1, tb, l as int, bin), s.2[l as int], hist_at(s.1, tb, cur as int, bin), s.2[cur as int])
}

proof fn lemma_share_exceeds_trans(h1: u32, t1: u64, h2: u32, t2: u64, h3: u32, t3: u64)
    requires
        t1 > 0,
        t2 > 0,
        t3 > 0,
        share_exceeds(h1, t1, h2, t2),
        share_exceeds(h2, t2, h3, t3),
    ensures
        share_exceeds(h1, t1, h3, t3),
{
    let (a1, b1, a2, b2, a3, b3) = (h1 as int, t1 as int, h2 as int, t2 as int, h3 as int, t3 as int);
    assert(a1 * b3 > a3 * b1) by (nonlinear_arith)
        requires
            b1 > 0,
            b2 > 0,
            b3 > 0,
            a1 * b2 > a2 * b1,
            a2 * b3 > a3 * b2,
    {
        assert(a1 * b2 * b3 > a2 * b1 * b3);
        assert(a2 * b3 * b1 > a3 * b2 * b1);
        assert(a1 * b3 * b2 > a3 * b1 * b2);
    }
}

proof fn lemma_scan_picks_better<G: Fn(u32, u64, u32, u64) -> bool>(
    s: RefineState,
    w: int,
    hgt: int,
    x: int,
    y: int,
    bin: int,
    tb: int,
    better: G,
    cur: u32,
    d: int,
    bh: u32,
    bt: u64,
    nb: Option<u32>,
    fin: Option<u32>,
)
    requires
        better_only_when_exceeds(better),
        0 <= d <= 4,
        s.2[cur as int] != 0,
        scan_ok(s, w, hgt, x, y, bin, tb, better, cur, d, bh, bt, nb, fin),
        nb is None ==> bh == hist_at(s.1, tb, cur as int, bin) && bt == s.2[cur as int],
        nb matches Some(l) ==> better_neighbor(s, w, hgt, x, y, bin, tb, cur, d, l) && bh == hist_at(
            s.1,
            tb,
            l as int,
            bin,
        ) && bt == s.2[l as int],
    ensures
        fin matches Some(l) ==> better_neighbor(s, w, hgt, x, y, bin, tb, cur, 4, l),
    decreases 4 - d,
{
    if d < 4 {
        if let Some(l) = nb {
            let e = choose|e: int|
                0 <= e < d && #[trigger] neighbor_of(x, y, w, hgt, e) is Some && s.0[neighbor_of(x, y, w, hgt, e)->0]
                    == l;
            assert(0 <= e < d + 1 && neighbor_of(x, y, w, hgt, e) is Some && s.0[neighbor_of(x, y, w, hgt, e)->0] == l);
        }
        match neighbor_of(x, y, w, hgt, d) {
            Some(ni) => {
                let l2 = s.0[ni];
                if l2 == cur || s.2[l2 as int] == 0 {
                    lemma_scan_picks_better(s, w, hgt, x, y, bin, tb, better, cur, d + 1, bh, bt, nb, fin);
                } else {
                    let nh = hist_at(s.1, tb, l2 as int, bin);
                    let nt = s.2[l2 as int];
                    let r = choose|r: bool|
                        #[trigger] call_ensures(better, (nh, nt, bh, bt), r) && if r {
                            scan_ok(s, w, hgt, x, y, bin, tb, better, cur, d + 1, nh, nt, Some(l2), fin)
                        } else {
                            scan_ok(s, w, hgt, x, y, bin, tb, better, cur, d + 1, bh, bt, nb, fin)
                        };
                    if r {
                        assert(share_exceeds(nh, nt, bh, bt));
                        if nb is Some {
                            lemma_share_exceeds_trans(
                                nh,
                                nt,
                                bh,
                                bt,
                                hist_at(s.1, tb, cur as int, bin),
                                s.2[cur as int],
                            );
                        }
                        assert(neighbor_of(x, y, w, hgt, d) is Some && s.0[neighbor_of(x, y, w, hgt, d)->0] == l2);
                        lemma_scan_picks_better(s, w, hgt, x, y, bin, tb, better, cur, d + 1, nh, nt, Some(l2), fin);
                    } else {
                        lemma_scan_picks_better(s, w, hgt, x, y, bin, tb, better, cur, d + 1, bh, bt, nb, fin);
                    }
                }
            },
            None => {
                lemma_scan_picks_better(s, w, hgt, x, y, bin, tb, better, cur, d + 1, bh, bt, nb, fin);
            },
        }
    }
}

/// Where `better` says yes only when its first share exceeds its second, a
/// step of pixel-level refinement either changes nothing or moves the pixel
/// to the label of one of its neighbours, other than its own and with a
/// non-zero total, that gives the pixel's colour bin a larger share than its
/// own label does; the pixel alone is relabelled.
pub proof fn lemma_refine_step_moves_to_better_share<G: Fn(u32, u64, u32, u64) -> bool>(
    p: Seq<Rgb>,
    w: int,
    hgt: int,
    bins: int,
    better: G,
    i: int,
    a: RefineState,
    b: RefineState,
)
    requires
        better_only_when_exceeds(better),
        refine_step(p, w, hgt, bins, better, i, a, b),
    ensures
        b == a || exists|l: u32|
            #[trigger] better_neighbor(a, w, hgt, i % w, i / w, color_bin(p[i], bins), bins * bins * bins, a.0[i], 4, l)
                && b == moved_pixel(a, i, a.0[i], color_bin(p[i], bins), bins * bins * bins, l) && b.0 == a.0.update(
                i,
                l,
            ),
{
    let tb = bins * bins * bins;
    let cur = a.0[i];
    let bin = color_bin(p[i], bins);
    if a.2[cur as int] != 0 {
        let fin = choose|fin: Option<u32>|
            #[trigger] scan_ok(
                a,
                w,
                hgt,
                i % w,
                i / w,
                bin,
                tb,
                better,
                cur,
                0,
                hist_at(a.1, tb, cur as int, bin),
                a.2[cur as int],
                None,
                fin,
            ) && b == match fin {
                None => a,
                Some(nl) => moved_pixel(a, i, cur, bin, tb, nl),
            };
        lemma_scan_picks_better(
            a,
            w,
            hgt,
            i % w,
            i / w,
            bin,
            tb,
            better,
            cur,
            0,
            hist_at(a.1, tb, cur as int, bin),
            a.2[cur as int],
            None,
            fin,
        );
        if let Some(l) = fin {
            assert(better_neighbor(a, w, hgt, i % w, i / w, bin, tb, cur, 4, l));
        }
    }
}

/// Pixel `i` (label `cur`, colour bin `bin`) moves to label `nl`: one is
/// taken (stopping at zero) from `cur`'s histogram entry and total and added
/// to `nl`'s, and the pixel takes label `nl`.
pub open spec fn moved_pixel(s: RefineState, i: int, cur: u32, bin: int, tb: int, nl: u32) -> RefineState {
    let ci = cur * tb + bin;
    let ni = nl * tb + bin;
    let h1 = s.1.update(ci, if s.1[ci] >= 1 { (s.1[ci] - 1) as u32 } else { 0u32 });
    let h2 = h1.update(ni, (h1[ni] + 1) as u32);
    let t1 = s.2.update(cur as int, if s.2[cur as int] >= 1 { (s.2[cur as int] - 1) as u64 } else { 0u64 });
    let t2 = t1.update(nl as int, (t1[nl as int] + 1) as u64);
    (s.0.update(i, nl), h2, t2)
}

/// One step of pixel-level refinement, on pixel `i` of a `w`-wide image:
/// nothing happens when the total of the pixel's label is zero; otherwise
/// the neighbour scan picks a label or none, and the pixel moves to it.
pub open spec fn refine_step<G: Fn(u32, u64, u32, u64) -> bool>(
    p: Seq<Rgb>,
    w: int,
    hgt: int,
    bins: int,
    better: G,
    i: int,
    a: RefineState,
    b: RefineState,
) -> bool {
    let tb = bins * bins * bins;
    let cur = a.0[i];
    let bin = color_bin(p[i], bins);
    if a.2[cur as int] == 0 {
        b == a
    } else {
        exists|fin: Option<u32>|
            #[trigger] scan_ok(
                a,
                w,
                hgt,
                i % w,
                i / w,
                bin,
                tb,
                better,
                cur,
                0,
                hist_at(a.1, tb, cur as int, bin),
                a.2[cur as int],
                None,
                fin,
            ) && b == match fin {
                None => a,
                Some(nl) => moved_pixel(a, i, cur, bin, tb, nl),
            }
    }
}

/// `states` is a run of pixel-level refinement over the first
/// `states.len() - 1` pixels, in row-major order, from labels `l0` and
/// histograms `h0` with their totals.
pub open spec fn refine_run<G: Fn(u32, u64, u32, u64) -> bool>(
    p: Seq<Rgb>,
    w: int,
    hgt: int,
    bins: int,
    num: int,
    better: G,
    l0: Seq<u32>,
    h0: Seq<u32>,
    states: Seq<RefineState>,
) -> bool {
    &&& states.len() >= 1
    &&& states[0] == (l0, h0, totals_of(h0, bins * bins * bins, num))
    &&& forall|t: int|
        0 <= t < states.len() - 1 ==> refine_step(p, w, hgt, bins, better, t, #[trigger] states[t], states[t + 1])
}

/// Moves single pixels to a neighbouring label (right, left, below, above)
/// when `better` judges that label's share of the pixel's colour bin higher
/// than the best so far, starting from the pixel's own label. A label with an
/// empty histogram is never chosen, and a pixel whose own label has one stays.
/// `better(h, t, bh, bt)` compares the share `h / t` with `bh / bt`.
fn pixel_level_refinement<G: Fn(u32, u64, u32, u64) -> bool>(
    labels: &mut Vec<u32>,
    pixels: &[Rgb],
    h: &mut Vec<u32>,
    width: usize,
    height: usize,
    bins: usize,
    num_labels: usize,
    better: &G,
    Ghost(bound): Ghost<int>,
)
    requires
        width * height <= usize::MAX,
        old(labels)@.len() == width * height,
        pixels@.len() == width * height,
        forall|i: int| 0 <= i < old(labels)@.len() ==> #[trigger] old(labels)@[i] < num_labels,
        bins_ok(bins as int),
        old(h)@.len() == num_labels * (bins * bins * bins),
        num_labels * (bins * bins * bins) <= usize::MAX,
        forall|lab: int|
            0 <= lab < num_labels ==> #[trigger] hist_sum(old(h)@, bins * bins * bins, lab, bins * bins * bins) <= bound,
        0 <= bound,
        bound + width * height <= u32::MAX,
        forall|a: u32, b: u64, c: u32, d: u64| call_requires(*better, (a, b, c, d)),
    ensures
        final(labels)@.len() == width * height,
        forall|i: int| 0 <= i < final(labels)@.len() ==> #[trigger] final(labels)@[i] < num_labels,
        never_better(*better) ==> final(labels)@ == old(labels)@,
        final(h)@.len() == old(h)@.len(),
        hist_of(pixels@, old(labels)@, num_labels as int, bins as int, old(h)@) ==> hist_of(
            pixels@,
            final(labels)@,
            num_labels as int,
            bins as int,
            final(h)@,
        ),
        hist_of(pixels@, old(labels)@, num_labels as int, bins as int, old(h)@) ==> labels_from(old(labels)@, final(labels)@),
        exists|states: Seq<RefineState>|
            #[trigger] refine_run(
                pixels@,
                width as int,
                height as int,
                bins as int,
                num_labels as int,
                *better,
                old(labels)@,
                old(h)@,
                states,
            ) && states.len() == width * height + 1 && states.last().0 == final(labels)@ && states.last().1
                == final(h)@,
{
    let tb = bins * bins * bins;
    let n = width * height;
    let ghost labels0 = labels@;
    let ghost h00 = h@;
    let ghost counted = hist_of(pixels@, labels@, num_labels as int, bins as int, h@);
    let mut totals = histogram_totals(h, tb, num_labels);
    let ghost mut states: Seq<RefineState> = seq![(labels@, h@, totals@)];
    proof {
        assert forall|lab: int| 0 <= lab < num_labels implies #[trigger] hist_sum(h@, tb as int, lab, tb as int)
            <= u32::MAX by {
            assert(hist_sum(h@, tb as int, lab, tb as int) <= bound);
        }
        assert(totals@ =~= totals_of(h@, tb as int, num_labels as int));
        assert forall|i: int| 0 <= i < labels@.len() implies #[trigger] label_in(labels0, labels@[i]) by {
            assert(labels0[i] == labels@[i]);
        }
    }
    let mut y: usize = 0;
    while y < height
        invariant
            tb == bins * bins * bins,
            n == width * height,
            n <= usize::MAX,
            labels@.len() == n,
            pixels@.len() == n,
            forall|i: int| 0 <= i < n ==> #[trigger] labels@[i] < num_labels,
            bins_ok(bins as int),
            h@.len() == num_labels * tb,
            num_labels * tb <= usize::MAX,
            totals@.len() == num_labels,
            0 <= bound,
            bound + n <= u32::MAX,
            forall|a: u32, b: u64, c: u32, d: u64| call_requires(*better, (a, b, c, d)),
            y <= height,
            forall|lab: int| 0 <= lab < num_labels ==> #[trigger] hist_sum(h@, tb as int, lab, tb as int) <= bound + y * width,
            forall|lab: int| 0 <= lab < num_labels ==> #[trigger] totals@[lab] <= bound + y * width,
            never_better(*better) ==> labels@ == labels0,
            refine_run(pixels@, width as int, height as int, bins as int, num_labels as int, *better, labels0, h00, states),
            states.len() == y * width + 1,
            states.last() == (labels@, h@, totals@),
            counted ==> hist_of(pixels@, labels@, num_labels as int, bins as int, h@),
            counted ==> totals@ == totals_of(h@, tb as int, num_labels as int),
            counted ==> labels_from(labels0, labels@),
        decreases height - y,
    {
        let mut x: usize = 0;
        while x < width
            invariant
                tb == bins * bins * bins,
                n == width * height,
                n <= usize::MAX,
                labels@.len() == n,
                pixels@.len() == n,
                forall|i: int| 0 <= i < n ==> #[trigger] labels@[i] < num_labels,
                bins_ok(bins as int),
                h@.len() == num_labels * tb,
                num_labels * tb <= usize::MAX,
                totals@.len() == num_labels,
                0 <= bound,
                bound + n <= u32::MAX,
                forall|a: u32, b: u64, c: u32, d: u64| call_requires(*better, (a, b, c, d)),
                y < height,
                x <= width,
                forall|lab: int|
                    0 <= lab < num_labels ==> #[trigger] hist_sum(h@, tb as int, lab, tb as int) <= bound + y * width + x,
                forall|lab: int| 0 <= lab < num_labels ==> #[trigger] totals@[lab] <= bound + y * width + x,
                never_better(*better) ==> labels@ == labels0,
                refine_run(pixels@, width as int, height as int, bins as int, num_labels as int, *better, labels0, h00, states),
                states.len() == y * width + x + 1,
                states.last() == (labels@, h@, totals@),
                counted ==> hist_of(pixels@, labels@, num_labels as int, bins as int, h@),
                counted ==> totals@ == totals_of(h@, tb as int, num_labels as int),
                counted ==> labels_from(labels0, labels@),
            decreases width - x,
        {
            proof {
                lemma_cell(width as int, height as int, x as int, y as int);
            }
            let idx = y * width + x;
            let current = labels[idx];
            let bin = rgb_to_bin(&pixels[idx], bins);
            let cur = current as usize;
            let current_total = totals[cur];
            let ghost before: RefineState = (labels@, h@, totals@);
            let ghost mut fin_g: Option<u32> = None;
            let ghost mut h0c_g: u32 = 0;
            if current_total != 0 {
                proof {
                    lemma_hist_index(cur as int, bin as int, num_labels as int, tb as int);
                }
                let mut best_h = h[cur * tb + bin];
                let mut best_t = current_total;
                let mut best_neighbor: Option<u32> = None;
                let ghost h0c = best_h;
                let mut d: usize = 0;
                while d < 4
                    invariant
                        x < width,
                        y < height,
                        n == width * height,
                        n <= usize::MAX,
                        labels@.len() == n,
                        forall|i: int| 0 <= i < n ==> #[trigger] labels@[i] < num_labels,
                        h@.len() == num_labels * tb,
                        num_labels * tb <= usize::MAX,
                        bin < tb,
                        totals@.len() == num_labels,
                        forall|a: u32, b: u64, c: u32, d: u64| call_requires(*better, (a, b, c, d)),
                        d <= 4,
                        best_neighbor matches Some(l) ==> l < num_labels,
                        best_neighbor matches Some(l) ==> l != current,
                        best_neighbor matches Some(l) ==> totals@[l as int] != 0,
                        never_better(*better) ==> best_neighbor is None,
                        before == (labels@, h@, totals@),
                        current == labels@[y * width + x],
                        forall|fin: Option<u32>|
                            #[trigger] scan_ok(
                                before,
                                width as int,
                                height as int,
                                x as int,
                                y as int,
                                bin as int,
                                tb as int,
                                *better,
                                current,
                                d as int,
                                best_h,
                                best_t,
                                best_neighbor,
                                fin,
                            ) ==> scan_ok(
                                before,
                                width as int,
                                height as int,
                                x as int,
                                y as int,
                                bin as int,
                                tb as int,
                                *better,
                                current,
                                0,
                                h0c,
                                current_total,
                                None,
                                fin,
                            ),
                    decreases 4 - d,
                {
                    let ghost (bh0, bt0, nb0) = (best_h, best_t, best_neighbor);
                    let cell = neighbor_cell(x, y, width, height, d);
                    if let Some(ni) = cell {
                        let nb = labels[ni];
                        if nb != current {
                            let nt = totals[nb as usize];
                            if nt != 0 {
                                proof {
                                    lemma_hist_index(nb as int, bin as int, num_labels as int, tb as int);
                                }
                                let nh = h[nb as usize * tb + bin];
                                let r = better(nh, nt, best_h, best_t);
                                if r {
                                    best_h = nh;
                                    best_t = nt;
                                    best_neighbor = Some(nb);
                                }
                                proof {
                                    assert(hist_at(before.1, tb as int, nb as int, bin as int) == nh);
                                    assert forall|fin: Option<u32>|
                                        #[trigger] scan_ok(
                                            before,
                                            width as int,
                                            height as int,
                                            x as int,
                                            y as int,
                                            bin as int,
                                            tb as int,
                                            *better,
                                            current,
                                            d + 1,
                                            best_h,
                                            best_t,
                                            best_neighbor,
                                            fin,
                                        ) implies scan_ok(
                                        before,
                                        width as int,
                                        height as int,
                                        x as int,
                                        y as int,
                                        bin as int,
                                        tb as int,
                                        *better,
                                        current,
                                        0,
                                        h0c,
                                        current_total,
                                        None,
                                        fin,
                                    ) by {
                                        assert(call_ensures(*better, (nh, nt, bh0, bt0), r));
                                        assert(scan_ok(
                                            before,
                                            width as int,
                                            height as int,
                                            x as int,
                                            y as int,
                                            bin as int,
                                            tb as int,
                                            *better,
                                            current,
                                            d as int,
                                            bh0,
                                            bt0,
                                            nb0,
                                            fin,
                                        ));
                                    }
                                }
                            }
                        }
                    }
                    proof {
                        if best_h == bh0 && best_t == bt0 && best_neighbor == nb0 {
                            assert forall|fin: Option<u32>|
                                #[trigger] scan_ok(
                                    before,
                                    width as int,
                                    height as int,
                                    x as int,
                                    y as int,
                                    bin as int,
                                    tb as int,
                                    *better,
                                    current,
                                    d + 1,
                                    best_h,
                                    best_t,
                                    best_neighbor,
                                    fin,
                                ) && !(cell matches Some(ni) && labels@[ni as int] != current && totals@[labels@[ni as int] as int] != 0)
                                implies scan_ok(
                                before,
                                width as int,
                                height as int,
                                x as int,
                                y as int,
                                bin as int,
                                tb as int,
                                *better,
                                current,
                                0,
                                h0c,
                                current_total,
                                None,
                                fin,
                            ) by {
                                assert(scan_ok(
                                    before,
                                    width as int,
                                    height as int,
                                    x as int,
                                    y as int,
                                    bin as int,
                                    tb as int,
                                    *better,
                                    current,
                                    d as int,
                                    bh0,
                                    bt0,
                                    nb0,
                                    fin,
                                ));
                            }
                        }
                    }
                    d = d + 1;
                }
                proof {
                    assert(scan_ok(
                        before,
                        width as int,
                        height as int,
                        x as int,
                        y as int,
                        bin as int,
                        tb as int,
                        *better,
                        current,
                        4,
                        best_h,
                        best_t,
                        best_neighbor,
                        best_neighbor,
                    ));
                    fin_g = best_neighbor;
                    h0c_g = h0c;
                    assert(h0c == hist_at(before.1, tb as int, current as int, bin as int));
                }
                if let Some(new_label) = best_neighbor {
                    let nl = new_label as usize;
                    proof {
                        lemma_hist_index(nl as int, bin as int, num_labels as int, tb as int);
                    }
                    let ci = cur * tb + bin;
                    let cv = h[ci];
                    let ghost h0 = h@;
                    h.set(ci, cv.saturating_sub(1));
                    let ni = nl * tb + bin;
                    let nv = h[ni];
                    let ghost h1 = h@;
                    proof {
                        assert forall|lab: int| 0 <= lab < num_labels implies #[trigger] hist_sum(h1, tb as int, lab, tb as int)
                            <= bound + y * width + x by {
                            lemma_hist_sum_update(h0, tb as int, num_labels as int, cur as int, bin as int, cv.saturating_sub(1), lab, tb as int);
                            assert(hist_sum(h0, tb as int, lab, tb as int) <= bound + y * width + x);
                        }
                        assert(hist_at(h1, tb as int, nl as int, bin as int) == nv);
                        lemma_hist_sum_entry(h1, tb as int, nl as int, tb as int, bin as int);
                    }
                    h.set(ni, nv + 1);
                    proof {
                        assert forall|lab: int| 0 <= lab < num_labels implies #[trigger] hist_sum(h@, tb as int, lab, tb as int)
                            <= bound + y * width + x + 1 by {
                            lemma_hist_sum_update(h1, tb as int, num_labels as int, nl as int, bin as int, (nv + 1) as u32, lab, tb as int);
                            assert(hist_sum(h1, tb as int, lab, tb as int) <= bound + y * width + x);
                        }
                    }
                    let ct = totals[cur];
                    totals.set(cur, ct.saturating_sub(1));
                    let nt = totals[nl];
                    totals.set(nl, nt + 1);
                    labels.set(idx, new_label);
                    proof {
                        assert((labels@, h@, totals@) == moved_pixel(before, idx as int, current, bin as int, tb as int, new_label));
                        if counted {
                            assert(color_bin(pixels@[idx as int], bins as int) == bin);
                            lemma_move_counts(pixels@, before.0, before.1, num_labels as int, bins as int, idx as int, new_label);
                            assert(before.0[idx as int] == current);
                            assert(before.1[ci as int] == cv);
                            assert(cv >= 1);
                            if ci == ni {
                                lemma_slot_unique(cur as int, bin as int, nl as int, bin as int, tb as int);
                            }
                            assert(nv == before.1[ni as int]);
                            assert(h@ =~= before.1.update(ci as int, (before.1[ci as int] - 1) as u32).update(
                                ni as int,
                                (before.1[ni as int] + 1) as u32,
                            ));

                            let tb_ = tb as int;
                            let nlab = new_label as int;
                            assert(before.2[nlab] != 0);
                            assert(before.2 == totals_of(before.1, tb_, num_labels as int));
                            lemma_hist_sum_entry(before.1, tb_, nlab, tb_, 0);
                            assert(hist_sum(before.1, tb_, nlab, tb_) <= bound + y * width + x);
                            assert(hist_sum(before.1, tb_, nlab, tb_) > 0);
                            lemma_hist_sum_pos(before.1, tb_, nlab, tb_);
                            let bb = choose|bb: int| 0 <= bb < tb_ && #[trigger] hist_at(before.1, tb_, nlab, bb) > 0;
                            assert(hist_at(before.1, tb_, nlab, bb) == bin_count(pixels@, before.0, nlab, bb, bins as int, n as int));
                            lemma_bin_count_pos(pixels@, before.0, nlab, bb, bins as int, n as int);
                            let i2 = choose|i2: int| 0 <= i2 < n && before.0[i2] == nlab;
                            assert(label_in(labels0, before.0[i2]));
                            assert forall|i: int| 0 <= i < labels@.len() implies #[trigger] label_in(labels0, labels@[i]) by {
                                if i == idx {
                                    assert(labels@[i] == before.0[i2]);
                                } else {
                                    assert(labels@[i] == before.0[i]);
                                    assert(label_in(labels0, before.0[i]));
                                }
                            }
                            assert forall|lab: int| 0 <= lab < num_labels implies #[trigger] hist_sum(h@, tb_, lab, tb_) == hist_sum(
                                before.1,
                                tb_,
                                lab,
                                tb_,
                            ) - (if lab == cur { 1int } else { 0 }) + (if lab == nlab { 1int } else { 0 }) by {
                                lemma_hist_sum_update(h0, tb_, num_labels as int, cur as int, bin as int, cv.saturating_sub(1), lab, tb_);
                                lemma_hist_sum_update(h1, tb_, num_labels as int, nlab, bin as int, (nv + 1) as u32, lab, tb_);
                            }
                            lemma_hist_sum_entry(before.1, tb_, cur as int, tb_, bin as int);
                            assert(totals@ =~= totals_of(h@, tb_, num_labels as int));
                        }
                    }
                }
            }
            proof {
                let after: RefineState = (labels@, h@, totals@);
                assert(idx as int % width as int == x && idx as int / width as int == y);
                if current_total != 0 {
                    assert(hist_at(before.1, tb as int, current as int, bin as int) == h0c_g);
                    assert(scan_ok(
                        before,
                        width as int,
                        height as int,
                        idx as int % width as int,
                        idx as int / width as int,
                        bin as int,
                        tb as int,
                        *better,
                        current,
                        0,
                        hist_at(before.1, tb as int, current as int, bin as int),
                        before.2[current as int],
                        None,
                        fin_g,
                    ));
                    assert(after == match fin_g {
                        None => before,
                        Some(nl) => moved_pixel(before, idx as int, current, bin as int, tb as int, nl),
                    });
                } else {
                    assert(after == before);
                }
                assert(before.0[idx as int] == current);
                assert(color_bin(pixels@[idx as int], bins as int) == bin);
                assert(refine_step(pixels@, width as int, height as int, bins as int, *better, idx as int, before, after));
                let old_states = states;
                states = states.push(after);
                assert forall|t: int| 0 <= t < states.len() - 1 implies refine_step(
                    pixels@,
                    width as int,
                    height as int,
                    bins as int,
                    *better,
                    t,
                    #[trigger] states[t],
                    states[t + 1],
                ) by {
                    if t < old_states.len() - 1 {
                        assert(states[t] == old_states[t] && states[t + 1] == old_states[t + 1]);
                    } else {
                        assert(t == idx);
                        assert(states[t] == before);
                    }
                }
            }
            x = x + 1;
        }
        proof {
            assert(y * width + width == (y + 1) * width) by (nonlinear_arith);
        }
        y = y + 1;
    }
    proof {
        assert(height * width == width * height) by (nonlinear_arith);
        assert(refine_run(pixels@, width as int, height as int, bins as int, num_labels as int, *better, labels0, h00, states));
    }
}


/// The histogram of the sub-block `[x0, x1) × [y0, y1)` of `p`, `bins`
/// bins per channel.
pub open spec fn sub_hist_of(p: Seq<Rgb>, w: int, x0: int, y0: int, x1: int, y1: int, bins: int) -> Seq<u32> {
    Seq::new((bins * bins * bins) as nat, |b: int| block_bins(p, w, x0, x1, y0, y1, bins, b) as u32)
}

/// What `histogram_overlap` gives for `sub` against label `lab` of `h`: the
/// whole-number intersection numerator and the two totals.
pub open spec fn overlap_of(sub: Seq<u32>, h: Seq<u32>, tb: int, lab: int) -> (u128, u64, u64) {
    let s1 = seq_sum(sub, tb);
    let s2 = hist_sum(h, tb, lab, tb);
    (
        (if s1 == 0 || s2 == 0 {
            0
        } else {
            overlap_numer(sub, h, tb, lab, s1, s2, tb)
        }) as u128,
        s1 as u64,
        s2 as u64,
    )
}

/// The block-level test of the sub-block `[x0, x1) × [y0, y1)`, from labels
/// and histograms `a` to `b`. Nothing changes when its surroundings carry
/// only its centre label; otherwise `prefer` weighs the overlaps of the
/// sub-block's histogram with the centre label's and the neighbour label's,
/// and a yes relabels the sub-block and moves its histogram to the neighbour.
pub open spec fn block_step<F: Fn((u128, u64, u64), (u128, u64, u64)) -> bool>(
    p: Seq<Rgb>,
    w: int,
    hgt: int,
    bins: int,
    num: int,
    prefer: F,
    x0: int,
    y0: int,
    x1: int,
    y1: int,
    a: (Seq<u32>, Seq<u32>),
    b: (Seq<u32>, Seq<u32>),
) -> bool {
    let tb = bins * bins * bins;
    let cur = a.0[((y0 + y1) / 2) * w + (x0 + x1) / 2];
    match first_other(a.0, border_cells(w, hgt, x0, y0, x1, y1), cur) {
        None => b == a,
        Some(v) => {
            let sub = sub_hist_of(p, w, x0, y0, x1, y1, bins);
            let args = (overlap_of(sub, a.1, tb, cur as int), overlap_of(sub, a.1, tb, v as int));
            ||| call_ensures(prefer, args, false) && b == a
            ||| call_ensures(prefer, args, true) && b.0 == Seq::new(
                a.0.len(),
                |i: int|
                    if in_block(i, w, x0, y0, x1, y1) {
                        v
                    } else {
                        a.0[i]
                    },
            ) && b.1.len() == a.1.len() && forall|lab: int, bb: int|
                0 <= lab < num && 0 <= bb < tb ==> #[trigger] hist_at(b.1, tb, lab, bb) == moved_entry(
                    a.1,
                    sub,
                    tb,
                    cur as int,
                    v as int,
                    lab,
                    bb,
                )
        },
    }
}

/// The histogram intersection described by overlap `o`, its numerator over
/// the product of its two totals (zero where a total is zero), exceeds that
/// described by `c`; compared by cross-multiplication.
pub open spec fn intersection_exceeds(o: (u128, u64, u64), c: (u128, u64, u64)) -> bool {
    if o.1 == 0 || o.2 == 0 {
        false
    } else if c.1 == 0 || c.2 == 0 {
        o.0 > 0
    } else {
        o.0 * (c.1 * c.2) > c.0 * (o.1 * o.2)
    }
}

/// `prefer` answers yes only when its second overlap's intersection exceeds
/// its first's.
pub open spec fn prefers_only_better<F: Fn((u128, u64, u64), (u128, u64, u64)) -> bool>(prefer: F) -> bool {
    forall|c: (u128, u64, u64), o: (u128, u64, u64), r: bool|
        #[trigger] call_ensures(prefer, (c, o), r) && r ==> intersection_exceeds(o, c)
}

/// `prefer` answers yes whenever its second overlap's intersection exceeds
/// its first's.
pub open spec fn prefers_every_better<F: Fn((u128, u64, u64), (u128, u64, u64)) -> bool>(prefer: F) -> bool {
    forall|c: (u128, u64, u64), o: (u128, u64, u64), r: bool|
        #[trigger] call_ensures(prefer, (c, o), r) && intersection_exceeds(o, c) ==> r
}

/// `prefer` is asked first about the sub-block's centre label and then about
/// the neighbour label: where it moves a sub-block only towards a label whose
/// histogram matches it strictly better, a sub-block whose histogram meets its
/// centre label's at least as well as the neighbour label's keeps its labels
/// and histograms.
pub proof fn lemma_block_step_keeps_better_match<F: Fn((u128, u64, u64), (u128, u64, u64)) -> bool>(
    p: Seq<Rgb>,
    w: int,
    hgt: int,
    bins: int,
    num: int,
    prefer: F,
    x0: int,
    y0: int,
    x1: int,
    y1: int,
    a: (Seq<u32>, Seq<u32>),
    b: (Seq<u32>, Seq<u32>),
)
    requires
        prefers_only_better(prefer),
        block_step(p, w, hgt, bins, num, prefer, x0, y0, x1, y1, a, b),
        forall|v: u32|
            first_other(a.0, border_cells(w, hgt, x0, y0, x1, y1), a.0[((y0 + y1) / 2) * w + (x0 + x1) / 2])
                == Some(v) ==> !intersection_exceeds(
                overlap_of(sub_hist_of(p, w, x0, y0, x1, y1, bins), a.1, bins * bins * bins, v as int),
                overlap_of(
                    sub_hist_of(p, w, x0, y0, x1, y1, bins),
                    a.1,
                    bins * bins * bins,
                    a.0[((y0 + y1) / 2) * w + (x0 + x1) / 2] as int,
                ),
            ),
    ensures
        b == a,
{
}

proof fn lemma_first_other_differs(l: Seq<u32>, cs: Seq<int>, cur: u32)
    ensures
        first_other(l, cs, cur) is Some ==> first_other(l, cs, cur)->0 != cur,
    decreases cs.len(),
{
    if cs.len() > 0 && l[cs[0]] == cur {
        lemma_first_other_differs(l, cs.drop_first(), cur);
    }
}

/// The other half of the same order: where `prefer` takes every strictly
/// better match, a sub-block whose histogram meets the neighbour label's
/// better than its centre label's takes the neighbour label in every cell,
/// and its histogram moves from the centre label's to the neighbour label's:
/// the neighbour label gains it bin by bin, the centre label loses it
/// (stopping at zero), and every other label's histogram stays.
pub proof fn lemma_block_step_takes_better_match<F: Fn((u128, u64, u64), (u128, u64, u64)) -> bool>(
    p: Seq<Rgb>,
    w: int,
    hgt: int,
    bins: int,
    num: int,
    prefer: F,
    x0: int,
    y0: int,
    x1: int,
    y1: int,
    a: (Seq<u32>, Seq<u32>),
    b: (Seq<u32>, Seq<u32>),
    v: u32,
)
    requires
        prefers_every_better(prefer),
        block_step(p, w, hgt, bins, num, prefer, x0, y0, x1, y1, a, b),
        first_other(a.0, border_cells(w, hgt, x0, y0, x1, y1), a.0[((y0 + y1) / 2) * w + (x0 + x1) / 2])
            == Some(v),
        intersection_exceeds(
            overlap_of(sub_hist_of(p, w, x0, y0, x1, y1, bins), a.1, bins * bins * bins, v as int),
            overlap_of(
                sub_hist_of(p, w, x0, y0, x1, y1, bins),
                a.1,
                bins * bins * bins,
                a.0[((y0 + y1) / 2) * w + (x0 + x1) / 2] as int,
            ),
        ),
    ensures
        b.0.len() == a.0.len(),
        forall|i: int|
            0 <= i < a.0.len() ==> #[trigger] b.0[i] == if in_block(i, w, x0, y0, x1, y1) {
                v
            } else {
                a.0[i]
            },
        ({
            let tb = bins * bins * bins;
            let cur = a.0[((y0 + y1) / 2) * w + (x0 + x1) / 2];
            let sub = sub_hist_of(p, w, x0, y0, x1, y1, bins);
            &&& v != cur
            &&& b.1.len() == a.1.len()
            &&& forall|lab: int, bb: int|
                0 <= lab < num && 0 <= bb < tb ==> #[trigger] hist_at(b.1, tb, lab, bb) == if lab == v {
                    hist_at(a.1, tb, lab, bb) + sub[bb]
                } else if lab == cur {
                    if hist_at(a.1, tb, lab, bb) >= sub[bb] {
                        hist_at(a.1, tb, lab, bb) - sub[bb]
                    } else {
                        0
                    }
                } else {
                    hist_at(a.1, tb, lab, bb) as int
                }
        }),
{
    let cur = a.0[((y0 + y1) / 2) * w + (x0 + x1) / 2];
    lemma_first_other_differs(a.0, border_cells(w, hgt, x0, y0, x1, y1), cur);
}

/// Side of the sub-blocks at `level` (of `levels`) for blocks of side `block`:
/// the block side divided by `2^(levels - 1 - level)`, at least 1.
pub open spec fn sub_side(block: int, levels: int, level: int) -> int {
    let q = block / (pow2((levels - 1 - level) as nat) as int);
    if q > 1 {
        q
    } else {
        1
    }
}

/// The `k`-th sub-block, in row-major order, of sides `sub_w × sub_h` tiling
/// a `w × hgt` image, clipped to it.
pub open spec fn sub_rect(w: int, hgt: int, sub_w: int, sub_h: int, k: int) -> (int, int, int, int) {
    let nx = ceil_div(w, sub_w);
    let x0 = (k % nx) * sub_w;
    let y0 = (k / nx) * sub_h;
    (x0, y0, if x0 + sub_w < w {
        x0 + sub_w
    } else {
        w
    }, if y0 + sub_h < hgt {
        y0 + sub_h
    } else {
        hgt
    })
}

/// The states `ss` follow the first `ss.len() - 1` sub-blocks of sides
/// `sub_w × sub_h`, in row-major order, each tested by [`block_step`].
pub open spec fn blocks_done<F: Fn((u128, u64, u64), (u128, u64, u64)) -> bool>(
    p: Seq<Rgb>,
    w: int,
    hgt: int,
    bins: int,
    num: int,
    prefer: F,
    sub_w: int,
    sub_h: int,
    ss: Seq<(Seq<u32>, Seq<u32>)>,
) -> bool {
    forall|k: int|
        0 <= k < ss.len() - 1 ==> {
            let r = sub_rect(w, hgt, sub_w, sub_h, k);
            block_step(p, w, hgt, bins, num, prefer, r.0, r.1, r.2, r.3, #[trigger] ss[k], ss[k + 1])
        }
}

/// One level of block moves leads from `x` to `y`: every sub-block of that
/// level's side, in row-major order, tested by [`block_step`].
pub open spec fn level_ok<F: Fn((u128, u64, u64), (u128, u64, u64)) -> bool>(
    p: Seq<Rgb>,
    w: int,
    hgt: int,
    bins: int,
    num: int,
    prefer: F,
    block_w: int,
    block_h: int,
    levels: int,
    level: int,
    x: (Seq<u32>, Seq<u32>),
    y: (Seq<u32>, Seq<u32>),
) -> bool {
    let sub_w = sub_side(block_w, levels, level);
    let sub_h = sub_side(block_h, levels, level);
    exists|ss: Seq<(Seq<u32>, Seq<u32>)>|
        #[trigger] blocks_done(p, w, hgt, bins, num, prefer, sub_w, sub_h, ss) && ss.len() == ceil_div(w, sub_w)
            * ceil_div(hgt, sub_h) + 1 && ss[0] == x && ss.last() == y
}

/// The block-level moves over all levels, from sub-blocks
/// `2^(levels - 1)` times smaller than a `block_w × block_h` block up to
/// whole blocks: `lv[level]` is the state before that level.
pub open spec fn block_run<F: Fn((u128, u64, u64), (u128, u64, u64)) -> bool>(
    p: Seq<Rgb>,
    w: int,
    hgt: int,
    bins: int,
    num: int,
    prefer: F,
    block_w: int,
    block_h: int,
    levels: int,
    lv: Seq<(Seq<u32>, Seq<u32>)>,
) -> bool {
    &&& lv.len() == levels + 1
    &&& forall|level: int|
        0 <= level < levels ==> level_ok(p, w, hgt, bins, num, prefer, block_w, block_h, levels, level, #[trigger] lv[level], lv[level + 1])
}

/// The starting grid: each cell labelled with its block of a
/// `blocks_x × blocks_y` grid.
pub open spec fn grid_seq(w: int, hgt: int, blocks_x: int, blocks_y: int) -> Seq<u32> {
    Seq::new(
        (w * hgt) as nat,
        |i: int| grid_label(i % w, i / w, ceil_div(w, blocks_x), ceil_div(hgt, blocks_y), blocks_x, blocks_y) as u32,
    )
}

/// `h` holds, for each of `num` labels, the colour-bin counts of the pixels
/// of `p` with that label in `l`.
pub open spec fn hist_of(p: Seq<Rgb>, l: Seq<u32>, num: int, bins: int, h: Seq<u32>) -> bool {
    &&& h.len() == num * (bins * bins * bins)
    &&& forall|lab: int, b: int|
        0 <= lab < num && 0 <= b < bins * bins * bins ==> #[trigger] hist_at(h, bins * bins * bins, lab, b)
            == bin_count(p, l, lab, b, bins, p.len() as int)
}

/// The whole SEEDS labelling: from the block grid and its histograms
/// `lv[0]`, the block-level moves `lv` of [`block_run`], then the pixel-level
/// refinement `ps` of [`refine_run`], ending in `out`.
pub open spec fn seeds_run<F: Fn((u128, u64, u64), (u128, u64, u64)) -> bool, G: Fn(u32, u64, u32, u64) -> bool>(
    p: Seq<Rgb>,
    w: int,
    hgt: int,
    blocks_x: int,
    blocks_y: int,
    levels: int,
    bins: int,
    prefer: F,
    better: G,
    lv: Seq<(Seq<u32>, Seq<u32>)>,
    ps: Seq<RefineState>,
    out: Seq<u32>,
) -> bool {
    let num = crate::preprocessors::max_label(grid_seq(w, hgt, blocks_x, blocks_y)) + 1;
    &&& lv.len() >= 1
    &&& lv[0].0 == grid_seq(w, hgt, blocks_x, blocks_y)
    &&& hist_of(p, lv[0].0, num, bins, lv[0].1)
    &&& block_run(p, w, hgt, bins, num, prefer, ceil_div(w, blocks_x), ceil_div(hgt, blocks_y), levels, lv)
    &&& refine_run(p, w, hgt, bins, num, better, lv.last().0, lv.last().1, ps)
    &&& ps.len() == w * hgt + 1
    &&& ps.last().0 == out
}

/// Tests the sub-block `[x0, x1) × [y0, y1)` as [`block_step`] says: when a
/// neighbour label is found and `prefer_neighbor` says yes, the sub-block
/// moves to it, labels and histogram.
fn weigh_sub_block<F: Fn((u128, u64, u64), (u128, u64, u64)) -> bool>(
    small_pixels: &[Rgb],
    sw: usize,
    sh: usize,
    x0: usize,
    y0: usize,
    x1: usize,
    y1: usize,
    bins: usize,
    tb: usize,
    num_labels: usize,
    labels: &mut Vec<u32>,
    h: &mut Vec<u32>,
    sub_hist: &mut Vec<u32>,
    prefer_neighbor: &F,
    Ghost(budget): Ghost<int>,
)
    requires
        1 <= sw <= 512,
        1 <= sh <= 512,
        small_pixels@.len() == sw * sh,
        block_ok(sw as int, sh as int, x0 as int, y0 as int, x1 as int, y1 as int),
        x0 < x1,
        y0 < y1,
        bins_ok(bins as int),
        tb == bins * bins * bins,
        num_labels * tb <= usize::MAX,
        old(labels)@.len() == sw * sh,
        forall|i: int| 0 <= i < sw * sh ==> #[trigger] old(labels)@[i] < num_labels,
        old(h)@.len() == num_labels * tb,
        old(sub_hist)@.len() == tb,
        0 <= budget,
        budget + (x1 - x0) * (y1 - y0) <= 257 * (sw * sh),
        forall|lab: int| 0 <= lab < num_labels ==> #[trigger] hist_sum(old(h)@, tb as int, lab, tb as int) <= budget,
        forall|c: (u128, u64, u64), o: (u128, u64, u64)| call_requires(*prefer_neighbor, (c, o)),
    ensures
        block_step(
            small_pixels@,
            sw as int,
            sh as int,
            bins as int,
            num_labels as int,
            *prefer_neighbor,
            x0 as int,
            y0 as int,
            x1 as int,
            y1 as int,
            (old(labels)@, old(h)@),
            (final(labels)@, final(h)@),
        ),
        final(labels)@.len() == sw * sh,
        forall|i: int| 0 <= i < sw * sh ==> #[trigger] final(labels)@[i] < num_labels,
        final(h)@.len() == num_labels * tb,
        final(sub_hist)@.len() == tb,
        forall|lab: int|
            0 <= lab < num_labels ==> #[trigger] hist_sum(final(h)@, tb as int, lab, tb as int) <= budget + (x1 - x0) * (y1
                - y0),
        never_prefers(*prefer_neighbor) ==> final(labels)@ == old(labels)@,
{
    let ghost n = sw * sh;
    let ghost area = (x1 - x0) * (y1 - y0);
    proof {
        assert(sw * sh <= 512 * 512) by (nonlinear_arith)
            requires
                sw <= 512,
                sh <= 512,
        ;
        assert((x1 - x0) * (y1 - y0) <= n && (x1 - x0) * (y1 - y0) >= 0) by (nonlinear_arith)
            requires
                0 <= x1 - x0 <= sw,
                0 <= y1 - y0 <= sh,
                n == sw * sh,
        ;
    }
    let ghost a = (labels@, h@);
    let current_label = center_label(labels.as_slice(), sw, sh, x0, y0, x1, y1);
    let neighbor_label = find_neighbor_label(labels.as_slice(), sw, sh, x0, y0, x1, y1, current_label);
    if let Some(neighbor) = neighbor_label {
        let cur = current_label as usize;
        let nb = neighbor as usize;
        proof {
            let i = choose|i: int| 0 <= i < labels@.len() && labels@[i] == neighbor;
            assert(labels@[i] < num_labels);
            lemma_cell(sw as int, sh as int, (x0 + (x1 - x0) / 2) as int, (y0 + (y1 - y0) / 2) as int);
            assert((y0 + y1) / 2 == y0 + (y1 - y0) / 2);
            assert((x0 + x1) / 2 == x0 + (x1 - x0) / 2);
        }
        fill_sub_histogram(small_pixels, sw, sh, x0, y0, x1, y1, bins, sub_hist);
        let overlap_current = histogram_overlap(sub_hist, h, tb, num_labels, cur);
        let overlap_neighbor = histogram_overlap(sub_hist, h, tb, num_labels, nb);
        proof {
            assert(sub_hist@ =~= sub_hist_of(small_pixels@, sw as int, x0 as int, y0 as int, x1 as int, y1 as int, bins as int));
            assert(overlap_current == overlap_of(sub_hist@, h@, tb as int, cur as int));
            assert(overlap_neighbor == overlap_of(sub_hist@, h@, tb as int, nb as int));
        }
        let yes = (*prefer_neighbor)(overlap_current, overlap_neighbor);
        if yes {
            proof {
                assert forall|b: int| 0 <= b < tb implies hist_at(h@, tb as int, nb as int, b)
                    + #[trigger] sub_hist@[b] <= u32::MAX by {
                    lemma_hist_sum_entry(h@, tb as int, nb as int, tb as int, b);
                    lemma_seq_sum_entry(sub_hist@, tb as int, b);
                }
            }
            let ghost h0 = h@;
            update_histograms(h, sub_hist, tb, num_labels, cur, nb);
            proof {
                assert forall|lab: int| 0 <= lab < num_labels implies #[trigger] hist_sum(h@, tb as int, lab, tb as int)
                    <= budget + area by {
                    lemma_moved_sums(h0, h@, sub_hist@, tb as int, num_labels as int, cur as int, nb as int, lab, tb as int);
                    assert(hist_sum(h0, tb as int, lab, tb as int) <= budget);
                }
            }
            relabel_block(labels, sw, sh, x0, y0, x1, y1, neighbor);
            proof {
                assert(labels@ =~= Seq::new(
                    a.0.len(),
                    |i: int|
                        if in_block(i, sw as int, x0 as int, y0 as int, x1 as int, y1 as int) {
                            neighbor
                        } else {
                            a.0[i]
                        },
                ));
            }
        }
    }
    proof {
        if !(neighbor_label is Some) {
            assert forall|lab: int| 0 <= lab < num_labels implies #[trigger] hist_sum(h@, tb as int, lab, tb as int) <= budget + area by {}
        }
    }
}

/// Refines the block grid of a `sw × sh` image into SEEDS superpixel labels.
///
/// The image starts as a `blocks_x × blocks_y` grid of labelled blocks with
/// per-label colour histograms of `bins` bins per channel. For each of
/// `num_levels` levels, from sub-blocks `2^(num_levels - 1)` times smaller
/// than a block down to whole blocks, every sub-block whose surroundings
/// carry another label (the first found above, below, left, then right of
/// it) is tested: `prefer_neighbor` receives the whole-number intersections
/// (see [`histogram_overlap`]) of the sub-block's histogram with the
/// histograms of its centre label and of that neighbour label, and when it
/// says yes the sub-block's histogram moves to the neighbour and its cells
/// take the neighbour's label. Then single pixels are refined as
/// [`pixel_level_refinement`] does, with `better_share`. The whole run is
/// [`seeds_run`]: [`block_run`] level by level, then [`refine_run`].
pub fn seeds_labels<
    F: Fn((u128, u64, u64), (u128, u64, u64)) -> bool,
    G: Fn(u32, u64, u32, u64) -> bool,
>(
    small_pixels: &[Rgb],
    sw: usize,
    sh: usize,
    blocks_x: usize,
    blocks_y: usize,
    num_levels: usize,
    bins: usize,
    prefer_neighbor: F,
    better_share: G,
) -> (labels: Vec<u32>)
    requires
        1 <= sw <= crate::preprocessors::DEFAULT_MAX_DIM,
        1 <= sh <= crate::preprocessors::DEFAULT_MAX_DIM,
        small_pixels@.len() == sw * sh,
        1 <= blocks_x <= sw,
        1 <= blocks_y <= sh,
        1 <= num_levels <= usize::BITS,
        bins_ok(bins as int),
        blocks_x * blocks_y * (bins * bins * bins) <= usize::MAX,
        forall|c: (u128, u64, u64), o: (u128, u64, u64)| call_requires(prefer_neighbor, (c, o)),
        forall|a: u32, b: u64, c: u32, d: u64| call_requires(better_share, (a, b, c, d)),
    ensures
        labels@.len() == sw * sh,
        forall|i: int| 0 <= i < sw * sh ==> #[trigger] labels@[i] < blocks_x * blocks_y,
        never_prefers(prefer_neighbor) && never_better(better_share) ==> forall|i: int|
            0 <= i < sw * sh ==> #[trigger] labels@[i] == grid_label(
                i % (sw as int),
                i / (sw as int),
                ceil_div(sw as int, blocks_x as int),
                ceil_div(sh as int, blocks_y as int),
                blocks_x as int,
                blocks_y as int,
            ),
        exists|lv: Seq<(Seq<u32>, Seq<u32>)>, ps: Seq<RefineState>|
            #[trigger] seeds_run(
                small_pixels@,
                sw as int,
                sh as int,
                blocks_x as int,
                blocks_y as int,
                num_levels as int,
                bins as int,
                prefer_neighbor,
                better_share,
                lv,
                ps,
                labels@,
            ),
{
    proof {
        assert(sw * sh <= 512 * 512 && sw * sh >= 1) by (nonlinear_arith)
            requires
                1 <= sw <= 512,
                1 <= sh <= 512,
        ;
    }
    let n = sw * sh;
    let (mut labels, nl) = grid_labels(sw, sh, blocks_x, blocks_y);
    let ghost grid = labels@;
    let num_labels = nl as usize;
    let tb = bins * bins * bins;
    proof {
        assert(num_labels * tb <= blocks_x * blocks_y * tb) by (nonlinear_arith)
            requires
                num_labels <= blocks_x * blocks_y,
                tb >= 0,
        ;
    }
    let mut h = build_histograms(small_pixels, labels.as_slice(), num_labels, bins);
    proof {
        assert(grid =~= grid_seq(sw as int, sh as int, blocks_x as int, blocks_y as int));
    }
    let ghost lv0 = (labels@, h@);
    let ghost mut lv: Seq<(Seq<u32>, Seq<u32>)> = seq![lv0];
    let mut sub_hist: Vec<u32> = Vec::with_capacity(tb);
    let mut t: usize = 0;
    while t < tb
        invariant
            t <= tb,
            sub_hist@.len() == t,
        decreases tb - t,
    {
        sub_hist.push(0);
        t = t + 1;
    }
    let block_w = div_ceil(sw, blocks_x);
    let block_h = div_ceil(sh, blocks_y);
    proof {
        assert(block_w <= sw && block_h <= sh) by (nonlinear_arith)
            requires
                (block_w - 1) * blocks_x < sw,
                (block_h - 1) * blocks_y < sh,
                blocks_x >= 1,
                blocks_y >= 1,
                block_w >= 1,
                block_h >= 1,
        ;
    }
    let ghost mut budget: int = n as int;
    let mut level: usize = 0;
    while level < num_levels
        invariant
            1 <= sw <= 512,
            1 <= sh <= 512,
            n == sw * sh,
            1 <= n <= 512 * 512,
            small_pixels@.len() == n,
            1 <= num_levels <= usize::BITS,
            level <= num_levels,
            bins_ok(bins as int),
            tb == bins * bins * bins,
            num_labels <= blocks_x * blocks_y,
            num_labels * tb <= usize::MAX,
            labels@.len() == n,
            forall|i: int| 0 <= i < n ==> #[trigger] labels@[i] < num_labels,
            h@.len() == num_labels * tb,
            sub_hist@.len() == tb,
            1 <= block_w <= sw,
            1 <= block_h <= sh,
            0 <= budget <= n + 4 * n * level,
            forall|lab: int| 0 <= lab < num_labels ==> #[trigger] hist_sum(h@, tb as int, lab, tb as int) <= budget,
            forall|c: (u128, u64, u64), o: (u128, u64, u64)| call_requires(prefer_neighbor, (c, o)),
            never_prefers(prefer_neighbor) ==> labels@ == grid,
            lv[0] == lv0,
            grid == lv0.0,
            hist_of(small_pixels@, grid, num_labels as int, bins as int, lv0.1),
            num_labels == crate::preprocessors::max_label(grid) + 1,
            block_w == ceil_div(sw as int, blocks_x as int),
            block_h == ceil_div(sh as int, blocks_y as int),
            forall|lvl: int|
                0 <= lvl < level ==> level_ok(
                    small_pixels@,
                    sw as int,
                    sh as int,
                    bins as int,
                    num_labels as int,
                    prefer_neighbor,
                    block_w as int,
                    block_h as int,
                    num_levels as int,
                    lvl,
                    #[trigger] lv[lvl],
                    lv[lvl + 1],
                ),
            lv.len() == level + 1,
            lv.last() == (labels@, h@),
        decreases num_levels - level,
    {
        let shift = num_levels - 1 - level;
        let divisor = 1usize << shift;
        proof {
            assert(divisor >= 1) by (bit_vector)
                requires
                    divisor == 1usize << shift,
                    shift < usize::BITS,
            ;
        }
        let qw = block_w / divisor;
        let qh = block_h / divisor;
        let sub_w = if qw > 1 {
            qw
        } else {
            1
        };
        let sub_h = if qh > 1 {
            qh
        } else {
            1
        };
        let sub_blocks_x = div_ceil(sw, sub_w);
        let sub_blocks_y = div_ceil(sh, sub_h);
        proof {
            vstd::bits::lemma_usize_pow2_no_overflow(shift as nat);
            vstd::bits::lemma_usize_shl_is_mul(1, shift);
            assert(divisor == pow2(shift as nat));
            assert(sub_w == sub_side(block_w as int, num_levels as int, level as int));
            assert(sub_h == sub_side(block_h as int, num_levels as int, level as int));
        }
        let ghost mut ss: Seq<(Seq<u32>, Seq<u32>)> = seq![(labels@, h@)];
        let ghost base = budget;
        let ghost area = sub_w * sub_h;
        proof {
            assert(sub_blocks_x * sub_w <= 2 * sw && sub_blocks_y * sub_h <= 2 * sh) by (nonlinear_arith)
                requires
                    (sub_blocks_x - 1) * sub_w < sw,
                    (sub_blocks_y - 1) * sub_h < sh,
                    1 <= sub_w <= sw,
                    1 <= sub_h <= sh,
                    sub_blocks_x >= 1,
                    sub_blocks_y >= 1,
            ;
            assert(sub_blocks_x * sub_blocks_y * area <= 4 * n) by (nonlinear_arith)
                requires
                    sub_blocks_x * sub_w <= 2 * sw,
                    sub_blocks_y * sub_h <= 2 * sh,
                    area == sub_w * sub_h,
                    n == sw * sh,
                    sub_blocks_x >= 0,
                    sub_blocks_y >= 0,
            ;
        }
        let mut sby: usize = 0;
        proof {
            assert(sby * sub_blocks_x * area == 0) by (nonlinear_arith)
                requires
                    sby == 0,
            ;
        }
        while sby < sub_blocks_y
            invariant
                1 <= sw <= 512,
                1 <= sh <= 512,
                n == sw * sh,
                1 <= n <= 512 * 512,
                small_pixels@.len() == n,
                level < num_levels <= usize::BITS,
                bins_ok(bins as int),
                tb == bins * bins * bins,
                num_labels * tb <= usize::MAX,
                labels@.len() == n,
                forall|i: int| 0 <= i < n ==> #[trigger] labels@[i] < num_labels,
                h@.len() == num_labels * tb,
                sub_hist@.len() == tb,
                1 <= sub_w <= sw,
                1 <= sub_h <= sh,
                sub_blocks_x == ceil_div(sw as int, sub_w as int),
                (sub_blocks_x - 1) * sub_w < sw,
                (sub_blocks_y - 1) * sub_h < sh,
                sub_blocks_x >= 1,
                area == sub_w * sub_h,
                sub_blocks_x * sub_blocks_y * area <= 4 * n,
                0 <= base <= n + 4 * n * level,
                sby <= sub_blocks_y,
                budget == base + sby * sub_blocks_x * area,
                forall|lab: int| 0 <= lab < num_labels ==> #[trigger] hist_sum(h@, tb as int, lab, tb as int) <= budget,
                forall|c: (u128, u64, u64), o: (u128, u64, u64)| call_requires(prefer_neighbor, (c, o)),
                never_prefers(prefer_neighbor) ==> labels@ == grid,
                lv[0] == lv0,
                grid == lv0.0,
                hist_of(small_pixels@, grid, num_labels as int, bins as int, lv0.1),
                num_labels == crate::preprocessors::max_label(grid) + 1,
                block_w == ceil_div(sw as int, blocks_x as int),
                block_h == ceil_div(sh as int, blocks_y as int),
                forall|lvl: int|
                    0 <= lvl < level ==> level_ok(
                        small_pixels@,
                        sw as int,
                        sh as int,
                        bins as int,
                        num_labels as int,
                        prefer_neighbor,
                        block_w as int,
                        block_h as int,
                        num_levels as int,
                        lvl,
                        #[trigger] lv[lvl],
                        lv[lvl + 1],
                    ),
                lv.len() == level + 1,
                sub_w == sub_side(block_w as int, num_levels as int, level as int),
                sub_h == sub_side(block_h as int, num_levels as int, level as int),
                sub_blocks_y == ceil_div(sh as int, sub_h as int),
                ss[0] == lv.last(),
                ss.last() == (labels@, h@),
                blocks_done(small_pixels@, sw as int, sh as int, bins as int, num_labels as int, prefer_neighbor, sub_w as int, sub_h as int, ss),
                ss.len() == sby * sub_blocks_x + 1,
            decreases sub_blocks_y - sby,
        {
            let mut sbx: usize = 0;
            while sbx < sub_blocks_x
                invariant
                    1 <= sw <= 512,
                    1 <= sh <= 512,
                    n == sw * sh,
                    1 <= n <= 512 * 512,
                    small_pixels@.len() == n,
                    level < num_levels <= usize::BITS,
                    bins_ok(bins as int),
                    tb == bins * bins * bins,
                    num_labels * tb <= usize::MAX,
                    labels@.len() == n,
                    forall|i: int| 0 <= i < n ==> #[trigger] labels@[i] < num_labels,
                    h@.len() == num_labels * tb,
                    sub_hist@.len() == tb,
                    1 <= sub_w <= sw,
                    1 <= sub_h <= sh,
                    (sub_blocks_x - 1) * sub_w < sw,
                    (sub_blocks_y - 1) * sub_h < sh,
                    area == sub_w * sub_h,
                    sub_blocks_x * sub_blocks_y * area <= 4 * n,
                    0 <= base <= n + 4 * n * level,
                    sby < sub_blocks_y,
                    sbx <= sub_blocks_x,
                    budget == base + (sby * sub_blocks_x + sbx) * area,
                    forall|lab: int|
                        0 <= lab < num_labels ==> #[trigger] hist_sum(h@, tb as int, lab, tb as int) <= budget,
                    forall|c: (u128, u64, u64), o: (u128, u64, u64)| call_requires(prefer_neighbor, (c, o)),
                    never_prefers(prefer_neighbor) ==> labels@ == grid,
                    lv[0] == lv0,
                    grid == lv0.0,
                    hist_of(small_pixels@, grid, num_labels as int, bins as int, lv0.1),
                    num_labels == crate::preprocessors::max_label(grid) + 1,
                    block_w == ceil_div(sw as int, blocks_x as int),
                    block_h == ceil_div(sh as int, blocks_y as int),
                    forall|lvl: int|
                        0 <= lvl < level ==> level_ok(
                            small_pixels@,
                            sw as int,
                            sh as int,
                            bins as int,
                            num_labels as int,
                            prefer_neighbor,
                            block_w as int,
                            block_h as int,
                            num_levels as int,
                            lvl,
                            #[trigger] lv[lvl],
                            lv[lvl + 1],
                        ),
                    lv.len() == level + 1,
                    sub_w == sub_side(block_w as int, num_levels as int, level as int),
                    sub_h == sub_side(block_h as int, num_levels as int, level as int),
                    sub_blocks_y == ceil_div(sh as int, sub_h as int),
                    ss[0] == lv.last(),
                    ss.last() == (labels@, h@),
                    blocks_done(small_pixels@, sw as int, sh as int, bins as int, num_labels as int, prefer_neighbor, sub_w as int, sub_h as int, ss),
                    ss.len() == sby * sub_blocks_x + sbx + 1,
                    sub_blocks_x == ceil_div(sw as int, sub_w as int),
                decreases sub_blocks_x - sbx,
            {
                proof {
                    assert(sbx * sub_w < sw && sby * sub_h < sh) by (nonlinear_arith)
                        requires
                            sbx < sub_blocks_x,
                            sby < sub_blocks_y,
                            (sub_blocks_x - 1) * sub_w < sw,
                            (sub_blocks_y - 1) * sub_h < sh,
                            sub_w >= 1,
                            sub_h >= 1,
                    ;
                    assert(sby * sub_blocks_x + sbx + 1 <= sub_blocks_x * sub_blocks_y) by (nonlinear_arith)
                        requires
                            sbx < sub_blocks_x,
                            sby < sub_blocks_y,
                    ;
                    assert((sby * sub_blocks_x + sbx + 1) * area <= sub_blocks_x * sub_blocks_y * area) by (nonlinear_arith)
                        requires
                            sby * sub_blocks_x + sbx + 1 <= sub_blocks_x * sub_blocks_y,
                            area >= 0,
                    ;
                    assert((sby * sub_blocks_x + sbx) * area + area == (sby * sub_blocks_x + sbx + 1) * area)
                        by (nonlinear_arith);
                    assert(usize::BITS <= 64);
                    assert(budget + area <= 257 * n) by (nonlinear_arith)
                        requires
                            budget + area == base + (sby * sub_blocks_x + sbx + 1) * area,
                            (sby * sub_blocks_x + sbx + 1) * area <= sub_blocks_x * sub_blocks_y * area,
                            sub_blocks_x * sub_blocks_y * area <= 4 * n,
                            base <= n + 4 * n * level,
                            level < 64,
                            n >= 1,
                    ;
                }
                let x0 = sbx * sub_w;
                let y0 = sby * sub_h;
                let x1 = if x0 + sub_w < sw {
                    x0 + sub_w
                } else {
                    sw
                };
                let y1 = if y0 + sub_h < sh {
                    y0 + sub_h
                } else {
                    sh
                };
                proof {
                    assert((x1 - x0) * (y1 - y0) <= area && (x1 - x0) * (y1 - y0) <= n
                        && (x1 - x0) * (y1 - y0) >= 0) by (nonlinear_arith)
                        requires
                            0 <= x1 - x0 <= sub_w,
                            0 <= y1 - y0 <= sub_h,
                            x1 - x0 <= sw,
                            y1 - y0 <= sh,
                            area == sub_w * sub_h,
                            n == sw * sh,
                    ;
                }
                let ghost a = (labels@, h@);
                weigh_sub_block(small_pixels, sw, sh, x0, y0, x1, y1, bins, tb, num_labels, &mut labels, &mut h, &mut sub_hist, &prefer_neighbor, Ghost(budget));
                proof {
                    assert(block_step(
                        small_pixels@,
                        sw as int,
                        sh as int,
                        bins as int,
                        num_labels as int,
                        prefer_neighbor,
                        x0 as int,
                        y0 as int,
                        x1 as int,
                        y1 as int,
                        a,
                        (labels@, h@),
                    ));
                    let k = sby * sub_blocks_x + sbx;
                    vstd::arithmetic::div_mod::lemma_fundamental_div_mod_converse(k as int, sub_blocks_x as int, sby as int, sbx as int);
                    assert(sub_rect(sw as int, sh as int, sub_w as int, sub_h as int, k as int) == (x0 as int, y0 as int, x1 as int, y1 as int));
                    let ss0 = ss;
                    ss = ss.push((labels@, h@));
                    assert(blocks_done(small_pixels@, sw as int, sh as int, bins as int, num_labels as int, prefer_neighbor, sub_w as int, sub_h as int, ss)) by {
                        assert forall|j: int| 0 <= j < ss.len() - 1 implies {
                            let r = sub_rect(sw as int, sh as int, sub_w as int, sub_h as int, j);
                            block_step(small_pixels@, sw as int, sh as int, bins as int, num_labels as int, prefer_neighbor, r.0, r.1, r.2, r.3, #[trigger] ss[j], ss[j + 1])
                        } by {
                            if j < ss0.len() - 1 {
                                assert(ss[j] == ss0[j] && ss[j + 1] == ss0[j + 1]);
                            } else {
                                assert(j == k);
                                assert(ss[j] == a);
                            }
                        }
                    }
                    budget = budget + area;
                }
                sbx = sbx + 1;
            }
            proof {
                assert(sby * sub_blocks_x + sub_blocks_x == (sby + 1) * sub_blocks_x) by (nonlinear_arith);
                assert((sby * sub_blocks_x + sub_blocks_x) * area == (sby + 1) * sub_blocks_x * area) by (nonlinear_arith);
                assert(sby * sub_blocks_x * area == (sby * sub_blocks_x + 0) * area);
            }
            sby = sby + 1;
        }
        proof {
            assert(ss.len() == ceil_div(sw as int, sub_w as int) * ceil_div(sh as int, sub_h as int) + 1) by (nonlinear_arith)
                requires
                    ss.len() == sby * sub_blocks_x + 1,
                    sby == sub_blocks_y,
                    sub_blocks_x == ceil_div(sw as int, sub_w as int),
                    sub_blocks_y == ceil_div(sh as int, sub_h as int),
            ;
            let lv_old = lv;
            lv = lv.push((labels@, h@));
            assert(level_ok(
                small_pixels@,
                sw as int,
                sh as int,
                bins as int,
                num_labels as int,
                prefer_neighbor,
                block_w as int,
                block_h as int,
                num_levels as int,
                level as int,
                lv[level as int],
                lv[level + 1],
            ));
            assert forall|lvl: int|
                0 <= lvl < level + 1 implies level_ok(
                    small_pixels@,
                    sw as int,
                    sh as int,
                    bins as int,
                    num_labels as int,
                    prefer_neighbor,
                    block_w as int,
                    block_h as int,
                    num_levels as int,
                    lvl,
                    #[trigger] lv[lvl],
                    lv[lvl + 1],
                ) by {
                if lvl < level {
                    assert(lv[lvl] == lv_old[lvl] && lv[lvl + 1] == lv_old[lvl + 1]);
                }
            }
        }
        proof {
            assert(4 * n * level + 4 * n == 4 * n * (level + 1)) by (nonlinear_arith);
            assert(sub_blocks_y * sub_blocks_x * area <= 4 * n) by (nonlinear_arith)
                requires
                    sub_blocks_x * sub_blocks_y * area <= 4 * n,
            ;
        }
        level = level + 1;
    }
    proof {
        assert(n + 4 * n * level <= 257 * n) by (nonlinear_arith)
            requires
                level <= 64,
                n >= 1,
        ;
    }
    let ghost before_refine = (labels@, h@);
    pixel_level_refinement(&mut labels, small_pixels, &mut h, sw, sh, bins, num_labels, &better_share, Ghost(budget));
    proof {
        assert(block_run(
            small_pixels@,
            sw as int,
            sh as int,
            bins as int,
            num_labels as int,
            prefer_neighbor,
            block_w as int,
            block_h as int,
            num_levels as int,
            lv,
        ));
        let ps = choose|ps: Seq<RefineState>|
            #[trigger] refine_run(
                small_pixels@,
                sw as int,
                sh as int,
                bins as int,
                num_labels as int,
                better_share,
                before_refine.0,
                before_refine.1,
                ps,
            ) && ps.len() == sw * sh + 1 && ps.last().0 == labels@ && ps.last().1 == h@;
        assert(seeds_run(
            small_pixels@,
            sw as int,
            sh as int,
            blocks_x as int,
            blocks_y as int,
            num_levels as int,
            bins as int,
            prefer_neighbor,
            better_share,
            lv,
            ps,
            labels@,
        ));
    }
    labels
}

} // verus!
