//! Median-cut colour quantisation.
//!
//! The sampled pixels start in one box. While there are fewer boxes than
//! colours wanted, the box with the widest channel range (among boxes of more
//! than one pixel) is sorted along that channel and cut at its median. Each
//! box then yields its mean colour and its pixel count.

use vstd::multiset::Multiset;
use vstd::prelude::*;

use crate::color::{chan, channel_total, lemma_truncated_mean, Rgb};
use crate::palette::{pop_sum, pops_positive};
use crate::{sample_pixels, sampled, MAX_SAMPLE};

verus! {

/// The truncated mean colour of a non-empty run of pixels.
pub open spec fn mean_color(s: Seq<Rgb>) -> Rgb {
    Rgb {
        r: (channel_total(s, 0) / s.len() as int) as u8,
        g: (channel_total(s, 1) / s.len() as int) as u8,
        b: (channel_total(s, 2) / s.len() as int) as u8,
    }
}

/// Largest value of channel `ch` in a non-empty run of pixels.
pub open spec fn chan_max(s: Seq<Rgb>, ch: int) -> int
    decreases s.len(),
{
    if s.len() <= 1 {
        chan(s[0], ch)
    } else if chan(s.last(), ch) > chan_max(s.drop_last(), ch) {
        chan(s.last(), ch)
    } else {
        chan_max(s.drop_last(), ch)
    }
}

/// Smallest value of channel `ch` in a non-empty run of pixels.
pub open spec fn chan_min(s: Seq<Rgb>, ch: int) -> int
    decreases s.len(),
{
    if s.len() <= 1 {
        chan(s[0], ch)
    } else if chan(s.last(), ch) < chan_min(s.drop_last(), ch) {
        chan(s.last(), ch)
    } else {
        chan_min(s.drop_last(), ch)
    }
}

/// The spread of channel `ch` over a non-empty run of pixels.
pub open spec fn chan_range(s: Seq<Rgb>, ch: int) -> int {
    chan_max(s, ch) - chan_min(s, ch)
}

/// The widest channel of a box; ties go to red, then green.
pub open spec fn widest_channel(s: Seq<Rgb>) -> int {
    if chan_range(s, 0) >= chan_range(s, 1) && chan_range(s, 0) >= chan_range(s, 2) {
        0
    } else if chan_range(s, 1) >= chan_range(s, 2) {
        1
    } else {
        2
    }
}

proof fn lemma_chan_bounds(s: Seq<Rgb>, ch: int)
    requires
        s.len() >= 1,
    ensures
        forall|i: int| 0 <= i < s.len() ==> chan_min(s, ch) <= #[trigger] chan(s[i], ch) <= chan_max(s, ch),
        exists|i: int| 0 <= i < s.len() && #[trigger] chan(s[i], ch) == chan_max(s, ch),
        exists|i: int| 0 <= i < s.len() && #[trigger] chan(s[i], ch) == chan_min(s, ch),
    decreases s.len(),
{
    if s.len() > 1 {
        let t = s.drop_last();
        lemma_chan_bounds(t, ch);
        assert forall|i: int| 0 <= i < s.len() implies chan_min(s, ch) <= #[trigger] chan(s[i], ch)
            <= chan_max(s, ch) by {
            if i < t.len() {
                assert(s[i] == t[i]);
            }
        }
        let im = choose|i: int| 0 <= i < t.len() && #[trigger] chan(t[i], ch) == chan_max(t, ch);
        let jm = choose|i: int| 0 <= i < t.len() && #[trigger] chan(t[i], ch) == chan_min(t, ch);
        assert(s[im] == t[im] && s[jm] == t[jm]);
        if chan(s.last(), ch) > chan_max(t, ch) {
            assert(chan(s[s.len() - 1], ch) == chan_max(s, ch));
        } else {
            assert(chan(s[im], ch) == chan_max(s, ch));
        }
        if chan(s.last(), ch) < chan_min(t, ch) {
            assert(chan(s[s.len() - 1], ch) == chan_min(s, ch));
        } else {
            assert(chan(s[jm], ch) == chan_min(s, ch));
        }
    } else {
        assert(chan(s[0], ch) == chan_max(s, ch));
        assert(chan(s[0], ch) == chan_min(s, ch));
    }
}

/// A channel's range over a box is the largest difference of that channel
/// between two of its pixels, and a box is cut along a channel whose range is
/// the largest of the three: no two pixels of the box differ on any channel
/// by more than on the cut channel's extremes, which two of its pixels reach.
pub proof fn lemma_cut_channel_is_widest(s: Seq<Rgb>)
    requires
        s.len() >= 1,
    ensures
        0 <= widest_channel(s) < 3,
        forall|ch: int| 0 <= ch < 3 ==> chan_range(s, widest_channel(s)) >= #[trigger] chan_range(s, ch),
        forall|ch: int, i: int, j: int|
            0 <= ch < 3 && 0 <= i < s.len() && 0 <= j < s.len() ==> #[trigger] chan(s[i], ch) - #[trigger] chan(
                s[j],
                ch,
            ) <= chan_range(s, ch) <= box_spread(s),
        exists|i: int, j: int|
            0 <= i < s.len() && 0 <= j < s.len() && #[trigger] chan(s[i], widest_channel(s)) - #[trigger] chan(
                s[j],
                widest_channel(s),
            ) == box_spread(s),
{
    lemma_chan_bounds(s, 0);
    lemma_chan_bounds(s, 1);
    lemma_chan_bounds(s, 2);
    let w = widest_channel(s);
    lemma_chan_bounds(s, w);
    let i = choose|i: int| 0 <= i < s.len() && #[trigger] chan(s[i], w) == chan_max(s, w);
    let j = choose|i: int| 0 <= i < s.len() && #[trigger] chan(s[i], w) == chan_min(s, w);
    assert(chan(s[i], w) - chan(s[j], w) == box_spread(s));
}

proof fn lemma_total_bounds(s: Seq<Rgb>, ch: int)
    requires
        s.len() >= 1,
    ensures
        s.len() * chan_min(s, ch) <= channel_total(s, ch) <= s.len() * chan_max(s, ch),
    decreases s.len(),
{
    if s.len() == 1 {
        assert(channel_total(s.drop_last(), ch) == 0);
    } else {
        let t = s.drop_last();
        let n = t.len() as int;
        lemma_total_bounds(t, ch);
        let (lo, hi, lo2, hi2, tot) = (chan_min(s, ch), chan_max(s, ch), chan_min(t, ch), chan_max(t, ch), channel_total(t, ch));
        assert(lo <= lo2 && hi2 <= hi && lo <= chan(s.last(), ch) <= hi);
        assert((n + 1) * lo <= tot + chan(s.last(), ch) <= (n + 1) * hi) by (nonlinear_arith)
            requires
                n >= 1,
                lo <= lo2,
                hi2 <= hi,
                n * lo2 <= tot <= n * hi2,
                lo <= chan(s.last(), ch) <= hi,
        ;
    }
}

/// Each channel of a box's mean colour is the truncated mean of that channel
/// over the box's pixels: `n` times it is at most the channel's total, and
/// `n` times one more exceeds it; so it lies between the channel's smallest
/// and largest value in the box.
pub proof fn lemma_mean_color_truncates(s: Seq<Rgb>)
    requires
        s.len() >= 1,
    ensures
        forall|ch: int|
            0 <= ch < 3 ==> {
                &&& s.len() * chan(#[trigger] mean_color(s), ch) <= channel_total(s, ch)
                &&& channel_total(s, ch) < s.len() * (chan(mean_color(s), ch) + 1)
                &&& chan_min(s, ch) <= chan(mean_color(s), ch) <= chan_max(s, ch)
            },
{
    assert forall|ch: int| 0 <= ch < 3 implies {
        &&& s.len() * chan(#[trigger] mean_color(s), ch) <= channel_total(s, ch)
        &&& channel_total(s, ch) < s.len() * (chan(mean_color(s), ch) + 1)
        &&& chan_min(s, ch) <= chan(mean_color(s), ch) <= chan_max(s, ch)
    } by {
        lemma_total_bounds(s, ch);
        lemma_chan_bounds(s, ch);
        assert(0 <= chan(s[0], ch) <= 255);
        lemma_truncated_mean(channel_total(s, ch), s.len() as int, chan_min(s, ch), chan_max(s, ch));
    }
}

/// The multiset union of a sequence of boxes.
pub open spec fn bag(bs: Seq<Seq<Rgb>>) -> Multiset<Rgb>
    decreases bs.len(),
{
    if bs.len() == 0 {
        Multiset::empty()
    } else {
        bag(bs.drop_last()).add(bs.last().to_multiset())
    }
}

/// The sum of the sizes of a sequence of boxes.
pub open spec fn lens_sum(bs: Seq<Seq<Rgb>>) -> int
    decreases bs.len(),
{
    if bs.len() == 0 {
        0
    } else {
        lens_sum(bs.drop_last()) + bs.last().len()
    }
}

/// `result` lists, box by box, the mean colour and size of a partition of
/// `s` into non-empty boxes.
pub open spec fn is_box_palette(result: Seq<(Rgb, u32)>, bs: Seq<Seq<Rgb>>, s: Seq<Rgb>) -> bool {
    &&& result.len() == bs.len()
    &&& bag(bs) == s.to_multiset()
    &&& forall|i: int|
        0 <= i < bs.len() ==> (#[trigger] bs[i]).len() >= 1 && result[i] == (
            mean_color(bs[i]),
            bs[i].len() as u32,
        )
}

proof fn lemma_bag_update(bs: Seq<Seq<Rgb>>, i: int, x: Seq<Rgb>)
    requires
        0 <= i < bs.len(),
    ensures
        bag(bs.update(i, x)).add(bs[i].to_multiset()) =~= bag(bs).add(x.to_multiset()),
    decreases bs.len(),
{
    broadcast use vstd::multiset::group_multiset_axioms;

    let upd = bs.update(i, x);
    if i < bs.len() - 1 {
        lemma_bag_update(bs.drop_last(), i, x);
        assert(upd.drop_last() =~= bs.drop_last().update(i, x));
        assert(upd.last() == bs.last());
        assert(bag(upd) == bag(upd.drop_last()).add(upd.last().to_multiset()));
        assert(bag(bs) == bag(bs.drop_last()).add(bs.last().to_multiset()));
        assert(bs.drop_last()[i] == bs[i]);
        let lhs = bag(upd).add(bs[i].to_multiset());
        let rhs = bag(bs).add(x.to_multiset());
        let ih_l = bag(bs.drop_last().update(i, x)).add(bs[i].to_multiset());
        let ih_r = bag(bs.drop_last()).add(x.to_multiset());
        assert forall|v: Rgb| lhs.count(v) == rhs.count(v) by {
            assert(ih_l.count(v) == ih_r.count(v));
        }
    } else {
        assert(upd.drop_last() =~= bs.drop_last());
        assert(upd.last() == x);
        assert(bag(upd) == bag(upd.drop_last()).add(upd.last().to_multiset()));
        assert(bag(bs) == bag(bs.drop_last()).add(bs.last().to_multiset()));
        assert(bs[i] == bs.last());
        let lhs = bag(upd).add(bs[i].to_multiset());
        let rhs = bag(bs).add(x.to_multiset());
        assert forall|v: Rgb| lhs.count(v) == rhs.count(v) by {}
    }
}

proof fn lemma_bag_len(bs: Seq<Seq<Rgb>>)
    ensures
        bag(bs).len() == lens_sum(bs),
    decreases bs.len(),
{
    broadcast use vstd::multiset::group_multiset_axioms, vstd::seq_lib::group_to_multiset_ensures;

    if bs.len() > 0 {
        lemma_bag_len(bs.drop_last());
    }
}

proof fn lemma_lens_sum_ones(bs: Seq<Seq<Rgb>>)
    requires
        forall|i: int| 0 <= i < bs.len() ==> (#[trigger] bs[i]).len() <= 1,
    ensures
        lens_sum(bs) <= bs.len(),
    decreases bs.len(),
{
    if bs.len() > 0 {
        lemma_lens_sum_ones(bs.drop_last());
    }
}

proof fn lemma_lens_sum_ge(bs: Seq<Seq<Rgb>>, i: int)
    requires
        0 <= i < bs.len(),
    ensures
        lens_sum(bs) >= bs[i].len(),
    decreases bs.len(),
{
    if i < bs.len() - 1 {
        lemma_lens_sum_ge(bs.drop_last(), i);
    }
    lemma_lens_sum_nonneg(bs.drop_last());
}

proof fn lemma_lens_sum_nonneg(bs: Seq<Seq<Rgb>>)
    ensures
        lens_sum(bs) >= 0,
    decreases bs.len(),
{
    if bs.len() > 0 {
        lemma_lens_sum_nonneg(bs.drop_last());
    }
}

/// A box of pixels.
struct ColorBox {
    pixels: Vec<Rgb>,
    count: usize,
}

impl ColorBox {
    spec fn ok(&self) -> bool {
        &&& self.count == self.pixels@.len()
        &&& self.count <= 2 * MAX_SAMPLE
    }

    fn from_pixels(pixels: &[Rgb]) -> (b: Self)
        requires
            pixels@.len() <= 2 * MAX_SAMPLE,
        ensures
            b.ok(),
            b.pixels@ == pixels@,
    {
        ColorBox { pixels: vstd::slice::slice_to_vec(pixels), count: pixels.len() }
    }

    /// The spread of each channel over the box.
    fn ranges(&self) -> (r: (u8, u8, u8))
        requires
            self.ok(),
            self.count >= 1,
        ensures
            r.0 == chan_range(self.pixels@, 0),
            r.1 == chan_range(self.pixels@, 1),
            r.2 == chan_range(self.pixels@, 2),
    {
        let ghost s = self.pixels@;
        let (mut r_min, mut g_min, mut b_min) = (u8::MAX, u8::MAX, u8::MAX);
        let (mut r_max, mut g_max, mut b_max) = (0u8, 0u8, 0u8);
        let mut i: usize = 0;
        while i < self.pixels.len()
            invariant
                s == self.pixels@,
                s.len() >= 1,
                i <= s.len(),
                i == 0 ==> r_min == 255 && g_min == 255 && b_min == 255 && r_max == 0 && g_max == 0
                    && b_max == 0,
                i > 0 ==> r_min == chan_min(s.subrange(0, i as int), 0) && g_min == chan_min(
                    s.subrange(0, i as int),
                    1,
                ) && b_min == chan_min(s.subrange(0, i as int), 2),
                i > 0 ==> r_max == chan_max(s.subrange(0, i as int), 0) && g_max == chan_max(
                    s.subrange(0, i as int),
                    1,
                ) && b_max == chan_max(s.subrange(0, i as int), 2),
                i > 0 ==> r_min <= r_max && g_min <= g_max && b_min <= b_max,
            decreases s.len() - i,
        {
            let p = self.pixels[i];
            proof {
                let t = s.subrange(0, i + 1);
                assert(t.drop_last() =~= s.subrange(0, i as int));
                assert(t.last() == p);
                if i == 0 {
                    assert(t.len() == 1);
                    assert(t[0] == p);
                }
            }
            if p.r < r_min {
                r_min = p.r;
            }
            if p.r > r_max {
                r_max = p.r;
            }
            if p.g < g_min {
                g_min = p.g;
            }
            if p.g > g_max {
                g_max = p.g;
            }
            if p.b < b_min {
                b_min = p.b;
            }
            if p.b > b_max {
                b_max = p.b;
            }
            i = i + 1;
        }
        proof {
            assert(s.subrange(0, s.len() as int) =~= s);
        }
        (r_max - r_min, g_max - g_min, b_max - b_min)
    }

    /// The spread of the widest channel.
    fn range(&self) -> (r: u8)
        requires
            self.ok(),
            self.count >= 1,
        ensures
            r == chan_range(self.pixels@, widest_channel(self.pixels@)),
    {
        let (r, g, b) = self.ranges();
        let m = if r >= g {
            r
        } else {
            g
        };
        if m >= b {
            m
        } else {
            b
        }
    }

    /// Sorts the box along its widest channel and cuts it at the median.
    fn split(self) -> (halves: (ColorBox, ColorBox))
        requires
            self.ok(),
            self.count >= 2,
        ensures
            halves.0.ok(),
            halves.1.ok(),
            halves.0.pixels@.len() == self.pixels@.len() / 2,
            halves.1.pixels@.len() == self.pixels@.len() - self.pixels@.len() / 2,
            halves.0.pixels@.to_multiset().add(halves.1.pixels@.to_multiset()) == self.pixels@.to_multiset(),
            forall|i: int, j: int|
                0 <= i < halves.0.pixels@.len() && 0 <= j < halves.1.pixels@.len() ==> chan(
                    #[trigger] halves.0.pixels@[i],
                    widest_channel(self.pixels@),
                ) <= chan(#[trigger] halves.1.pixels@[j], widest_channel(self.pixels@)),
    {
        let ghost orig = self.pixels@;
        let (r_range, g_range, b_range) = self.ranges();
        let mut pixels = self.pixels;
        if r_range >= g_range && r_range >= b_range {
            sort_by_red(&mut pixels);
        } else if g_range >= b_range {
            sort_by_green(&mut pixels);
        } else {
            sort_by_blue(&mut pixels);
        }
        let ghost sorted = pixels@;
        let mid = pixels.len() / 2;
        let right = pixels.split_off(mid);
        let left = pixels;
        proof {
            assert(sorted =~= left@ + right@);
            vstd::seq_lib::lemma_multiset_commutative(left@, right@);
            let ch = widest_channel(orig);
            assert forall|i: int, j: int|
                0 <= i < left@.len() && 0 <= j < right@.len() implies chan(#[trigger] left@[i], ch) <= chan(
                #[trigger] right@[j],
                ch,
            ) by {
                assert(left@[i] == sorted[i]);
                assert(right@[j] == sorted[mid + j]);
            }
        }
        (ColorBox::from_pixels(left.as_slice()), ColorBox::from_pixels(right.as_slice()))
    }

    /// The truncated mean colour of the box.
    fn average(&self) -> (c: Rgb)
        requires
            self.ok(),
            self.count >= 1,
        ensures
            c == mean_color(self.pixels@),
    {
        let ghost s = self.pixels@;
        let (mut r, mut g, mut b) = (0u64, 0u64, 0u64);
        let mut i: usize = 0;
        while i < self.pixels.len()
            invariant
                s == self.pixels@,
                s.len() <= 2 * MAX_SAMPLE,
                i <= s.len(),
                r == channel_total(s.subrange(0, i as int), 0),
                g == channel_total(s.subrange(0, i as int), 1),
                b == channel_total(s.subrange(0, i as int), 2),
                r <= 255 * i && g <= 255 * i && b <= 255 * i,
            decreases s.len() - i,
        {
            let p = self.pixels[i];
            proof {
                let t = s.subrange(0, i + 1);
                assert(t.drop_last() =~= s.subrange(0, i as int));
                assert(t.last() == p);
            }
            r = r + p.r as u64;
            g = g + p.g as u64;
            b = b + p.b as u64;
            i = i + 1;
        }
        proof {
            assert(s.subrange(0, s.len() as int) =~= s);
        }
        let n = self.count as u64;
        proof {
            let nn = n as int;
            let (ri, gi, bi) = (r as int, g as int, b as int);
            assert(ri / nn <= 255 && gi / nn <= 255 && bi / nn <= 255) by (nonlinear_arith)
                requires
                    ri <= 255 * nn,
                    gi <= 255 * nn,
                    bi <= 255 * nn,
                    nn >= 1,
            ;
        }
        Rgb::new((r / n) as u8, (g / n) as u8, (b / n) as u8)
    }
}

/// The pixel runs of a sequence of boxes.
spec fn views(bs: Seq<ColorBox>) -> Seq<Seq<Rgb>> {
    bs.map_values(|b: ColorBox| b.pixels@)
}

proof fn lemma_pop_sum_boxes(result: Seq<(Rgb, u32)>, bs: Seq<Seq<Rgb>>)
    requires
        result.len() == bs.len(),
        forall|i: int| 0 <= i < bs.len() ==> #[trigger] result[i].1 == bs[i].len(),
    ensures
        pop_sum(result) == lens_sum(bs),
    decreases bs.len(),
{
    if bs.len() > 0 {
        lemma_pop_sum_boxes(result.drop_last(), bs.drop_last());
    }
}

/// The spread of a box along its widest channel.
pub open spec fn box_spread(b: Seq<Rgb>) -> int {
    chan_range(b, widest_channel(b))
}

/// `a` and `b` are the lower and upper halves of `bx` cut at its median
/// along its widest channel.
pub open spec fn median_halves(bx: Seq<Rgb>, a: Seq<Rgb>, b: Seq<Rgb>) -> bool {
    &&& a.len() == bx.len() / 2
    &&& b.len() == bx.len() - bx.len() / 2
    &&& a.to_multiset().add(b.to_multiset()) == bx.to_multiset()
    &&& forall|i: int, j: int|
        0 <= i < a.len() && 0 <= j < b.len() ==> chan(#[trigger] a[i], widest_channel(bx)) <= chan(
            #[trigger] b[j],
            widest_channel(bx),
        )
}

/// Cutting a box at its median gives two halves that hold its pixels between
/// them, differ in size by at most one (the upper one being the larger), are
/// both non-empty for a box of two pixels or more.
pub proof fn lemma_median_halves_balanced(bx: Seq<Rgb>, a: Seq<Rgb>, b: Seq<Rgb>)
    requires
        median_halves(bx, a, b),
    ensures
        a.len() + b.len() == bx.len(),
        a.len() <= b.len() <= a.len() + 1,
        bx.len() >= 2 ==> a.len() >= 1 && b.len() >= 1,
        forall|p: Rgb| #[trigger] bx.to_multiset().count(p) == a.to_multiset().count(p) + b.to_multiset().count(p),
{
    broadcast use vstd::multiset::group_multiset_axioms;
}

/// Box `i` is the one cut next: of the boxes of more than one pixel, one of
/// widest spread, and the last such.
pub open spec fn next_box(bs: Seq<Seq<Rgb>>, i: int) -> bool {
    &&& 0 <= i < bs.len()
    &&& bs[i].len() > 1
    &&& forall|j: int| 0 <= j < bs.len() && (#[trigger] bs[j]).len() > 1 ==> box_spread(bs[j]) <= box_spread(bs[i])
    &&& forall|j: int| i < j < bs.len() && (#[trigger] bs[j]).len() > 1 ==> box_spread(bs[j]) < box_spread(bs[i])
}

/// One step from the boxes `bs` to `next`: the next box is cut at its median,
/// the last box takes its place, and the two halves are appended.
pub open spec fn cut_step(bs: Seq<Seq<Rgb>>, next: Seq<Seq<Rgb>>) -> bool {
    exists|i: int, a: Seq<Rgb>, b: Seq<Rgb>|
        #![trigger median_halves(bs[i], a, b)]
        next_box(bs, i) && median_halves(bs[i], a, b) && next == bs.update(i, bs.last()).drop_last().push(
            a,
        ).push(b)
}

/// `states` is a run of median cut on the pixels `s`: it starts with one box
/// of all of them, and each state is one step from the one before.
pub open spec fn cut_run(states: Seq<Seq<Seq<Rgb>>>, s: Seq<Rgb>) -> bool {
    &&& states.len() >= 1
    &&& states[0] == seq![s]
    &&& forall|t: int| 0 <= t < states.len() - 1 ==> cut_step(#[trigger] states[t], states[t + 1])
}

/// What median cut gives for `pixels` and `k`: nothing when either is empty
/// or zero; otherwise one entry per box of a partition of the sampled pixels
/// into `min(k, sampled count)` non-empty boxes, each the box's truncated mean
/// colour and size, where the boxes are what a run of median cuts ends with.
pub open spec fn median_cut_result(pixels: Seq<Rgb>, k: int, result: Seq<(Rgb, u32)>) -> bool {
    &&& (pixels.len() == 0 || k == 0) ==> result.len() == 0
    &&& (pixels.len() > 0 && k > 0) ==> {
        let s = sampled(pixels);
        &&& result.len() == if k < s.len() {
            k
        } else {
            s.len() as int
        }
        &&& pop_sum(result) == s.len()
        &&& pops_positive(result)
        &&& exists|states: Seq<Seq<Seq<Rgb>>>|
            cut_run(states, s) && #[trigger] is_box_palette(result, states.last(), s)
    }
}

/// Extracts up to `k` colours with median cut.
///
/// The pixels are first thinned as [`sample_pixels`] does. The result has one
/// entry per box, in box order: the truncated mean colour of the box and the
/// number of its pixels.
pub fn extract_colors_median_cut(pixels: &[Rgb], k: usize) -> (result: Vec<(Rgb, u32)>)
    ensures
        median_cut_result(pixels@, k as int, result@),
{
    broadcast use vstd::multiset::group_multiset_axioms;

    if pixels.len() == 0 || k == 0 {
        return Vec::new();
    }
    let sample = sample_pixels(pixels);
    let k = if k < sample.len() {
        k
    } else {
        sample.len()
    };
    let mut boxes: Vec<ColorBox> = Vec::new();
    boxes.push(ColorBox::from_pixels(sample.as_slice()));
    proof {
        let v = views(boxes@);
        assert(v.len() == 1);
        assert(v[0] == boxes@[0].pixels@);
        assert(v.drop_last() =~= Seq::<Seq<Rgb>>::empty());
        assert(bag(v.drop_last()) == Multiset::<Rgb>::empty());
        assert(bag(v) == bag(v.drop_last()).add(v.last().to_multiset()));
        assert(bag(v) =~= sample@.to_multiset());
        assert(v =~= seq![sample@]);
    }
    let ghost mut states: Seq<Seq<Seq<Rgb>>> = seq![views(boxes@)];
    let mut splitting = true;
    while splitting && boxes.len() < k
        invariant
            1 <= k <= sample@.len(),
            sample@.len() <= 2 * MAX_SAMPLE,
            1 <= boxes@.len() <= k,
            forall|i: int| 0 <= i < boxes@.len() ==> (#[trigger] boxes@[i]).ok() && boxes@[i].count >= 1,
            bag(views(boxes@)) == sample@.to_multiset(),
            !splitting ==> forall|i: int| 0 <= i < boxes@.len() ==> (#[trigger] boxes@[i]).count <= 1,
            cut_run(states, sample@),
            states.last() == views(boxes@),
        decreases k - boxes@.len(), if splitting {
            1int
        } else {
            0
        },
    {
        let mut found = false;
        let mut best_idx: usize = 0;
        let mut best_range: u8 = 0;
        let mut i: usize = 0;
        while i < boxes.len()
            invariant
                i <= boxes@.len(),
                best_idx < boxes@.len(),
                forall|j: int| 0 <= j < boxes@.len() ==> (#[trigger] boxes@[j]).ok() && boxes@[j].count >= 1,
                found ==> boxes@[best_idx as int].count > 1,
                !found ==> forall|j: int| 0 <= j < i ==> (#[trigger] boxes@[j]).count <= 1,
                found ==> best_idx < i && best_range == box_spread(boxes@[best_idx as int].pixels@),
                found ==> forall|j: int|
                    0 <= j < i && (#[trigger] boxes@[j]).count > 1 ==> box_spread(boxes@[j].pixels@) <= best_range,
                found ==> forall|j: int|
                    best_idx < j < i && (#[trigger] boxes@[j]).count > 1 ==> box_spread(boxes@[j].pixels@) < best_range,
            decreases boxes@.len() - i,
        {
            if boxes[i].count > 1 {
                let r = boxes[i].range();
                if !found || r >= best_range {
                    found = true;
                    best_idx = i;
                    best_range = r;
                }
            }
            i = i + 1;
        }
        let split_idx = if found {
            best_idx
        } else {
            0
        };
        if boxes[split_idx].count <= 1 {
            splitting = false;
        } else {
            let ghost v0 = views(boxes@);
            proof {
                assert forall|j: int| 0 <= j < v0.len() && (#[trigger] v0[j]).len() > 1 implies box_spread(v0[j])
                    <= box_spread(v0[split_idx as int]) by {
                    assert(v0[j] == boxes@[j].pixels@);
                }
                assert forall|j: int| split_idx < j < v0.len() && (#[trigger] v0[j]).len() > 1 implies box_spread(
                    v0[j],
                ) < box_spread(v0[split_idx as int]) by {
                    assert(v0[j] == boxes@[j].pixels@);
                }
                assert(next_box(v0, split_idx as int));
            }
            let to_split = boxes.swap_remove(split_idx);
            let ghost v1 = views(boxes@);
            let (a, b) = to_split.split();
            boxes.push(a);
            boxes.push(b);
            proof {
                let last = v0.last();
                let upd = v0.update(split_idx as int, last);
                assert(v1 =~= upd.drop_last());
                lemma_bag_update(v0, split_idx as int, last);
                assert(upd.last() == last);
                assert(bag(upd) == bag(upd.drop_last()).add(last.to_multiset()));
                let v2 = views(boxes@);
                assert(v2.drop_last().drop_last() =~= v1);
                assert(v2.last() == b.pixels@);
                assert(v2.drop_last().last() == a.pixels@);
                assert(v0[split_idx as int] == to_split.pixels@);
                let w = v2.drop_last();
                assert(bag(v2) == bag(w).add(b.pixels@.to_multiset()));
                assert(bag(w) == bag(w.drop_last()).add(w.last().to_multiset()));
                let lhs = bag(upd).add(to_split.pixels@.to_multiset());
                let rhs = bag(v0).add(last.to_multiset());
                assert(lhs == rhs);
                assert forall|c: Rgb| bag(v2).count(c) == sample@.to_multiset().count(c) by {
                    assert(lhs.count(c) == rhs.count(c));
                    assert(a.pixels@.to_multiset().add(b.pixels@.to_multiset()).count(c)
                        == to_split.pixels@.to_multiset().count(c));
                }
                assert(bag(v2) =~= sample@.to_multiset());
                assert(median_halves(v0[split_idx as int], a.pixels@, b.pixels@));
                assert(v2 =~= v0.update(split_idx as int, v0.last()).drop_last().push(a.pixels@).push(b.pixels@));
                assert(cut_step(v0, v2));
                let old_states = states;
                states = states.push(v2);
                assert forall|t: int| 0 <= t < states.len() - 1 implies cut_step(#[trigger] states[t], states[t + 1]) by {
                    if t < old_states.len() - 1 {
                        assert(states[t] == old_states[t] && states[t + 1] == old_states[t + 1]);
                    }
                }
            }
        }
    }
    proof {
        let v = views(boxes@);
        lemma_bag_len(v);
        assert(sample@.to_multiset().len() == sample@.len()) by {
            broadcast use vstd::seq_lib::group_to_multiset_ensures;
        }
        if !splitting {
            assert forall|i: int| 0 <= i < v.len() implies (#[trigger] v[i]).len() <= 1 by {
                assert(boxes@[i].count <= 1);
            }
            lemma_lens_sum_ones(v);
        }
        assert(boxes@.len() == k);
    }
    let mut result: Vec<(Rgb, u32)> = Vec::with_capacity(boxes.len());
    let mut i: usize = 0;
    while i < boxes.len()
        invariant
            i <= boxes@.len(),
            result@.len() == i,
            forall|j: int| 0 <= j < boxes@.len() ==> (#[trigger] boxes@[j]).ok() && boxes@[j].count >= 1,
            forall|j: int|
                0 <= j < i ==> #[trigger] result@[j] == (
                    mean_color(boxes@[j].pixels@),
                    boxes@[j].pixels@.len() as u32,
                ),
        decreases boxes@.len() - i,
    {
        if boxes[i].count > 0 {
            result.push((boxes[i].average(), boxes[i].count as u32));
        }
        i = i + 1;
    }
    proof {
        let v = views(boxes@);
        assert forall|j: int| 0 <= j < v.len() implies (#[trigger] v[j]).len() >= 1 && result@[j] == (
            mean_color(v[j]),
            v[j].len() as u32,
        ) by {}
        assert(is_box_palette(result@, v, sampled(pixels@)));
        assert(cut_run(states, sampled(pixels@)) && is_box_palette(result@, states.last(), sampled(pixels@)));
        lemma_pop_sum_boxes(result@, v);
        lemma_bag_len(v);
        assert(sample@.to_multiset().len() == sample@.len()) by {
            broadcast use vstd::seq_lib::group_to_multiset_ensures;
        }
        assert forall|j: int| 0 <= j < result@.len() implies result@[j].1 >= 1 by {
            assert(v[j].len() >= 1);
        }
    }
    result
}

/// Sorts pixels by their red channel with `slice::sort_unstable_by_key`.
/// Claims what the standard library documents: the pixels are permuted
/// (same length, same multiset) into non-decreasing order of red; the
/// order among pixels of equal red is left open, as the sort is unstable.
#[verifier::external_body]
fn sort_by_red(v: &mut Vec<Rgb>)
    ensures
        final(v)@.len() == old(v)@.len(),
        final(v)@.to_multiset() == old(v)@.to_multiset(),
        forall|i: int, j: int| 0 <= i <= j < final(v)@.len() ==> final(v)@[i].r <= final(v)@[j].r,
{
    v.sort_unstable_by_key(|p| p.r)
}

/// Sorts pixels by their green channel with `slice::sort_unstable_by_key`.
/// Claims what the standard library documents: the pixels are permuted
/// (same length, same multiset) into non-decreasing order of green; the
/// order among pixels of equal green is left open, as the sort is unstable.
#[verifier::external_body]
fn sort_by_green(v: &mut Vec<Rgb>)
    ensures
        final(v)@.len() == old(v)@.len(),
        final(v)@.to_multiset() == old(v)@.to_multiset(),
        forall|i: int, j: int| 0 <= i <= j < final(v)@.len() ==> final(v)@[i].g <= final(v)@[j].g,
{
    v.sort_unstable_by_key(|p| p.g)
}

/// Sorts pixels by their blue channel with `slice::sort_unstable_by_key`.
/// Claims what the standard library documents: the pixels are permuted
/// (same length, same multiset) into non-decreasing order of blue; the
/// order among pixels of equal blue is left open, as the sort is unstable.
#[verifier::external_body]
fn sort_by_blue(v: &mut Vec<Rgb>)
    ensures
        final(v)@.len() == old(v)@.len(),
        final(v)@.to_multiset() == old(v)@.to_multiset(),
        forall|i: int, j: int| 0 <= i <= j < final(v)@.len() ==> final(v)@[i].b <= final(v)@[j].b,
{
    v.sort_unstable_by_key(|p| p.b)
}

} // verus!
