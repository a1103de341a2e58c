//! K-means colour clustering.
//!
//! Centroids start either as distinct pixels drawn at random or by k-means++
//! seeding; then Lloyd iterations assign every pixel to its nearest centroid
//! and move each centroid to the truncated mean of its pixels, until nothing
//! moves or the iteration budget is spent. The generator is a seeded xorshift,
//! so a seed always gives the same palette.

use vstd::prelude::*;

use crate::color::{chan, lemma_truncated_mean, rgb_dist_sq, Rgb};
use crate::palette::pop_sum;
use crate::{sample_pixels, sampled};

verus! {

/// Lloyd iterations are capped at this many rounds.
pub const MAX_ITERATIONS: u32 = 50;

/// The colour space used for clustering.
#[derive(Debug, Clone, Copy, PartialEq, Eq, Structural)]
pub enum KmeansColorSpace {
    /// Cluster using Euclidean distance in RGB space.
    Rgb,
    /// Cluster using Euclidean distance in CIELAB space.
    Lab,
    /// Cluster using CIEDE2000 distance in CIELAB space.
    LabCIEDE2000,
}

/// The centroid initialisation method.
#[derive(Debug, Clone, Copy, PartialEq, Eq, Structural)]
pub enum InitMethod {
    /// Select initial centroids uniformly at random.
    Random,
    /// Use the k-means++ algorithm for smarter initial centroid placement.
    KMeansPlusPlus,
}

/// One xorshift step (shifts 13, 7, 17).
pub open spec fn xorshift(x: u64) -> u64 {
    let a = x ^ (x << 13u64);
    let b = a ^ (a >> 7u64);
    b ^ (b << 17u64)
}

/// The state a generator starts from for a seed (zero would stay zero).
pub open spec fn seed_state(seed: u64) -> u64 {
    if seed == 0 {
        1
    } else {
        seed
    }
}

/// A small deterministic xorshift generator.
pub struct SimpleRng {
    pub state: u64,
}

impl SimpleRng {
    /// A generator seeded with `seed`.
    pub fn new(seed: u64) -> (rng: Self)
        ensures
            rng.state == seed_state(seed),
    {
        SimpleRng {
            state: if seed == 0 {
                1
            } else {
                seed
            },
        }
    }

    /// Advances the state by one xorshift step and returns the new state.
    pub fn next_u64(&mut self) -> (x: u64)
        ensures
            x == xorshift(old(self).state),
            final(self).state == x,
    {
        self.state = self.state ^ (self.state << 13u64);
        self.state = self.state ^ (self.state >> 7u64);
        self.state = self.state ^ (self.state << 17u64);
        self.state
    }

    /// [`SimpleRng::next_u64`], truncated to a `usize`.
    pub fn next_usize(&mut self) -> (x: usize)
        ensures
            x == xorshift(old(self).state) as usize,
            final(self).state == xorshift(old(self).state),
    {
        self.next_u64() as usize
    }
}

/// Swaps positions `i` and `j` of a sequence.
pub open spec fn swap_at(p: Seq<usize>, i: int, j: int) -> Seq<usize> {
    p.update(i, p[j]).update(j, p[i])
}

/// The partial Fisher-Yates shuffle that random initialisation performs: for
/// each position `i` below `k`, the generator advances and position `i` is
/// swapped with `i + r % (len - i)`, `r` being the new state as a `usize`.
pub open spec fn shuffled(p: Seq<usize>, i: int, k: int, st: u64) -> Seq<usize>
    decreases k - i,
{
    if i >= k || i < 0 || i >= p.len() {
        p
    } else {
        let st2 = xorshift(st);
        let j = i + (st2 as usize) as int % (p.len() - i);
        shuffled(swap_at(p, i, j), i + 1, k, st2)
    }
}

/// The generator state after `n` steps from `st`.
pub open spec fn xorshift_n(st: u64, n: nat) -> u64
    decreases n,
{
    if n == 0 {
        st
    } else {
        xorshift(xorshift_n(st, (n - 1) as nat))
    }
}

/// The positions `0, 1, ..., n - 1`.
pub open spec fn positions(n: int) -> Seq<usize> {
    Seq::new(n as nat, |i: int| i as usize)
}

/// The centroids that random initialisation draws from `s` with a generator
/// in state `st`: the items at the first `k` shuffled positions.
pub open spec fn random_picks<T>(s: Seq<T>, k: int, st: u64) -> Seq<T> {
    Seq::new(k as nat, |i: int| s[shuffled(positions(s.len() as int), 0, k, st)[i] as int])
}

/// Draws `k` items of `pixels` at distinct positions, as a partial
/// Fisher-Yates shuffle driven by `rng`.
pub fn init_random<T: Copy>(pixels: &[T], k: usize, rng: &mut SimpleRng) -> (centroids: Vec<T>)
    requires
        k <= pixels@.len(),
    ensures
        centroids@ == random_picks(pixels@, k as int, old(rng).state),
        final(rng).state == xorshift_n(old(rng).state, k as nat),
{
    let n = pixels.len();
    let ghost st0 = rng.state;
    let mut indices: Vec<usize> = Vec::with_capacity(n);
    let mut t: usize = 0;
    while t < n
        invariant
            t <= n,
            n == pixels@.len(),
            indices@ =~= positions(t as int),
        decreases n - t,
    {
        indices.push(t);
        t = t + 1;
    }
    let mut centroids: Vec<T> = Vec::with_capacity(k);
    let mut i: usize = 0;
    while i < k
        invariant
            k <= n,
            n == pixels@.len(),
            i <= k,
            indices@.len() == n,
            forall|m: int| 0 <= m < n ==> #[trigger] indices@[m] < n,
            shuffled(indices@, i as int, k as int, rng.state) == shuffled(
                positions(n as int),
                0,
                k as int,
                st0,
            ),
            centroids@.len() == i,
            forall|m: int| 0 <= m < i ==> #[trigger] centroids@[m] == pixels@[indices@[m] as int],
            rng.state == xorshift_n(st0, i as nat),
        decreases k - i,
    {
        let r = rng.next_usize();
        let j = i + r % (n - i);
        let a = indices[i];
        let b = indices[j];
        indices.set(i, b);
        indices.set(j, a);
        centroids.push(pixels[indices[i]]);
        i = i + 1;
    }
    proof {
        let fin = shuffled(positions(n as int), 0, k as int, st0);
        assert(fin == indices@);
        assert(centroids@ =~= random_picks(pixels@, k as int, st0));
    }
    centroids
}


/// The smallest squared distance from `p` to a centroid of `cs`
/// (`u32::MAX` when there is none).
pub open spec fn min_dist(p: Rgb, cs: Seq<Rgb>) -> int
    decreases cs.len(),
{
    if cs.len() == 0 {
        u32::MAX as int
    } else {
        let m = min_dist(p, cs.drop_last());
        let d = rgb_dist_sq(p, cs.last());
        if d < m {
            d
        } else {
            m
        }
    }
}

/// What k-means++ seeding guarantees of the centroids `c` that it draws from
/// `s` with a generator in state `st`: the first is the pixel at the position
/// the generator's next `usize` gives modulo the pixel count; all are pixels of
/// `s` and pairwise different; and it stops short of `k` only once every pixel
/// of `s` is a centroid.
pub open spec fn plusplus_ok(s: Seq<Rgb>, k: int, st: u64, c: Seq<Rgb>) -> bool {
    &&& 1 <= c.len() <= k
    &&& c[0] == s[(xorshift(st) as usize) as int % (s.len() as int)]
    &&& forall|i: int| 0 <= i < c.len() ==> s.contains(#[trigger] c[i])
    &&& forall|i: int, j: int| 0 <= i < j < c.len() ==> c[i] != c[j]
    &&& c.len() < k ==> forall|p: Rgb| s.contains(p) ==> c.contains(p)
}

/// Two colours are at squared distance zero exactly when they are equal.
pub proof fn lemma_dist_zero(a: Rgb, b: Rgb)
    ensures
        rgb_dist_sq(a, b) >= 0,
        rgb_dist_sq(a, b) <= 195075,
        rgb_dist_sq(a, b) == 0 <==> a == b,
{
    let (x, y, z) = (a.r - b.r, a.g - b.g, a.b - b.b);
    assert(x * x >= 0 && y * y >= 0 && z * z >= 0) by (nonlinear_arith);
    assert(x * x <= 65025 && y * y <= 65025 && z * z <= 65025) by (nonlinear_arith)
        requires
            -255 <= x <= 255,
            -255 <= y <= 255,
            -255 <= z <= 255,
    ;
    if x * x + y * y + z * z == 0 {
        assert(x == 0) by (nonlinear_arith)
            requires
                x * x == 0,
        ;
        assert(y == 0) by (nonlinear_arith)
            requires
                y * y == 0,
        ;
        assert(z == 0) by (nonlinear_arith)
            requires
                z * z == 0,
        ;
        assert(a.r == b.r && a.g == b.g && a.b == b.b);
        assert(a == b);
    }
    if a == b {
        assert(x * x + y * y + z * z == 0) by (nonlinear_arith)
            requires
                x == 0,
                y == 0,
                z == 0,
        ;
    }
}

proof fn lemma_min_dist(p: Rgb, cs: Seq<Rgb>)
    ensures
        0 <= min_dist(p, cs) <= u32::MAX,
        cs.len() > 0 ==> min_dist(p, cs) <= 195075,
        min_dist(p, cs) == 0 <==> cs.contains(p),
    decreases cs.len(),
{
    if cs.len() > 0 {
        lemma_min_dist(p, cs.drop_last());
        lemma_dist_zero(p, cs.last());
        if cs.contains(p) {
            let i = choose|i: int| 0 <= i < cs.len() && cs[i] == p;
            if i < cs.len() - 1 {
                assert(cs.drop_last()[i] == p);
            }
        }
        if cs.drop_last().contains(p) {
            let i = choose|i: int| 0 <= i < cs.drop_last().len() && cs.drop_last()[i] == p;
            assert(cs[i] == p);
        }
        if p == cs.last() {
            assert(cs[cs.len() - 1] == p);
        }
    }
}

/// The sum of a run of distances.
pub open spec fn dist_total(d: Seq<u32>) -> int
    decreases d.len(),
{
    if d.len() == 0 {
        0
    } else {
        dist_total(d.drop_last()) + d.last()
    }
}

proof fn lemma_dist_total_zero(d: Seq<u32>, i: int)
    requires
        dist_total(d) == 0,
        0 <= i < d.len(),
    ensures
        d[i] == 0,
    decreases d.len(),
{
    lemma_dist_total_nonneg(d.drop_last());
    if i < d.len() - 1 {
        lemma_dist_total_zero(d.drop_last(), i);
    }
}

proof fn lemma_dist_total_nonneg(d: Seq<u32>)
    ensures
        dist_total(d) >= 0,
    decreases d.len(),
{
    if d.len() > 0 {
        lemma_dist_total_nonneg(d.drop_last());
    }
}

/// The distance of each pixel of `s` to its nearest centroid of `c`.
pub open spec fn seed_dists(s: Seq<Rgb>, c: Seq<Rgb>) -> Seq<u32> {
    Seq::new(s.len(), |i: int| min_dist(s[i], c) as u32)
}

/// The position that the weighted draw lands on: the first `i` from which
/// the running total of `d`, started at `cum`, exceeds `threshold`.
pub open spec fn weighted_pick(d: Seq<u32>, threshold: int, i: int, cum: int) -> int
    decreases d.len() - i,
{
    if i >= d.len() || i < 0 {
        0
    } else if cum + d[i] > threshold {
        i
    } else {
        weighted_pick(d, threshold, i + 1, cum + d[i])
    }
}

proof fn lemma_weighted_pick_from(d: Seq<u32>, threshold: int, i: int)
    requires
        0 <= i <= d.len(),
        dist_total(d.take(i)) <= threshold < dist_total(d),
    ensures
        ({
            let k = weighted_pick(d, threshold, i, dist_total(d.take(i)));
            &&& i <= k < d.len()
            &&& dist_total(d.take(k)) <= threshold < dist_total(d.take(k + 1))
        }),
    decreases d.len() - i,
{
    assert(d.take(d.len() as int) =~= d);
    if i < d.len() {
        assert(d.take(i + 1).drop_last() =~= d.take(i));
        if dist_total(d.take(i)) + d[i] <= threshold {
            lemma_weighted_pick_from(d, threshold, i + 1);
        }
    }
}

/// The weighted draw lands on the position whose slice of the running total
/// holds the threshold: for a threshold in `[0, total)`, the pick `i` has the
/// total of the entries before it at most the threshold and that of the
/// entries up to and including it above it; so it never lands on a zero
/// entry.
pub proof fn lemma_weighted_pick_slice(d: Seq<u32>, threshold: int)
    requires
        0 <= threshold < dist_total(d),
    ensures
        0 <= weighted_pick(d, threshold, 0, 0) < d.len(),
        dist_total(d.take(weighted_pick(d, threshold, 0, 0))) <= threshold,
        threshold < dist_total(d.take(weighted_pick(d, threshold, 0, 0) + 1)),
        d[weighted_pick(d, threshold, 0, 0)] > 0,
{
    assert(d.take(0).len() == 0);
    lemma_weighted_pick_from(d, threshold, 0);
    let k = weighted_pick(d, threshold, 0, 0);
    assert(d.take(k + 1).drop_last() =~= d.take(k));
}

/// The distance that k-means++ weighs a pixel by is its squared distance to
/// the nearest centroid so far: at most that to each, and equal to that to
/// one of them.
pub proof fn lemma_min_dist_is_nearest(p: Rgb, cs: Seq<Rgb>)
    requires
        cs.len() >= 1,
    ensures
        forall|i: int| 0 <= i < cs.len() ==> min_dist(p, cs) <= rgb_dist_sq(p, #[trigger] cs[i]),
        exists|i: int| 0 <= i < cs.len() && min_dist(p, cs) == rgb_dist_sq(p, #[trigger] cs[i]),
    decreases cs.len(),
{
    let t = cs.drop_last();
    lemma_dist_zero(p, cs.last());
    if cs.len() == 1 {
        assert(cs[0] == cs.last());
    } else {
        lemma_min_dist_is_nearest(p, t);
        assert forall|i: int| 0 <= i < cs.len() implies min_dist(p, cs) <= rgb_dist_sq(p, #[trigger] cs[i]) by {
            if i < t.len() {
                assert(cs[i] == t[i]);
            }
        }
        let j = choose|i: int| 0 <= i < t.len() && min_dist(p, t) == rgb_dist_sq(p, #[trigger] t[i]);
        assert(cs[j] == t[j]);
        if rgb_dist_sq(p, cs.last()) < min_dist(p, t) {
            assert(min_dist(p, cs) == rgb_dist_sq(p, cs[cs.len() - 1]));
        } else {
            assert(min_dist(p, cs) == rgb_dist_sq(p, cs[j]));
        }
    }
}

/// The centroids that k-means++ seeding ends with, from centroids `c` and a
/// generator in state `st`: while there are fewer than `k` and some pixel is
/// away from all of them, the generator advances, its state modulo the total
/// distance is the threshold, and the pixel the weighted draw lands on joins.
pub open spec fn seeding(s: Seq<Rgb>, k: int, c: Seq<Rgb>, st: u64) -> Seq<Rgb>
    decreases k - c.len(),
{
    if c.len() >= k || c.len() == 0 {
        c
    } else {
        let d = seed_dists(s, c);
        let total = dist_total(d);
        if total == 0 {
            c
        } else {
            let st2 = xorshift(st);
            let pick = weighted_pick(d, st2 as int % total, 0, 0);
            seeding(s, k, c.push(s[pick]), st2)
        }
    }
}

/// The centroids that k-means++ seeding draws from `s` with a generator in
/// state `st`: the first at the position the generator's next `usize` gives
/// modulo the pixel count, the rest as [`seeding`] adds them.
pub open spec fn plusplus_picks(s: Seq<Rgb>, k: int, st: u64) -> Seq<Rgb> {
    let st1 = xorshift(st);
    seeding(s, k, seq![s[(st1 as usize) as int % (s.len() as int)]], st1)
}

/// K-means++ seeding over RGB: the first centroid is a pixel drawn at random;
/// each further one is drawn with probability proportional to its squared
/// distance from the nearest centroid so far. Seeding stops early once every
/// pixel coincides with a centroid.
fn init_plusplus_rgb(pixels: &[Rgb], k: usize, rng: &mut SimpleRng) -> (centroids: Vec<Rgb>)
    requires
        1 <= k <= pixels@.len(),
        pixels@.len() <= u32::MAX,
    ensures
        plusplus_ok(pixels@, k as int, old(rng).state, centroids@),
        centroids@ == plusplus_picks(pixels@, k as int, old(rng).state),
{
    let n = pixels.len();
    let ghost s = pixels@;
    let ghost target = plusplus_picks(pixels@, k as int, rng.state);
    let mut centroids: Vec<Rgb> = Vec::with_capacity(k);
    let first = rng.next_usize() % n;
    centroids.push(pixels[first]);
    proof {
        assert(centroids@ =~= seq![s[(rng.state as usize) as int % (s.len() as int)]]);
    }
    proof {
        assert(s.contains(centroids@[0]));
    }
    let mut dists: Vec<u32> = Vec::with_capacity(n);
    let mut t: usize = 0;
    while t < n
        invariant
            t <= n,
            dists@.len() == t,
            forall|i: int| 0 <= i < t ==> #[trigger] dists@[i] == u32::MAX,
        decreases n - t,
    {
        dists.push(u32::MAX);
        t = t + 1;
    }
    let mut done = false;
    while !done && centroids.len() < k
        invariant
            s == pixels@,
            n == s.len(),
            1 <= k <= n,
            n <= u32::MAX,
            1 <= centroids@.len() <= k,
            centroids@[0] == s[(xorshift(old(rng).state) as usize) as int % (s.len() as int)],
            forall|i: int| 0 <= i < centroids@.len() ==> s.contains(#[trigger] centroids@[i]),
            forall|i: int, j: int| 0 <= i < j < centroids@.len() ==> centroids@[i] != centroids@[j],
            done ==> forall|p: Rgb| s.contains(p) ==> centroids@.contains(p),
            dists@.len() == n,
            !done ==> forall|i: int|
                0 <= i < n ==> #[trigger] dists@[i] == min_dist(s[i], centroids@.drop_last()),
            !done ==> seeding(s, k as int, centroids@, rng.state) == target,
            done ==> centroids@ == target,
        decreases k - centroids@.len(), if done {
            0int
        } else {
            1int
        },
    {
        let last = centroids[centroids.len() - 1];
        let ghost prev = centroids@;
        let ghost st = rng.state;
        let mut i: usize = 0;
        while i < n
            invariant
                s == pixels@,
                n == s.len(),
                prev == centroids@,
                prev.len() >= 1,
                last == prev.last(),
                i <= n,
                dists@.len() == n,
                forall|m: int| 0 <= m < i ==> #[trigger] dists@[m] == min_dist(s[m], prev),
                forall|m: int|
                    i <= m < n ==> #[trigger] dists@[m] == min_dist(s[m], prev.drop_last()),
            decreases n - i,
        {
            let d = pixels[i].distance_squared(last);
            if d < dists[i] {
                dists.set(i, d);
            }
            i = i + 1;
        }
        let mut total: u64 = 0;
        let mut i: usize = 0;
        while i < n
            invariant
                s == pixels@,
                n == s.len(),
                n <= u32::MAX,
                prev == centroids@,
                prev.len() >= 1,
                i <= n,
                dists@.len() == n,
                forall|m: int| 0 <= m < n ==> #[trigger] dists@[m] == min_dist(s[m], prev),
                total == dist_total(dists@.subrange(0, i as int)),
                total <= 195075 * i,
            decreases n - i,
        {
            proof {
                lemma_min_dist(s[i as int], prev);
                assert(dists@.subrange(0, i + 1).drop_last() =~= dists@.subrange(0, i as int));
            }
            total = total + dists[i] as u64;
            i = i + 1;
        }
        proof {
            assert(dists@.subrange(0, n as int) =~= dists@);
            assert forall|m: int| 0 <= m < n implies #[trigger] dists@[m] == seed_dists(s, prev)[m] by {
                lemma_min_dist(s[m], prev);
            }
            assert(dists@ =~= seed_dists(s, prev));
        }
        if total == 0 {
            proof {
                assert forall|p: Rgb| s.contains(p) implies centroids@.contains(p) by {
                    let m = choose|m: int| 0 <= m < s.len() && s[m] == p;
                    lemma_dist_total_zero(dists@, m);
                    lemma_min_dist(p, prev);
                }
            }
            done = true;
        } else {
            let threshold = rng.next_u64() % total;
            let mut cumulative: u64 = 0;
            let mut chosen: usize = 0;
            let mut found = false;
            let mut i: usize = 0;
            while i < n && !found
                invariant
                    s == pixels@,
                    n == s.len(),
                    n <= u32::MAX,
                    prev.len() >= 1,
                    i <= n,
                    dists@.len() == n,
                    forall|m: int| 0 <= m < n ==> #[trigger] dists@[m] == min_dist(s[m], prev),
                    total == dist_total(dists@),
                    threshold < total,
                    !found ==> cumulative == dist_total(dists@.subrange(0, i as int)),
                    !found ==> cumulative <= threshold,
                    cumulative <= 195075 * i,
                    chosen < n,
                    found ==> dists@[chosen as int] > 0,
                    !found ==> weighted_pick(dists@, threshold as int, i as int, cumulative as int) == weighted_pick(
                        dists@,
                        threshold as int,
                        0,
                        0,
                    ),
                    found ==> chosen == weighted_pick(dists@, threshold as int, 0, 0),
                decreases n - i,
            {
                proof {
                    lemma_min_dist(s[i as int], prev);
                    assert(dists@.subrange(0, i + 1).drop_last() =~= dists@.subrange(0, i as int));
                }
                cumulative = cumulative + dists[i] as u64;
                if cumulative > threshold {
                    chosen = i;
                    found = true;
                }
                i = i + 1;
            }
            proof {
                if !found {
                    assert(dists@.subrange(0, n as int) =~= dists@);
                }
                lemma_min_dist(s[chosen as int], prev);
                assert(seeding(s, k as int, prev, st) == seeding(s, k as int, prev.push(s[chosen as int]), rng.state));
            }
            centroids.push(pixels[chosen]);
            proof {
                assert(centroids@.drop_last() =~= prev);
                assert forall|i: int, j: int|
                    0 <= i < j < centroids@.len() implies centroids@[i] != centroids@[j] by {
                    if j == centroids@.len() - 1 {
                        assert(prev[i] == centroids@[i]);
                        assert(prev.contains(centroids@[i]));
                    }
                }
                assert(s.contains(s[chosen as int]));
            }
        }
    }
    centroids
}


/// The index of the first of `cs[0..m]` nearest to `p`.
pub open spec fn nearest_upto(p: Rgb, cs: Seq<Rgb>, m: int) -> int
    decreases m,
{
    if m <= 1 {
        0
    } else {
        let b = nearest_upto(p, cs, m - 1);
        if rgb_dist_sq(p, cs[m - 1]) < rgb_dist_sq(p, cs[b]) {
            m - 1
        } else {
            b
        }
    }
}

/// The index of the first centroid of `cs` nearest to `p`.
pub open spec fn nearest(p: Rgb, cs: Seq<Rgb>) -> int {
    nearest_upto(p, cs, cs.len() as int)
}

proof fn lemma_nearest_upto_min(p: Rgb, cs: Seq<Rgb>, m: int)
    requires
        1 <= m <= cs.len(),
    ensures
        0 <= nearest_upto(p, cs, m) < m,
        forall|i: int|
            0 <= i < m ==> rgb_dist_sq(p, cs[nearest_upto(p, cs, m)]) <= rgb_dist_sq(p, #[trigger] cs[i]),
    decreases m,
{
    if m > 1 {
        lemma_nearest_upto_min(p, cs, m - 1);
    }
}

/// Every pixel goes to a centroid at least as close to it, by squared
/// distance over all three channels, as every other centroid; among equally
/// close ones it goes to the first.
pub proof fn lemma_nearest_is_closest(p: Rgb, cs: Seq<Rgb>)
    requires
        cs.len() >= 1,
    ensures
        0 <= nearest(p, cs) < cs.len(),
        forall|i: int|
            0 <= i < cs.len() ==> rgb_dist_sq(p, cs[nearest(p, cs)]) <= rgb_dist_sq(p, #[trigger] cs[i]),
        forall|i: int|
            0 <= i < nearest(p, cs) ==> rgb_dist_sq(p, cs[nearest(p, cs)]) < rgb_dist_sq(p, #[trigger] cs[i]),
{
    lemma_nearest_upto_min(p, cs, cs.len() as int);
    lemma_nearest_first(p, cs, cs.len() as int);
}

proof fn lemma_nearest_first(p: Rgb, cs: Seq<Rgb>, m: int)
    requires
        1 <= m <= cs.len(),
    ensures
        forall|i: int|
            0 <= i < nearest_upto(p, cs, m) ==> rgb_dist_sq(p, cs[nearest_upto(p, cs, m)]) < rgb_dist_sq(p, #[trigger] cs[i]),
    decreases m,
{
    if m > 1 {
        lemma_nearest_upto_min(p, cs, m - 1);
        lemma_nearest_first(p, cs, m - 1);
    }
}

/// How many pixels of `s` have centroid `j` of `cs` as their nearest.
pub open spec fn cluster_size(s: Seq<Rgb>, cs: Seq<Rgb>, j: int) -> int
    decreases s.len(),
{
    if s.len() == 0 {
        0
    } else {
        cluster_size(s.drop_last(), cs, j) + if nearest(s.last(), cs) == j {
            1int
        } else {
            0
        }
    }
}

/// The sum of channel `ch` over the pixels of `s` nearest to centroid `j`.
pub open spec fn cluster_total(s: Seq<Rgb>, cs: Seq<Rgb>, j: int, ch: int) -> int
    decreases s.len(),
{
    if s.len() == 0 {
        0
    } else {
        cluster_total(s.drop_last(), cs, j, ch) + if nearest(s.last(), cs) == j {
            chan(s.last(), ch)
        } else {
            0
        }
    }
}

/// The truncated mean colour of the pixels nearest to centroid `j`.
pub open spec fn cluster_mean(s: Seq<Rgb>, cs: Seq<Rgb>, j: int) -> Rgb {
    let n = cluster_size(s, cs, j);
    Rgb {
        r: (cluster_total(s, cs, j, 0) / n) as u8,
        g: (cluster_total(s, cs, j, 1) / n) as u8,
        b: (cluster_total(s, cs, j, 2) / n) as u8,
    }
}

/// One Lloyd round: each centroid that is nearest to some pixel moves to the
/// truncated mean of those pixels; the others stay.
pub open spec fn lloyd_step(s: Seq<Rgb>, cs: Seq<Rgb>) -> Seq<Rgb> {
    Seq::new(
        cs.len(),
        |j: int|
            if cluster_size(s, cs, j) > 0 {
                cluster_mean(s, cs, j)
            } else {
                cs[j]
            },
    )
}

/// The centroids that the last of at most `n` Lloyd rounds starts from:
/// rounds go on while one moves a centroid.
pub open spec fn final_basis(s: Seq<Rgb>, cs: Seq<Rgb>, n: int) -> Seq<Rgb>
    decreases n,
{
    if n <= 1 {
        cs
    } else if lloyd_step(s, cs) == cs {
        cs
    } else {
        final_basis(s, lloyd_step(s, cs), n - 1)
    }
}

/// The palette of the round that starts from `b`: the moved centroids, each
/// with the number of pixels that were nearest to it.
pub open spec fn kmeans_palette(s: Seq<Rgb>, b: Seq<Rgb>) -> Seq<(Rgb, u32)> {
    Seq::new(b.len(), |j: int| (lloyd_step(s, b)[j], cluster_size(s, b, j) as u32))
}

/// A Lloyd round moves each centroid that some pixel is nearest to onto the
/// truncated mean of those pixels, channel by channel: with `n` such pixels,
/// `n` times the new channel is at most their total and `n` times one more
/// exceeds it. A centroid that no pixel is nearest to stays where it is.
pub proof fn lemma_lloyd_step_truncated_mean(s: Seq<Rgb>, cs: Seq<Rgb>, j: int)
    requires
        0 <= j < cs.len(),
    ensures
        lloyd_step(s, cs).len() == cs.len(),
        cluster_size(s, cs, j) == 0 ==> lloyd_step(s, cs)[j] == cs[j],
        cluster_size(s, cs, j) > 0 ==> forall|ch: int|
            0 <= ch < 3 ==> {
                &&& cluster_size(s, cs, j) * chan(lloyd_step(s, cs)[j], ch) <= #[trigger] cluster_total(s, cs, j, ch)
                &&& cluster_total(s, cs, j, ch) < cluster_size(s, cs, j) * (chan(lloyd_step(s, cs)[j], ch) + 1)
            },
{
    lemma_cluster_bounds(s, cs, j);
    let n = cluster_size(s, cs, j);
    if n > 0 {
        assert forall|ch: int| 0 <= ch < 3 implies {
            &&& n * chan(lloyd_step(s, cs)[j], ch) <= #[trigger] cluster_total(s, cs, j, ch)
            &&& cluster_total(s, cs, j, ch) < n * (chan(lloyd_step(s, cs)[j], ch) + 1)
        } by {
            assert(n * 0 == 0);
            lemma_truncated_mean(cluster_total(s, cs, j, ch), n, 0, 255);
        }
    }
}

proof fn lemma_nearest_range(p: Rgb, cs: Seq<Rgb>, m: int)
    requires
        1 <= m,
    ensures
        0 <= nearest_upto(p, cs, m) < m,
    decreases m,
{
    if m > 1 {
        lemma_nearest_range(p, cs, m - 1);
    }
}

proof fn lemma_cluster_bounds(s: Seq<Rgb>, cs: Seq<Rgb>, j: int)
    ensures
        0 <= cluster_size(s, cs, j) <= s.len(),
        0 <= cluster_total(s, cs, j, 0) <= 255 * cluster_size(s, cs, j),
        0 <= cluster_total(s, cs, j, 1) <= 255 * cluster_size(s, cs, j),
        0 <= cluster_total(s, cs, j, 2) <= 255 * cluster_size(s, cs, j),
        cs.len() >= 1 && !(0 <= j < cs.len()) ==> cluster_size(s, cs, j) == 0,
    decreases s.len(),
{
    if s.len() > 0 {
        lemma_cluster_bounds(s.drop_last(), cs, j);
        if cs.len() >= 1 {
            lemma_nearest_range(s.last(), cs, cs.len() as int);
        }
    }
}

/// The nearest centroid to `p`.
fn nearest_centroid(p: Rgb, centroids: &Vec<Rgb>) -> (best: usize)
    requires
        centroids@.len() >= 1,
    ensures
        best == nearest(p, centroids@),
        best < centroids@.len(),
{
    let mut best: usize = 0;
    let mut best_dist: u32 = u32::MAX;
    let mut j: usize = 0;
    while j < centroids.len()
        invariant
            1 <= centroids@.len(),
            j <= centroids@.len(),
            j == 0 ==> best == 0 && best_dist == u32::MAX,
            j > 0 ==> best == nearest_upto(p, centroids@, j as int) && best_dist == rgb_dist_sq(
                p,
                centroids@[best as int],
            ) && best < j,
        decreases centroids@.len() - j,
    {
        let d = p.distance_squared(centroids[j]);
        proof {
            lemma_dist_zero(p, centroids@[j as int]);
        }
        if d < best_dist {
            best_dist = d;
            best = j;
        }
        j = j + 1;
    }
    best
}

/// Each pixel's nearest centroid.
fn assign_all(pixels: &[Rgb], centroids: &Vec<Rgb>) -> (assignments: Vec<usize>)
    requires
        centroids@.len() >= 1,
    ensures
        assignments@.len() == pixels@.len(),
        forall|i: int|
            0 <= i < pixels@.len() ==> #[trigger] assignments@[i] == nearest(pixels@[i], centroids@),
        forall|i: int| 0 <= i < pixels@.len() ==> #[trigger] assignments@[i] < centroids@.len(),
{
    let mut assignments: Vec<usize> = Vec::with_capacity(pixels.len());
    let mut i: usize = 0;
    while i < pixels.len()
        invariant
            centroids@.len() >= 1,
            i <= pixels@.len(),
            assignments@.len() == i,
            forall|m: int|
                0 <= m < i ==> #[trigger] assignments@[m] == nearest(pixels@[m], centroids@),
            forall|m: int| 0 <= m < i ==> #[trigger] assignments@[m] < centroids@.len(),
        decreases pixels@.len() - i,
    {
        assignments.push(nearest_centroid(pixels[i], centroids));
        i = i + 1;
    }
    assignments
}

/// Per centroid slot below `k`: the channel sums and the size of its cluster.
fn cluster_sums(pixels: &[Rgb], centroids: &Vec<Rgb>, assignments: &Vec<usize>, k: usize) -> (sums:
    Vec<(u64, u64, u64, u64)>)
    requires
        1 <= centroids@.len() <= k,
        pixels@.len() <= u32::MAX,
        assignments@.len() == pixels@.len(),
        forall|i: int|
            0 <= i < pixels@.len() ==> #[trigger] assignments@[i] == nearest(pixels@[i], centroids@),
    ensures
        sums@.len() == k,
        forall|c: int|
            0 <= c < k ==> {
                &&& (#[trigger] sums@[c]).0 == cluster_total(pixels@, centroids@, c, 0)
                &&& sums@[c].1 == cluster_total(pixels@, centroids@, c, 1)
                &&& sums@[c].2 == cluster_total(pixels@, centroids@, c, 2)
                &&& sums@[c].3 == cluster_size(pixels@, centroids@, c)
            },
{
    let ghost s = pixels@;
    let ghost cs = centroids@;
    let mut sums: Vec<(u64, u64, u64, u64)> = Vec::with_capacity(k);
    let mut c: usize = 0;
    while c < k
        invariant
            c <= k,
            sums@.len() == c,
            forall|m: int| 0 <= m < c ==> #[trigger] sums@[m] == (0u64, 0u64, 0u64, 0u64),
        decreases k - c,
    {
        sums.push((0, 0, 0, 0));
        c = c + 1;
    }
    let mut i: usize = 0;
    while i < pixels.len()
        invariant
            s == pixels@,
            cs == centroids@,
            1 <= cs.len() <= k,
            s.len() <= u32::MAX,
            assignments@.len() == s.len(),
            forall|m: int| 0 <= m < s.len() ==> #[trigger] assignments@[m] == nearest(s[m], cs),
            i <= s.len(),
            sums@.len() == k,
            forall|c: int|
                0 <= c < k ==> {
                    &&& (#[trigger] sums@[c]).0 == cluster_total(s.subrange(0, i as int), cs, c, 0)
                    &&& sums@[c].1 == cluster_total(s.subrange(0, i as int), cs, c, 1)
                    &&& sums@[c].2 == cluster_total(s.subrange(0, i as int), cs, c, 2)
                    &&& sums@[c].3 == cluster_size(s.subrange(0, i as int), cs, c)
                },
        decreases s.len() - i,
    {
        let a = assignments[i];
        let p = pixels[i];
        proof {
            let t = s.subrange(0, i + 1);
            assert(t.drop_last() =~= s.subrange(0, i as int));
            assert(t.last() == p);
            lemma_nearest_range(p, cs, cs.len() as int);
            lemma_cluster_bounds(s.subrange(0, i as int), cs, a as int);
        }
        let (sr, sg, sb, cnt) = sums[a];
        sums.set(a, (sr + p.r as u64, sg + p.g as u64, sb + p.b as u64, cnt + 1));
        i = i + 1;
    }
    proof {
        assert(s.subrange(0, s.len() as int) =~= s);
    }
    sums
}

/// Moves each centroid that has pixels to their truncated mean and returns
/// the largest squared distance any centroid moved.
fn move_centroids(pixels: &[Rgb], centroids: &mut Vec<Rgb>, sums: &Vec<(u64, u64, u64, u64)>, k: usize) -> (max_shift: u32)
    requires
        1 <= old(centroids)@.len() <= k,
        pixels@.len() <= u32::MAX,
        sums@.len() == k,
        forall|c: int|
            0 <= c < k ==> {
                &&& (#[trigger] sums@[c]).0 == cluster_total(pixels@, old(centroids)@, c, 0)
                &&& sums@[c].1 == cluster_total(pixels@, old(centroids)@, c, 1)
                &&& sums@[c].2 == cluster_total(pixels@, old(centroids)@, c, 2)
                &&& sums@[c].3 == cluster_size(pixels@, old(centroids)@, c)
            },
    ensures
        final(centroids)@ == lloyd_step(pixels@, old(centroids)@),
        (max_shift == 0) == (lloyd_step(pixels@, old(centroids)@) == old(centroids)@),
{
    let ghost s = pixels@;
    let ghost cs = centroids@;
    let ghost step = lloyd_step(s, cs);
    let mut max_shift: u32 = 0;
    let mut j: usize = 0;
    while j < k
        invariant
            s == pixels@,
            cs == old(centroids)@,
            step == lloyd_step(s, cs),
            1 <= cs.len() <= k,
            sums@.len() == k,
            forall|c: int|
                0 <= c < k ==> {
                    &&& (#[trigger] sums@[c]).0 == cluster_total(s, cs, c, 0)
                    &&& sums@[c].1 == cluster_total(s, cs, c, 1)
                    &&& sums@[c].2 == cluster_total(s, cs, c, 2)
                    &&& sums@[c].3 == cluster_size(s, cs, c)
                },
            j <= k,
            centroids@.len() == cs.len(),
            forall|m: int| 0 <= m < j && m < cs.len() ==> #[trigger] centroids@[m] == step[m],
            forall|m: int| j <= m < cs.len() ==> #[trigger] centroids@[m] == cs[m],
            (max_shift == 0) == (forall|m: int| 0 <= m < j && m < cs.len() ==> #[trigger] step[m] == cs[m]),
        decreases k - j,
    {
        let (sr, sg, sb, count) = sums[j];
        proof {
            lemma_cluster_bounds(s, cs, j as int);
        }
        if count > 0 {
            proof {
                let n = count as int;
                let (ri, gi, bi) = (sr as int, sg as int, sb as int);
                assert(ri / n <= 255 && gi / n <= 255 && bi / n <= 255) by (nonlinear_arith)
                    requires
                        0 <= ri <= 255 * n,
                        0 <= gi <= 255 * n,
                        0 <= bi <= 255 * n,
                        n >= 1,
                ;
            }
            let new = Rgb::new((sr / count) as u8, (sg / count) as u8, (sb / count) as u8);
            let d = centroids[j].distance_squared(new);
            proof {
                lemma_dist_zero(cs[j as int], new);
                assert(new == step[j as int]);
            }
            if d > max_shift {
                max_shift = d;
            }
            centroids.set(j, new);
        }
        j = j + 1;
    }
    proof {
        assert(centroids@ =~= step);
        if max_shift == 0 {
            assert(step =~= cs);
        }
    }
    max_shift
}


/// The size of each cluster, per centroid slot below `k`.
fn count_members(assignments: &Vec<usize>, k: usize, Ghost(s): Ghost<Seq<Rgb>>, Ghost(b): Ghost<Seq<Rgb>>) -> (pops: Vec<u32>)
    requires
        1 <= b.len() <= k,
        s.len() <= u32::MAX,
        assignments@.len() == s.len(),
        forall|i: int| 0 <= i < s.len() ==> #[trigger] assignments@[i] == nearest(s[i], b),
    ensures
        pops@.len() == k,
        forall|j: int| 0 <= j < k ==> #[trigger] pops@[j] == cluster_size(s, b, j),
{
    let mut pops: Vec<u32> = Vec::with_capacity(k);
    let mut c: usize = 0;
    while c < k
        invariant
            c <= k,
            pops@.len() == c,
            forall|m: int| 0 <= m < c ==> #[trigger] pops@[m] == 0,
        decreases k - c,
    {
        pops.push(0);
        c = c + 1;
    }
    let mut i: usize = 0;
    while i < assignments.len()
        invariant
            1 <= b.len() <= k,
            s.len() <= u32::MAX,
            assignments@.len() == s.len(),
            forall|m: int| 0 <= m < s.len() ==> #[trigger] assignments@[m] == nearest(s[m], b),
            i <= s.len(),
            pops@.len() == k,
            forall|j: int| 0 <= j < k ==> #[trigger] pops@[j] == cluster_size(s.subrange(0, i as int), b, j),
        decreases s.len() - i,
    {
        let a = assignments[i];
        proof {
            let t = s.subrange(0, i + 1);
            assert(t.drop_last() =~= s.subrange(0, i as int));
            assert(t.last() == s[i as int]);
            lemma_nearest_range(s[i as int], b, b.len() as int);
            lemma_cluster_bounds(s.subrange(0, i as int), b, a as int);
        }
        let cnt = pops[a];
        pops.set(a, cnt + 1);
        i = i + 1;
    }
    proof {
        assert(s.subrange(0, s.len() as int) =~= s);
    }
    pops
}

/// Runs Lloyd rounds from `init` until no centroid moves, at most
/// [`MAX_ITERATIONS`] of them, and pairs each centroid with the size of its
/// cluster in the last round.
fn refine_rgb(pixels: &[Rgb], k: usize, init: Vec<Rgb>) -> (result: Vec<(Rgb, u32)>)
    requires
        1 <= init@.len() <= k,
        pixels@.len() <= u32::MAX,
    ensures
        result@ == kmeans_palette(pixels@, final_basis(pixels@, init@, MAX_ITERATIONS as int)),
{
    let ghost s = pixels@;
    let ghost init_cs = init@;
    let ghost target = final_basis(s, init_cs, MAX_ITERATIONS as int);
    let mut centroids = init;
    let mut assignments: Vec<usize> = Vec::new();
    let ghost mut basis = centroids@;
    let mut iter: u32 = 0;
    let mut converged = false;
    while iter < MAX_ITERATIONS && !converged
        invariant
            s == pixels@,
            s.len() <= u32::MAX,
            1 <= centroids@.len() <= k,
            target == final_basis(s, init_cs, MAX_ITERATIONS as int),
            iter <= MAX_ITERATIONS,
            iter == 0 ==> centroids@ == init_cs && !converged,
            iter > 0 ==> {
                &&& basis.len() == centroids@.len()
                &&& centroids@ == lloyd_step(s, basis)
                &&& assignments@.len() == s.len()
                &&& forall|i: int| 0 <= i < s.len() ==> #[trigger] assignments@[i] == nearest(s[i], basis)
                &&& final_basis(s, basis, MAX_ITERATIONS + 1 - iter) == target
                &&& converged == (lloyd_step(s, basis) == basis)
            },
        decreases MAX_ITERATIONS - iter,
    {
        let ghost cur = centroids@;
        proof {
            if iter > 0 {
                assert(final_basis(s, basis, MAX_ITERATIONS + 1 - iter) == final_basis(
                    s,
                    cur,
                    MAX_ITERATIONS - iter,
                ));
            }
        }
        assignments = assign_all(pixels, &centroids);
        let sums = cluster_sums(pixels, &centroids, &assignments, k);
        let max_shift = move_centroids(pixels, &mut centroids, &sums, k);
        proof {
            basis = cur;
        }
        // The shift is a whole number, so it is below any positive threshold
        // exactly when it is zero.
        converged = max_shift == 0;
        iter = iter + 1;
    }
    proof {
        assert(basis == target);
    }
    let pops = count_members(&assignments, k, Ghost(s), Ghost(basis));
    let mut result: Vec<(Rgb, u32)> = Vec::with_capacity(centroids.len());
    let mut j: usize = 0;
    while j < centroids.len()
        invariant
            basis == target,
            s.len() <= u32::MAX,
            centroids@ == lloyd_step(s, basis),
            1 <= basis.len() <= k,
            pops@.len() == k,
            forall|m: int| 0 <= m < k ==> #[trigger] pops@[m] == cluster_size(s, basis, m),
            j <= centroids@.len(),
            result@.len() == j,
            forall|m: int| 0 <= m < j ==> #[trigger] result@[m] == kmeans_palette(s, basis)[m],
        decreases centroids@.len() - j,
    {
        proof {
            lemma_cluster_bounds(s, basis, j as int);
        }
        result.push((centroids[j], pops[j]));
        j = j + 1;
    }
    proof {
        assert(result@ =~= kmeans_palette(s, basis));
    }
    result
}

/// Clusters the (already sampled) pixels into at most `k` RGB colours.
fn cluster_rgb(pixels: &[Rgb], k: usize, init: InitMethod, seed: u64) -> (result: Vec<(Rgb, u32)>)
    requires
        1 <= k <= pixels@.len(),
        pixels@.len() <= u32::MAX,
    ensures
        init == InitMethod::Random ==> result@ == kmeans_palette(
            pixels@,
            final_basis(pixels@, random_picks(pixels@, k as int, seed_state(seed)), MAX_ITERATIONS as int),
        ),
        init == InitMethod::KMeansPlusPlus ==> {
            let c = plusplus_picks(pixels@, k as int, seed_state(seed));
            &&& plusplus_ok(pixels@, k as int, seed_state(seed), c)
            &&& result@ == kmeans_palette(pixels@, final_basis(pixels@, c, MAX_ITERATIONS as int))
        },
{
    let mut rng = SimpleRng::new(seed);
    let centroids = match init {
        InitMethod::Random => init_random(pixels, k, &mut rng),
        InitMethod::KMeansPlusPlus => init_plusplus_rgb(pixels, k, &mut rng),
    };
    refine_rgb(pixels, k, centroids)
}

/// The total size of the clusters of the centroids `b[0..m]`.
pub open spec fn sizes_upto(s: Seq<Rgb>, b: Seq<Rgb>, m: int) -> int
    decreases m,
{
    if m <= 0 {
        0
    } else {
        sizes_upto(s, b, m - 1) + cluster_size(s, b, m - 1)
    }
}

proof fn lemma_sizes_step(s: Seq<Rgb>, b: Seq<Rgb>, m: int)
    requires
        s.len() > 0,
        m >= 0,
    ensures
        sizes_upto(s, b, m) == sizes_upto(s.drop_last(), b, m) + if 0 <= nearest(s.last(), b) < m {
            1int
        } else {
            0
        },
    decreases m,
{
    if m > 0 {
        lemma_sizes_step(s, b, m - 1);
    }
}

proof fn lemma_sizes_total(s: Seq<Rgb>, b: Seq<Rgb>)
    requires
        b.len() >= 1,
    ensures
        sizes_upto(s, b, b.len() as int) == s.len(),
    decreases s.len(),
{
    if s.len() == 0 {
        lemma_sizes_zero(s, b, b.len() as int);
    } else {
        lemma_sizes_total(s.drop_last(), b);
        lemma_sizes_step(s, b, b.len() as int);
        lemma_nearest_range(s.last(), b, b.len() as int);
    }
}

proof fn lemma_sizes_zero(s: Seq<Rgb>, b: Seq<Rgb>, m: int)
    requires
        s.len() == 0,
    ensures
        sizes_upto(s, b, m) == 0,
    decreases m,
{
    if m > 0 {
        lemma_sizes_zero(s, b, m - 1);
    }
}

proof fn lemma_palette_pops(s: Seq<Rgb>, b: Seq<Rgb>, m: int)
    requires
        0 <= m <= b.len(),
        s.len() <= u32::MAX,
    ensures
        pop_sum(kmeans_palette(s, b).subrange(0, m)) == sizes_upto(s, b, m),
    decreases m,
{
    if m > 0 {
        let p = kmeans_palette(s, b);
        assert(p.subrange(0, m).drop_last() =~= p.subrange(0, m - 1));
        lemma_palette_pops(s, b, m - 1);
        lemma_cluster_bounds(s, b, m - 1);
    }
}

/// Every sampled pixel is counted in exactly one cluster: the populations of
/// a k-means palette add up to the number of pixels.
pub proof fn lemma_kmeans_population(s: Seq<Rgb>, b: Seq<Rgb>)
    requires
        b.len() >= 1,
        s.len() <= u32::MAX,
    ensures
        pop_sum(kmeans_palette(s, b)) == s.len(),
        kmeans_palette(s, b).len() == b.len(),
{
    lemma_palette_pops(s, b, b.len() as int);
    lemma_sizes_total(s, b);
    assert(kmeans_palette(s, b).subrange(0, b.len() as int) =~= kmeans_palette(s, b));
}


proof fn lemma_final_basis_len(s: Seq<Rgb>, cs: Seq<Rgb>, n: int)
    ensures
        final_basis(s, cs, n).len() == cs.len(),
    decreases n,
{
    if n > 1 && lloyd_step(s, cs) != cs {
        lemma_final_basis_len(s, lloyd_step(s, cs), n - 1);
    }
}

/// What k-means over RGB gives for the sampled pixels `s`, `k` already capped
/// at their number: the palette of the last Lloyd round from the initial
/// centroids that `init` draws with the generator seeded by `seed` (for
/// k-means++ also: those centroids are distinct pixels of `s`, fewer than `k`
/// only when they are all of its colours).
pub open spec fn kmeans_rgb_result(s: Seq<Rgb>, k: int, init: InitMethod, seed: u64, result: Seq<(Rgb, u32)>) -> bool {
    match init {
        InitMethod::Random => result == kmeans_palette(
            s,
            final_basis(s, random_picks(s, k, seed_state(seed)), MAX_ITERATIONS as int),
        ),
        InitMethod::KMeansPlusPlus => {
            let c = plusplus_picks(s, k, seed_state(seed));
            &&& plusplus_ok(s, k, seed_state(seed), c)
            &&& result == kmeans_palette(s, final_basis(s, c, MAX_ITERATIONS as int))
        },
    }
}

/// What k-means gives for `pixels` and `k`: nothing when either is empty or
/// zero; otherwise, with `k` capped at the number of sampled pixels, the RGB
/// clustering of the sampled pixels, or, for a CIELAB colour space, what
/// `cluster_lab` answers for them.
pub open spec fn kmeans_result<F: Fn(Vec<Rgb>, usize, KmeansColorSpace, InitMethod, u64) -> Vec<(Rgb, u32)>>(
    pixels: Seq<Rgb>,
    k: int,
    color_space: KmeansColorSpace,
    init: InitMethod,
    seed: u64,
    cluster_lab: F,
    result: Vec<(Rgb, u32)>,
) -> bool {
    &&& (pixels.len() == 0 || k == 0) ==> result@.len() == 0
    &&& (pixels.len() > 0 && k > 0) ==> {
        let s = sampled(pixels);
        let kk = if k < s.len() {
            k
        } else {
            s.len() as int
        };
        &&& color_space == KmeansColorSpace::Rgb ==> {
            &&& kmeans_rgb_result(s, kk, init, seed, result@)
            &&& 1 <= result@.len() <= kk
            &&& pop_sum(result@) == s.len()
        }
        &&& color_space != KmeansColorSpace::Rgb ==> exists|v: Vec<Rgb>|
            v@ == s && call_ensures(cluster_lab, (v, kk as usize, color_space, init, seed), result)
    }
}

/// A seed always gives the same RGB palette: k-means over RGB is a function
/// of the pixels, `k`, the initialisation method and the seed.
pub proof fn lemma_kmeans_deterministic(
    s: Seq<Rgb>,
    k: int,
    init: InitMethod,
    seed: u64,
    r1: Seq<(Rgb, u32)>,
    r2: Seq<(Rgb, u32)>,
)
    requires
        kmeans_rgb_result(s, k, init, seed, r1),
        kmeans_rgb_result(s, k, init, seed, r2),
    ensures
        r1 == r2,
{
}

/// Extracts up to `k` dominant colours from the given pixels.
///
/// Returns `(colour, population)` pairs. Large inputs are subsampled by
/// striding, as [`sample_pixels`] does, and `k` is capped at the number of
/// sampled pixels; populations count sampled pixels. RGB clustering happens
/// here; for the two CIELAB colour spaces the sampled pixels, the capped `k`,
/// the colour space, the initialisation method and the seed are handed to
/// `cluster_lab`, whose answer is returned.
pub fn extract_colors_kmeans<F: Fn(Vec<Rgb>, usize, KmeansColorSpace, InitMethod, u64) -> Vec<(Rgb, u32)>>(
    pixels: &[Rgb],
    k: usize,
    color_space: KmeansColorSpace,
    init: InitMethod,
    seed: u64,
    cluster_lab: F,
) -> (result: Vec<(Rgb, u32)>)
    requires
        forall|v: Vec<Rgb>, n: usize, cs: KmeansColorSpace, im: InitMethod, sd: u64|
            call_requires(cluster_lab, (v, n, cs, im, sd)),
    ensures
        kmeans_result(pixels@, k as int, color_space, init, seed, cluster_lab, result),
{
    if pixels.len() == 0 || k == 0 {
        return Vec::new();
    }
    let sample = sample_pixels(pixels);
    let k = if k < sample.len() {
        k
    } else {
        sample.len()
    };
    match color_space {
        KmeansColorSpace::Rgb => {
            let result = cluster_rgb(sample.as_slice(), k, init, seed);
            proof {
                let s = sample@;
                match init {
                    InitMethod::Random => {
                        let c = random_picks(s, k as int, seed_state(seed));
                        lemma_final_basis_len(s, c, MAX_ITERATIONS as int);
                        lemma_kmeans_population(s, final_basis(s, c, MAX_ITERATIONS as int));
                    },
                    InitMethod::KMeansPlusPlus => {
                        let c = plusplus_picks(s, k as int, seed_state(seed));
                        lemma_final_basis_len(s, c, MAX_ITERATIONS as int);
                        lemma_kmeans_population(s, final_basis(s, c, MAX_ITERATIONS as int));
                    },
                }
            }
            result
        },
        _ => {
            let ghost v = sample;
            let result = cluster_lab(sample, k, color_space, init, seed);
            proof {
                assert(v@ == sampled(pixels@));
            }
            result
        },
    }
}

} // verus!
