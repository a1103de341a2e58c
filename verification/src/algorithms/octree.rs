//! Octree colour quantisation.
//!
//! Pixels are inserted into an octree of bounded depth; whenever the tree has
//! more leaves than the requested number of colours, the deepest reducible
//! node is folded into a single leaf. Each remaining leaf yields one palette
//! entry: the mean of the channel values it absorbed, and how many pixels
//! those were.

use vstd::prelude::*;
use vstd::arithmetic::div_mod::lemma_div_denominator;
use vstd::arithmetic::power2::{lemma2_to64, lemma_pow2_adds, lemma_pow2_pos, pow2};

use crate::color::{lemma_truncated_mean, Rgb};
use crate::palette::{is_stable_pop_sort, pop_sum, pops_nonincreasing, pops_positive, sort_by_population};
use crate::{sample_pixels, sampled, spec_sample_step, MAX_SAMPLE};

verus! {

/// A node of the octree arena. Leaves carry the pixel count and the channel
/// sums of the pixels they absorbed; inner nodes carry none.
#[derive(Clone, Copy)]
pub struct OctreeNode {
    pub children: [Option<usize>; 8],
    pub pixel_count: u32,
    pub channel_sum: [i64; 3],
    pub is_leaf: bool,
}

/// The quantity that a leaf contributes to a subtree total: its pixel count
/// (`w == 0`), one of its channel sums (`w` in 1..=3), or one leaf (`w == 4`).
pub open spec fn weight(n: OctreeNode, w: int) -> int {
    if w == 0 {
        n.pixel_count as int
    } else if 1 <= w <= 3 {
        n.channel_sum@[w - 1] as int
    } else {
        1
    }
}

/// Total weight of the leaves below node `id`, following child links for at
/// most `h` levels.
pub open spec fn subtree(ns: Seq<OctreeNode>, w: int, id: int, h: nat) -> int
    decreases h, 0int, 0int,
{
    if !(0 <= id < ns.len()) {
        0
    } else if ns[id].is_leaf {
        weight(ns[id], w)
    } else if h == 0 {
        0
    } else {
        csum(ns, w, id, 8, (h - 1) as nat)
    }
}

/// Total weight below the first `k` child slots of node `id`.
pub open spec fn csum(ns: Seq<OctreeNode>, w: int, id: int, k: nat, h: nat) -> int
    decreases h, 1int, k,
{
    if k == 0 {
        0
    } else {
        csum(ns, w, id, (k - 1) as nat, h) + match ns[id].children@[k - 1] {
            Some(j) => subtree(ns, w, j as int, h),
            None => 0,
        }
    }
}

/// What one child slot contributes to [`csum`].
pub open spec fn cterm(ns: Seq<OctreeNode>, w: int, o: Option<usize>, h: nat) -> int {
    match o {
        Some(j) => subtree(ns, w, j as int, h),
        None => 0,
    }
}

/// `x` hangs below `y`: following parent links from `x` reaches `y`, and the
/// child slot of every parent on the way points back down the chain.
pub open spec fn linked(ns: Seq<OctreeNode>, par: Seq<int>, slot: Seq<int>, y: int, x: int) -> bool
    decreases x,
{
    if x == y {
        true
    } else if x <= 0 || x >= ns.len() || x >= par.len() || !(0 <= par[x] < x) || !(0 <= slot[x] < 8) {
        false
    } else {
        ns[par[x]].children@[slot[x]] == Some(x as usize) && linked(ns, par, slot, y, par[x])
    }
}

/// The node of `x`'s parent chain whose parent is `y`.
pub open spec fn chain_child(par: Seq<int>, y: int, x: int) -> int
    decreases x,
{
    if x <= 0 || x >= par.len() || !(0 <= par[x] < x) || par[x] == y {
        x
    } else {
        chain_child(par, y, par[x])
    }
}

/// Child links agree with the ghost parent, slot and depth of each node.
pub open spec fn links_ok(ns: Seq<OctreeNode>, par: Seq<int>, slot: Seq<int>, dep: Seq<int>) -> bool {
    &&& ns.len() <= usize::MAX
    &&& par.len() == ns.len()
    &&& slot.len() == ns.len()
    &&& dep.len() == ns.len()
    &&& forall|id: int, c: int|
        0 <= id < ns.len() && 0 <= c < 8 && (#[trigger] ns[id].children@[c]) is Some ==> {
            let j = ns[id].children@[c]->0 as int;
            &&& 0 < j < ns.len()
            &&& par[j] == id
            &&& slot[j] == c
            &&& dep[j] == dep[id] + 1
        }
    &&& forall|j: int|
        0 < j < ns.len() ==> {
            &&& 0 <= #[trigger] par[j] < j
            &&& 0 <= slot[j] < 8
            &&& dep[j] == dep[par[j]] + 1
        }
    &&& dep[0] == 0
    &&& forall|id: int| 0 <= id < ns.len() ==> #[trigger] ns[id].children@.len() == 8
}

/// Leaves have no children; inner nodes sit above the depth limit.
pub open spec fn shape_ok(ns: Seq<OctreeNode>, dep: Seq<int>, hmax: int) -> bool {
    forall|id: int|
        0 <= id < ns.len() ==> {
            &&& 0 <= #[trigger] dep[id] <= hmax
            &&& ns[id].is_leaf ==> forall|c: int| 0 <= c < 8 ==> ns[id].children@[c] is None
            &&& !ns[id].is_leaf ==> dep[id] < hmax
        }
}

proof fn lemma_linked_depth(
    ns: Seq<OctreeNode>,
    par: Seq<int>,
    slot: Seq<int>,
    dep: Seq<int>,
    y: int,
    x: int,
)
    requires
        links_ok(ns, par, slot, dep),
        0 <= y < ns.len(),
        0 <= x < ns.len(),
        linked(ns, par, slot, y, x),
    ensures
        y <= x,
        dep[y] <= dep[x],
        y != x ==> dep[y] < dep[x],
    decreases x,
{
    if x != y {
        lemma_linked_depth(ns, par, slot, dep, y, par[x]);
    }
}

/// A node strictly above `x` on its chain has a linked child that is also on
/// the chain.
proof fn lemma_chain_child(
    ns: Seq<OctreeNode>,
    par: Seq<int>,
    slot: Seq<int>,
    dep: Seq<int>,
    y: int,
    x: int,
)
    requires
        links_ok(ns, par, slot, dep),
        0 <= y < ns.len(),
        0 <= x < ns.len(),
        linked(ns, par, slot, y, x),
        x != y,
    ensures
        ({
            let z = chain_child(par, y, x);
            &&& 0 < z < ns.len()
            &&& par[z] == y
            &&& ns[y].children@[slot[z]] == Some(z as usize)
            &&& linked(ns, par, slot, z, x)
            &&& dep[z] == dep[y] + 1
        }),
    decreases x,
{
    if par[x] != y {
        lemma_chain_child(ns, par, slot, dep, y, par[x]);
        let z = chain_child(par, y, par[x]);
        assert(chain_child(par, y, x) == z);
        lemma_linked_depth(ns, par, slot, dep, z, par[x]);
    }
}

/// A linked child of `y` that has `x` below it puts `x` below `y`.
proof fn lemma_linked_up(
    ns: Seq<OctreeNode>,
    par: Seq<int>,
    slot: Seq<int>,
    dep: Seq<int>,
    y: int,
    j: int,
    x: int,
)
    requires
        links_ok(ns, par, slot, dep),
        0 <= y < ns.len(),
        0 < j < ns.len(),
        0 <= x < ns.len(),
        par[j] == y,
        ns[y].children@[slot[j]] == Some(j as usize),
        linked(ns, par, slot, j, x),
    ensures
        linked(ns, par, slot, y, x),
    decreases x,
{
    assert(0 <= par[j] < j && 0 <= slot[j] < 8);
    if x == j {
        assert(linked(ns, par, slot, y, par[j]));
    } else if x != y {
        assert(0 <= par[x] < x && 0 <= slot[x] < 8);
        lemma_linked_up(ns, par, slot, dep, y, j, par[x]);
    }
}

/// Two nodes of equal depth above `x` on its chain are the same node.
proof fn lemma_linked_unique(
    ns: Seq<OctreeNode>,
    par: Seq<int>,
    slot: Seq<int>,
    dep: Seq<int>,
    a: int,
    b: int,
    x: int,
)
    requires
        links_ok(ns, par, slot, dep),
        0 <= a < ns.len(),
        0 <= b < ns.len(),
        0 <= x < ns.len(),
        linked(ns, par, slot, a, x),
        linked(ns, par, slot, b, x),
        dep[a] == dep[b],
    ensures
        a == b,
    decreases x,
{
    if a == x {
        lemma_linked_depth(ns, par, slot, dep, b, x);
    } else if b == x {
        lemma_linked_depth(ns, par, slot, dep, a, x);
    } else {
        lemma_linked_unique(ns, par, slot, dep, a, b, par[x]);
    }
}

/// Changing node `x` changes the subtree total of `y` by the change at `x`
/// when `x` hangs below `y`, and leaves it alone otherwise.
proof fn lemma_delta(
    ns1: Seq<OctreeNode>,
    ns2: Seq<OctreeNode>,
    par: Seq<int>,
    slot: Seq<int>,
    dep: Seq<int>,
    hmax: int,
    w: int,
    x: int,
    y: int,
)
    requires
        links_ok(ns1, par, slot, dep),
        shape_ok(ns1, dep, hmax),
        ns2.len() == ns1.len(),
        0 <= x < ns1.len(),
        forall|i: int| 0 <= i < ns1.len() && i != x ==> ns2[i] == ns1[i],
        0 <= y < ns1.len(),
    ensures
        subtree(ns2, w, y, (hmax - dep[y]) as nat) == subtree(ns1, w, y, (hmax - dep[y]) as nat) + (if linked(
            ns1,
            par,
            slot,
            y,
            x,
        ) {
            subtree(ns2, w, x, (hmax - dep[x]) as nat) - subtree(ns1, w, x, (hmax - dep[x]) as nat)
        } else {
            0
        }),
    decreases hmax - dep[y], 9int,
{
    if y != x {
        if ns1[y].is_leaf {
            if linked(ns1, par, slot, y, x) {
                lemma_chain_child(ns1, par, slot, dep, y, x);
            }
        } else {
            lemma_delta_csum(ns1, ns2, par, slot, dep, hmax, w, x, y, 8);
            if linked(ns1, par, slot, y, x) {
                lemma_chain_child(ns1, par, slot, dep, y, x);
            }
        }
    }
}

proof fn lemma_delta_csum(
    ns1: Seq<OctreeNode>,
    ns2: Seq<OctreeNode>,
    par: Seq<int>,
    slot: Seq<int>,
    dep: Seq<int>,
    hmax: int,
    w: int,
    x: int,
    y: int,
    k: nat,
)
    requires
        links_ok(ns1, par, slot, dep),
        shape_ok(ns1, dep, hmax),
        ns2.len() == ns1.len(),
        0 <= x < ns1.len(),
        forall|i: int| 0 <= i < ns1.len() && i != x ==> ns2[i] == ns1[i],
        0 <= y < ns1.len(),
        y != x,
        !ns1[y].is_leaf,
        k <= 8,
    ensures
        csum(ns2, w, y, k, (hmax - dep[y] - 1) as nat) == csum(ns1, w, y, k, (hmax - dep[y] - 1) as nat)
            + (if linked(ns1, par, slot, y, x) && slot[chain_child(par, y, x)] < k {
            subtree(ns2, w, x, (hmax - dep[x]) as nat) - subtree(ns1, w, x, (hmax - dep[x]) as nat)
        } else {
            0
        }),
    decreases hmax - dep[y], k,
{
    if k == 0 {
        if linked(ns1, par, slot, y, x) {
            lemma_chain_child(ns1, par, slot, dep, y, x);
        }
    } else {
        lemma_delta_csum(ns1, ns2, par, slot, dep, hmax, w, x, y, (k - 1) as nat);
        let c = k - 1;
        let h1 = (hmax - dep[y] - 1) as nat;
        let o = ns1[y].children@[c];
        assert(ns2[y] == ns1[y]);
        let d = subtree(ns2, w, x, (hmax - dep[x]) as nat) - subtree(ns1, w, x, (hmax - dep[x]) as nat);
        assert(csum(ns2, w, y, k, h1) == csum(ns2, w, y, (k - 1) as nat, h1) + cterm(ns2, w, o, h1));
        assert(csum(ns1, w, y, k, h1) == csum(ns1, w, y, (k - 1) as nat, h1) + cterm(ns1, w, o, h1));
        if linked(ns1, par, slot, y, x) {
            lemma_chain_child(ns1, par, slot, dep, y, x);
        }
        let z = chain_child(par, y, x);
        match o {
            Some(j) => {
                let j = j as int;
                assert(ns1[y].children@[c] is Some);
                assert(0 < j < ns1.len() && par[j] == y && slot[j] == c && dep[j] == dep[y] + 1);
                assert((hmax - dep[j]) as nat == h1);
                lemma_delta(ns1, ns2, par, slot, dep, hmax, w, x, j);
                if linked(ns1, par, slot, j, x) {
                    lemma_linked_up(ns1, par, slot, dep, y, j, x);
                    lemma_linked_unique(ns1, par, slot, dep, z, j, x);
                    assert(cterm(ns2, w, o, h1) == cterm(ns1, w, o, h1) + d);
                } else {
                    if linked(ns1, par, slot, y, x) && slot[z] == c {
                        assert(ns1[y].children@[slot[z]] == Some(z as usize));
                        assert(o == Some(z as usize));
                        assert(j == z);
                    }
                    assert(cterm(ns2, w, o, h1) == cterm(ns1, w, o, h1));
                }
            },
            None => {
                if linked(ns1, par, slot, y, x) {
                    assert(slot[z] != c);
                }
            },
        }
    }
}


/// Appending a node changes no existing subtree total.
proof fn lemma_push_frame(
    ns1: Seq<OctreeNode>,
    ns2: Seq<OctreeNode>,
    par: Seq<int>,
    slot: Seq<int>,
    dep: Seq<int>,
    w: int,
    y: int,
    h: nat,
)
    requires
        links_ok(ns1, par, slot, dep),
        ns2.len() == ns1.len() + 1,
        forall|i: int| 0 <= i < ns1.len() ==> ns2[i] == ns1[i],
        0 <= y < ns1.len(),
    ensures
        subtree(ns2, w, y, h) == subtree(ns1, w, y, h),
    decreases h, 0int, 0int,
{
    if !ns1[y].is_leaf && h > 0 {
        lemma_push_frame_csum(ns1, ns2, par, slot, dep, w, y, 8, (h - 1) as nat);
    }
}

proof fn lemma_push_frame_csum(
    ns1: Seq<OctreeNode>,
    ns2: Seq<OctreeNode>,
    par: Seq<int>,
    slot: Seq<int>,
    dep: Seq<int>,
    w: int,
    y: int,
    k: nat,
    h: nat,
)
    requires
        links_ok(ns1, par, slot, dep),
        ns2.len() == ns1.len() + 1,
        forall|i: int| 0 <= i < ns1.len() ==> ns2[i] == ns1[i],
        0 <= y < ns1.len(),
        k <= 8,
    ensures
        csum(ns2, w, y, k, h) == csum(ns1, w, y, k, h),
    decreases h, 1int, k,
{
    if k > 0 {
        lemma_push_frame_csum(ns1, ns2, par, slot, dep, w, y, (k - 1) as nat, h);
        let o = ns1[y].children@[k - 1];
        if o is Some {
            lemma_push_frame(ns1, ns2, par, slot, dep, w, o->0 as int, h);
        }
    }
}

/// Chains stay linked when a node keeps every child link it had.
proof fn lemma_linked_keep_links(
    ns1: Seq<OctreeNode>,
    ns2: Seq<OctreeNode>,
    par: Seq<int>,
    slot: Seq<int>,
    u: int,
    y: int,
    x: int,
)
    requires
        ns2.len() == ns1.len(),
        forall|i: int| 0 <= i < ns1.len() && i != u ==> ns2[i] == ns1[i],
        0 <= u < ns1.len(),
        forall|c: int|
            0 <= c < 8 && (#[trigger] ns1[u].children@[c]) is Some ==> ns2[u].children@[c]
                == ns1[u].children@[c],
        linked(ns1, par, slot, y, x),
    ensures
        linked(ns2, par, slot, y, x),
    decreases x,
{
    if x != y {
        lemma_linked_keep_links(ns1, ns2, par, slot, u, y, par[x]);
        if par[x] == u {
            assert(ns1[u].children@[slot[x]] is Some);
        }
    }
}

/// Chains that do not pass below node `u` survive any change to `u`.
proof fn lemma_linked_off_chain(
    ns1: Seq<OctreeNode>,
    ns2: Seq<OctreeNode>,
    par: Seq<int>,
    slot: Seq<int>,
    dep: Seq<int>,
    u: int,
    y: int,
    x: int,
)
    requires
        links_ok(ns1, par, slot, dep),
        ns2.len() == ns1.len(),
        forall|i: int| 0 <= i < ns1.len() && i != u ==> ns2[i] == ns1[i],
        0 <= u < ns1.len(),
        0 <= y < ns1.len(),
        0 <= x < ns1.len(),
        linked(ns1, par, slot, y, x),
        u == x || !linked(ns1, par, slot, u, x),
    ensures
        linked(ns2, par, slot, y, x),
    decreases x,
{
    if x != y {
        let p = par[x];
        assert(linked(ns1, par, slot, u, u));
        if p == u {
            assert(linked(ns1, par, slot, u, x));
        }
        if u != p && linked(ns1, par, slot, u, p) {
            if u == x {
                lemma_linked_depth(ns1, par, slot, dep, u, p);
            } else {
                assert(linked(ns1, par, slot, u, x));
            }
        }
        lemma_linked_off_chain(ns1, ns2, par, slot, dep, u, y, p);
    }
}

/// Appending a node (with its ghost parent, slot and depth) keeps every
/// existing chain.
proof fn lemma_linked_push(
    ns1: Seq<OctreeNode>,
    ns2: Seq<OctreeNode>,
    par1: Seq<int>,
    par2: Seq<int>,
    slot1: Seq<int>,
    slot2: Seq<int>,
    y: int,
    x: int,
)
    requires
        ns2.len() == ns1.len() + 1,
        forall|i: int| 0 <= i < ns1.len() ==> ns2[i] == ns1[i],
        par1.len() == ns1.len(),
        slot1.len() == ns1.len(),
        par2 == par1.push(par2.last()),
        slot2 == slot1.push(slot2.last()),
        0 <= x < ns1.len(),
        linked(ns1, par1, slot1, y, x),
    ensures
        linked(ns2, par2, slot2, y, x),
    decreases x,
{
    if x != y {
        lemma_linked_push(ns1, ns2, par1, par2, slot1, slot2, y, par1[x]);
    }
}

/// Pixel counts and leaf counts below a node are never negative.
proof fn lemma_subtree_nonneg(ns: Seq<OctreeNode>, w: int, y: int, h: nat)
    requires
        w == 0 || w == 4,
    ensures
        subtree(ns, w, y, h) >= 0,
    decreases h, 0int, 0int,
{
    if 0 <= y < ns.len() && !ns[y].is_leaf && h > 0 {
        lemma_csum_nonneg(ns, w, y, 8, (h - 1) as nat);
    }
}

proof fn lemma_csum_nonneg(ns: Seq<OctreeNode>, w: int, y: int, k: nat, h: nat)
    requires
        w == 0 || w == 4,
    ensures
        csum(ns, w, y, k, h) >= 0,
    decreases h, 1int, k,
{
    if k > 0 {
        lemma_csum_nonneg(ns, w, y, (k - 1) as nat, h);
        let o = ns[y].children@[k - 1];
        if o is Some {
            lemma_subtree_nonneg(ns, w, o->0 as int, h);
        }
    }
}

/// The first `k` child slots weigh at least as much as any one of them.
proof fn lemma_csum_ge_slot(ns: Seq<OctreeNode>, w: int, y: int, k: nat, h: nat, c: int)
    requires
        w == 0 || w == 4,
        0 <= c < k,
    ensures
        csum(ns, w, y, k, h) >= cterm(ns, w, ns[y].children@[c], h),
        csum(ns, w, y, k, h) <= csum(ns, w, y, 8, h) || k > 8,
    decreases k,
{
    lemma_csum_nonneg(ns, w, y, (k - 1) as nat, h);
    let o = ns[y].children@[k - 1];
    if o is Some {
        lemma_subtree_nonneg(ns, w, o->0 as int, h);
    }
    if c < k - 1 {
        lemma_csum_ge_slot(ns, w, y, (k - 1) as nat, h, c);
    }
    if k <= 8 {
        lemma_csum_mono(ns, w, y, k, h);
    }
}

/// Child-slot totals grow with the number of slots counted.
proof fn lemma_csum_mono(ns: Seq<OctreeNode>, w: int, y: int, k: nat, h: nat)
    requires
        w == 0 || w == 4,
        k <= 8,
    ensures
        csum(ns, w, y, k, h) <= csum(ns, w, y, 8, h),
    decreases 8 - k,
{
    if k < 8 {
        lemma_csum_mono(ns, w, y, k + 1, h);
        let o = ns[y].children@[k as int];
        if o is Some {
            lemma_subtree_nonneg(ns, w, o->0 as int, h);
        }
    }
}

/// A node weighs at least as much as any node that hangs below it.
proof fn lemma_subtree_ge_linked(
    ns: Seq<OctreeNode>,
    par: Seq<int>,
    slot: Seq<int>,
    dep: Seq<int>,
    hmax: int,
    w: int,
    y: int,
    x: int,
)
    requires
        links_ok(ns, par, slot, dep),
        shape_ok(ns, dep, hmax),
        w == 0 || w == 4,
        0 <= y < ns.len(),
        0 <= x < ns.len(),
        linked(ns, par, slot, y, x),
    ensures
        subtree(ns, w, y, (hmax - dep[y]) as nat) >= subtree(ns, w, x, (hmax - dep[x]) as nat),
    decreases dep[x] - dep[y],
{
    lemma_linked_depth(ns, par, slot, dep, y, x);
    if y != x {
        lemma_chain_child(ns, par, slot, dep, y, x);
        let z = chain_child(par, y, x);
        lemma_linked_depth(ns, par, slot, dep, z, x);
        lemma_subtree_ge_linked(ns, par, slot, dep, hmax, w, z, x);
        if ns[y].is_leaf {
            assert(ns[y].children@[slot[z]] is None);
        }
        lemma_csum_ge_slot(ns, w, y, 8, (hmax - dep[y] - 1) as nat, slot[z]);
    }
}

pub open spec fn pow8(h: nat) -> int
    decreases h,
{
    if h == 0 {
        1
    } else {
        8 * pow8((h - 1) as nat)
    }
}

proof fn lemma_pow8_pos(h: nat)
    ensures
        pow8(h) >= 1,
    decreases h,
{
    if h > 0 {
        lemma_pow8_pos((h - 1) as nat);
    }
}

/// A subtree of height `h` has at most `8^h` leaves.
proof fn lemma_leaves_bound(ns: Seq<OctreeNode>, y: int, h: nat)
    ensures
        subtree(ns, 4, y, h) <= pow8(h),
    decreases h, 0int, 0int,
{
    lemma_pow8_pos(h);
    if 0 <= y < ns.len() && !ns[y].is_leaf && h > 0 {
        lemma_leaves_bound_csum(ns, y, 8, (h - 1) as nat);
    }
}

proof fn lemma_leaves_bound_csum(ns: Seq<OctreeNode>, y: int, k: nat, h: nat)
    ensures
        csum(ns, 4, y, k, h) <= k * pow8(h),
    decreases h, 1int, k,
{
    if k == 0 {
        assert(k * pow8(h) == 0) by (nonlinear_arith)
            requires
                k == 0,
        ;
    } else {
        lemma_leaves_bound_csum(ns, y, (k - 1) as nat, h);
        let o = ns[y].children@[k - 1];
        lemma_pow8_pos(h);
        if o is Some {
            lemma_leaves_bound(ns, o->0 as int, h);
        }
        lemma_pow8_pos(h);
        let km1 = (k - 1) as nat;
        assert(km1 * pow8(h) + pow8(h) == k * pow8(h)) by (nonlinear_arith)
            requires
                km1 + 1 == k,
        ;
    }
}

proof fn lemma_pow8_8()
    ensures
        pow8(8) == 16777216,
{
    reveal_with_fuel(pow8, 9);
}


/// Leaves below `id` that absorbed at least one pixel, in child-slot order.
pub open spec fn leaves(ns: Seq<OctreeNode>, id: int, h: nat) -> Seq<OctreeNode>
    decreases h, 0int, 0int,
{
    if !(0 <= id < ns.len()) {
        Seq::empty()
    } else if ns[id].is_leaf {
        if ns[id].pixel_count > 0 {
            seq![ns[id]]
        } else {
            Seq::empty()
        }
    } else if h == 0 {
        Seq::empty()
    } else {
        cleaves(ns, id, 8, (h - 1) as nat)
    }
}

pub open spec fn cleaves(ns: Seq<OctreeNode>, id: int, k: nat, h: nat) -> Seq<OctreeNode>
    decreases h, 1int, k,
{
    if k == 0 {
        Seq::empty()
    } else {
        cleaves(ns, id, (k - 1) as nat, h) + match ns[id].children@[k - 1] {
            Some(j) => leaves(ns, j as int, h),
            None => Seq::empty(),
        }
    }
}

/// Sum of the weights of a sequence of nodes.
pub open spec fn wsum(s: Seq<OctreeNode>, w: int) -> int
    decreases s.len(),
{
    if s.len() == 0 {
        0
    } else {
        wsum(s.drop_last(), w) + weight(s.last(), w)
    }
}

proof fn lemma_wsum_add(a: Seq<OctreeNode>, b: Seq<OctreeNode>, w: int)
    ensures
        wsum(a + b, w) == wsum(a, w) + wsum(b, w),
    decreases b.len(),
{
    if b.len() > 0 {
        lemma_wsum_add(a, b.drop_last(), w);
        assert((a + b).drop_last() =~= a + b.drop_last());
    } else {
        assert(a + b =~= a);
    }
}

/// A property of nodes that every leaf of the arena with pixels satisfies.
pub open spec fn good_leaf(n: OctreeNode, lo: int, hi: int) -> bool {
    &&& n.is_leaf
    &&& n.pixel_count >= 1
    &&& forall|i: int|
        0 <= i < 3 ==> lo * n.pixel_count <= #[trigger] n.channel_sum@[i] <= hi * n.pixel_count
}

/// The collected leaves carry exactly the totals of the subtree they come
/// from, are no more numerous than its leaves, and are all good leaves.
proof fn lemma_leaves(ns: Seq<OctreeNode>, id: int, h: nat, w: int, lo: int, hi: int)
    requires
        0 <= w <= 3,
        forall|z: int|
            0 <= z < ns.len() && (#[trigger] ns[z]).is_leaf ==> forall|i: int|
                0 <= i < 3 ==> lo * ns[z].pixel_count <= #[trigger] ns[z].channel_sum@[i] <= hi
                    * ns[z].pixel_count,
    ensures
        wsum(leaves(ns, id, h), w) == subtree(ns, w, id, h),
        leaves(ns, id, h).len() <= subtree(ns, 4, id, h),
        forall|e: int| 0 <= e < leaves(ns, id, h).len() ==> good_leaf(#[trigger] leaves(ns, id, h)[e], lo, hi),
    decreases h, 0int, 0int,
{
    if 0 <= id < ns.len() {
        if ns[id].is_leaf {
            let n = ns[id];
            if n.pixel_count > 0 {
                assert(seq![n].drop_last() =~= Seq::<OctreeNode>::empty());
                assert(seq![n].last() == n);
                assert(wsum(Seq::<OctreeNode>::empty(), w) == 0);
                assert(wsum(seq![n], w) == weight(n, w));
                assert(leaves(ns, id, h) == seq![n]);
                assert(seq![n][0] == n);
            } else {
                assert forall|i: int| 0 <= i < 3 implies n.channel_sum@[i] == 0 by {
                    assert(lo * n.pixel_count == 0 && hi * n.pixel_count == 0) by (nonlinear_arith)
                        requires
                            n.pixel_count == 0,
                    ;
                }
            }
        } else if h > 0 {
            lemma_cleaves(ns, id, 8, (h - 1) as nat, w, lo, hi);
        }
    }
}

proof fn lemma_cleaves(ns: Seq<OctreeNode>, id: int, k: nat, h: nat, w: int, lo: int, hi: int)
    requires
        0 <= w <= 3,
        forall|z: int|
            0 <= z < ns.len() && (#[trigger] ns[z]).is_leaf ==> forall|i: int|
                0 <= i < 3 ==> lo * ns[z].pixel_count <= #[trigger] ns[z].channel_sum@[i] <= hi
                    * ns[z].pixel_count,
    ensures
        wsum(cleaves(ns, id, k, h), w) == csum(ns, w, id, k, h),
        cleaves(ns, id, k, h).len() <= csum(ns, 4, id, k, h),
        forall|e: int|
            0 <= e < cleaves(ns, id, k, h).len() ==> good_leaf(#[trigger] cleaves(ns, id, k, h)[e], lo, hi),
    decreases h, 1int, k,
{
    if k > 0 {
        lemma_cleaves(ns, id, (k - 1) as nat, h, w, lo, hi);
        let a = cleaves(ns, id, (k - 1) as nat, h);
        let b = match ns[id].children@[k - 1] {
            Some(j) => leaves(ns, j as int, h),
            None => Seq::empty(),
        };
        match ns[id].children@[k - 1] {
            Some(j) => {
                lemma_leaves(ns, j as int, h, w, lo, hi);
            },
            None => {},
        }
        lemma_wsum_add(a, b, w);
        assert forall|e: int| 0 <= e < (a + b).len() implies good_leaf(#[trigger] (a + b)[e], lo, hi) by {
            if e < a.len() {
                assert((a + b)[e] == a[e]);
            } else {
                assert((a + b)[e] == b[e - a.len()]);
            }
        }
    }
}

/// A child slot range with no children holds nothing.
proof fn lemma_csum_no_children(ns: Seq<OctreeNode>, w: int, id: int, k: nat, h: nat)
    requires
        k <= 8,
        forall|c: int| 0 <= c < 8 ==> ns[id].children@[c] is None,
    ensures
        csum(ns, w, id, k, h) == 0,
    decreases k,
{
    if k > 0 {
        lemma_csum_no_children(ns, w, id, (k - 1) as nat, h);
    }
}

/// If every node but the root is a leaf, the tree has at most eight leaves.
proof fn lemma_flat_tree(ns: Seq<OctreeNode>, k: nat, h: nat)
    requires
        k <= 8,
        forall|z: int| 0 < z < ns.len() ==> (#[trigger] ns[z]).is_leaf,
        forall|c: int|
            0 <= c < 8 && (#[trigger] ns[0].children@[c]) is Some ==> 0 < ns[0].children@[c]->0 < ns.len(),
    ensures
        csum(ns, 4, 0, k, h) <= k,
    decreases k,
{
    if k > 0 {
        lemma_flat_tree(ns, (k - 1) as nat, h);
        let o = ns[0].children@[k - 1];
        if o is Some {
            assert(ns[0].children@[k - 1] is Some);
            let j = o->0 as int;
            assert(0 < j < ns.len());
            assert(ns[j].is_leaf);
            assert(subtree(ns, 4, j, h) == 1);
        }
    }
}

/// Tree depth for the octree quantiser. Valid range is 1–8, matching the
/// 8 bits per colour channel.
#[derive(Debug, Clone, Copy, PartialEq, Eq, Structural)]
pub enum OctreeDepth {
    D1,
    D2,
    D3,
    D4,
    D5,
    D6,
    D7,
    D8,
}

/// The number of levels that a depth stands for.
pub open spec fn depth_value(d: OctreeDepth) -> int {
    match d {
        OctreeDepth::D1 => 1,
        OctreeDepth::D2 => 2,
        OctreeDepth::D3 => 3,
        OctreeDepth::D4 => 4,
        OctreeDepth::D5 => 5,
        OctreeDepth::D6 => 6,
        OctreeDepth::D7 => 7,
        OctreeDepth::D8 => 8,
    }
}

impl OctreeDepth {
    /// The depth of `v` levels; values outside 1–7 give the full depth 8.
    pub fn from_u32(v: u32) -> (d: Self)
        ensures
            depth_value(d) == if 1 <= v <= 7 {
                v as int
            } else {
                8
            },
    {
        match v {
            1 => OctreeDepth::D1,
            2 => OctreeDepth::D2,
            3 => OctreeDepth::D3,
            4 => OctreeDepth::D4,
            5 => OctreeDepth::D5,
            6 => OctreeDepth::D6,
            7 => OctreeDepth::D7,
            _ => OctreeDepth::D8,
        }
    }

    fn as_usize(self) -> (n: usize)
        ensures
            n == depth_value(self),
            1 <= n <= 8,
    {
        match self {
            OctreeDepth::D1 => 1,
            OctreeDepth::D2 => 2,
            OctreeDepth::D3 => 3,
            OctreeDepth::D4 => 4,
            OctreeDepth::D5 => 5,
            OctreeDepth::D6 => 6,
            OctreeDepth::D7 => 7,
            OctreeDepth::D8 => 8,
        }
    }
}

/// Bit `7 - level` of a channel value.
pub open spec fn channel_bit(v: i32, level: int) -> bool {
    v & (128i32 >> (level as i32)) != 0
}

/// The child slot that a colour takes at `level`: bit `7 - level` of the
/// first, second and third channel give the slot's bits 2, 1 and 0.
pub open spec fn octant(c: (i32, i32, i32), level: int) -> int {
    (if channel_bit(c.0, level) {
        4int
    } else {
        0
    }) + (if channel_bit(c.1, level) {
        2int
    } else {
        0
    }) + (if channel_bit(c.2, level) {
        1int
    } else {
        0
    })
}

proof fn lemma_channel_bit_arith(v: i32, level: int)
    requires
        0 <= v < 256,
        0 <= level < 8,
    ensures
        channel_bit(v, level) == ((v as int / pow2((7 - level) as nat) as int) % 2 == 1),
{
    lemma2_to64();
    if level == 0 {
        assert((v & (128i32 >> 0i32) != 0) == ((v / 128) % 2 == 1)) by (bit_vector)
            requires
                0 <= v < 256,
        ;
        assert((level as i32) == 0i32);
        assert(pow2((7 - level) as nat) == 128);
        assert(channel_bit(v, level) == (v & (128i32 >> 0i32) != 0));
        assert((v / 128) as int == v as int / 128);
        assert(((v / 128) % 2 == 1) == ((v as int / 128) % 2 == 1));
    } else if level == 1 {
        assert((v & (128i32 >> 1i32) != 0) == ((v / 64) % 2 == 1)) by (bit_vector)
            requires
                0 <= v < 256,
        ;
        assert((level as i32) == 1i32);
        assert(pow2((7 - level) as nat) == 64);
        assert(channel_bit(v, level) == (v & (128i32 >> 1i32) != 0));
        assert((v / 64) as int == v as int / 64);
        assert(((v / 64) % 2 == 1) == ((v as int / 64) % 2 == 1));
    } else if level == 2 {
        assert((v & (128i32 >> 2i32) != 0) == ((v / 32) % 2 == 1)) by (bit_vector)
            requires
                0 <= v < 256,
        ;
        assert((level as i32) == 2i32);
        assert(pow2((7 - level) as nat) == 32);
        assert(channel_bit(v, level) == (v & (128i32 >> 2i32) != 0));
        assert((v / 32) as int == v as int / 32);
        assert(((v / 32) % 2 == 1) == ((v as int / 32) % 2 == 1));
    } else if level == 3 {
        assert((v & (128i32 >> 3i32) != 0) == ((v / 16) % 2 == 1)) by (bit_vector)
            requires
                0 <= v < 256,
        ;
        assert((level as i32) == 3i32);
        assert(pow2((7 - level) as nat) == 16);
        assert(channel_bit(v, level) == (v & (128i32 >> 3i32) != 0));
        assert((v / 16) as int == v as int / 16);
        assert(((v / 16) % 2 == 1) == ((v as int / 16) % 2 == 1));
    } else if level == 4 {
        assert((v & (128i32 >> 4i32) != 0) == ((v / 8) % 2 == 1)) by (bit_vector)
            requires
                0 <= v < 256,
        ;
        assert((level as i32) == 4i32);
        assert(pow2((7 - level) as nat) == 8);
        assert(channel_bit(v, level) == (v & (128i32 >> 4i32) != 0));
        assert((v / 8) as int == v as int / 8);
        assert(((v / 8) % 2 == 1) == ((v as int / 8) % 2 == 1));
    } else if level == 5 {
        assert((v & (128i32 >> 5i32) != 0) == ((v / 4) % 2 == 1)) by (bit_vector)
            requires
                0 <= v < 256,
        ;
        assert((level as i32) == 5i32);
        assert(pow2((7 - level) as nat) == 4);
        assert(channel_bit(v, level) == (v & (128i32 >> 5i32) != 0));
        assert((v / 4) as int == v as int / 4);
        assert(((v / 4) % 2 == 1) == ((v as int / 4) % 2 == 1));
    } else if level == 6 {
        assert((v & (128i32 >> 6i32) != 0) == ((v / 2) % 2 == 1)) by (bit_vector)
            requires
                0 <= v < 256,
        ;
        assert((level as i32) == 6i32);
        assert(pow2((7 - level) as nat) == 2);
        assert(channel_bit(v, level) == (v & (128i32 >> 6i32) != 0));
        assert((v / 2) as int == v as int / 2);
        assert(((v / 2) % 2 == 1) == ((v as int / 2) % 2 == 1));
    } else {
        assert((v & (128i32 >> 7i32) != 0) == (v % 2 == 1)) by (bit_vector)
            requires
                0 <= v < 256,
        ;
        assert((level as i32) == 7i32);
        assert(pow2((7 - level) as nat) == 1);
        assert(channel_bit(v, level) == (v & (128i32 >> 7i32) != 0));
        assert(v as int == v as int / 1);
        assert((v % 2 == 1) == ((v as int / 1) % 2 == 1));
    }
}

/// The child slot at `level` is read from bit `7 - level` of each channel,
/// most significant bit first: the first channel's bit is worth 4, the
/// second's 2 and the third's 1. At the root that is whether each channel
/// is at least 128.
pub proof fn lemma_octant_msb_first(c: (i32, i32, i32), level: int)
    requires
        0 <= c.0 < 256,
        0 <= c.1 < 256,
        0 <= c.2 < 256,
        0 <= level < 8,
    ensures
        octant(c, level) == 4 * ((c.0 as int / pow2((7 - level) as nat) as int) % 2) + 2 * ((
        c.1 as int / pow2((7 - level) as nat) as int) % 2) + (c.2 as int / pow2(
            (7 - level) as nat,
        ) as int) % 2,
        level == 0 ==> octant(c, level) == (if c.0 >= 128 {
            4int
        } else {
            0
        }) + (if c.1 >= 128 {
            2int
        } else {
            0
        }) + (if c.2 >= 128 {
            1int
        } else {
            0
        }),
{
    lemma_channel_bit_arith(c.0, level);
    lemma_channel_bit_arith(c.1, level);
    lemma_channel_bit_arith(c.2, level);
    lemma2_to64();
    if level == 0 {
        assert(pow2((7 - level) as nat) == 128);
        assert(c.0 as int / 128 == (if c.0 >= 128 { 1int } else { 0 }));
        assert(c.1 as int / 128 == (if c.1 >= 128 { 1int } else { 0 }));
        assert(c.2 as int / 128 == (if c.2 >= 128 { 1int } else { 0 }));
    }
}

/// Colours whose channels agree on their top `depth` bits take the same child
/// slot at every level above `depth`, and so follow the same path down to it.
pub proof fn lemma_octant_shared_prefix(c: (i32, i32, i32), d: (i32, i32, i32), depth: int, level: int)
    requires
        0 <= c.0 < 256,
        0 <= c.1 < 256,
        0 <= c.2 < 256,
        0 <= d.0 < 256,
        0 <= d.1 < 256,
        0 <= d.2 < 256,
        0 <= level < depth <= 8,
        c.0 as int / pow2((8 - depth) as nat) as int == d.0 as int / pow2((8 - depth) as nat) as int,
        c.1 as int / pow2((8 - depth) as nat) as int == d.1 as int / pow2((8 - depth) as nat) as int,
        c.2 as int / pow2((8 - depth) as nat) as int == d.2 as int / pow2((8 - depth) as nat) as int,
    ensures
        octant(c, level) == octant(d, level),
{
    lemma_octant_msb_first(c, level);
    lemma_octant_msb_first(d, level);
    lemma_prefix_bit(c.0 as int, d.0 as int, depth, level);
    lemma_prefix_bit(c.1 as int, d.1 as int, depth, level);
    lemma_prefix_bit(c.2 as int, d.2 as int, depth, level);
}

proof fn lemma_prefix_bit(u: int, v: int, depth: int, level: int)
    requires
        0 <= u,
        0 <= v,
        0 <= level < depth <= 8,
        u / pow2((8 - depth) as nat) as int == v / pow2((8 - depth) as nat) as int,
    ensures
        u / pow2((7 - level) as nat) as int == v / pow2((7 - level) as nat) as int,
{
    let a = pow2((8 - depth) as nat) as int;
    let b = pow2((depth - 1 - level) as nat) as int;
    lemma_pow2_adds((8 - depth) as nat, (depth - 1 - level) as nat);
    lemma_pow2_pos((8 - depth) as nat);
    lemma_pow2_pos((depth - 1 - level) as nat);
    lemma_div_denominator(u, a, b);
    lemma_div_denominator(v, a, b);
}

fn get_color_index(color: (i32, i32, i32), level: usize) -> (index: usize)
    requires
        level < 8,
    ensures
        index == octant(color, level as int),
        index < 8,
{
    let (c0, c1, c2) = color;
    let mask: i32 = 128i32 >> (level as i32);
    let mut index: usize = 0;
    if c0 & mask != 0 {
        index = index + 4;
    }
    if c1 & mask != 0 {
        index = index + 2;
    }
    if c2 & mask != 0 {
        index = index + 1;
    }
    index
}

fn empty_node(is_leaf: bool) -> (n: OctreeNode)
    ensures
        n.is_leaf == is_leaf,
        n.pixel_count == 0,
        forall|c: int| 0 <= c < 8 ==> n.children@[c] is None,
        n.children@.len() == 8,
        forall|i: int| 0 <= i < 3 ==> n.channel_sum@[i] == 0,
{
    OctreeNode {
        children: [None, None, None, None, None, None, None, None],
        pixel_count: 0,
        channel_sum: [0, 0, 0],
        is_leaf,
    }
}

/// Sum of the number of entries of the reducible lists.
pub open spec fn list_total(l: Seq<Vec<usize>>) -> int
    decreases l.len(),
{
    if l.len() == 0 {
        0
    } else {
        list_total(l.drop_last()) + l.last()@.len()
    }
}

proof fn lemma_list_total_update(l: Seq<Vec<usize>>, d: int, v: Vec<usize>)
    requires
        0 <= d < l.len(),
    ensures
        list_total(l.update(d, v)) == list_total(l) - l[d]@.len() + v@.len(),
        list_total(l) >= 0,
    decreases l.len(),
{
    if d < l.len() - 1 {
        lemma_list_total_update(l.drop_last(), d, v);
        assert(l.update(d, v).drop_last() =~= l.drop_last().update(d, v));
    } else {
        assert(l.update(d, v).drop_last() =~= l.drop_last());
        lemma_list_total_nonneg(l.drop_last());
    }
    lemma_list_total_nonneg(l);
}

proof fn lemma_list_total_nonneg(l: Seq<Vec<usize>>)
    ensures
        list_total(l) >= 0,
    decreases l.len(),
{
    if l.len() > 0 {
        lemma_list_total_nonneg(l.drop_last());
    }
}

/// An octree as the quantiser sees it: the node arena, the inner nodes
/// listed per depth as candidates for folding, and the number of leaves.
pub type OctState = (Seq<OctreeNode>, Seq<Seq<usize>>, int);

/// `n` is a node with no children and no pixels.
pub open spec fn fresh_node(n: OctreeNode, leaf: bool) -> bool {
    &&& n.is_leaf == leaf
    &&& n.pixel_count == 0
    &&& n.children@.len() == 8
    &&& forall|c: int| 0 <= c < 8 ==> (#[trigger] n.children@[c]) is None
    &&& forall|i: int| 0 <= i < 3 ==> #[trigger] n.channel_sum@[i] == 0
}

/// The empty tree: an inner root alone, no folding candidates, no leaves.
pub open spec fn tree_start(s: OctState) -> bool {
    &&& s.0.len() == 1
    &&& fresh_node(s.0[0], false)
    &&& s.1.len() == 8
    &&& forall|d: int| 0 <= d < 8 ==> (#[trigger] s.1[d]).len() == 0
    &&& s.2 == 0
}

/// The node the descent of `color` moves to from `node` at `depth`: the
/// child in the colour's octant there, or the node about to be added.
pub open spec fn next_node(a: OctState, node: int, color: (i32, i32, i32), depth: int) -> int {
    match a.0[node].children@[octant(color, depth)] {
        Some(c) => c as int,
        None => a.0.len() as int,
    }
}

/// A descent of a colour from a node at `depth` goes through the child slot
/// read from bit `7 - depth` of each channel, most significant bit first
/// (worth 4, 2 and 1 for the three channels): after the step, that slot of
/// the node holds the node the descent moves to.
pub proof fn lemma_descent_slot_msb_first(
    a: OctState,
    b: OctState,
    node: int,
    depth: int,
    color: (i32, i32, i32),
    hmax: int,
)
    requires
        descend_step(a, b, node, depth, color, hmax),
        0 <= node < a.0.len(),
        0 <= depth < 8,
        0 <= color.0 < 256,
        0 <= color.1 < 256,
        0 <= color.2 < 256,
    ensures
        ({
            let e = pow2((7 - depth) as nat) as int;
            let slot = 4 * ((color.0 as int / e) % 2) + 2 * ((color.1 as int / e) % 2) + (color.2 as int / e) % 2;
            b.0[node].children@[slot] == Some(next_node(a, node, color, depth) as usize)
        }),
{
    lemma_octant_msb_first(color, depth);
}

/// One level of the descent of `color` from `node` at `depth`: when the
/// child in the colour's octant is missing, a fresh node is added there (a
/// leaf at the depth limit `hmax`, else an inner node listed for folding at
/// its depth).
pub open spec fn descend_step(
    a: OctState,
    b: OctState,
    node: int,
    depth: int,
    color: (i32, i32, i32),
    hmax: int,
) -> bool {
    let idx = octant(color, depth);
    match a.0[node].children@[idx] {
        Some(_) => b == a,
        None => {
            let id = a.0.len() as int;
            let leaf = depth + 1 >= hmax;
            &&& b.0.len() == id + 1
            &&& fresh_node(b.0[id], leaf)
            &&& forall|z: int| 0 <= z < id && z != node ==> #[trigger] b.0[z] == a.0[z]
            &&& b.0[node].children@ == a.0[node].children@.update(idx, Some(id as usize))
            &&& b.0[node].pixel_count == a.0[node].pixel_count
            &&& b.0[node].channel_sum == a.0[node].channel_sum
            &&& b.0[node].is_leaf == a.0[node].is_leaf
            &&& b.1 == if leaf {
                a.1
            } else {
                a.1.update(depth + 1, a.1[depth + 1].push(id as usize))
            }
            &&& b.2 == a.2 + if leaf {
                1int
            } else {
                0
            }
        },
    }
}

/// `b` is `a` with `color` counted in leaf `node`.
pub open spec fn add_point(a: OctState, b: OctState, node: int, color: (i32, i32, i32)) -> bool {
    &&& b.0.len() == a.0.len()
    &&& forall|z: int| 0 <= z < a.0.len() && z != node ==> #[trigger] b.0[z] == a.0[z]
    &&& b.0[node].pixel_count == a.0[node].pixel_count + 1
    &&& b.0[node].channel_sum@[0] == a.0[node].channel_sum@[0] + color.0
    &&& b.0[node].channel_sum@[1] == a.0[node].channel_sum@[1] + color.1
    &&& b.0[node].channel_sum@[2] == a.0[node].channel_sum@[2] + color.2
    &&& b.0[node].children == a.0[node].children
    &&& b.0[node].is_leaf == a.0[node].is_leaf
    &&& b.1 == a.1
    &&& b.2 == a.2
}

/// The descent of `color` from the root of `a`, level by level, adding the
/// missing nodes: `ds[l]` is the tree and the node reached at depth `l`; it
/// stops at a leaf or at the depth limit `hmax`.
pub open spec fn descent(a: OctState, color: (i32, i32, i32), hmax: int, ds: Seq<(OctState, int)>) -> bool {
    &&& descended(a, color, hmax, ds)
    &&& ds.last().0.0[ds.last().1].is_leaf || ds.len() - 1 >= hmax
}

/// The first `ds.len() - 1` levels of the descent of `color` from the root
/// of `a` (see [`descent`]).
pub open spec fn descended(a: OctState, color: (i32, i32, i32), hmax: int, ds: Seq<(OctState, int)>) -> bool {
    &&& ds.len() >= 1
    &&& ds[0] == (a, 0int)
    &&& forall|l: int|
        0 <= l < ds.len() - 1 ==> {
            &&& !(#[trigger] ds[l]).0.0[ds[l].1].is_leaf
            &&& l < hmax
            &&& descend_step(ds[l].0, ds[l + 1].0, ds[l].1, l, color, hmax)
            &&& ds[l + 1].1 == next_node(ds[l].0, ds[l].1, color, l)
        }
}

/// The deepest depth below `d` whose folding list is not empty, or -1.
pub open spec fn deepest(red: Seq<Seq<usize>>, d: int) -> int
    decreases d,
{
    if d <= 0 {
        -1
    } else if red[d - 1].len() > 0 {
        d - 1
    } else {
        deepest(red, d - 1)
    }
}

/// The node folded next comes from the deepest level below `d` whose list
/// of candidates is not empty: every level between it and `d` has none, and
/// where every level below `d` has none there is no such level.
pub proof fn lemma_deepest_is_deepest(red: Seq<Seq<usize>>, d: int)
    requires
        0 <= d <= red.len(),
    ensures
        -1 <= deepest(red, d) < d,
        deepest(red, d) >= 0 ==> red[deepest(red, d)].len() > 0,
        forall|e: int| deepest(red, d) < e < d && e >= 0 ==> (#[trigger] red[e]).len() == 0,
    decreases d,
{
    if d > 0 && red[d - 1].len() == 0 {
        lemma_deepest_is_deepest(red, d - 1);
    }
}

/// Total weight (see [`weight`]) of the first `k` children of node `x`.
pub open spec fn child_sum(ns: Seq<OctreeNode>, x: int, w: int, k: nat) -> int
    decreases k,
{
    if k == 0 {
        0
    } else {
        child_sum(ns, x, w, (k - 1) as nat) + match ns[x].children@[k - 1] {
            Some(j) => weight(ns[j as int], w),
            None => 0,
        }
    }
}

/// One fold: the last node listed at the deepest non-empty depth leaves its
/// list and becomes a childless leaf carrying its children's pixel counts
/// and channel sums; its children stop counting as leaves and it starts.
pub open spec fn fold_step(a: OctState, b: OctState) -> bool {
    let d = deepest(a.1, 8);
    let x = a.1[d].last() as int;
    &&& d >= 0
    &&& b.1 == a.1.update(d, a.1[d].drop_last())
    &&& b.0.len() == a.0.len()
    &&& forall|z: int| 0 <= z < a.0.len() && z != x ==> #[trigger] b.0[z] == a.0[z]
    &&& b.0[x].is_leaf
    &&& forall|c: int| 0 <= c < 8 ==> (#[trigger] b.0[x].children@[c]) is None
    &&& b.0[x].pixel_count == child_sum(a.0, x, 0, 8)
    &&& forall|i: int| 0 <= i < 3 ==> #[trigger] b.0[x].channel_sum@[i] == child_sum(a.0, x, i + 1, 8)
    &&& b.2 == a.2 - child_sum(a.0, x, 4, 8) + 1
}

/// Folding while there are more than `max_colors` leaves and something is
/// left to fold: `rs` runs from `a` to `b`, one [`fold_step`] at a time.
pub open spec fn shrink(a: OctState, b: OctState, max_colors: int, rs: Seq<OctState>) -> bool {
    &&& rs.len() >= 1
    &&& rs[0] == a
    &&& rs.last() == b
    &&& forall|i: int|
        0 <= i < rs.len() - 1 ==> (#[trigger] rs[i]).2 > max_colors && fold_step(rs[i], rs[i + 1])
    &&& b.2 <= max_colors || deepest(b.1, 8) < 0
}

/// Inserting `color` leads from `a` to `b` by the descent `ds`, the count
/// at the leaf reached, and the folds `rs`.
pub open spec fn insert_via(
    a: OctState,
    b: OctState,
    color: (i32, i32, i32),
    hmax: int,
    max_colors: int,
    ds: Seq<(OctState, int)>,
    rs: Seq<OctState>,
) -> bool {
    &&& descent(a, color, hmax, ds)
    &&& add_point(ds.last().0, rs[0], ds.last().1, color)
    &&& shrink(rs[0], b, max_colors, rs)
}

/// Inserting `color` into `a` gives `b`: the colour goes down the children
/// indexed by its bits at levels `0, 1, ...` (adding missing ones) to a leaf
/// or to depth `hmax`, is counted there, and then nodes are folded while
/// there are more than `max_colors` leaves.
pub open spec fn insert_step(a: OctState, b: OctState, color: (i32, i32, i32), hmax: int, max_colors: int) -> bool {
    exists|ds: Seq<(OctState, int)>, rs: Seq<OctState>| #[trigger] insert_via(a, b, color, hmax, max_colors, ds, rs)
}

/// The octree that the quantiser builds from `points`, inserted in order
/// into the empty tree with depth limit `hmax` and at most `k` leaves
/// wanted: `states[i]` is the tree after the first `i` points.
pub open spec fn octree_build(points: Seq<(i32, i32, i32)>, k: int, hmax: int, states: Seq<OctState>) -> bool {
    &&& states.len() == points.len() + 1
    &&& tree_start(states[0])
    &&& forall|i: int|
        0 <= i < points.len() ==> insert_step(#[trigger] states[i], states[i + 1], points[i], hmax, k)
}

/// The pixel-holding leaves of the octree built from `points`, in child-slot
/// order.
pub open spec fn octree_leaves_are(points: Seq<(i32, i32, i32)>, k: int, hmax: int, out: Seq<OctreeNode>) -> bool {
    exists|states: Seq<OctState>| #[trigger] octree_build(points, k, hmax, states) && out == leaves(states.last().0, 0, hmax as nat)
}

/// Every pixel-holding part of the tree is in use: each leaf hanging below a
/// node holds at least one pixel, and each inner node other than the root has
/// a child.
pub open spec fn pixels_placed(ns: Seq<OctreeNode>) -> bool {
    &&& forall|y: int, c: int|
        0 <= y < ns.len() && 0 <= c < 8 && (#[trigger] ns[y].children@[c] matches Some(j) && 0 <= j < ns.len()
            && ns[j as int].is_leaf) ==> ns[ns[y].children@[c]->0 as int].pixel_count >= 1
    &&& forall|x: int| 0 < x < ns.len() && !(#[trigger] ns[x]).is_leaf ==> child_sum(ns, x, 4, 8) >= 1
}

/// [`pixels_placed`], except at node `z`, which a descent has just reached.
pub open spec fn placed_but(ns: Seq<OctreeNode>, z: int) -> bool {
    &&& forall|y: int, c: int|
        0 <= y < ns.len() && 0 <= c < 8 && (#[trigger] ns[y].children@[c] matches Some(j) && 0 <= j < ns.len()
            && j != z && ns[j as int].is_leaf) ==> ns[ns[y].children@[c]->0 as int].pixel_count >= 1
    &&& forall|x: int| 0 < x < ns.len() && x != z && !(#[trigger] ns[x]).is_leaf ==> child_sum(ns, x, 4, 8) >= 1
}

proof fn lemma_child_sum_some(ns: Seq<OctreeNode>, x: int, k: nat, c: int)
    requires
        k <= 8,
        0 <= c < k,
        ns[x].children@[c] is Some,
    ensures
        child_sum(ns, x, 4, k) >= 1,
    decreases k,
{
    lemma_child_sum_nonneg4(ns, x, (k - 1) as nat);
    if c < k - 1 {
        lemma_child_sum_some(ns, x, (k - 1) as nat, c);
    }
}

proof fn lemma_child_sum_nonneg4(ns: Seq<OctreeNode>, x: int, k: nat)
    ensures
        child_sum(ns, x, 4, k) >= 0,
    decreases k,
{
    if k > 0 {
        lemma_child_sum_nonneg4(ns, x, (k - 1) as nat);
    }
}

proof fn lemma_child_sum_counts(ns: Seq<OctreeNode>, x: int, k: nat)
    requires
        k <= 8,
        forall|c: int|
            0 <= c < k && (#[trigger] ns[x].children@[c]) is Some ==> ns[ns[x].children@[c]->0 as int].pixel_count >= 1,
    ensures
        child_sum(ns, x, 0, k) >= child_sum(ns, x, 4, k),
    decreases k,
{
    if k > 0 {
        lemma_child_sum_counts(ns, x, (k - 1) as nat);
        let c = k - 1;
        if ns[x].children@[c] is Some {
            assert(ns[ns[x].children@[c]->0 as int].pixel_count >= 1);
        }
    }
}

/// Every child link of `ns` follows colour `c`: a node at depth `dep[y]` has
/// a child only in `c`'s octant at that depth.
pub open spec fn one_path(ns: Seq<OctreeNode>, dep: Seq<int>, c: (i32, i32, i32)) -> bool {
    forall|y: int, o: int|
        0 <= y < ns.len() && 0 <= o < 8 && (#[trigger] ns[y].children@[o]) is Some ==> o == octant(c, dep[y])
}

proof fn lemma_one_leaves(ns: Seq<OctreeNode>, dep: Seq<int>, c: (i32, i32, i32), id: int, h: nat)
    requires
        one_path(ns, dep, c),
    ensures
        leaves(ns, id, h).len() <= 1,
    decreases h, 0int, 0int,
{
    if 0 <= id < ns.len() && !ns[id].is_leaf && h > 0 {
        lemma_one_cleaves(ns, dep, c, id, 8, (h - 1) as nat);
    }
}

proof fn lemma_one_cleaves(ns: Seq<OctreeNode>, dep: Seq<int>, c: (i32, i32, i32), id: int, k: nat, h: nat)
    requires
        one_path(ns, dep, c),
        0 <= id < ns.len(),
        k <= 8,
    ensures
        cleaves(ns, id, k, h).len() <= 1,
        k <= octant(c, dep[id]) ==> cleaves(ns, id, k, h).len() == 0,
    decreases h, 1int, k,
{
    if k > 0 {
        lemma_one_cleaves(ns, dep, c, id, (k - 1) as nat, h);
        let o = k - 1;
        if let Some(j) = ns[id].children@[o] {
            assert(ns[id].children@[o] is Some);
            assert(o == octant(c, dep[id]));
            lemma_one_leaves(ns, dep, c, j as int, h);
        }
    }
}

proof fn lemma_one_alloc(
    ns0: Seq<OctreeNode>,
    dep0: Seq<int>,
    ns: Seq<OctreeNode>,
    dep: Seq<int>,
    node: int,
    idx: int,
    c: (i32, i32, i32),
)
    requires
        one_path(ns0, dep0, c),
        0 <= node < ns0.len(),
        dep0.len() == ns0.len(),
        ns.len() == ns0.len() + 1,
        dep.len() == ns.len(),
        forall|z: int| 0 <= z < ns0.len() ==> #[trigger] dep[z] == dep0[z],
        forall|z: int| 0 <= z < ns0.len() && z != node ==> #[trigger] ns[z] == ns0[z],
        ns[node].children@ == ns0[node].children@.update(idx, Some(ns0.len() as usize)),
        idx == octant(c, dep0[node]),
        forall|o: int| 0 <= o < 8 ==> (#[trigger] ns[ns0.len() as int].children@[o]) is None,
    ensures
        one_path(ns, dep, c),
{
    assert forall|y: int, o: int|
        0 <= y < ns.len() && 0 <= o < 8 && (#[trigger] ns[y].children@[o]) is Some implies o == octant(c, dep[y]) by {
        if y == node {
            if o != idx {
                assert(ns0[node].children@[o] == ns[node].children@[o]);
            }
        } else if y < ns0.len() {
            assert(ns[y] == ns0[y]);
        }
    }
}

proof fn lemma_one_same_children(ns0: Seq<OctreeNode>, ns: Seq<OctreeNode>, dep: Seq<int>, x: int, c: (i32, i32, i32))
    requires
        one_path(ns0, dep, c),
        ns.len() == ns0.len(),
        forall|z: int| 0 <= z < ns0.len() && z != x ==> #[trigger] ns[z] == ns0[z],
        forall|o: int| 0 <= o < 8 && (#[trigger] ns[x].children@[o]) is Some ==> ns0[x].children@[o] is Some,
    ensures
        one_path(ns, dep, c),
{
    assert forall|y: int, o: int|
        0 <= y < ns.len() && 0 <= o < 8 && (#[trigger] ns[y].children@[o]) is Some implies o == octant(c, dep[y]) by {
        if y != x {
            assert(ns[y] == ns0[y]);
        } else {
            assert(ns0[x].children@[o] is Some);
        }
    }
}

/// `t1` is `t0` with the last inner node listed at depth `d` folded into a
/// childless leaf that carries its children's pixel counts and channel sums:
/// it leaves that list, the children's leaves are no longer counted, and the
/// new leaf is.
spec fn folded(t0: Octree, t1: Octree, d: int) -> bool {
    let x = t0.reducible@[d]@.last() as int;
    let ns = t0.nodes@;
    let h1 = (t0.hmax@ - t0.dep@[x] - 1) as nat;
    &&& t1.reducible@.len() == 8
    &&& t1.reducible@[d]@ == t0.reducible@[d]@.drop_last()
    &&& forall|dd: int| 0 <= dd < 8 && dd != d ==> (#[trigger] t1.reducible@[dd])@ == t0.reducible@[dd]@
    &&& t1.nodes@.len() == ns.len()
    &&& forall|z: int| 0 <= z < ns.len() && z != x ==> #[trigger] t1.nodes@[z] == ns[z]
    &&& t1.nodes@[x].is_leaf
    &&& forall|c: int| 0 <= c < 8 ==> (#[trigger] t1.nodes@[x].children@[c]) is None
    &&& t1.nodes@[x].pixel_count == csum(ns, 0, x, 8, h1)
    &&& forall|i: int| 0 <= i < 3 ==> #[trigger] t1.nodes@[x].channel_sum@[i] == csum(ns, i + 1, x, 8, h1)
    &&& t1.leaf_count == t0.leaf_count - csum(ns, 4, x, 8, h1) + 1
}

proof fn lemma_deepest_is(red: Seq<Seq<usize>>, d: int, e: int)
    requires
        0 <= d < e <= 8,
        red[d].len() > 0,
        forall|dd: int| d < dd < 8 ==> (#[trigger] red[dd]).len() == 0,
    ensures
        deepest(red, e) == d,
    decreases e,
{
    if e > d + 1 {
        lemma_deepest_is(red, d, e - 1);
    }
}

proof fn lemma_deepest_none(red: Seq<Seq<usize>>, e: int)
    requires
        e <= 8,
        forall|dd: int| 0 <= dd < 8 ==> (#[trigger] red[dd]).len() == 0,
    ensures
        deepest(red, e) < 0,
    decreases e,
{
    if e > 0 {
        lemma_deepest_none(red, e - 1);
    }
}

proof fn lemma_child_sum(ns: Seq<OctreeNode>, x: int, w: int, k: nat, h: nat)
    requires
        k <= 8,
        forall|c: int|
            0 <= c < 8 && (#[trigger] ns[x].children@[c]) is Some ==> {
                let j = ns[x].children@[c]->0 as int;
                0 <= j < ns.len() && ns[j].is_leaf
            },
    ensures
        csum(ns, w, x, k, h) == child_sum(ns, x, w, k),
    decreases k,
{
    if k > 0 {
        lemma_child_sum(ns, x, w, (k - 1) as nat, h);
        let c = k - 1;
        if let Some(j) = ns[x].children@[c] {
            assert(ns[x].children@[c] is Some);
            assert(0 <= j < ns.len() && ns[j as int].is_leaf);
            assert(subtree(ns, w, j as int, h) == weight(ns[j as int], w));
        }
        assert(csum(ns, w, x, k, h) == csum(ns, w, x, (k - 1) as nat, h) + match ns[x].children@[c] {
            Some(j) => subtree(ns, w, j as int, h),
            None => 0,
        });
    }
}

proof fn lemma_child_sum4_same(ns1: Seq<OctreeNode>, ns2: Seq<OctreeNode>, x: int, k: nat)
    requires
        ns1[x].children == ns2[x].children,
    ensures
        child_sum(ns1, x, 4, k) == child_sum(ns2, x, 4, k),
    decreases k,
{
    if k > 0 {
        lemma_child_sum4_same(ns1, ns2, x, (k - 1) as nat);
    }
}

proof fn lemma_placed_move(ns: Seq<OctreeNode>, node: int, idx: int)
    requires
        0 <= node < ns.len(),
        0 <= idx < 8,
        placed_but(ns, node),
        !ns[node].is_leaf,
        ns[node].children@[idx] is Some,
    ensures
        placed_but(ns, ns[node].children@[idx]->0 as int),
{
    lemma_child_sum_some(ns, node, 8, idx);
}

proof fn lemma_placed_alloc(ns0: Seq<OctreeNode>, ns: Seq<OctreeNode>, node: int, idx: int)
    requires
        0 <= node < ns0.len(),
        0 <= idx < 8,
        placed_but(ns0, node),
        !ns0[node].is_leaf,
        forall|y: int, c: int|
            0 <= y < ns0.len() && 0 <= c < 8 && (#[trigger] ns0[y].children@[c]) is Some ==> ns0[y].children@[c]->0 < ns0.len(),
        ns.len() == ns0.len() + 1,
        ns.len() <= usize::MAX,
        forall|z: int| 0 <= z < ns0.len() && z != node ==> #[trigger] ns[z] == ns0[z],
        ns[node].children@ == ns0[node].children@.update(idx, Some(ns0.len() as usize)),
        ns[node].is_leaf == ns0[node].is_leaf,
        forall|c: int| 0 <= c < 8 ==> (#[trigger] ns[ns0.len() as int].children@[c]) is None,
    ensures
        placed_but(ns, ns0.len() as int),
{
    let nid = ns0.len() as int;
    assert forall|y: int, c: int|
        0 <= y < ns.len() && 0 <= c < 8 && (#[trigger] ns[y].children@[c] matches Some(j) && 0 <= j < ns.len() && j
            != nid && ns[j as int].is_leaf) implies ns[ns[y].children@[c]->0 as int].pixel_count >= 1 by {
        let j = ns[y].children@[c]->0 as int;
        if y == node {
            if c == idx {
                assert(ns[y].children@[c] == Some(nid as usize));
            }
            assert(ns0[node].children@[c] == ns[node].children@[c]);
        } else {
            assert(ns[y] == ns0[y]);
        }
        assert(j < ns0.len());
        if j != node {
            assert(ns[j] == ns0[j]);
        }
    }
    assert forall|x: int| 0 < x < ns.len() && x != nid && !(#[trigger] ns[x]).is_leaf implies child_sum(ns, x, 4, 8) >= 1 by {
        if x == node {
            lemma_child_sum_some(ns, node, 8, idx);
        } else {
            assert(ns[x] == ns0[x]);
            lemma_child_sum4_same(ns0, ns, x, 8);
        }
    }
}

proof fn lemma_placed_count(ns0: Seq<OctreeNode>, ns: Seq<OctreeNode>, node: int)
    requires
        0 <= node < ns0.len(),
        placed_but(ns0, node),
        ns0[node].is_leaf,
        ns.len() == ns0.len(),
        forall|z: int| 0 <= z < ns0.len() && z != node ==> #[trigger] ns[z] == ns0[z],
        ns[node].is_leaf,
        ns[node].children == ns0[node].children,
        ns[node].pixel_count >= 1,
    ensures
        pixels_placed(ns),
{
    assert forall|y: int, c: int|
        0 <= y < ns.len() && 0 <= c < 8 && (#[trigger] ns[y].children@[c] matches Some(j) && 0 <= j < ns.len()
            && ns[j as int].is_leaf) implies ns[ns[y].children@[c]->0 as int].pixel_count >= 1 by {
        let j = ns[y].children@[c]->0 as int;
        if y != node {
            assert(ns[y] == ns0[y]);
        }
        assert(ns0[y].children@[c] == ns[y].children@[c]);
        if j != node {
            assert(ns[j] == ns0[j]);
        }
    }
    assert forall|x: int| 0 < x < ns.len() && !(#[trigger] ns[x]).is_leaf implies child_sum(ns, x, 4, 8) >= 1 by {
        assert(x != node);
        assert(ns[x] == ns0[x]);
        lemma_child_sum4_same(ns0, ns, x, 8);
    }
}

proof fn lemma_deepest_props(red: Seq<Seq<usize>>, e: int)
    requires
        0 <= e <= 8,
        deepest(red, e) >= 0,
    ensures
        0 <= deepest(red, e) < e,
        red[deepest(red, e)].len() > 0,
        forall|dd: int| deepest(red, e) < dd < e ==> (#[trigger] red[dd]).len() == 0,
    decreases e,
{
    if e > 0 && red[e - 1].len() == 0 {
        lemma_deepest_props(red, e - 1);
    }
}

proof fn lemma_placed_fold(t: Octree, b: OctState)
    requires
        t.wf(),
        pixels_placed(t.nodes@),
        fold_step(t.model(), b),
    ensures
        pixels_placed(b.0),
{
    let a = t.model();
    let ns = t.nodes@;
    let d = deepest(a.1, 8);
    lemma_deepest_props(a.1, 8);
    assert(a.1[d] == t.reducible@[d]@);
    let l = t.reducible@[d]@.len() - 1;
    assert(t.reducible@[d]@[l] == a.1[d].last());
    let x = a.1[d].last() as int;
    assert forall|dd: int| d < dd < 8 implies (#[trigger] t.reducible@[dd])@.len() == 0 by {
        assert(a.1[dd] == t.reducible@[dd]@);
    }
    lemma_reduce_children_are_leaves(t, x, d);
    assert forall|c: int| 0 <= c < 8 && (#[trigger] ns[x].children@[c]) is Some implies ns[ns[x].children@[c]->0 as int].pixel_count >= 1 by {
        let j = ns[x].children@[c]->0 as int;
        assert(ns[x].children@[c] matches Some(jj) && 0 <= jj < ns.len() && ns[jj as int].is_leaf);
    }
    lemma_child_sum_counts(ns, x, 8);
    assert(child_sum(ns, x, 4, 8) >= 1);
    let nb = b.0;
    assert forall|y: int, c: int|
        0 <= y < nb.len() && 0 <= c < 8 && (#[trigger] nb[y].children@[c] matches Some(j) && 0 <= j < nb.len()
            && nb[j as int].is_leaf) implies nb[nb[y].children@[c]->0 as int].pixel_count >= 1 by {
        let j = nb[y].children@[c]->0 as int;
        if y == x {
            assert(nb[x].children@[c] is None);
        } else {
            assert(nb[y] == ns[y]);
            if j != x {
                assert(nb[j] == ns[j]);
            }
        }
    }
    assert forall|z: int| 0 < z < nb.len() && !(#[trigger] nb[z]).is_leaf implies child_sum(nb, z, 4, 8) >= 1 by {
        assert(z != x);
        assert(nb[z] == ns[z]);
        lemma_child_sum4_same(ns, nb, z, 8);
    }
}

#[verifier::spinoff_prover]
#[verifier::rlimit(40)]
proof fn lemma_descended_push(
    a0: OctState,
    color: (i32, i32, i32),
    hmax: int,
    ds: Seq<(OctState, int)>,
    a: OctState,
    b: OctState,
    node: int,
    depth: int,
)
    requires
        descended(a0, color, hmax, ds),
        ds.len() == depth + 1,
        ds.last() == (a, node),
        !a.0[node].is_leaf,
        depth < hmax,
        descend_step(a, b, node, depth, color, hmax),
    ensures
        descended(a0, color, hmax, ds.push((b, next_node(a, node, color, depth)))),
{
    let ds2 = ds.push((b, next_node(a, node, color, depth)));
    assert forall|l: int| 0 <= l < ds2.len() - 1 implies {
        &&& !(#[trigger] ds2[l]).0.0[ds2[l].1].is_leaf
        &&& l < hmax
        &&& descend_step(ds2[l].0, ds2[l + 1].0, ds2[l].1, l, color, hmax)
        &&& ds2[l + 1].1 == next_node(ds2[l].0, ds2[l].1, color, l)
    } by {
        if l < ds.len() - 1 {
            assert(ds2[l] == ds[l] && ds2[l + 1] == ds[l + 1]);
        } else {
            assert(ds2[l] == (a, node));
        }
    }
}

/// An octree over an arena of nodes, node 0 being the root.
struct Octree {
    nodes: Vec<OctreeNode>,
    /// Inner nodes at each depth, candidates for folding into a leaf.
    reducible: Vec<Vec<usize>>,
    leaf_count: usize,
    par: Ghost<Seq<int>>,
    slot: Ghost<Seq<int>>,
    dep: Ghost<Seq<int>>,
    hmax: Ghost<int>,
    lo: Ghost<int>,
    hi: Ghost<int>,
}

impl Octree {
    spec fn wf(&self) -> bool {
        let ns = self.nodes@;
        let par = self.par@;
        let slot = self.slot@;
        let dep = self.dep@;
        let hmax = self.hmax@;
        let lo = self.lo@;
        let hi = self.hi@;
        let red = self.reducible@;
        &&& 1 <= hmax <= 8
        &&& ns.len() >= 1
        &&& links_ok(ns, par, slot, dep)
        &&& shape_ok(ns, dep, hmax)
        &&& !ns[0].is_leaf
        &&& forall|id: int| 0 <= id < ns.len() && dep[id] == hmax ==> (#[trigger] ns[id]).is_leaf
        &&& forall|id: int|
            0 <= id < ns.len() && !(#[trigger] ns[id]).is_leaf ==> {
                &&& ns[id].pixel_count == 0
                &&& forall|i: int| 0 <= i < 3 ==> ns[id].channel_sum@[i] == 0
            }
        &&& -0x8000_0000 <= lo <= 0 <= hi <= 0x8000_0000
        &&& forall|z: int|
            0 <= z < ns.len() && (#[trigger] ns[z]).is_leaf ==> forall|i: int|
                0 <= i < 3 ==> lo * ns[z].pixel_count <= #[trigger] ns[z].channel_sum@[i] <= hi
                    * ns[z].pixel_count
        &&& red.len() == 8
        &&& forall|d: int, i: int|
            0 <= d < 8 && 0 <= i < red[d]@.len() ==> {
                let x = #[trigger] red[d]@[i] as int;
                &&& 0 < x < ns.len()
                &&& dep[x] == d
                &&& !ns[x].is_leaf
                &&& linked(ns, par, slot, 0, x)
            }
        &&& forall|d: int, i: int, j: int|
            0 <= d < 8 && 0 <= i < red[d]@.len() && 0 <= j < red[d]@.len() && i != j ==> #[trigger] red[d]@[i]
                != #[trigger] red[d]@[j]
        &&& forall|x: int|
            0 < x < ns.len() && !(#[trigger] ns[x]).is_leaf ==> red[dep[x]]@.contains(x as usize)
        &&& self.leaf_count == subtree(ns, 4, 0, hmax as nat)
        &&& subtree(ns, 0, 0, hmax as nat) < 0x8000_0000
    }

    spec fn total(&self, w: int) -> int {
        subtree(self.nodes@, w, 0, self.hmax@ as nat)
    }

    /// The tree as the quantiser sees it.
    spec fn model(&self) -> OctState {
        (self.nodes@, self.reducible@.map_values(|v: Vec<usize>| v@), self.leaf_count as int)
    }

    fn new(max_depth: usize, Ghost(lo): Ghost<int>, Ghost(hi): Ghost<int>) -> (t: Self)
        requires
            1 <= max_depth <= 8,
            -0x8000_0000 <= lo <= 0 <= hi <= 0x8000_0000,
        ensures
            t.wf(),
            t.hmax@ == max_depth,
            t.lo@ == lo,
            t.hi@ == hi,
            t.leaf_count == 0,
            forall|w: int| 0 <= w <= 3 ==> t.total(w) == 0,
            tree_start(t.model()),
            pixels_placed(t.nodes@),
    {
        let root = empty_node(false);
        let mut nodes: Vec<OctreeNode> = Vec::new();
        nodes.push(root);
        let mut reducible: Vec<Vec<usize>> = Vec::new();
        let mut d: usize = 0;
        while d < 8
            invariant
                d <= 8,
                reducible@.len() == d,
                forall|i: int| 0 <= i < d ==> (#[trigger] reducible@[i])@.len() == 0,
            decreases 8 - d,
        {
            reducible.push(Vec::new());
            d = d + 1;
        }
        let ghost zero = seq![0int];
        let t = Octree {
            nodes,
            reducible,
            leaf_count: 0,
            par: Ghost(zero),
            slot: Ghost(zero),
            dep: Ghost(zero),
            hmax: Ghost(max_depth as int),
            lo: Ghost(lo),
            hi: Ghost(hi),
        };
        proof {
            let ns = t.nodes@;
            assert(ns.len() == 1);
            assert forall|w: int| 0 <= w <= 4 implies #[trigger] subtree(ns, w, 0, max_depth as nat) == 0 by {
                lemma_csum_no_children(ns, w, 0, 8, (max_depth - 1) as nat);
            }
            assert(t.leaf_count == subtree(ns, 4, 0, t.hmax@ as nat));
            assert(links_ok(ns, t.par@, t.slot@, t.dep@));
            assert(shape_ok(ns, t.dep@, t.hmax@));
            assert forall|z: int|
                0 <= z < ns.len() && (#[trigger] ns[z]).is_leaf implies forall|i: int|
                0 <= i < 3 ==> lo * ns[z].pixel_count <= #[trigger] ns[z].channel_sum@[i] <= hi
                    * ns[z].pixel_count by {}
        }
        t
    }

    fn alloc_node(&mut self, depth: usize, max_depth: usize, Ghost(parent): Ghost<int>, Ghost(s): Ghost<int>) -> (id: usize)
        requires
            old(self).leaf_count < usize::MAX,
            old(self).reducible@.len() == 8,
            depth >= max_depth || depth < 8,
        ensures
            id == old(self).nodes@.len(),
            final(self).nodes@.len() == old(self).nodes@.len() + 1,
            forall|i: int| 0 <= i < old(self).nodes@.len() ==> final(self).nodes@[i] == old(self).nodes@[i],
            final(self).nodes@.last().is_leaf == (depth >= max_depth),
            final(self).nodes@.last().pixel_count == 0,
            final(self).nodes@.last().children@.len() == 8,
            forall|c: int| 0 <= c < 8 ==> final(self).nodes@.last().children@[c] is None,
            forall|i: int| 0 <= i < 3 ==> final(self).nodes@.last().channel_sum@[i] == 0,
            final(self).par@ == old(self).par@.push(parent),
            final(self).slot@ == old(self).slot@.push(s),
            final(self).dep@ == old(self).dep@.push(depth as int),
            final(self).hmax@ == old(self).hmax@,
            final(self).lo@ == old(self).lo@,
            final(self).hi@ == old(self).hi@,
            final(self).leaf_count == old(self).leaf_count + if depth >= max_depth {
                1int
            } else {
                0
            },
            depth >= max_depth ==> final(self).reducible@ == old(self).reducible@,
            depth < max_depth ==> final(self).reducible@.len() == 8,
            depth < max_depth ==> final(self).reducible@[depth as int]@ == old(
                self,
            ).reducible@[depth as int]@.push(id),
            depth < max_depth ==> forall|d: int|
                0 <= d < 8 && d != depth ==> final(self).reducible@[d] == old(self).reducible@[d],
    {
        let id = self.nodes.len();
        let is_leaf = depth >= max_depth;
        self.nodes.push(empty_node(is_leaf));
        proof {
            self.par@ = self.par@.push(parent);
            self.slot@ = self.slot@.push(s);
            self.dep@ = self.dep@.push(depth as int);
        }
        if is_leaf {
            self.leaf_count = self.leaf_count + 1;
        } else {
            self.reducible[depth].push(id);
        }
        id
    }

    #[verifier::spinoff_prover]
    #[verifier::rlimit(100)]
    fn insert(&mut self, color: (i32, i32, i32), max_depth: usize, max_colors: usize)
        requires
            old(self).wf(),
            max_depth == old(self).hmax@,
            old(self).total(0) + 1 < 0x8000_0000,
            old(self).lo@ <= color.0 <= old(self).hi@,
            old(self).lo@ <= color.1 <= old(self).hi@,
            old(self).lo@ <= color.2 <= old(self).hi@,
        ensures
            final(self).wf(),
            final(self).hmax@ == old(self).hmax@,
            final(self).lo@ == old(self).lo@,
            final(self).hi@ == old(self).hi@,
            final(self).total(0) == old(self).total(0) + 1,
            final(self).total(1) == old(self).total(1) + color.0,
            final(self).total(2) == old(self).total(2) + color.1,
            final(self).total(3) == old(self).total(3) + color.2,
            final(self).leaf_count <= max_colors || final(self).leaf_count <= 8,
            final(self).leaf_count <= max_colors || forall|d: int|
                0 <= d < 8 ==> (#[trigger] final(self).reducible@[d])@.len() == 0,
            insert_step(old(self).model(), final(self).model(), color, max_depth as int, max_colors as int),
            pixels_placed(old(self).nodes@) ==> pixels_placed(final(self).nodes@),
            one_path(old(self).nodes@, old(self).dep@, color) ==> one_path(final(self).nodes@, final(self).dep@, color),
            pixels_placed(old(self).nodes@) ==> forall|z: int|
                0 <= z < final(self).nodes@.len() && linked(final(self).nodes@, final(self).par@, final(self).slot@, 0, z)
                    && (#[trigger] final(self).nodes@[z]).is_leaf ==> final(self).nodes@[z].pixel_count >= 1,
    {
        let ghost t_start = *self;
        let ghost placed0 = pixels_placed(self.nodes@);
        let ghost op0 = one_path(self.nodes@, self.dep@, color);
        let ghost mut ds: Seq<(OctState, int)> = seq![(self.model(), 0int)];
        let mut node_id: usize = 0;
        let mut depth: usize = 0;
        let mut at_leaf = false;
        proof {
            assert(linked(self.nodes@, self.par@, self.slot@, 0, 0));
        }
        while !at_leaf && depth < max_depth
            invariant
                self.wf(),
                self.hmax@ == t_start.hmax@,
                self.lo@ == t_start.lo@,
                self.hi@ == t_start.hi@,
                max_depth == self.hmax@,
                forall|w: int| 0 <= w <= 3 ==> #[trigger] self.total(w) == t_start.total(w),
                0 <= node_id < self.nodes@.len(),
                self.dep@[node_id as int] == depth,
                depth <= max_depth,
                at_leaf == self.nodes@[node_id as int].is_leaf,
                linked(self.nodes@, self.par@, self.slot@, 0, node_id as int),
                descended(t_start.model(), color, max_depth as int, ds),
                ds.len() == depth + 1,
                ds.last() == (self.model(), node_id as int),
                placed0 ==> placed_but(self.nodes@, node_id as int),
                op0 ==> one_path(self.nodes@, self.dep@, color),
            decreases max_depth - depth, if at_leaf {
                0int
            } else {
                1
            },
        {
            let ghost a = self.model();
            let idx = get_color_index(color, depth);
            let child_id: usize;
            match self.nodes[node_id].children[idx] {
                Some(id) => {
                    child_id = id;
                    proof {
                        assert(descend_step(a, self.model(), node_id as int, depth as int, color, max_depth as int));
                        if placed0 {
                            lemma_placed_move(self.nodes@, node_id as int, idx as int);
                        }
                    }
                    proof {
                        let ns = self.nodes@;
                        assert(ns[node_id as int].children@[idx as int] is Some);
                        assert(linked(ns, self.par@, self.slot@, 0, id as int));
                    }
                },
                None => {
                    let ghost t0 = *self;
                    proof {
                        lemma_leaves_bound(self.nodes@, 0, self.hmax@ as nat);
                        lemma_pow8_mono(self.hmax@ as nat, 8);
                        lemma_pow8_8();
                    }
                    let id = self.alloc_node(depth + 1, max_depth, Ghost(node_id as int), Ghost(idx as int));
                    let _ = self.nodes.len();
                    let ghost t1 = *self;
                    let mut n = self.nodes[node_id];
                    n.children[idx] = Some(id);
                    self.nodes.set(node_id, n);
                    proof {
                        lemma_link_wf(t0, t1, *self, node_id as int, idx as int, id as int);
                        let b = self.model();
                        let leaf = depth + 1 >= max_depth;
                        assert(b.1 =~= if leaf {
                            a.1
                        } else {
                            a.1.update(depth + 1, a.1[depth + 1].push(id))
                        }) by {
                            assert forall|dd: int| 0 <= dd < 8 implies #[trigger] b.1[dd] == (if leaf {
                                a.1
                            } else {
                                a.1.update(depth + 1, a.1[depth + 1].push(id))
                            })[dd] by {
                                assert(b.1[dd] == self.reducible@[dd]@);
                                assert(a.1[dd] == t0.reducible@[dd]@);
                            }
                        }
                        assert(fresh_node(b.0[id as int], leaf));
                        if op0 {
                            lemma_one_alloc(a.0, t0.dep@, self.nodes@, self.dep@, node_id as int, idx as int, color);
                        }
                        if placed0 {
                            assert forall|y: int, c: int|
                                0 <= y < a.0.len() && 0 <= c < 8 && (#[trigger] a.0[y].children@[c]) is Some implies a.0[y].children@[c]->0
                                < a.0.len() by {
                                assert(t0.nodes@[y].children@[c] is Some);
                            }
                            lemma_placed_alloc(a.0, b.0, node_id as int, idx as int);
                        }
                        assert(descend_step(a, b, node_id as int, depth as int, color, max_depth as int));
                    }
                    child_id = id;
                },
            }
            proof {
                assert(next_node(a, node_id as int, color, depth as int) == child_id);
                lemma_descended_push(t_start.model(), color, max_depth as int, ds, a, self.model(), node_id as int, depth as int);
                ds = ds.push((self.model(), child_id as int));
            }
            node_id = child_id;
            depth = depth + 1;
            at_leaf = self.nodes[node_id].is_leaf;
        }
        proof {
            if !at_leaf {
                assert(self.dep@[node_id as int] == self.hmax@);
            }
        }
        let ghost t3 = *self;
        proof {
            lemma_subtree_ge_linked(
                self.nodes@,
                self.par@,
                self.slot@,
                self.dep@,
                self.hmax@,
                0,
                0,
                node_id as int,
            );
        }
        let mut n = self.nodes[node_id];
        let (c0, c1, c2) = color;
        proof {
            assert((self.hmax@ - self.dep@[0]) as nat == self.hmax@ as nat);
            assert(subtree(self.nodes@, 0, node_id as int, (self.hmax@ - self.dep@[node_id as int]) as nat)
                == n.pixel_count);
            let cnt = n.pixel_count as int;
            let lo = self.lo@;
            let hi = self.hi@;
            assert(lo * cnt <= n.channel_sum@[0] <= hi * cnt);
            assert(lo * cnt <= n.channel_sum@[1] <= hi * cnt);
            assert(lo * cnt <= n.channel_sum@[2] <= hi * cnt);
            assert(hi * cnt <= 0x8000_0000 * 0x8000_0000) by (nonlinear_arith)
                requires
                    0 <= hi <= 0x8000_0000,
                    0 <= cnt < 0x8000_0000,
            ;
            assert(lo * cnt >= -0x8000_0000 * 0x8000_0000) by (nonlinear_arith)
                requires
                    -0x8000_0000 <= lo <= 0,
                    0 <= cnt < 0x8000_0000,
            ;
        }
        n.pixel_count = n.pixel_count + 1;
        let s0 = n.channel_sum[0] + c0 as i64;
        let s1 = n.channel_sum[1] + c1 as i64;
        let s2 = n.channel_sum[2] + c2 as i64;
        n.channel_sum[0] = s0;
        n.channel_sum[1] = s1;
        n.channel_sum[2] = s2;
        self.nodes.set(node_id, n);
        proof {
            lemma_count_step(t3, *self, node_id as int, color);
            assert(descent(t_start.model(), color, max_depth as int, ds));
            assert(add_point(ds.last().0, self.model(), ds.last().1, color)) by {
                assert(self.model().1 =~= t3.model().1);
            }
            if placed0 {
                lemma_placed_count(t3.nodes@, self.nodes@, node_id as int);
            }
            if op0 {
                lemma_one_same_children(t3.nodes@, self.nodes@, self.dep@, node_id as int, color);
            }
        }
        let ghost t4 = *self;
        let ghost mut rs: Seq<OctState> = seq![self.model()];
        let mut reducing = true;
        while reducing && self.leaf_count > max_colors
            invariant
                self.wf(),
                self.hmax@ == t4.hmax@,
                self.lo@ == t4.lo@,
                self.hi@ == t4.hi@,
                forall|w: int| 0 <= w <= 3 ==> #[trigger] self.total(w) == t4.total(w),
                !reducing ==> forall|d: int| 0 <= d < 8 ==> (#[trigger] self.reducible@[d])@.len() == 0,
                !reducing ==> deepest(self.model().1, 8) < 0,
                placed0 ==> pixels_placed(self.nodes@),
                op0 ==> one_path(self.nodes@, self.dep@, color),
                self.dep@ == t4.dep@,
                rs.len() >= 1,
                rs[0] == t4.model(),
                rs.last() == self.model(),
                forall|i: int| 0 <= i < rs.len() - 1 ==> (#[trigger] rs[i]).2 > max_colors && fold_step(rs[i], rs[i + 1]),
            decreases list_total(self.reducible@), if reducing {
                1int
            } else {
                0
            },
        {
            proof {
                lemma_list_total_nonneg(self.reducible@);
            }
            let ghost before = self.model();
            let ghost t_before = *self;
            if !self.reduce() {
                reducing = false;
            } else {
                proof {
                    if placed0 {
                        lemma_placed_fold(t_before, self.model());
                    }
                    if op0 {
                        let x = t_before.model().1[deepest(t_before.model().1, 8)].last() as int;
                        lemma_one_same_children(t_before.nodes@, self.nodes@, self.dep@, x, color);
                    }
                    let rs0 = rs;
                    rs = rs.push(self.model());
                    assert forall|i: int| 0 <= i < rs.len() - 1 implies (#[trigger] rs[i]).2 > max_colors && fold_step(
                        rs[i],
                        rs[i + 1],
                    ) by {
                        if i < rs0.len() - 1 {
                            assert(rs[i] == rs0[i] && rs[i + 1] == rs0[i + 1]);
                        } else {
                            assert(rs[i] == before);
                        }
                    }
                }
            }
            proof {
                lemma_list_total_nonneg(self.reducible@);
            }
        }
        proof {
            if !reducing {
                self.lemma_flat();
            }
            assert(shrink(rs[0], self.model(), max_colors as int, rs));
            if placed0 {
                assert forall|z: int|
                    0 <= z < self.nodes@.len() && linked(self.nodes@, self.par@, self.slot@, 0, z) && (
                    #[trigger] self.nodes@[z]).is_leaf implies self.nodes@[z].pixel_count >= 1 by {
                    let ns = self.nodes@;
                    assert(z != 0);
                    let y = self.par@[z];
                    let c = self.slot@[z];
                    assert(ns[y].children@[c] == Some(z as usize));
                }
            }
            assert(insert_via(t_start.model(), self.model(), color, max_depth as int, max_colors as int, ds, rs));
        }
    }

    /// Folds the deepest reducible node into a leaf holding the pixels of its
    /// children. Returns `false`, changing nothing, when no node is reducible.
    #[verifier::spinoff_prover]
    #[verifier::rlimit(40)]
    fn reduce(&mut self) -> (done: bool)
        requires
            old(self).wf(),
        ensures
            final(self).wf(),
            final(self).hmax@ == old(self).hmax@,
            final(self).lo@ == old(self).lo@,
            final(self).hi@ == old(self).hi@,
            forall|w: int| 0 <= w <= 3 ==> #[trigger] final(self).total(w) == old(self).total(w),
            done ==> list_total(final(self).reducible@) < list_total(old(self).reducible@),
            !done ==> forall|d: int| 0 <= d < 8 ==> (#[trigger] old(self).reducible@[d])@.len() == 0,
            !done ==> *final(self) == *old(self),
            done ==> fold_step(old(self).model(), final(self).model()),
            !done ==> deepest(old(self).model().1, 8) < 0,
            final(self).dep@ == old(self).dep@,
    {
        let mut d: usize = 8;
        while d > 0 && self.reducible[d - 1].len() == 0
            invariant
                d <= 8,
                self.reducible@.len() == 8,
                forall|dd: int| d <= dd < 8 ==> (#[trigger] self.reducible@[dd])@.len() == 0,
            decreases d,
        {
            d = d - 1;
        }
        if d == 0 {
            proof {
                let red = self.model().1;
                assert forall|dd: int| 0 <= dd < 8 implies (#[trigger] red[dd]).len() == 0 by {
                    assert(red[dd] == self.reducible@[dd]@);
                }
                lemma_deepest_none(red, 8);
            }
            return false;
        }
        let depth = d - 1;
        let ghost t0 = *self;
        let node_id = match self.reducible[depth].pop() {
            Some(x) => x,
            None => {
                return false;
            },
        };
        let ghost t1 = *self;
        let ghost ns = self.nodes@;
        let ghost hx = (self.hmax@ - self.dep@[node_id as int]) as nat;
        let ghost h1 = (hx - 1) as nat;
        proof {
            assert(t0.reducible@[depth as int]@.last() == node_id);
            let ld = t0.reducible@[depth as int]@.len() - 1;
            assert(t0.reducible@[depth as int]@[ld] == node_id);
            lemma_reduce_children_are_leaves(t0, node_id as int, depth as int);
            lemma_subtree_ge_linked(ns, self.par@, self.slot@, self.dep@, self.hmax@, 0, 0, node_id as int);
            lemma_subtree_ge_linked(ns, self.par@, self.slot@, self.dep@, self.hmax@, 4, 0, node_id as int);
            lemma_csum_mono(ns, 0, node_id as int, 0, h1);
        }
        let node = self.nodes[node_id];
        let mut pc: u32 = 0;
        let mut s0: i64 = 0;
        let mut s1: i64 = 0;
        let mut s2: i64 = 0;
        let mut c: usize = 0;
        while c < 8
            invariant
                c <= 8,
                node == ns[node_id as int],
                self.nodes@ == ns,
                t0.wf(),
                self.hmax@ == t0.hmax@,
                self.lo@ == t0.lo@,
                self.hi@ == t0.hi@,
                t0.nodes@ == ns,
                0 < node_id < ns.len(),
                !ns[node_id as int].is_leaf,
                hx == t0.hmax@ - t0.dep@[node_id as int],
                hx >= 1,
                h1 == hx - 1,
                forall|cc: int|
                    0 <= cc < 8 && (#[trigger] ns[node_id as int].children@[cc]) is Some ==> ns[ns[node_id
                        as int].children@[cc]->0 as int].is_leaf,
                subtree(ns, 0, node_id as int, hx) <= t0.total(0),
                subtree(ns, 4, node_id as int, hx) <= t0.total(4),
                t0.total(0) < 0x8000_0000,
                pc == csum(ns, 0, node_id as int, c as nat, h1),
                s0 == csum(ns, 1, node_id as int, c as nat, h1),
                s1 == csum(ns, 2, node_id as int, c as nat, h1),
                s2 == csum(ns, 3, node_id as int, c as nat, h1),
                self.leaf_count == t0.leaf_count - csum(ns, 4, node_id as int, c as nat, h1),
                t0.lo@ * pc <= s0 <= t0.hi@ * pc,
                t0.lo@ * pc <= s1 <= t0.hi@ * pc,
                t0.lo@ * pc <= s2 <= t0.hi@ * pc,
                self.reducible@ == t1.reducible@,
                self.par@ == t0.par@,
                self.slot@ == t0.slot@,
                self.dep@ == t0.dep@,
            decreases 8 - c,
        {
            proof {
                lemma_csum_mono(ns, 0, node_id as int, (c + 1) as nat, h1);
                lemma_csum_mono(ns, 4, node_id as int, (c + 1) as nat, h1);
                lemma_csum_nonneg(ns, 4, node_id as int, c as nat, h1);
            }
            match node.children[c] {
                Some(child_id) => {
                    let child = self.nodes[child_id];
                    proof {
                        assert(ns[node_id as int].children@[c as int] is Some);
                        assert(subtree(ns, 0, child_id as int, h1) == child.pixel_count);
                        assert(csum(ns, 0, node_id as int, (c + 1) as nat, h1) == pc + child.pixel_count);
                        assert(subtree(ns, 0, node_id as int, hx) == csum(ns, 0, node_id as int, 8, h1));
                        assert(subtree(ns, 4, node_id as int, hx) == csum(ns, 4, node_id as int, 8, h1));
                        assert(subtree(ns, 4, child_id as int, h1) == 1);
                        assert(csum(ns, 4, node_id as int, (c + 1) as nat, h1) == csum(ns, 4, node_id as int, c as nat, h1) + 1);
                        assert(t0.total(4) == t0.leaf_count);
                        assert(subtree(ns, 1, child_id as int, h1) == child.channel_sum@[0]);
                        assert(subtree(ns, 2, child_id as int, h1) == child.channel_sum@[1]);
                        assert(subtree(ns, 3, child_id as int, h1) == child.channel_sum@[2]);
                        let lo = t0.lo@;
                        let hi = t0.hi@;
                        let cc = child.pixel_count as int;
                        let p0 = pc as int;
                        assert(child.is_leaf);
                        assert(lo * cc <= child.channel_sum@[0] <= hi * cc);
                        assert(lo * cc <= child.channel_sum@[1] <= hi * cc);
                        assert(lo * cc <= child.channel_sum@[2] <= hi * cc);
                        assert(lo * p0 + lo * cc == lo * (p0 + cc) && hi * p0 + hi * cc == hi * (p0 + cc))
                            by (nonlinear_arith);
                        assert(hi * (p0 + cc) <= 0x8000_0000 * 0x8000_0000) by (nonlinear_arith)
                            requires
                                0 <= hi <= 0x8000_0000,
                                0 <= p0 + cc < 0x8000_0000,
                        ;
                        assert(lo * (p0 + cc) >= -0x8000_0000 * 0x8000_0000) by (nonlinear_arith)
                            requires
                                -0x8000_0000 <= lo <= 0,
                                0 <= p0 + cc < 0x8000_0000,
                        ;
                        assert(hi * p0 <= 0x8000_0000 * 0x8000_0000) by (nonlinear_arith)
                            requires
                                0 <= hi <= 0x8000_0000,
                                0 <= p0 < 0x8000_0000,
                        ;
                        assert(lo * p0 >= -0x8000_0000 * 0x8000_0000) by (nonlinear_arith)
                            requires
                                -0x8000_0000 <= lo <= 0,
                                0 <= p0 < 0x8000_0000,
                        ;
                        assert(hi * cc <= 0x8000_0000 * 0x8000_0000) by (nonlinear_arith)
                            requires
                                0 <= hi <= 0x8000_0000,
                                0 <= cc < 0x8000_0000,
                        ;
                        assert(lo * cc >= -0x8000_0000 * 0x8000_0000) by (nonlinear_arith)
                            requires
                                -0x8000_0000 <= lo <= 0,
                                0 <= cc < 0x8000_0000,
                        ;
                    }
                    proof {
                        assert(subtree(ns, 0, child_id as int, h1) == child.pixel_count);
                        assert(csum(ns, 0, node_id as int, (c + 1) as nat, h1) == pc + child.pixel_count);
                    }
                    pc = pc + child.pixel_count;
                    s0 = s0 + child.channel_sum[0];
                    s1 = s1 + child.channel_sum[1];
                    s2 = s2 + child.channel_sum[2];
                    if child.is_leaf {
                        self.leaf_count = self.leaf_count - 1;
                    }
                },
                None => {},
            }
            c = c + 1;
        }
        let mut leaf = empty_node(true);
        leaf.pixel_count = pc;
        leaf.channel_sum[0] = s0;
        leaf.channel_sum[1] = s1;
        leaf.channel_sum[2] = s2;
        self.nodes.set(node_id, leaf);
        proof {
            lemma_csum_nonneg(ns, 4, node_id as int, 8, h1);
            lemma_leaves_bound(ns, 0, t0.hmax@ as nat);
            lemma_pow8_mono(t0.hmax@ as nat, 8);
            lemma_pow8_8();
        }
        self.leaf_count = self.leaf_count + 1;
        proof {
            lemma_reduce_wf(t0, t1, *self, node_id as int, depth as int);
            assert(self.nodes@ == ns.update(node_id as int, leaf));
            assert(folded(t0, *self, depth as int));
            lemma_folded_step(t0, *self, depth as int);
        }
        true
    }

    /// Appends the leaves below `node_id` that absorbed pixels, in child-slot
    /// order.
    fn walk(&self, node_id: usize, out: &mut Vec<OctreeNode>)
        requires
            self.wf(),
            node_id < self.nodes@.len(),
        ensures
            final(out)@ == old(out)@ + leaves(
                self.nodes@,
                node_id as int,
                (self.hmax@ - self.dep@[node_id as int]) as nat,
            ),
        decreases self.hmax@ - self.dep@[node_id as int],
    {
        let ghost ns = self.nodes@;
        let ghost h = (self.hmax@ - self.dep@[node_id as int]) as nat;
        let node = self.nodes[node_id];
        if node.is_leaf {
            if node.pixel_count > 0 {
                out.push(node);
            }
            proof {
                if node.pixel_count > 0 {
                    assert(old(out)@.push(node) =~= old(out)@ + seq![node]);
                } else {
                    assert(old(out)@ =~= old(out)@ + Seq::<OctreeNode>::empty());
                }
            }
        } else {
            let ghost h1 = (h - 1) as nat;
            let mut c: usize = 0;
            while c < 8
                invariant
                    self.wf(),
                    ns == self.nodes@,
                    node == ns[node_id as int],
                    node_id < ns.len(),
                    !node.is_leaf,
                    h == self.hmax@ - self.dep@[node_id as int],
                    h >= 1,
                    h1 == h - 1,
                    c <= 8,
                    out@ == old(out)@ + cleaves(ns, node_id as int, c as nat, h1),
                decreases 8 - c,
            {
                match node.children[c] {
                    Some(child) => {
                        proof {
                            assert(ns[node_id as int].children@[c as int] is Some);
                        }
                        let ghost before = out@;
                        self.walk(child, out);
                        proof {
                            assert(out@ =~= old(out)@ + cleaves(ns, node_id as int, (c + 1) as nat, h1));
                        }
                    },
                    None => {
                        proof {
                            assert(cleaves(ns, node_id as int, (c + 1) as nat, h1) =~= cleaves(
                                ns,
                                node_id as int,
                                c as nat,
                                h1,
                            ) + Seq::<OctreeNode>::empty());
                        }
                    },
                }
                c = c + 1;
            }
        }
    }

    /// With every reducible list empty, at most eight leaves remain.
    proof fn lemma_flat(&self)
        requires
            self.wf(),
            forall|d: int| 0 <= d < 8 ==> (#[trigger] self.reducible@[d])@.len() == 0,
        ensures
            self.leaf_count <= 8,
    {
        let ns = self.nodes@;
        assert forall|z: int| 0 < z < ns.len() implies (#[trigger] ns[z]).is_leaf by {
            if !ns[z].is_leaf {
                assert(self.reducible@[self.dep@[z]]@.contains(z as usize));
            }
        }
        assert forall|c: int|
            0 <= c < 8 && (#[trigger] ns[0].children@[c]) is Some implies 0 < ns[0].children@[c]->0
            < ns.len() by {}
        lemma_flat_tree(ns, 8, (self.hmax@ - 1) as nat);
    }
}

proof fn lemma_pow8_mono(a: nat, b: nat)
    requires
        a <= b,
    ensures
        pow8(a) <= pow8(b),
    decreases b,
{
    if a < b {
        lemma_pow8_mono(a, (b - 1) as nat);
        lemma_pow8_pos((b - 1) as nat);
    }
}

/// Linking a freshly appended node under `p` at slot `idx` adds that node's
/// total to `p`'s child-slot total, and nothing else.
proof fn lemma_link_csum(
    ns1: Seq<OctreeNode>,
    ns2: Seq<OctreeNode>,
    par: Seq<int>,
    slot: Seq<int>,
    dep: Seq<int>,
    hmax: int,
    w: int,
    p: int,
    idx: int,
    nid: int,
    k: nat,
)
    requires
        links_ok(ns1, par, slot, dep),
        shape_ok(ns1, dep, hmax),
        0 <= p < ns1.len(),
        0 < nid < ns1.len(),
        nid != p,
        0 <= idx < 8,
        dep[nid] == dep[p] + 1,
        ns2.len() == ns1.len(),
        forall|i: int| 0 <= i < ns1.len() && i != p ==> ns2[i] == ns1[i],
        ns1[p].children@[idx] is None,
        ns2[p].children@ == ns1[p].children@.update(idx, Some(nid as usize)),
        k <= 8,
    ensures
        csum(ns2, w, p, k, (hmax - dep[p] - 1) as nat) == csum(ns1, w, p, k, (hmax - dep[p] - 1) as nat)
            + if idx < k {
            subtree(ns1, w, nid, (hmax - dep[p] - 1) as nat)
        } else {
            0
        },
    decreases k,
{
    if k > 0 {
        lemma_link_csum(ns1, ns2, par, slot, dep, hmax, w, p, idx, nid, (k - 1) as nat);
        let c = k - 1;
        let o2 = ns2[p].children@[c];
        if o2 is Some {
            let j = o2->0 as int;
            if c == idx {
                assert(j == nid);
            } else {
                assert(ns1[p].children@[c] is Some);
            }
            assert(dep[j] == dep[p] + 1);
            if linked(ns1, par, slot, j, p) {
                lemma_linked_depth(ns1, par, slot, dep, j, p);
            }
            lemma_delta(ns1, ns2, par, slot, dep, hmax, w, p, j);
        }
    }
}

/// The state after appending a node under `p` at slot `idx` and linking it
/// is well formed and holds the same pixels.
proof fn lemma_link_wf(t0: Octree, t1: Octree, t2: Octree, p: int, idx: int, nid: int)
    requires
        t0.wf(),
        0 <= p < t0.nodes@.len(),
        !t0.nodes@[p].is_leaf,
        linked(t0.nodes@, t0.par@, t0.slot@, 0, p),
        0 <= idx < 8,
        t0.nodes@[p].children@[idx] is None,
        nid == t0.nodes@.len(),
        t1.nodes@.len() == t0.nodes@.len() + 1,
        t1.nodes@.len() <= usize::MAX,
        forall|i: int| 0 <= i < t0.nodes@.len() ==> t1.nodes@[i] == t0.nodes@[i],
        t1.nodes@.last().is_leaf == (t0.dep@[p] + 1 >= t0.hmax@),
        t1.nodes@.last().pixel_count == 0,
        t1.nodes@.last().children@.len() == 8,
        forall|c: int| 0 <= c < 8 ==> t1.nodes@.last().children@[c] is None,
        forall|i: int| 0 <= i < 3 ==> t1.nodes@.last().channel_sum@[i] == 0,
        t1.par@ == t0.par@.push(p),
        t1.slot@ == t0.slot@.push(idx),
        t1.dep@ == t0.dep@.push(t0.dep@[p] + 1),
        t1.hmax@ == t0.hmax@,
        t1.lo@ == t0.lo@,
        t1.hi@ == t0.hi@,
        t1.leaf_count == t0.leaf_count + if t0.dep@[p] + 1 >= t0.hmax@ {
            1int
        } else {
            0
        },
        t0.dep@[p] + 1 >= t0.hmax@ ==> t1.reducible@ == t0.reducible@,
        t0.dep@[p] + 1 < t0.hmax@ ==> t1.reducible@.len() == 8,
        t0.dep@[p] + 1 < t0.hmax@ ==> t1.reducible@[t0.dep@[p] + 1]@ == t0.reducible@[t0.dep@[p]
            + 1]@.push(nid as usize),
        t0.dep@[p] + 1 < t0.hmax@ ==> forall|d: int|
            0 <= d < 8 && d != t0.dep@[p] + 1 ==> t1.reducible@[d] == t0.reducible@[d],
        t2.nodes@.len() == t1.nodes@.len(),
        forall|i: int| 0 <= i < t1.nodes@.len() && i != p ==> t2.nodes@[i] == t1.nodes@[i],
        t2.nodes@[p].is_leaf == t1.nodes@[p].is_leaf,
        t2.nodes@[p].pixel_count == t1.nodes@[p].pixel_count,
        t2.nodes@[p].channel_sum == t1.nodes@[p].channel_sum,
        t2.nodes@[p].children@ == t1.nodes@[p].children@.update(idx, Some(nid as usize)),
        t2.par@ == t1.par@,
        t2.slot@ == t1.slot@,
        t2.dep@ == t1.dep@,
        t2.hmax@ == t1.hmax@,
        t2.lo@ == t1.lo@,
        t2.hi@ == t1.hi@,
        t2.leaf_count == t1.leaf_count,
        t2.reducible@ == t1.reducible@,
    ensures
        t2.wf(),
        forall|w: int| 0 <= w <= 3 ==> #[trigger] t2.total(w) == t0.total(w),
        linked(t2.nodes@, t2.par@, t2.slot@, 0, nid),
        t2.dep@[nid] == t0.dep@[p] + 1,
{
    let ns0 = t0.nodes@;
    let ns1 = t1.nodes@;
    let ns2 = t2.nodes@;
    let par = t1.par@;
    let slot = t1.slot@;
    let dep = t1.dep@;
    let hmax = t0.hmax@;
    let lo = t0.lo@;
    let hi = t0.hi@;
    let d = t0.dep@[p] + 1;
    assert(links_ok(ns1, par, slot, dep)) by {
        assert forall|id: int, c: int|
            0 <= id < ns1.len() && 0 <= c < 8 && (#[trigger] ns1[id].children@[c]) is Some implies {
            let j = ns1[id].children@[c]->0 as int;
            &&& 0 < j < ns1.len()
            &&& par[j] == id
            &&& slot[j] == c
            &&& dep[j] == dep[id] + 1
        } by {
            if id < ns0.len() {
                assert(ns0[id].children@[c] is Some);
            }
        }
        assert forall|j: int| 0 < j < ns1.len() implies {
            &&& 0 <= #[trigger] par[j] < j
            &&& 0 <= slot[j] < 8
            &&& dep[j] == dep[par[j]] + 1
        } by {
            if j < ns0.len() {
                assert(t0.par@[j] == par[j]);
            }
        }
        assert forall|id: int| 0 <= id < ns1.len() implies #[trigger] ns1[id].children@.len() == 8 by {
            if id < ns0.len() {
                assert(ns0[id].children@.len() == 8);
            }
        }
    }
    assert(shape_ok(ns1, dep, hmax)) by {
        assert forall|id: int| 0 <= id < ns1.len() implies {
            &&& 0 <= #[trigger] dep[id] <= hmax
            &&& ns1[id].is_leaf ==> forall|c: int| 0 <= c < 8 ==> ns1[id].children@[c] is None
            &&& !ns1[id].is_leaf ==> dep[id] < hmax
        } by {
            if id < ns0.len() {
                assert(t0.dep@[id] == dep[id]);
                assert(ns0[id] == ns1[id]);
            }
        }
    }
    assert(links_ok(ns2, par, slot, dep)) by {
        assert forall|id: int, c: int|
            0 <= id < ns2.len() && 0 <= c < 8 && (#[trigger] ns2[id].children@[c]) is Some implies {
            let j = ns2[id].children@[c]->0 as int;
            &&& 0 < j < ns2.len()
            &&& par[j] == id
            &&& slot[j] == c
            &&& dep[j] == dep[id] + 1
        } by {
            if id != p {
                assert(ns1[id].children@[c] is Some);
            } else if c != idx {
                assert(ns1[id].children@[c] is Some);
            }
        }
        assert forall|id: int| 0 <= id < ns2.len() implies #[trigger] ns2[id].children@.len() == 8 by {
            assert(ns1[id].children@.len() == 8);
        }
    }
    assert(shape_ok(ns2, dep, hmax)) by {
        assert forall|id: int| 0 <= id < ns2.len() implies {
            &&& 0 <= #[trigger] dep[id] <= hmax
            &&& ns2[id].is_leaf ==> forall|c: int| 0 <= c < 8 ==> ns2[id].children@[c] is None
            &&& !ns2[id].is_leaf ==> dep[id] < hmax
        } by {
            assert(0 <= dep[id] <= hmax);
        }
    }
    // Totals: appending changes nothing, linking adds the new node's total.
    let hp = (hmax - dep[p]) as nat;
    let h1 = (hmax - dep[p] - 1) as nat;
    assert forall|w: int| 0 <= w <= 4 implies #[trigger] subtree(ns2, w, 0, hmax as nat) == subtree(
        ns0,
        w,
        0,
        hmax as nat,
    ) + subtree(ns1, w, nid, h1) by {
        lemma_push_frame(ns0, ns1, t0.par@, t0.slot@, t0.dep@, w, 0, hmax as nat);
        lemma_linked_push(ns0, ns1, t0.par@, par, t0.slot@, slot, 0, p);
        lemma_delta(ns1, ns2, par, slot, dep, hmax, w, p, 0);
        lemma_link_csum(ns1, ns2, par, slot, dep, hmax, w, p, idx, nid, 8);
        assert(dep[p] == t0.dep@[p]);
    }
    let nn = ns1[nid];
    assert(nn == ns1.last());
    assert forall|w: int| 0 <= w <= 4 implies #[trigger] subtree(ns1, w, nid, h1) == if w == 4
        && nn.is_leaf {
        1int
    } else {
        0
    } by {
        if !nn.is_leaf {
            lemma_csum_no_children(ns1, w, nid, 8, (h1 - 1) as nat);
        }
    }
    // Chains: every chain that existed survives.
    assert forall|x: int| 0 <= x < ns0.len() && linked(ns0, t0.par@, t0.slot@, 0, x) implies linked(
        ns2,
        par,
        slot,
        0,
        x,
    ) by {
        lemma_linked_push(ns0, ns1, t0.par@, par, t0.slot@, slot, 0, x);
        lemma_linked_keep_links(ns1, ns2, par, slot, p, 0, x);
    }
    assert(linked(ns2, par, slot, 0, p));
    assert(ns2[p].children@[idx] == Some(nid as usize));
    assert(linked(ns2, par, slot, 0, nid));
    let red0 = t0.reducible@;
    let red = t2.reducible@;
    assert forall|dd: int, i: int| 0 <= dd < 8 && 0 <= i < red[dd]@.len() implies {
        let x = #[trigger] red[dd]@[i] as int;
        &&& 0 < x < ns2.len()
        &&& dep[x] == dd
        &&& !ns2[x].is_leaf
        &&& linked(ns2, par, slot, 0, x)
    } by {
        if d < hmax && dd == d && i == red0[dd]@.len() {
        } else {
            assert(red[dd]@[i] == red0[dd]@[i]);
            let x = red0[dd]@[i] as int;
            assert(t0.dep@[x] == dep[x]);
        }
    }
    assert forall|dd: int, i: int, j: int|
        0 <= dd < 8 && 0 <= i < red[dd]@.len() && 0 <= j < red[dd]@.len() && i != j implies #[trigger] red[dd]@[i]
        != #[trigger] red[dd]@[j] by {
        if d < hmax && dd == d {
            if i == red0[dd]@.len() {
                assert(red[dd]@[j] == red0[dd]@[j]);
            } else if j == red0[dd]@.len() {
                assert(red[dd]@[i] == red0[dd]@[i]);
            } else {
                assert(red[dd]@[i] == red0[dd]@[i]);
                assert(red[dd]@[j] == red0[dd]@[j]);
            }
        } else {
            assert(red[dd] == red0[dd]);
        }
    }
    assert forall|x: int| 0 < x < ns2.len() && !(#[trigger] ns2[x]).is_leaf implies red[dep[x]]@.contains(
        x as usize,
    ) by {
        if x == nid {
            assert(red[d]@[red0[d]@.len() as int] == nid as usize);
        } else {
            assert(ns0[x].is_leaf == ns2[x].is_leaf);
            assert(red0[t0.dep@[x]]@.contains(x as usize));
            assert(t0.dep@[x] == dep[x]);
            let i = choose|i: int| 0 <= i < red0[dep[x]]@.len() && red0[dep[x]]@[i] == x as usize;
            if d < hmax && dep[x] == d {
                assert(red[dep[x]]@[i] == x as usize);
            }
        }
    }
    assert forall|id: int| 0 <= id < ns2.len() && dep[id] == hmax implies (#[trigger] ns2[id]).is_leaf by {
        if id < ns0.len() {
            assert(t0.dep@[id] == dep[id]);
            assert(ns0[id].is_leaf == ns2[id].is_leaf);
        }
    }
    assert forall|id: int|
        0 <= id < ns2.len() && !(#[trigger] ns2[id]).is_leaf implies {
        &&& ns2[id].pixel_count == 0
        &&& forall|i: int| 0 <= i < 3 ==> ns2[id].channel_sum@[i] == 0
    } by {
        if id < ns0.len() {
            assert(ns0[id].is_leaf == ns2[id].is_leaf);
        }
    }
    assert forall|z: int|
        0 <= z < ns2.len() && (#[trigger] ns2[z]).is_leaf implies forall|i: int|
        0 <= i < 3 ==> lo * ns2[z].pixel_count <= #[trigger] ns2[z].channel_sum@[i] <= hi
            * ns2[z].pixel_count by {
        if z == nid {
            assert(lo * 0 == 0 && hi * 0 == 0) by (nonlinear_arith);
        } else {
            assert(ns0[z].is_leaf == ns2[z].is_leaf);
            assert(ns0[z].pixel_count == ns2[z].pixel_count);
            assert(ns0[z].channel_sum == ns2[z].channel_sum);
        }
    }
}

/// Adding one pixel to the leaf that an insertion reached.
proof fn lemma_count_step(t3: Octree, t4: Octree, l: int, color: (i32, i32, i32))
    requires
        t3.wf(),
        t3.total(0) + 1 < 0x8000_0000,
        0 <= l < t3.nodes@.len(),
        t3.nodes@[l].is_leaf,
        linked(t3.nodes@, t3.par@, t3.slot@, 0, l),
        t3.lo@ <= color.0 <= t3.hi@,
        t3.lo@ <= color.1 <= t3.hi@,
        t3.lo@ <= color.2 <= t3.hi@,
        t4.nodes@.len() == t3.nodes@.len(),
        forall|i: int| 0 <= i < t3.nodes@.len() && i != l ==> t4.nodes@[i] == t3.nodes@[i],
        t4.nodes@[l].is_leaf,
        t4.nodes@[l].children == t3.nodes@[l].children,
        t4.nodes@[l].pixel_count == t3.nodes@[l].pixel_count + 1,
        t4.nodes@[l].channel_sum@[0] == t3.nodes@[l].channel_sum@[0] + color.0,
        t4.nodes@[l].channel_sum@[1] == t3.nodes@[l].channel_sum@[1] + color.1,
        t4.nodes@[l].channel_sum@[2] == t3.nodes@[l].channel_sum@[2] + color.2,
        t4.par@ == t3.par@,
        t4.slot@ == t3.slot@,
        t4.dep@ == t3.dep@,
        t4.hmax@ == t3.hmax@,
        t4.lo@ == t3.lo@,
        t4.hi@ == t3.hi@,
        t4.leaf_count == t3.leaf_count,
        t4.reducible@ == t3.reducible@,
    ensures
        t4.wf(),
        t4.total(0) == t3.total(0) + 1,
        t4.total(1) == t3.total(1) + color.0,
        t4.total(2) == t3.total(2) + color.1,
        t4.total(3) == t3.total(3) + color.2,
        t4.total(4) == t3.total(4),
{
    let ns3 = t3.nodes@;
    let ns4 = t4.nodes@;
    let par = t3.par@;
    let slot = t3.slot@;
    let dep = t3.dep@;
    let hmax = t3.hmax@;
    let lo = t3.lo@;
    let hi = t3.hi@;
    assert forall|w: int| 0 <= w <= 4 implies #[trigger] subtree(ns4, w, 0, hmax as nat) == subtree(
        ns3,
        w,
        0,
        hmax as nat,
    ) + weight(ns4[l], w) - weight(ns3[l], w) by {
        lemma_delta(ns3, ns4, par, slot, dep, hmax, w, l, 0);
    }
    assert(links_ok(ns4, par, slot, dep)) by {
        assert forall|id: int, c: int|
            0 <= id < ns4.len() && 0 <= c < 8 && (#[trigger] ns4[id].children@[c]) is Some implies {
            let j = ns4[id].children@[c]->0 as int;
            &&& 0 < j < ns4.len()
            &&& par[j] == id
            &&& slot[j] == c
            &&& dep[j] == dep[id] + 1
        } by {
            assert(ns3[id].children@[c] is Some);
        }
        assert forall|id: int| 0 <= id < ns4.len() implies #[trigger] ns4[id].children@.len() == 8 by {
            assert(ns3[id].children@.len() == 8);
        }
    }
    assert(shape_ok(ns4, dep, hmax)) by {
        assert forall|id: int| 0 <= id < ns4.len() implies {
            &&& 0 <= #[trigger] dep[id] <= hmax
            &&& ns4[id].is_leaf ==> forall|c: int| 0 <= c < 8 ==> ns4[id].children@[c] is None
            &&& !ns4[id].is_leaf ==> dep[id] < hmax
        } by {
            assert(0 <= dep[id] <= hmax);
            assert(ns3[id].is_leaf == ns4[id].is_leaf);
        }
    }
    let red = t3.reducible@;
    assert forall|dd: int, i: int| 0 <= dd < 8 && 0 <= i < red[dd]@.len() implies {
        let x = #[trigger] red[dd]@[i] as int;
        &&& 0 < x < ns4.len()
        &&& dep[x] == dd
        &&& !ns4[x].is_leaf
        &&& linked(ns4, par, slot, 0, x)
    } by {
        let x = red[dd]@[i] as int;
        lemma_linked_keep_links(ns3, ns4, par, slot, l, 0, x);
    }
    assert forall|x: int| 0 < x < ns4.len() && !(#[trigger] ns4[x]).is_leaf implies red[dep[x]]@.contains(
        x as usize,
    ) by {
        assert(!ns3[x].is_leaf);
    }
    assert forall|id: int| 0 <= id < ns4.len() && dep[id] == hmax implies (#[trigger] ns4[id]).is_leaf by {
        assert(ns3[id].is_leaf == ns4[id].is_leaf);
    }
    assert forall|id: int|
        0 <= id < ns4.len() && !(#[trigger] ns4[id]).is_leaf implies {
        &&& ns4[id].pixel_count == 0
        &&& forall|i: int| 0 <= i < 3 ==> ns4[id].channel_sum@[i] == 0
    } by {
        assert(ns3[id].is_leaf == ns4[id].is_leaf);
    }
    assert forall|z: int|
        0 <= z < ns4.len() && (#[trigger] ns4[z]).is_leaf implies forall|i: int|
        0 <= i < 3 ==> lo * ns4[z].pixel_count <= #[trigger] ns4[z].channel_sum@[i] <= hi
            * ns4[z].pixel_count by {
        if z == l {
            let cnt = ns3[l].pixel_count as int;
            assert(lo * (cnt + 1) == lo * cnt + lo && hi * (cnt + 1) == hi * cnt + hi)
                by (nonlinear_arith);
            assert(ns3[l].is_leaf);
            assert forall|i: int| 0 <= i < 3 implies lo * ns4[l].pixel_count <= #[trigger] ns4[l].channel_sum@[i]
                <= hi * ns4[l].pixel_count by {
                assert(lo * cnt <= ns3[l].channel_sum@[i] <= hi * cnt);
            }
        } else {
            assert(ns3[z] == ns4[z]);
        }
    }
}


/// The node taken off the deepest non-empty reducible list has only leaves
/// as children, and hangs below the root.
proof fn lemma_folded_step(t0: Octree, t1: Octree, d: int)
    requires
        t0.wf(),
        0 <= d < 8,
        t0.reducible@[d]@.len() > 0,
        forall|dd: int| d < dd < 8 ==> (#[trigger] t0.reducible@[dd])@.len() == 0,
        folded(t0, t1, d),
    ensures
        fold_step(t0.model(), t1.model()),
{
    let a = t0.model();
    let b = t1.model();
    let x = t0.reducible@[d]@.last() as int;
    let ns = t0.nodes@;
    let h1 = (t0.hmax@ - t0.dep@[x] - 1) as nat;
    lemma_reduce_children_are_leaves(t0, x, d);
    assert forall|dd: int| d < dd < 8 implies (#[trigger] a.1[dd]).len() == 0 by {
        assert(a.1[dd] == t0.reducible@[dd]@);
    }
    assert(a.1[d] == t0.reducible@[d]@);
    lemma_deepest_is(a.1, d, 8);
    assert forall|c: int|
        0 <= c < 8 && (#[trigger] ns[x].children@[c]) is Some implies {
            let j = ns[x].children@[c]->0 as int;
            0 <= j < ns.len() && ns[j].is_leaf
        } by {}
    lemma_child_sum(ns, x, 0, 8, h1);
    lemma_child_sum(ns, x, 1, 8, h1);
    lemma_child_sum(ns, x, 2, 8, h1);
    lemma_child_sum(ns, x, 3, 8, h1);
    lemma_child_sum(ns, x, 4, 8, h1);
    assert(b.1 =~= a.1.update(d, a.1[d].drop_last())) by {
        assert forall|dd: int| 0 <= dd < 8 implies #[trigger] b.1[dd] == a.1.update(d, a.1[d].drop_last())[dd] by {
            if dd != d {
                assert(t1.reducible@[dd]@ == t0.reducible@[dd]@);
            }
        }
    }
    assert forall|i: int| 0 <= i < 3 implies #[trigger] b.0[x].channel_sum@[i] == child_sum(a.0, x, i + 1, 8) by {
        assert(t1.nodes@[x].channel_sum@[i] == csum(ns, i + 1, x, 8, h1));
    }
}

proof fn lemma_reduce_children_are_leaves(t0: Octree, x: int, depth: int)
    requires
        t0.wf(),
        0 <= depth < 8,
        forall|dd: int| depth < dd < 8 ==> (#[trigger] t0.reducible@[dd])@.len() == 0,
        t0.reducible@[depth]@.len() > 0,
        t0.reducible@[depth]@.last() == x,
    ensures
        0 < x < t0.nodes@.len(),
        !t0.nodes@[x].is_leaf,
        t0.dep@[x] == depth,
        linked(t0.nodes@, t0.par@, t0.slot@, 0, x),
        forall|c: int|
            0 <= c < 8 && (#[trigger] t0.nodes@[x].children@[c]) is Some ==> t0.nodes@[t0.nodes@[x].children@[c]->0
                as int].is_leaf,
        t0.hmax@ - t0.dep@[x] >= 1,
{
    let ns = t0.nodes@;
    let l = t0.reducible@[depth]@.len() - 1;
    assert(t0.reducible@[depth]@[l] == x);
    assert forall|c: int|
        0 <= c < 8 && (#[trigger] ns[x].children@[c]) is Some implies ns[ns[x].children@[c]->0 as int].is_leaf by {
        let j = ns[x].children@[c]->0 as int;
        if !ns[j].is_leaf {
            assert(t0.reducible@[t0.dep@[j]]@.contains(j as usize));
        }
    }
}

/// The state after folding node `x` (taken from the reducible list at depth
/// `depth`) into a leaf is well formed and holds the same pixels.
proof fn lemma_reduce_wf(t0: Octree, t1: Octree, t2: Octree, x: int, depth: int)
    requires
        t0.wf(),
        0 <= depth < 8,
        forall|dd: int| depth < dd < 8 ==> (#[trigger] t0.reducible@[dd])@.len() == 0,
        t0.reducible@[depth]@.len() > 0,
        t0.reducible@[depth]@.last() == x,
        t1.reducible@ == t0.reducible@.update(depth, t1.reducible@[depth]),
        t1.reducible@[depth]@ == t0.reducible@[depth]@.drop_last(),
        0 < x < t0.nodes@.len(),
        t2.nodes@ == t0.nodes@.update(x, t2.nodes@[x]),
        t2.nodes@[x].is_leaf,
        t2.nodes@[x].children@.len() == 8,
        forall|c: int| 0 <= c < 8 ==> t2.nodes@[x].children@[c] is None,
        t2.nodes@[x].pixel_count == csum(t0.nodes@, 0, x, 8, (t0.hmax@ - t0.dep@[x] - 1) as nat),
        t2.nodes@[x].channel_sum@[0] == csum(t0.nodes@, 1, x, 8, (t0.hmax@ - t0.dep@[x] - 1) as nat),
        t2.nodes@[x].channel_sum@[1] == csum(t0.nodes@, 2, x, 8, (t0.hmax@ - t0.dep@[x] - 1) as nat),
        t2.nodes@[x].channel_sum@[2] == csum(t0.nodes@, 3, x, 8, (t0.hmax@ - t0.dep@[x] - 1) as nat),
        forall|i: int|
            0 <= i < 3 ==> t0.lo@ * t2.nodes@[x].pixel_count <= #[trigger] t2.nodes@[x].channel_sum@[i]
                <= t0.hi@ * t2.nodes@[x].pixel_count,
        t2.leaf_count == t0.leaf_count - csum(t0.nodes@, 4, x, 8, (t0.hmax@ - t0.dep@[x] - 1) as nat) + 1,
        t2.reducible@ == t1.reducible@,
        t2.par@ == t0.par@,
        t2.slot@ == t0.slot@,
        t2.dep@ == t0.dep@,
        t2.hmax@ == t0.hmax@,
        t2.lo@ == t0.lo@,
        t2.hi@ == t0.hi@,
    ensures
        t2.wf(),
        forall|w: int| 0 <= w <= 3 ==> #[trigger] t2.total(w) == t0.total(w),
        list_total(t2.reducible@) < list_total(t0.reducible@),
{
    let ns0 = t0.nodes@;
    let ns2 = t2.nodes@;
    let par = t0.par@;
    let slot = t0.slot@;
    let dep = t0.dep@;
    let hmax = t0.hmax@;
    let lo = t0.lo@;
    let hi = t0.hi@;
    lemma_reduce_children_are_leaves(t0, x, depth);
    let hx = (hmax - dep[x]) as nat;
    assert forall|w: int| 0 <= w <= 4 implies #[trigger] subtree(ns2, w, 0, hmax as nat) == subtree(
        ns0,
        w,
        0,
        hmax as nat,
    ) + weight(ns2[x], w) - csum(ns0, w, x, 8, (hx - 1) as nat) by {
        lemma_delta(ns0, ns2, par, slot, dep, hmax, w, x, 0);
    }
    assert(links_ok(ns2, par, slot, dep)) by {
        assert forall|id: int, c: int|
            0 <= id < ns2.len() && 0 <= c < 8 && (#[trigger] ns2[id].children@[c]) is Some implies {
            let j = ns2[id].children@[c]->0 as int;
            &&& 0 < j < ns2.len()
            &&& par[j] == id
            &&& slot[j] == c
            &&& dep[j] == dep[id] + 1
        } by {
            assert(ns0[id].children@[c] is Some);
        }
        assert forall|id: int| 0 <= id < ns2.len() implies #[trigger] ns2[id].children@.len() == 8 by {
            assert(ns0[id].children@.len() == 8);
        }
    }
    assert(shape_ok(ns2, dep, hmax)) by {
        assert forall|id: int| 0 <= id < ns2.len() implies {
            &&& 0 <= #[trigger] dep[id] <= hmax
            &&& ns2[id].is_leaf ==> forall|c: int| 0 <= c < 8 ==> ns2[id].children@[c] is None
            &&& !ns2[id].is_leaf ==> dep[id] < hmax
        } by {
            assert(0 <= dep[id] <= hmax);
        }
    }
    let red0 = t0.reducible@;
    let red = t2.reducible@;
    // No reducible node hangs below `x`: its children are leaves.
    assert forall|y: int|
        0 <= y < ns0.len() && y != x && !ns0[y].is_leaf implies !linked(ns0, par, slot, x, y) by {
        if linked(ns0, par, slot, x, y) {
            lemma_chain_child(ns0, par, slot, dep, x, y);
            let z = chain_child(par, x, y);
            assert(ns0[x].children@[slot[z]] is Some);
            if z != y {
                lemma_chain_child(ns0, par, slot, dep, z, y);
                let z2 = chain_child(par, z, y);
                assert(ns0[z].children@[slot[z2]] is Some);
            }
        }
    }
    assert forall|dd: int, i: int| 0 <= dd < 8 && 0 <= i < red[dd]@.len() implies {
        let y = #[trigger] red[dd]@[i] as int;
        &&& 0 < y < ns2.len()
        &&& dep[y] == dd
        &&& !ns2[y].is_leaf
        &&& linked(ns2, par, slot, 0, y)
    } by {
        assert(red[dd]@[i] == red0[dd]@[i]);
        let y = red0[dd]@[i] as int;
        if dd == depth {
            let l = red0[dd]@.len() - 1;
            assert(red0[dd]@[l] == x as usize);
            assert(i != l);
        }
        assert(y != x);
        lemma_linked_off_chain(ns0, ns2, par, slot, dep, x, 0, y);
    }
    assert forall|dd: int, i: int, j: int|
        0 <= dd < 8 && 0 <= i < red[dd]@.len() && 0 <= j < red[dd]@.len() && i != j implies #[trigger] red[dd]@[i]
        != #[trigger] red[dd]@[j] by {
        assert(red[dd]@[i] == red0[dd]@[i]);
        assert(red[dd]@[j] == red0[dd]@[j]);
    }
    assert forall|y: int| 0 < y < ns2.len() && !(#[trigger] ns2[y]).is_leaf implies red[dep[y]]@.contains(
        y as usize,
    ) by {
        assert(ns0[y] == ns2[y]);
        assert(red0[dep[y]]@.contains(y as usize));
        let i = choose|i: int| 0 <= i < red0[dep[y]]@.len() && red0[dep[y]]@[i] == y as usize;
        if dep[y] == depth {
            let l = red0[depth]@.len() - 1;
            assert(red0[depth]@[l] == x as usize);
            assert(i != l);
            assert(red[dep[y]]@[i] == y as usize);
        } else {
            assert(red[dep[y]] == red0[dep[y]]);
        }
    }
    assert forall|id: int| 0 <= id < ns2.len() && dep[id] == hmax implies (#[trigger] ns2[id]).is_leaf by {
        if id != x {
            assert(ns0[id] == ns2[id]);
        }
    }
    assert forall|id: int|
        0 <= id < ns2.len() && !(#[trigger] ns2[id]).is_leaf implies {
        &&& ns2[id].pixel_count == 0
        &&& forall|i: int| 0 <= i < 3 ==> ns2[id].channel_sum@[i] == 0
    } by {
        assert(ns0[id] == ns2[id]);
    }
    assert forall|z: int|
        0 <= z < ns2.len() && (#[trigger] ns2[z]).is_leaf implies forall|i: int|
        0 <= i < 3 ==> lo * ns2[z].pixel_count <= #[trigger] ns2[z].channel_sum@[i] <= hi
            * ns2[z].pixel_count by {
        if z != x {
            assert(ns0[z] == ns2[z]);
        }
    }
    lemma_list_total_update(red0, depth, red[depth]);
    assert(red =~= red0.update(depth, red[depth]));
}


/// Sum of one channel (`ch` in 0..3) over a sequence of points.
pub open spec fn point_sum(p: Seq<(i32, i32, i32)>, ch: int) -> int
    decreases p.len(),
{
    if p.len() == 0 {
        0
    } else {
        point_sum(p.drop_last(), ch) + if ch == 0 {
            p.last().0 as int
        } else if ch == 1 {
            p.last().1 as int
        } else {
            p.last().2 as int
        }
    }
}

/// Builds an octree from `points` (every channel within `lo..=hi`) and
/// returns the leaves that absorbed pixels.
proof fn lemma_one_out(out: Seq<OctreeNode>, n: int)
    requires
        out.len() <= 1,
        wsum(out, 0) == n,
        n >= 1,
    ensures
        out.len() == 1,
        forall|w: int| #[trigger] wsum(out, w) == weight(out[0], w),
{
    if out.len() == 0 {
        assert(wsum(out, 0) == 0);
    }
    assert forall|w: int| #[trigger] wsum(out, w) == weight(out[0], w) by {
        assert(out.drop_last().len() == 0);
        assert(wsum(out.drop_last(), w) == 0);
        assert(out.last() == out[0]);
    }
}

fn build_octree(
    points: &Vec<(i32, i32, i32)>,
    k: usize,
    max_depth: usize,
    Ghost(lo): Ghost<int>,
    Ghost(hi): Ghost<int>,
) -> (out: Vec<OctreeNode>)
    requires
        1 <= max_depth <= 8,
        points@.len() < 0x7fff_ffff,
        -0x8000_0000 <= lo <= 0 <= hi <= 0x8000_0000,
        forall|i: int|
            0 <= i < points@.len() ==> lo <= (#[trigger] points@[i]).0 <= hi && lo <= points@[i].1 <= hi
                && lo <= points@[i].2 <= hi,
    ensures
        wsum(out@, 0) == points@.len(),
        wsum(out@, 1) == point_sum(points@, 0),
        wsum(out@, 2) == point_sum(points@, 1),
        wsum(out@, 3) == point_sum(points@, 2),
        out@.len() <= k || out@.len() <= 8,
        forall|e: int| 0 <= e < out@.len() ==> good_leaf(#[trigger] out@[e], lo, hi),
        octree_leaves_are(points@, k as int, max_depth as int, out@),
        points@.len() >= 1 && (forall|j: int| 0 <= j < points@.len() ==> #[trigger] points@[j] == points@[0]) ==> {
            &&& out@.len() == 1
            &&& out@[0].pixel_count == points@.len()
            &&& forall|ch: int| 0 <= ch < 3 ==> #[trigger] out@[0].channel_sum@[ch] == point_sum(points@, ch)
        },
{
    let mut tree = Octree::new(max_depth, Ghost(lo), Ghost(hi));
    let ghost mut states: Seq<OctState> = seq![tree.model()];
    let ghost same = points@.len() >= 1 && (forall|j: int| 0 <= j < points@.len() ==> #[trigger] points@[j] == points@[0]);
    proof {
        if same {
            assert forall|y: int, o: int|
                0 <= y < tree.nodes@.len() && 0 <= o < 8 && (#[trigger] tree.nodes@[y].children@[o]) is Some implies o
                    == octant(points@[0], tree.dep@[y]) by {
                assert(tree.nodes@.len() == 1);
            }
        }
    }
    let mut i: usize = 0;
    while i < points.len()
        invariant
            tree.wf(),
            tree.hmax@ == max_depth,
            tree.lo@ == lo,
            tree.hi@ == hi,
            i <= points@.len(),
            points@.len() < 0x7fff_ffff,
            forall|j: int|
                0 <= j < points@.len() ==> lo <= (#[trigger] points@[j]).0 <= hi && lo <= points@[j].1
                    <= hi && lo <= points@[j].2 <= hi,
            tree.total(0) == i,
            tree.total(1) == point_sum(points@.subrange(0, i as int), 0),
            tree.total(2) == point_sum(points@.subrange(0, i as int), 1),
            tree.total(3) == point_sum(points@.subrange(0, i as int), 2),
            i > 0 ==> (tree.leaf_count <= k || tree.leaf_count <= 8),
            i == 0 ==> tree.leaf_count == 0,
            states.len() == i + 1,
            tree_start(states[0]),
            forall|j: int|
                0 <= j < i ==> insert_step(#[trigger] states[j], states[j + 1], points@[j], max_depth as int, k as int),
            states.last() == tree.model(),
            pixels_placed(tree.nodes@),
            same ==> one_path(tree.nodes@, tree.dep@, points@[0]),
            same == (points@.len() >= 1 && (forall|j: int| 0 <= j < points@.len() ==> #[trigger] points@[j] == points@[0])),
        decreases points@.len() - i,
    {
        let ghost before = tree.model();
        tree.insert(points[i], max_depth, k);
        proof {
            let s0 = states;
            states = states.push(tree.model());
            assert forall|j: int|
                0 <= j < i + 1 implies insert_step(#[trigger] states[j], states[j + 1], points@[j], max_depth as int, k as int) by {
                if j < i {
                    assert(states[j] == s0[j] && states[j + 1] == s0[j + 1]);
                } else {
                    assert(states[j] == before);
                }
            }
        }
        proof {
            let a = points@.subrange(0, i as int);
            let b = points@.subrange(0, i + 1);
            assert(b.drop_last() =~= a);
        }
        i = i + 1;
    }
    proof {
        assert(points@.subrange(0, points@.len() as int) =~= points@);
    }
    let mut out: Vec<OctreeNode> = Vec::new();
    tree.walk(0, &mut out);
    proof {
        let ns = tree.nodes@;
        let h = max_depth as nat;
        assert(out@ =~= leaves(ns, 0, h));
        lemma_leaves(ns, 0, h, 0, lo, hi);
        lemma_leaves(ns, 0, h, 1, lo, hi);
        lemma_leaves(ns, 0, h, 2, lo, hi);
        lemma_leaves(ns, 0, h, 3, lo, hi);
        if points@.len() == 0 {
            assert(tree.leaf_count == 0);
        }
        assert(octree_build(points@, k as int, max_depth as int, states));
        if same {
            lemma_one_leaves(ns, tree.dep@, points@[0], 0, h);
            lemma_one_out(out@, points@.len() as int);
        }
    }
    out
}

/// The colour of a leaf of an RGB octree: the truncated mean of each channel.
pub open spec fn leaf_mean(n: OctreeNode) -> Rgb {
    Rgb {
        r: (n.channel_sum@[0] as int / n.pixel_count as int) as u8,
        g: (n.channel_sum@[1] as int / n.pixel_count as int) as u8,
        b: (n.channel_sum@[2] as int / n.pixel_count as int) as u8,
    }
}

/// A leaf's colour is, channel by channel, the truncated mean of the pixels
/// it absorbed: its count times the channel is at most the channel's sum,
/// and its count times one more exceeds it.
pub proof fn lemma_leaf_mean_truncates(n: OctreeNode)
    requires
        good_leaf(n, 0, 255),
    ensures
        ({
            let c = leaf_mean(n);
            let k = n.pixel_count as int;
            &&& k * c.r <= n.channel_sum@[0] < k * (c.r + 1)
            &&& k * c.g <= n.channel_sum@[1] < k * (c.g + 1)
            &&& k * c.b <= n.channel_sum@[2] < k * (c.b + 1)
        }),
{
    let k = n.pixel_count as int;
    assert(k * 0 == 0);
    assert(0 * k <= n.channel_sum@[0] <= 255 * k);
    assert(0 * k <= n.channel_sum@[1] <= 255 * k);
    assert(0 * k <= n.channel_sum@[2] <= 255 * k);
    lemma_truncated_mean(n.channel_sum@[0] as int, k, 0, 255);
    lemma_truncated_mean(n.channel_sum@[1] as int, k, 0, 255);
    lemma_truncated_mean(n.channel_sum@[2] as int, k, 0, 255);
}

fn leaf_rgb(n: &OctreeNode) -> (c: Rgb)
    requires
        good_leaf(*n, 0, 255),
    ensures
        c == leaf_mean(*n),
{
    let count = n.pixel_count as i64;
    proof {
        let cnt = count as int;
        assert forall|i: int| 0 <= i < 3 implies 0 <= (#[trigger] n.channel_sum@[i]) as int / cnt <= 255 by {
            let s = n.channel_sum@[i] as int;
            assert(0 <= s <= 255 * cnt);
            assert(0 <= s / cnt <= 255) by (nonlinear_arith)
                requires
                    0 <= s <= 255 * cnt,
                    cnt >= 1,
            ;
        }
    }
    Rgb::new(
        (n.channel_sum[0] / count) as u8,
        (n.channel_sum[1] / count) as u8,
        (n.channel_sum[2] / count) as u8,
    )
}

/// What every octree palette satisfies, whatever its colour space: at most
/// `k` entries, largest population first, each population at least one,
/// populations adding up to at most the number of sampled pixels and to
/// exactly that number when nothing had to be cut (`k` at least 8, or fewer
/// entries than `k`), and at least one entry for a non-empty input.
pub open spec fn octree_palette_ok(result: Seq<(Rgb, u32)>, n: int, k: int) -> bool {
    &&& result.len() <= k
    &&& pops_nonincreasing(result)
    &&& pops_positive(result)
    &&& pop_sum(result) <= n
    &&& (k >= 8 || result.len() < k) ==> pop_sum(result) == n
    &&& (n >= 1 && k >= 1) ==> result.len() >= 1
}

proof fn lemma_palette_from_leaves(
    leaves: Seq<OctreeNode>,
    palette: Seq<(Rgb, u32)>,
    sorted: Seq<(Rgb, u32)>,
    result: Seq<(Rgb, u32)>,
    n: int,
    k: int,
    lo: int,
    hi: int,
)
    requires
        wsum(leaves, 0) == n,
        leaves.len() <= k || leaves.len() <= 8,
        forall|e: int| 0 <= e < leaves.len() ==> good_leaf(#[trigger] leaves[e], lo, hi),
        palette.len() == leaves.len(),
        forall|e: int| 0 <= e < leaves.len() ==> (#[trigger] palette[e]).1 == leaves[e].pixel_count,
        is_stable_pop_sort(sorted, palette),
        sorted.len() == palette.len(),
        k >= 1,
        result == (if k <= sorted.len() {
            sorted.subrange(0, k)
        } else {
            sorted
        }),
    ensures
        octree_palette_ok(result, n, k),
{
    broadcast use vstd::seq_lib::group_to_multiset_ensures;

    lemma_pop_sum_wsum(leaves, palette);
    if k <= sorted.len() {
        crate::palette::lemma_pop_sum_prefix(sorted, k);
    }
    assert forall|i: int| 0 <= i < result.len() implies result[i].1 >= 1 by {
        assert(result[i] == sorted[i]);
        assert(sorted.to_multiset().count(sorted[i]) > 0);
        assert(palette.to_multiset().count(sorted[i]) > 0);
        assert(palette.contains(sorted[i]));
        let e = choose|e: int| 0 <= e < palette.len() && palette[e] == sorted[i];
        assert(good_leaf(leaves[e], lo, hi));
    }
    assert forall|i: int, j: int| 0 <= i < j < result.len() implies result[i].1 >= result[j].1 by {
        assert(result[i] == sorted[i] && result[j] == sorted[j]);
    }
    if n >= 1 {
        if leaves.len() == 0 {
            assert(wsum(leaves, 0) == 0);
        }
    }
    if k == sorted.len() {
        assert(sorted.subrange(0, k) =~= sorted);
    }
    assert(pop_sum(sorted) == n);
    assert(pops_nonincreasing(result));
    assert(pops_positive(result));
    assert(pop_sum(result) <= n);
    assert((k >= 8 || result.len() < k) ==> pop_sum(result) == n);
}

proof fn lemma_pop_sum_wsum(leaves: Seq<OctreeNode>, palette: Seq<(Rgb, u32)>)
    requires
        palette.len() == leaves.len(),
        forall|e: int| 0 <= e < leaves.len() ==> (#[trigger] palette[e]).1 == leaves[e].pixel_count,
    ensures
        pop_sum(palette) == wsum(leaves, 0),
    decreases leaves.len(),
{
    if leaves.len() > 0 {
        lemma_pop_sum_wsum(leaves.drop_last(), palette.drop_last());
    }
}

fn octree_points_rgb(sampled: &Vec<Rgb>) -> (points: Vec<(i32, i32, i32)>)
    ensures
        points@.len() == sampled@.len(),
        forall|i: int|
            0 <= i < sampled@.len() ==> #[trigger] points@[i] == (
                sampled@[i].r as i32,
                sampled@[i].g as i32,
                sampled@[i].b as i32,
            ),
{
    let mut points: Vec<(i32, i32, i32)> = Vec::with_capacity(sampled.len());
    let mut i: usize = 0;
    while i < sampled.len()
        invariant
            i <= sampled@.len(),
            points@.len() == i,
            forall|j: int|
                0 <= j < i ==> #[trigger] points@[j] == (
                    sampled@[j].r as i32,
                    sampled@[j].g as i32,
                    sampled@[j].b as i32,
                ),
        decreases sampled@.len() - i,
    {
        let p = sampled[i];
        points.push((p.r as i32, p.g as i32, p.b as i32));
        i = i + 1;
    }
    points
}


/// The RGB palette: leaves hold RGB channel sums and yield their truncated
/// channel means.
/// The points that RGB pixels are placed by: their channels.
pub open spec fn rgb_points(s: Seq<Rgb>) -> Seq<(i32, i32, i32)> {
    Seq::new(s.len(), |i: int| (s[i].r as i32, s[i].g as i32, s[i].b as i32))
}

/// `leaves` hold the points `p`: each is a leaf with at least one point and
/// channel sums in `[lo, hi]` per point, and together they hold every point
/// and the points' channel sums.
pub open spec fn leaves_hold(leaves: Seq<OctreeNode>, p: Seq<(i32, i32, i32)>, lo: int, hi: int) -> bool {
    &&& wsum(leaves, 0) == p.len()
    &&& wsum(leaves, 1) == point_sum(p, 0)
    &&& wsum(leaves, 2) == point_sum(p, 1)
    &&& wsum(leaves, 3) == point_sum(p, 2)
    &&& forall|e: int| 0 <= e < leaves.len() ==> good_leaf(#[trigger] leaves[e], lo, hi)
}

/// The first `k` entries of a palette, or all of it when it is shorter.
pub open spec fn cut(s: Seq<(Rgb, u32)>, k: int) -> Seq<(Rgb, u32)> {
    if k < s.len() {
        s.subrange(0, k)
    } else {
        s
    }
}

/// Each leaf's truncated mean colour with its pixel count.
pub open spec fn leaf_palette(leaves: Seq<OctreeNode>) -> Seq<(Rgb, u32)> {
    Seq::new(leaves.len(), |e: int| (leaf_mean(leaves[e]), leaves[e].pixel_count))
}

/// The RGB octree palette of the sampled pixels `s`: the pixel-holding leaves
/// of the octree built from them with depth limit `depth` and at most `k`
/// leaves wanted ([`octree_leaves_are`]), their mean colours and pixel counts,
/// sorted stably by count, largest first, and cut to `k` entries.
pub open spec fn octree_rgb_result(s: Seq<Rgb>, k: int, depth: int, result: Seq<(Rgb, u32)>) -> bool {
    exists|leaves: Seq<OctreeNode>, sorted: Seq<(Rgb, u32)>|
        {
            &&& octree_leaves_are(rgb_points(s), k, depth, leaves)
            &&& leaves_hold(leaves, rgb_points(s), 0, 255)
            &&& #[trigger] is_stable_pop_sort(sorted, leaf_palette(leaves))
            &&& sorted.len() == leaves.len()
            &&& result == cut(sorted, k)
        }
}

/// `leaves` hold the points `p`, whose channels may be any `i32`.
pub open spec fn leaves_hold_i32(leaves: Seq<OctreeNode>, p: Seq<(i32, i32, i32)>) -> bool {
    leaves_hold(leaves, p, -0x8000_0000, 0x7fff_ffff)
}

/// The CIELAB octree palette of the sampled pixels `s`: each pixel placed by
/// the point `lab_channels` gives for it; for the pixel-holding leaves of the
/// octree built from those points with depth limit `depth` and at most `k`
/// leaves wanted ([`octree_leaves_are`]), the colour `lab_color` gives for each
/// leaf's channel sums and pixel count, with that count, sorted stably by
/// count, largest first, and cut to `k` entries.
pub open spec fn octree_lab_result<F: Fn(Rgb) -> (i32, i32, i32), G: Fn(i64, i64, i64, u32) -> Rgb>(
    s: Seq<Rgb>,
    k: int,
    depth: int,
    lab_channels: F,
    lab_color: G,
    result: Seq<(Rgb, u32)>,
) -> bool {
    exists|points: Seq<(i32, i32, i32)>, leaves: Seq<OctreeNode>, palette: Seq<(Rgb, u32)>, sorted: Seq<(Rgb, u32)>|
        #![trigger leaves_hold_i32(leaves, points), is_stable_pop_sort(sorted, palette)]
        {
            &&& points.len() == s.len()
            &&& octree_leaves_are(points, k, depth, leaves)
            &&& forall|i: int| 0 <= i < s.len() ==> call_ensures(lab_channels, (s[i],), #[trigger] points[i])
            &&& leaves_hold_i32(leaves, points)
            &&& palette.len() == leaves.len()
            &&& forall|e: int|
                0 <= e < leaves.len() ==> (#[trigger] palette[e]).1 == leaves[e].pixel_count && call_ensures(
                    lab_color,
                    (
                        leaves[e].channel_sum@[0],
                        leaves[e].channel_sum@[1],
                        leaves[e].channel_sum@[2],
                        leaves[e].pixel_count,
                    ),
                    palette[e].0,
                )
            &&& is_stable_pop_sort(sorted, palette)
            &&& sorted.len() == palette.len()
            &&& result == cut(sorted, k)
        }
}

proof fn lemma_point_sum_same(p: Seq<(i32, i32, i32)>, c: (i32, i32, i32), ch: int)
    requires
        forall|j: int| 0 <= j < p.len() ==> #[trigger] p[j] == c,
    ensures
        point_sum(p, ch) == p.len() * (if ch == 0 {
            c.0 as int
        } else if ch == 1 {
            c.1 as int
        } else {
            c.2 as int
        }),
    decreases p.len(),
{
    if p.len() > 0 {
        let q = p.drop_last();
        assert forall|j: int| 0 <= j < q.len() implies #[trigger] q[j] == c by {
            assert(q[j] == p[j]);
        }
        lemma_point_sum_same(q, c, ch);
        let v = if ch == 0 {
            c.0 as int
        } else if ch == 1 {
            c.1 as int
        } else {
            c.2 as int
        };
        assert(p.last() == p[p.len() - 1]);
        assert(q.len() * v + v == p.len() * v) by (nonlinear_arith)
            requires
                q.len() + 1 == p.len(),
        ;
    }
}

/// The pixels that sampling keeps are pixels of the input.
pub proof fn lemma_sampled_from(s: Seq<Rgb>, i: int)
    requires
        0 <= i < sampled(s).len(),
    ensures
        exists|j: int| 0 <= j < s.len() && sampled(s)[i] == s[j],
{
    let st = spec_sample_step(s.len() as int);
    assert(st >= 1) by {
        if s.len() > MAX_SAMPLE {
            let len = s.len() as int;
            let ms = MAX_SAMPLE as int;
            assert(len / ms >= 1) by (nonlinear_arith)
                requires
                    len > ms,
                    ms > 0,
            ;
        }
    }
    let m = (s.len() + st - 1) / st;
    vstd::arithmetic::div_mod::lemma_fundamental_div_mod(s.len() + st - 1, st);
    assert(i * st <= s.len() - 1) by (nonlinear_arith)
        requires
            0 <= i < m,
            s.len() + st - 1 == st * m + (s.len() + st - 1) % st,
            0 <= (s.len() + st - 1) % st < st,
            st >= 1,
    ;
    assert(i * st >= 0) by (nonlinear_arith)
        requires
            i >= 0,
            st >= 1,
    ;
    assert(sampled(s)[i] == s[i * st]);
}

fn octree_rgb(pixels: &[Rgb], k: usize, max_depth: usize) -> (result: Vec<(Rgb, u32)>)
    requires
        1 <= max_depth <= 8,
        k >= 1,
    ensures
        octree_palette_ok(result@, sampled(pixels@).len() as int, k as int),
        octree_rgb_result(sampled(pixels@), k as int, max_depth as int, result@),
        pixels@.len() > 0 ==> sampled(pixels@).len() >= 1,
        sampled(pixels@).len() >= 1 && (forall|i: int|
            0 <= i < sampled(pixels@).len() ==> #[trigger] sampled(pixels@)[i] == sampled(pixels@)[0]) ==> result@
            == seq![(sampled(pixels@)[0], sampled(pixels@).len() as u32)],
{
    let sampled = sample_pixels(pixels);
    let points = octree_points_rgb(&sampled);
    let leaves = build_octree(&points, k, max_depth, Ghost(0), Ghost(255));
    let mut palette: Vec<(Rgb, u32)> = Vec::with_capacity(leaves.len());
    let mut i: usize = 0;
    while i < leaves.len()
        invariant
            i <= leaves@.len(),
            palette@.len() == i,
            forall|e: int| 0 <= e < leaves@.len() ==> good_leaf(#[trigger] leaves@[e], 0, 255),
            forall|e: int|
                0 <= e < i ==> #[trigger] palette@[e] == (leaf_mean(leaves@[e]), leaves@[e].pixel_count),
        decreases leaves@.len() - i,
    {
        let c = leaf_rgb(&leaves[i]);
        palette.push((c, leaves[i].pixel_count));
        i = i + 1;
    }
    let ghost unsorted = palette@;
    let mut sorted = sort_by_population(palette);
    let ghost full = sorted@;
    sorted.truncate(k);
    proof {
        lemma_palette_from_leaves(
            leaves@,
            unsorted,
            full,
            sorted@,
            sampled@.len() as int,
            k as int,
            0,
            255,
        );
        assert(points@ =~= rgb_points(sampled@));
        assert(unsorted =~= leaf_palette(leaves@));
        assert(leaves_hold(leaves@, rgb_points(sampled@), 0, 255));
        assert(sorted@ == cut(full, k as int));
        assert(is_stable_pop_sort(full, leaf_palette(leaves@)));
        let sp = sampled@;
        if sp.len() >= 1 && (forall|i: int| 0 <= i < sp.len() ==> #[trigger] sp[i] == sp[0]) {
            let c = (sp[0].r as i32, sp[0].g as i32, sp[0].b as i32);
            assert forall|j: int| 0 <= j < points@.len() implies #[trigger] points@[j] == points@[0] by {
                assert(sp[j] == sp[0]);
            }
            assert forall|j: int| 0 <= j < points@.len() implies #[trigger] points@[j] == c by {
                assert(sp[j] == sp[0]);
            }
            let n = sp.len() as int;
            let l = leaves@[0];
            lemma_point_sum_same(points@, c, 0);
            lemma_point_sum_same(points@, c, 1);
            lemma_point_sum_same(points@, c, 2);
            assert(l.channel_sum@[0] == point_sum(points@, 0));
            assert(l.channel_sum@[1] == point_sum(points@, 1));
            assert(l.channel_sum@[2] == point_sum(points@, 2));
            vstd::arithmetic::div_mod::lemma_div_multiples_vanish(sp[0].r as int, n);
            vstd::arithmetic::div_mod::lemma_div_multiples_vanish(sp[0].g as int, n);
            vstd::arithmetic::div_mod::lemma_div_multiples_vanish(sp[0].b as int, n);
            assert(n * (sp[0].r as int) == (sp[0].r as int) * n) by (nonlinear_arith);
            assert(n * (sp[0].g as int) == (sp[0].g as int) * n) by (nonlinear_arith);
            assert(n * (sp[0].b as int) == (sp[0].b as int) * n) by (nonlinear_arith);
            assert(leaf_mean(l) == sp[0]);
            let e = (sp[0], n as u32);
            assert(unsorted =~= seq![e]);
            assert(full.len() == 1);
            broadcast use vstd::seq_lib::group_to_multiset_ensures;
            assert(unsorted.to_multiset().count(e) > 0) by {
                assert(unsorted.contains(e)) by {
                    assert(unsorted[0] == e);
                }
            }
            assert(full.contains(e));
            assert(full[0] == e);
            assert(sorted@ =~= seq![e]);
        }
    }
    sorted
}


/// The colour space in which the octree splits colours.
#[derive(Debug, Clone, Copy, PartialEq, Eq, Structural)]
pub enum OctreeColorSpace {
    Rgb,
    Lab,
}

/// The CIELAB palette: each sampled pixel is placed by the integer Lab
/// channels that `lab_channels` gives for it, and each leaf's colour is what
/// `lab_color` makes of its channel sums and pixel count.
fn octree_lab<F: Fn(Rgb) -> (i32, i32, i32), G: Fn(i64, i64, i64, u32) -> Rgb>(
    pixels: &[Rgb],
    k: usize,
    max_depth: usize,
    lab_channels: &F,
    lab_color: &G,
) -> (result: Vec<(Rgb, u32)>)
    requires
        1 <= max_depth <= 8,
        k >= 1,
        forall|c: Rgb| call_requires(*lab_channels, (c,)),
        forall|s0: i64, s1: i64, s2: i64, n: u32| call_requires(*lab_color, (s0, s1, s2, n)),
    ensures
        octree_palette_ok(result@, sampled(pixels@).len() as int, k as int),
        octree_lab_result(sampled(pixels@), k as int, max_depth as int, *lab_channels, *lab_color, result@),
{
    let sampled = sample_pixels(pixels);
    let mut points: Vec<(i32, i32, i32)> = Vec::with_capacity(sampled.len());
    let mut i: usize = 0;
    while i < sampled.len()
        invariant
            i <= sampled@.len(),
            points@.len() == i,
            forall|c: Rgb| call_requires(*lab_channels, (c,)),
            forall|j: int| 0 <= j < i ==> call_ensures(*lab_channels, (sampled@[j],), #[trigger] points@[j]),
        decreases sampled@.len() - i,
    {
        points.push(lab_channels(sampled[i]));
        i = i + 1;
    }
    let leaves = build_octree(&points, k, max_depth, Ghost(-0x8000_0000), Ghost(0x7fff_ffff));
    let mut palette: Vec<(Rgb, u32)> = Vec::with_capacity(leaves.len());
    let mut i: usize = 0;
    while i < leaves.len()
        invariant
            i <= leaves@.len(),
            palette@.len() == i,
            forall|e: int|
                0 <= e < i ==> (#[trigger] palette@[e]).1 == leaves@[e].pixel_count && call_ensures(
                    *lab_color,
                    (
                        leaves@[e].channel_sum@[0],
                        leaves@[e].channel_sum@[1],
                        leaves@[e].channel_sum@[2],
                        leaves@[e].pixel_count,
                    ),
                    palette@[e].0,
                ),
            forall|s0: i64, s1: i64, s2: i64, n: u32| call_requires(*lab_color, (s0, s1, s2, n)),
        decreases leaves@.len() - i,
    {
        let n = leaves[i];
        let c = lab_color(n.channel_sum[0], n.channel_sum[1], n.channel_sum[2], n.pixel_count);
        palette.push((c, n.pixel_count));
        i = i + 1;
    }
    let ghost unsorted = palette@;
    let mut sorted = sort_by_population(palette);
    let ghost full = sorted@;
    sorted.truncate(k);
    proof {
        lemma_palette_from_leaves(
            leaves@,
            unsorted,
            full,
            sorted@,
            sampled@.len() as int,
            k as int,
            -0x8000_0000,
            0x7fff_ffff,
        );
        assert(leaves_hold_i32(leaves@, points@));
        assert(sorted@ == cut(full, k as int));
        assert(is_stable_pop_sort(full, unsorted));
    }
    sorted
}

/// What octree quantisation gives for `pixels` and `k`: nothing when either
/// is empty or zero; otherwise the palette of the sampled pixels in the chosen
/// colour space with the chosen depth limit, which has the properties of
/// [`octree_palette_ok`]. Pixels all of one colour give that colour once, with
/// the number of sampled pixels.
pub open spec fn octree_result<F: Fn(Rgb) -> (i32, i32, i32), G: Fn(i64, i64, i64, u32) -> Rgb>(
    pixels: Seq<Rgb>,
    k: int,
    color_space: OctreeColorSpace,
    max_depth: OctreeDepth,
    lab_channels: F,
    lab_color: G,
    result: Seq<(Rgb, u32)>,
) -> bool {
    &&& (pixels.len() == 0 || k == 0) ==> result.len() == 0
    &&& octree_palette_ok(result, sampled(pixels).len() as int, k)
    &&& (pixels.len() > 0 && k > 0 && color_space == OctreeColorSpace::Rgb) ==> octree_rgb_result(
        sampled(pixels),
        k,
        depth_value(max_depth),
        result,
    )
    &&& (pixels.len() > 0 && k > 0 && color_space == OctreeColorSpace::Lab) ==> octree_lab_result(
        sampled(pixels),
        k,
        depth_value(max_depth),
        lab_channels,
        lab_color,
        result,
    )
    &&& (pixels.len() > 0 && k > 0 && color_space == OctreeColorSpace::Rgb && forall|i: int|
        0 <= i < pixels.len() ==> #[trigger] pixels[i] == pixels[0]) ==> result == seq![(pixels[0], sampled(pixels).len() as u32)]
}

/// Extracts up to `k` colours with octree quantisation, in RGB or CIELAB.
///
/// The pixels are first thinned as [`sample_pixels`] does. In CIELAB the
/// integer channels of each pixel come from `lab_channels`, and the colour of
/// each leaf from `lab_color` applied to its channel sums and pixel count.
/// The palette is sorted by population, largest first.
pub fn extract_colors_octree<F: Fn(Rgb) -> (i32, i32, i32), G: Fn(i64, i64, i64, u32) -> Rgb>(
    pixels: &[Rgb],
    k: usize,
    color_space: OctreeColorSpace,
    max_depth: OctreeDepth,
    lab_channels: F,
    lab_color: G,
) -> (result: Vec<(Rgb, u32)>)
    requires
        forall|c: Rgb| call_requires(lab_channels, (c,)),
        forall|s0: i64, s1: i64, s2: i64, n: u32| call_requires(lab_color, (s0, s1, s2, n)),
    ensures
        octree_result(pixels@, k as int, color_space, max_depth, lab_channels, lab_color, result@),
{
    if pixels.len() == 0 || k == 0 {
        return Vec::new();
    }
    let depth = max_depth.as_usize();
    match color_space {
        OctreeColorSpace::Rgb => {
            let result = octree_rgb(pixels, k, depth);
            proof {
                let sp = sampled(pixels@);
                if forall|i: int| 0 <= i < pixels@.len() ==> #[trigger] pixels@[i] == pixels@[0] {
                    assert forall|i: int| 0 <= i < sp.len() implies #[trigger] sp[i] == sp[0] by {
                        lemma_sampled_from(pixels@, i);
                        lemma_sampled_from(pixels@, 0);
                    }
                    assert(sp[0] == pixels@[0]) by {
                        lemma_sampled_from(pixels@, 0);
                    }
                }
            }
            result
        },
        OctreeColorSpace::Lab => octree_lab(pixels, k, depth, &lab_channels, &lab_color),
    }
}

} // verus!
