//! Palettes: sequences of `(colour, population)` pairs, and their ordering by
//! population.

use vstd::prelude::*;

use crate::color::Rgb;

verus! {

/// The sum of the populations of a palette.
pub open spec fn pop_sum(s: Seq<(Rgb, u32)>) -> int
    decreases s.len(),
{
    if s.len() == 0 {
        0
    } else {
        pop_sum(s.drop_last()) + s.last().1
    }
}

/// Populations never increase along the palette.
pub open spec fn pops_nonincreasing(s: Seq<(Rgb, u32)>) -> bool {
    forall|i: int, j: int| 0 <= i < j < s.len() ==> s[i].1 >= s[j].1
}

/// Selects the entries whose population is `p`.
pub open spec fn has_pop(p: u32) -> spec_fn((Rgb, u32)) -> bool {
    |e: (Rgb, u32)| e.1 == p
}

/// `out` is `inp` sorted by population, largest first, where entries of equal
/// population keep their relative order.
pub open spec fn is_stable_pop_sort(out: Seq<(Rgb, u32)>, inp: Seq<(Rgb, u32)>) -> bool {
    &&& pops_nonincreasing(out)
    &&& out.to_multiset() == inp.to_multiset()
    &&& forall|p: u32| #[trigger] out.filter(has_pop(p)) == inp.filter(has_pop(p))
    &&& pop_sum(out) == pop_sum(inp)
}

proof fn lemma_pop_sum_add(a: Seq<(Rgb, u32)>, b: Seq<(Rgb, u32)>)
    ensures
        pop_sum(a + b) == pop_sum(a) + pop_sum(b),
    decreases b.len(),
{
    if b.len() > 0 {
        lemma_pop_sum_add(a, b.drop_last());
        assert((a + b).drop_last() =~= a + b.drop_last());
    } else {
        assert(a + b =~= a);
    }
}

proof fn lemma_pop_sum_nonneg(s: Seq<(Rgb, u32)>)
    ensures
        pop_sum(s) >= 0,
    decreases s.len(),
{
    if s.len() > 0 {
        lemma_pop_sum_nonneg(s.drop_last());
    }
}

/// A prefix of a palette carries at most the population of the whole.
pub proof fn lemma_pop_sum_prefix(s: Seq<(Rgb, u32)>, k: int)
    requires
        0 <= k <= s.len(),
    ensures
        pop_sum(s.subrange(0, k)) <= pop_sum(s),
{
    lemma_pop_sum_add(s.subrange(0, k), s.subrange(k, s.len() as int));
    assert(s.subrange(0, k) + s.subrange(k, s.len() as int) =~= s);
    lemma_pop_sum_nonneg(s.subrange(k, s.len() as int));
}

/// Every entry of `s` has population at least one.
pub open spec fn pops_positive(s: Seq<(Rgb, u32)>) -> bool {
    forall|i: int| 0 <= i < s.len() ==> s[i].1 >= 1
}

proof fn lemma_filter_none(s: Seq<(Rgb, u32)>, p: u32)
    requires
        forall|i: int| 0 <= i < s.len() ==> s[i].1 != p,
    ensures
        s.filter(has_pop(p)) =~= Seq::<(Rgb, u32)>::empty(),
    decreases s.len(),
{
    reveal(Seq::filter);
    if s.len() > 0 {
        lemma_filter_none(s.drop_last(), p);
    }
}

proof fn lemma_insert_keeps_classes(
    r: Seq<(Rgb, u32)>,
    pos: int,
    e: (Rgb, u32),
    p: u32,
)
    requires
        0 <= pos <= r.len(),
        forall|i: int| 0 <= i < pos ==> r[i].1 >= e.1,
        forall|i: int| pos <= i < r.len() ==> r[i].1 < e.1,
    ensures
        r.insert(pos, e).filter(has_pop(p)) == (if p == e.1 {
            r.filter(has_pop(p)).push(e)
        } else {
            r.filter(has_pop(p))
        }),
{
    broadcast use vstd::seq_lib::group_seq_lib_default;

    reveal(Seq::filter);
    let a = r.subrange(0, pos);
    let b = r.subrange(pos, r.len() as int);
    assert(r =~= a + b);
    assert(r.insert(pos, e) =~= a.push(e) + b);
    assert(a.push(e) =~= a + seq![e]);
    Seq::filter_distributes_over_add(a, b, has_pop(p));
    Seq::filter_distributes_over_add(a.push(e), b, has_pop(p));
    Seq::filter_distributes_over_add(a, seq![e], has_pop(p));
    assert(seq![e].drop_last() =~= Seq::<(Rgb, u32)>::empty());
    if p == e.1 {
        lemma_filter_none(b, p);
        assert(seq![e].filter(has_pop(p)) =~= seq![e]);
        assert(r.filter(has_pop(p)) =~= a.filter(has_pop(p)));
    } else {
        assert(!has_pop(p)(e));
        assert(Seq::<(Rgb, u32)>::empty().filter(has_pop(p)) =~= Seq::<(Rgb, u32)>::empty());
        assert(seq![e].last() == e);
        assert(seq![e].filter(has_pop(p)) =~= Seq::<(Rgb, u32)>::empty());
    }
}

/// Sorts a palette by population, largest first, keeping the relative order
/// of entries with equal population.
pub fn sort_by_population(v: Vec<(Rgb, u32)>) -> (out: Vec<(Rgb, u32)>)
    ensures
        is_stable_pop_sort(out@, v@),
        out@.len() == v@.len(),
{
    broadcast use vstd::seq_lib::group_to_multiset_ensures;

    let n = v.len();
    let mut out: Vec<(Rgb, u32)> = Vec::with_capacity(n);
    let mut i: usize = 0;
    while i < n
        invariant
            n == v@.len(),
            i <= n,
            out@.len() == i,
            pops_nonincreasing(out@),
            out@.to_multiset() == v@.subrange(0, i as int).to_multiset(),
            forall|p: u32| #[trigger]
                out@.filter(has_pop(p)) == v@.subrange(0, i as int).filter(has_pop(p)),
            pop_sum(out@) == pop_sum(v@.subrange(0, i as int)),
        decreases n - i,
    {
        let e = v[i];
        let mut pos: usize = 0;
        while pos < out.len() && out[pos].1 >= e.1
            invariant
                pos <= out@.len(),
                forall|j: int| 0 <= j < pos ==> out@[j].1 >= e.1,
            decreases out@.len() - pos,
        {
            pos = pos + 1;
        }
        proof {
            assert forall|j: int| pos <= j < out@.len() implies out@[j].1 < e.1 by {
                assert(out@[pos as int].1 < e.1);
                assert(out@[pos as int].1 >= out@[j].1);
            }
            let ghost prev = v@.subrange(0, i as int);
            let ghost next = v@.subrange(0, i + 1);
            assert(next =~= prev.push(e));
            assert forall|p: u32| #[trigger]
                out@.insert(pos as int, e).filter(has_pop(p)) == next.filter(has_pop(p)) by {
                lemma_insert_keeps_classes(out@, pos as int, e, p);
                reveal(Seq::filter);
                assert(next.drop_last() =~= prev);
            }
            let ghost a = out@.subrange(0, pos as int);
            let ghost b = out@.subrange(pos as int, out@.len() as int);
            assert(out@ =~= a + b);
            assert(out@.insert(pos as int, e) =~= a + (seq![e] + b));
            lemma_pop_sum_add(a, b);
            lemma_pop_sum_add(a, seq![e] + b);
            lemma_pop_sum_add(seq![e], b);
            assert(seq![e].drop_last() =~= Seq::<(Rgb, u32)>::empty());
            assert(next.drop_last() =~= prev);
            vstd::seq_lib::to_multiset_insert(out@, pos as int, e);
            assert(next.last() == e);
            assert(pop_sum(next) == pop_sum(prev) + e.1);
            assert(seq![e].last() == e);
            assert(pop_sum(Seq::<(Rgb, u32)>::empty()) == 0);
            assert(pop_sum(seq![e]) == e.1);
            assert(pop_sum(out@.insert(pos as int, e)) == pop_sum(out@) + e.1);
            vstd::seq_lib::to_multiset_build(prev, e);
            assert(next.to_multiset() =~= prev.to_multiset().insert(e));
        }
        out.insert(pos, e);
        i = i + 1;
    }
    assert(v@.subrange(0, n as int) =~= v@);
    out
}

} // verus!
