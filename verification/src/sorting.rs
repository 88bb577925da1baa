//! Sorting of integer pairs in lexicographic order.
use vstd::prelude::*;
use vstd::relations::sorted_by;
use vstd::relations::total_ordering;

verus! {

broadcast use vstd::seq_lib::group_to_multiset_ensures;

/// Lexicographic order on pairs: by the first component, then the second.
pub open spec fn pair_leq() -> spec_fn((u64, u64), (u64, u64)) -> bool {
    |a: (u64, u64), b: (u64, u64)| a.0 < b.0 || (a.0 == b.0 && a.1 <= b.1)
}

/// The lexicographic order is a total order.
pub proof fn lemma_pair_leq_total()
    ensures
        total_ordering(pair_leq()),
{
}

/// `v` in lexicographic order.
pub fn sort_pairs(v: &Vec<(u64, u64)>) -> (out: Vec<(u64, u64)>)
    ensures
        out@ == v@.sort_by(pair_leq()),
{
    let mut out: Vec<(u64, u64)> = Vec::new();
    let mut i: usize = 0;
    while i < v.len()
        invariant
            i <= v.len(),
            sorted_by(out@, pair_leq()),
            out@.to_multiset() == v@.take(i as int).to_multiset(),
        decreases v.len() - i,
    {
        let x = v[i];
        let mut pos: usize = 0;
        while pos < out.len() && (out[pos].0 < x.0 || (out[pos].0 == x.0 && out[pos].1 <= x.1))
            invariant
                pos <= out.len(),
                forall|k: int| 0 <= k < pos ==> (pair_leq())(out@[k], x),
            decreases out.len() - pos,
        {
            pos = pos + 1;
        }
        let ghost before = out@;
        out.insert(pos, x);
        proof {
            assert forall|a: int, b: int| 0 <= a < b < out@.len() implies #[trigger] (pair_leq())(
                out@[a],
                out@[b],
            ) by {
                if b < pos {
                    assert((pair_leq())(before[a], before[b]));
                } else if b == pos {
                } else if a < pos {
                    assert((pair_leq())(before[a], before[b - 1]));
                } else if a == pos {
                    if b - 1 > pos {
                        assert((pair_leq())(before[pos as int], before[b - 1]));
                    }
                } else {
                    assert((pair_leq())(before[a - 1], before[b - 1]));
                }
            }
            assert(v@.take(i + 1) =~= v@.take(i as int).push(x));
            vstd::seq_lib::to_multiset_build(v@.take(i as int), x);
            vstd::seq_lib::to_multiset_insert(before, pos as int, x);
        }
        i = i + 1;
    }
    proof {
        assert(v@.take(v.len() as int) =~= v@);
        lemma_pair_leq_total();
        v@.lemma_sort_by_ensures(pair_leq());
        vstd::seq_lib::lemma_sorted_unique(out@, v@.sort_by(pair_leq()), pair_leq());
    }
    out
}

/// The order in which unlock times are sorted.
pub open spec fn time_leq() -> spec_fn(u64, u64) -> bool {
    |a: u64, b: u64| a <= b
}

/// `v` sorted from earliest to latest.
pub fn sort_times(v: &Vec<u64>) -> (out: Vec<u64>)
    ensures
        out@ == v@.sort_by(time_leq()),
{
    let mut out: Vec<u64> = Vec::new();
    let mut i: usize = 0;
    while i < v.len()
        invariant
            i <= v.len(),
            sorted_by(out@, time_leq()),
            out@.to_multiset() == v@.take(i as int).to_multiset(),
        decreases v.len() - i,
    {
        let x = v[i];
        let mut pos: usize = 0;
        while pos < out.len() && out[pos] <= x
            invariant
                pos <= out.len(),
                forall|k: int| 0 <= k < pos ==> out@[k] <= x,
            decreases out.len() - pos,
        {
            pos = pos + 1;
        }
        let ghost before = out@;
        out.insert(pos, x);
        proof {
            assert forall|a: int, b: int| 0 <= a < b < out@.len() implies #[trigger] (time_leq())(
                out@[a],
                out@[b],
            ) by {
                if b < pos {
                    assert((time_leq())(before[a], before[b]));
                } else if b == pos {
                } else if a < pos {
                    assert((time_leq())(before[a], before[b - 1]));
                } else if a == pos {
                    if b - 1 > pos {
                        assert((time_leq())(before[pos as int], before[b - 1]));
                    }
                } else {
                    assert((time_leq())(before[a - 1], before[b - 1]));
                }
            }
            assert(v@.take(i + 1) =~= v@.take(i as int).push(x));
            vstd::seq_lib::to_multiset_build(v@.take(i as int), x);
            vstd::seq_lib::to_multiset_insert(before, pos as int, x);
        }
        i = i + 1;
    }
    proof {
        assert(v@.take(v.len() as int) =~= v@);
        v@.lemma_sort_by_ensures(time_leq());
        vstd::seq_lib::lemma_sorted_unique(out@, v@.sort_by(time_leq()), time_leq());
    }
    out
}

} // verus!
