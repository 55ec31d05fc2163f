use vstd::prelude::*;

use crate::metrics::{
    is_distribution, lemma_sum_counts_remove, lemma_sum_counts_update, lists_origin, origin_count,
    origins, sum_counts, OriginCount,
};
use crate::ordering::{
    arrange, is_stable_order, is_stable_sort, lemma_stable_order_unique, precedes, OrderKey,
};
use crate::transaction::Transaction;

verus! {

broadcast use {vstd::seq_lib::group_to_multiset_ensures, vstd::multiset::group_multiset_axioms};

/// The deterministic strategies give one batch per pool: two stable sorts of
/// the same pool under the same key are equal.
pub proof fn lemma_stable_sort_deterministic(
    s: Seq<Transaction>,
    key: OrderKey,
    r1: Seq<Transaction>,
    r2: Seq<Transaction>,
)
    requires
        is_stable_sort(s, key, r1),
        is_stable_sort(s, key, r2),
    ensures
        r1 == r2,
{
    let p1 = choose|p: Seq<usize>| #[trigger] is_stable_order(s, key, p) && r1 == arrange(s, p);
    let p2 = choose|p: Seq<usize>| #[trigger] is_stable_order(s, key, p) && r2 == arrange(s, p);
    lemma_stable_order_unique(s, key, p1, p2);
}

proof fn lemma_sorted_batch_positions(s: Seq<Transaction>, key: OrderKey, r: Seq<Transaction>)
    requires
        is_stable_sort(s, key, r),
    ensures
        forall|p: Seq<usize>|
            #[trigger] is_stable_order(s, key, p) ==> r == arrange(s, p) && r.len() == p.len()
                && (forall|i: int| 0 <= i < r.len() ==> r[i] == s[p[i] as int])
                && (forall|i: int, j: int|
                #![trigger p[i], p[j]]
                0 <= i < j < r.len() ==> precedes(s, key, p[i] as int, p[j] as int)),
{
    let p0 = choose|p: Seq<usize>| #[trigger] is_stable_order(s, key, p) && r == arrange(s, p);
    assert forall|p: Seq<usize>| #[trigger] is_stable_order(s, key, p) implies r == arrange(s, p) by {
        lemma_stable_order_unique(s, key, p0, p);
    }
}

/// In a priority batch the gas price never rises from one transaction to a
/// later one, and transactions of equal gas price keep their insertion order:
/// with `p` the positions in the pool that the batch takes, `p` increases
/// across them.
pub proof fn lemma_priority_batch_order(s: Seq<Transaction>, r: Seq<Transaction>)
    requires
        is_stable_sort(s, OrderKey::GasPriceDescending, r),
    ensures
        forall|i: int, j: int|
            0 <= i < j < r.len() ==> #[trigger] r[i].gas_price >= #[trigger] r[j].gas_price,
        forall|p: Seq<usize>|
            #[trigger] is_stable_order(s, OrderKey::GasPriceDescending, p) ==> r == arrange(s, p)
                && forall|i: int, j: int|
                #![trigger p[i], p[j]]
                0 <= i < j < r.len() && r[i].gas_price == r[j].gas_price ==> p[i] < p[j],
{
    lemma_sorted_batch_positions(s, OrderKey::GasPriceDescending, r);
    let p0 = choose|p: Seq<usize>| #[trigger] is_stable_order(s, OrderKey::GasPriceDescending, p)
        && r == arrange(s, p);
    assert forall|i: int, j: int| 0 <= i < j < r.len() implies #[trigger] r[i].gas_price
        >= #[trigger] r[j].gas_price by {
        assert(precedes(s, OrderKey::GasPriceDescending, p0[i] as int, p0[j] as int));
    }
}

/// In a fair batch the timestamp never falls from one transaction to a later
/// one, and transactions of equal timestamp keep their insertion order: with
/// `p` the positions in the pool that the batch takes, `p` increases across them.
pub proof fn lemma_fair_batch_order(s: Seq<Transaction>, r: Seq<Transaction>)
    requires
        is_stable_sort(s, OrderKey::TimestampAscending, r),
    ensures
        forall|i: int, j: int|
            0 <= i < j < r.len() ==> #[trigger] r[i].timestamp <= #[trigger] r[j].timestamp,
        forall|p: Seq<usize>|
            #[trigger] is_stable_order(s, OrderKey::TimestampAscending, p) ==> r == arrange(s, p)
                && forall|i: int, j: int|
                #![trigger p[i], p[j]]
                0 <= i < j < r.len() && r[i].timestamp == r[j].timestamp ==> p[i] < p[j],
{
    lemma_sorted_batch_positions(s, OrderKey::TimestampAscending, r);
    let p0 = choose|p: Seq<usize>| #[trigger] is_stable_order(s, OrderKey::TimestampAscending, p)
        && r == arrange(s, p);
    assert forall|i: int, j: int| 0 <= i < j < r.len() implies #[trigger] r[i].timestamp
        <= #[trigger] r[j].timestamp by {
        assert(precedes(s, OrderKey::TimestampAscending, p0[i] as int, p0[j] as int));
    }
}

/// Per-origin counts add up to the size of the pool: whatever lists each
/// origin of a pool once with its number of transactions sums to the number of
/// transactions, so after M additions to an empty pool it sums to M.
pub proof fn lemma_distribution_sums_to_size(s: Seq<Transaction>, v: Seq<OriginCount>)
    requires
        is_distribution(s, v),
    ensures
        sum_counts(v) == s.len(),
    decreases s.len(),
{
    if s.len() == 0 {
        if v.len() > 0 {
            assert(origin_count(s, v[0].origin@) == 0) by {
                assert(origins(s) =~= Seq::<Seq<char>>::empty());
            }
        }
    } else {
        let s0 = s.drop_last();
        let t = s.last();
        let o = t.rollup@;
        assert(s0.push(t) =~= s);
        assert(origins(s) =~= origins(s0).push(o));
        assert(lists_origin(v, s[s.len() - 1].rollup@));
        let j = choose|i: int| 0 <= i < v.len() && #[trigger] v[i].origin@ == o;
        assert(forall|x: Seq<char>| #[trigger] origin_count(s, x) == origin_count(s0, x) + if x == o {
            1int
        } else {
            0int
        });
        if v[j].count == 1 {
            let w = v.remove(j);
            assert forall|a: int, b: int| 0 <= a < b < w.len() implies w[a].origin@ != w[b].origin@ by {
                let a0 = if a < j { a } else { a + 1 };
                let b0 = if b < j { b } else { b + 1 };
                assert(w[a] == v[a0] && w[b] == v[b0]);
            }
            assert forall|i: int| 0 <= i < w.len() implies #[trigger] w[i].count == origin_count(s0, w[i].origin@) && w[i].count > 0 by {
                let i0 = if i < j { i } else { i + 1 };
                assert(w[i] == v[i0]);
            }
            assert forall|k: int| 0 <= k < s0.len() implies lists_origin(w, #[trigger] s0[k].rollup@) by {
                assert(s0[k] == s[k]);
                assert(lists_origin(v, s[k].rollup@));
                let i = choose|i: int| 0 <= i < v.len() && #[trigger] v[i].origin@ == s[k].rollup@;
                if i == j {
                    assert(origins(s0)[k] == o);
                    assert(origins(s0).contains(o));
                    assert(origin_count(s0, o) > 0);
                } else if i < j {
                    assert(w[i] == v[i]);
                } else {
                    assert(w[i - 1] == v[i]);
                }
            }
            lemma_distribution_sums_to_size(s0, w);
            lemma_sum_counts_remove(v, j);
        } else {
            let e = OriginCount { origin: v[j].origin, count: (v[j].count - 1) as usize };
            let w = v.update(j, e);
            assert forall|i: int| 0 <= i < w.len() implies #[trigger] w[i].count == origin_count(s0, w[i].origin@) && w[i].count > 0 by {
                if i != j {
                    assert(w[i] == v[i]);
                }
            }
            assert forall|k: int| 0 <= k < s0.len() implies lists_origin(w, #[trigger] s0[k].rollup@) by {
                assert(s0[k] == s[k]);
                assert(lists_origin(v, s[k].rollup@));
                let i = choose|i: int| 0 <= i < v.len() && #[trigger] v[i].origin@ == s[k].rollup@;
                assert(w[i].origin@ == v[i].origin@);
            }
            lemma_distribution_sums_to_size(s0, w);
            lemma_sum_counts_update(v, j, e);
        }
    }
}

} // verus!
