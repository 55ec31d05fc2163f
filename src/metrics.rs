use vstd::prelude::*;

use crate::transaction::Transaction;

verus! {

broadcast use {vstd::seq_lib::group_to_multiset_ensures, vstd::multiset::group_multiset_axioms};

/// How many pooled transactions came from one origin.
#[derive(Debug)]
pub struct OriginCount {
    pub origin: String,
    pub count: usize,
}

/// Aggregate figures of a pool, independent of any ordering.
#[derive(Debug)]
pub struct PoolMetrics {
    /// Number of transactions.
    pub total: usize,
    /// One entry per distinct origin.
    pub by_origin: Vec<OriginCount>,
}

/// The origins of `s`, one per transaction, in order.
pub open spec fn origins(s: Seq<Transaction>) -> Seq<Seq<char>> {
    s.map_values(|t: Transaction| t.rollup@)
}

/// Number of transactions of `s` whose origin is `o`.
pub open spec fn origin_count(s: Seq<Transaction>, o: Seq<char>) -> nat {
    origins(s).to_multiset().count(o)
}

/// Sum of the counts of `v`.
pub open spec fn sum_counts(v: Seq<OriginCount>) -> int
    decreases v.len(),
{
    if v.len() == 0 {
        0
    } else {
        sum_counts(v.drop_last()) + v.last().count
    }
}

/// `v` lists each origin of `s` once, with the number of its transactions.
pub open spec fn is_distribution(s: Seq<Transaction>, v: Seq<OriginCount>) -> bool {
    &&& forall|i: int, j: int| 0 <= i < j < v.len() ==> v[i].origin@ != v[j].origin@
    &&& forall|i: int|
        0 <= i < v.len() ==> #[trigger] v[i].count == origin_count(s, v[i].origin@) && v[i].count
            > 0
    &&& forall|k: int| 0 <= k < s.len() ==> lists_origin(v, #[trigger] s[k].rollup@)
}

/// Some entry of `v` is for origin `o`.
pub open spec fn lists_origin(v: Seq<OriginCount>, o: Seq<char>) -> bool {
    exists|i: int| 0 <= i < v.len() && #[trigger] v[i].origin@ == o
}

pub(crate) proof fn lemma_sum_counts_update(v: Seq<OriginCount>, j: int, e: OriginCount)
    requires
        0 <= j < v.len(),
    ensures
        sum_counts(v.update(j, e)) == sum_counts(v) - v[j].count + e.count,
    decreases v.len(),
{
    let w = v.update(j, e);
    if j < v.len() - 1 {
        assert(w.drop_last() =~= v.drop_last().update(j, e));
        lemma_sum_counts_update(v.drop_last(), j, e);
    } else {
        assert(w.drop_last() =~= v.drop_last());
    }
}

pub(crate) proof fn lemma_sum_counts_remove(v: Seq<OriginCount>, j: int)
    requires
        0 <= j < v.len(),
    ensures
        sum_counts(v.remove(j)) == sum_counts(v) - v[j].count,
    decreases v.len(),
{
    let w = v.remove(j);
    if j < v.len() - 1 {
        assert(w.drop_last() =~= v.drop_last().remove(j));
        lemma_sum_counts_remove(v.drop_last(), j);
    } else {
        assert(w =~= v.drop_last());
    }
}

fn find_origin(v: &Vec<OriginCount>, o: &String) -> (r: Option<usize>)
    ensures
        match r {
            Some(j) => j < v.len() && v@[j as int].origin@ == o@,
            None => forall|i: int| 0 <= i < v.len() ==> v@[i].origin@ != o@,
        },
{
    let mut j: usize = 0;
    while j < v.len()
        invariant
            j <= v.len(),
            forall|i: int| 0 <= i < j ==> v@[i].origin@ != o@,
        decreases v.len() - j,
    {
        if v[j].origin == *o {
            return Some(j);
        }
        j = j + 1;
    }
    None
}

/// Counts the transactions of `txs` per origin, listing origins in the order
/// they first occur.
pub fn count_by_origin(txs: &Vec<Transaction>) -> (r: Vec<OriginCount>)
    ensures
        is_distribution(txs@, r@),
        sum_counts(r@) == txs@.len(),
{
    let mut v: Vec<OriginCount> = Vec::new();
    let mut k: usize = 0;
    while k < txs.len()
        invariant
            k <= txs.len(),
            is_distribution(txs@.subrange(0, k as int), v@),
            sum_counts(v@) == k,
        decreases txs.len() - k,
    {
        let ghost pre = txs@.subrange(0, k as int);
        let ghost post = txs@.subrange(0, k + 1);
        let tx = &txs[k];
        proof {
            assert(post == pre.push(*tx));
            assert(origins(post) =~= origins(pre).push(tx.rollup@));
        }
        let ghost vo = v@;
        let found = find_origin(&v, &tx.rollup);
        match found {
            Some(j) => {
                proof {
                    assert(vo[j as int].count == origin_count(pre, vo[j as int].origin@));
                    assert(vo[j as int].count <= origins(pre).len()) by {
                        assert(origins(pre).to_multiset().len() == origins(pre).len());
                        assert(origins(pre).to_multiset().count(vo[j as int].origin@)
                            <= origins(pre).to_multiset().len());
                    }
                }
                let c = v[j].count;
                v[j].count = c + 1;
                proof {
                    lemma_sum_counts_update(vo, j as int, v@[j as int]);
                    assert(v@ == vo.update(j as int, v@[j as int]));
                }
            }
            None => {
                v.push(OriginCount { origin: tx.rollup.clone(), count: 1 });
                proof {
                    assert(v@.drop_last() == vo);
                    assert(origin_count(pre, tx.rollup@) == 0) by {
                        if origin_count(pre, tx.rollup@) > 0 {
                            assert(origins(pre).contains(tx.rollup@));
                            let m = choose|m: int| 0 <= m < origins(pre).len() && origins(pre)[m] == tx.rollup@;
                            assert(pre[m].rollup@ == tx.rollup@);
                        }
                    }
                }
            }
        }
        proof {
            let w = v@;
            assert forall|i: int| 0 <= i < w.len() implies #[trigger] w[i].count == origin_count(post, w[i].origin@) && w[i].count > 0 by {
                if i < vo.len() {
                    assert(w[i].origin@ == vo[i].origin@);
                }
            }
            assert forall|m: int| 0 <= m < post.len() implies lists_origin(w, #[trigger] post[m].rollup@) by {
                if m < pre.len() {
                    assert(post[m] == pre[m]);
                    let i = choose|i: int| 0 <= i < vo.len() && #[trigger] vo[i].origin@ == pre[m].rollup@;
                    assert(w[i].origin@ == vo[i].origin@);
                } else {
                    assert(post[m] == *tx);
                    match found {
                        Some(j) => assert(w[j as int].origin@ == tx.rollup@),
                        None => assert(w[vo.len() as int].origin@ == tx.rollup@),
                    }
                }
            }
            assert forall|a: int, b: int| 0 <= a < b < w.len() implies w[a].origin@ != w[b].origin@ by {
                if b < vo.len() {
                    assert(w[a].origin@ == vo[a].origin@ && w[b].origin@ == vo[b].origin@);
                } else {
                    assert(w[a].origin@ == vo[a].origin@);
                }
            }
        }
        k = k + 1;
    }
    proof {
        assert(txs@.subrange(0, k as int) == txs@);
    }
    v
}

} // verus!
