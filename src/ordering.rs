use vstd::prelude::*;

use crate::transaction::Transaction;

verus! {

/// The key by which a deterministic strategy orders a pool.
#[derive(Clone, Copy, Debug, PartialEq, Eq, Structural)]
pub enum OrderKey {
    /// Highest gas price first.
    GasPriceDescending,
    /// Earliest timestamp first.
    TimestampAscending,
}

/// Rank of a transaction under `key`: a smaller rank goes first.
pub open spec fn rank(key: OrderKey, tx: Transaction) -> int {
    match key {
        OrderKey::GasPriceDescending => -(tx.gas_price as int),
        OrderKey::TimestampAscending => tx.timestamp as int,
    }
}

/// Under `key`, the transaction at position `a` of `s` goes before the one at
/// position `b`: it has a smaller rank, or the same rank and an earlier position.
pub open spec fn precedes(s: Seq<Transaction>, key: OrderKey, a: int, b: int) -> bool {
    rank(key, s[a]) < rank(key, s[b]) || (rank(key, s[a]) == rank(key, s[b]) && a < b)
}

/// `p` lists every position below `n` exactly once.
pub open spec fn is_index_permutation(p: Seq<usize>, n: nat) -> bool {
    &&& p.len() == n
    &&& forall|i: int| 0 <= i < p.len() ==> #[trigger] p[i] < n
    &&& forall|i: int, j: int| 0 <= i < j < p.len() ==> p[i] != p[j]
    &&& forall|x: usize| x < n ==> #[trigger] p.contains(x)
}

/// The positions listed in `p` go in `key` order over `s`.
pub open spec fn follows_key(s: Seq<Transaction>, key: OrderKey, p: Seq<usize>) -> bool {
    forall|i: int, j: int|
        #![trigger p[i], p[j]]
        0 <= i < j < p.len() ==> precedes(s, key, p[i] as int, p[j] as int)
}

/// `p` is the stable order of `s` under `key`, given as positions into `s`.
pub open spec fn is_stable_order(s: Seq<Transaction>, key: OrderKey, p: Seq<usize>) -> bool {
    is_index_permutation(p, s.len()) && follows_key(s, key, p)
}

/// The transactions of `s` at the positions listed in `p`, in that order.
pub open spec fn arrange(s: Seq<Transaction>, p: Seq<usize>) -> Seq<Transaction> {
    p.map_values(|i: usize| s[i as int])
}

/// `r` is `s` sorted by `key`, with ties left in their order in `s`.
pub open spec fn is_stable_sort(s: Seq<Transaction>, key: OrderKey, r: Seq<Transaction>) -> bool {
    exists|p: Seq<usize>| #[trigger] is_stable_order(s, key, p) && r == arrange(s, p)
}

/// `r` holds the same transactions as `s`, each as many times.
pub open spec fn is_permutation(s: Seq<Transaction>, r: Seq<Transaction>) -> bool {
    r.to_multiset() == s.to_multiset()
}

fn ranks_after(key: OrderKey, a: &Transaction, b: &Transaction) -> (r: bool)
    ensures
        r == (rank(key, *a) > rank(key, *b)),
{
    match key {
        OrderKey::GasPriceDescending => a.gas_price < b.gas_price,
        OrderKey::TimestampAscending => a.timestamp > b.timestamp,
    }
}

/// Positions of `txs` in stable `key` order: each transaction is placed after
/// every earlier one whose rank does not exceed its own.
pub fn stable_order(txs: &Vec<Transaction>, key: OrderKey) -> (order: Vec<usize>)
    ensures
        is_stable_order(txs@, key, order@),
{
    let n = txs.len();
    let mut order: Vec<usize> = Vec::new();
    let mut i: usize = 0;
    while i < n
        invariant
            n == txs.len(),
            i <= n,
            is_index_permutation(order@, i as nat),
            follows_key(txs@, key, order@),
        decreases n - i,
    {
        let mut pos: usize = 0;
        while pos < order.len() && !ranks_after(key, &txs[order[pos]], &txs[i])
            invariant
                n == txs.len(),
                i < n,
                is_index_permutation(order@, i as nat),
                pos <= order.len(),
                forall|k: int|
                    0 <= k < pos ==> rank(key, txs@[order@[k] as int]) <= rank(key, txs@[i as int]),
            decreases order.len() - pos,
        {
            pos = pos + 1;
        }
        let ghost old_order = order@;
        proof {
            assert forall|k: int| pos <= k < old_order.len() implies rank(
                key,
                txs@[old_order[k] as int],
            ) > rank(key, txs@[i as int]) by {
                if k > pos {
                    assert(precedes(txs@, key, old_order[pos as int] as int, old_order[k] as int));
                }
            }
        }
        order.insert(pos, i);
        proof {
            let o = order@;
            assert(o == old_order.insert(pos as int, i));
            assert forall|x: usize| x < i + 1 implies #[trigger] o.contains(x) by {
                if x == i {
                    assert(o[pos as int] == x);
                } else {
                    assert(old_order.contains(x));
                    let k = choose|k: int| 0 <= k < old_order.len() && old_order[k] == x;
                    if k < pos {
                        assert(o[k] == x);
                    } else {
                        assert(o[k + 1] == x);
                    }
                }
            }
            assert forall|a: int, b: int| 0 <= a < b < o.len() implies o[a] != o[b] by {
                if a != pos && b != pos {
                    let a0 = if a < pos { a } else { a - 1 };
                    let b0 = if b < pos { b } else { b - 1 };
                    assert(o[a] == old_order[a0] && o[b] == old_order[b0]);
                } else if a == pos {
                    assert(o[b] == old_order[b - 1]);
                } else {
                    assert(o[a] == old_order[a]);
                }
            }
            assert forall|a: int, b: int|
                #![trigger o[a], o[b]]
                0 <= a < b < o.len() implies precedes(txs@, key, o[a] as int, o[b] as int) by {
                if a != pos && b != pos {
                    let a0 = if a < pos { a } else { a - 1 };
                    let b0 = if b < pos { b } else { b - 1 };
                    assert(o[a] == old_order[a0] && o[b] == old_order[b0]);
                } else if a == pos {
                    assert(o[b] == old_order[b - 1]);
                } else {
                    assert(o[a] == old_order[a]);
                }
            }
        }
        i = i + 1;
    }
    order
}

/// The transactions of `txs` at the positions listed in `order`, copied in that order.
pub fn arrange_batch(txs: &Vec<Transaction>, order: &Vec<usize>) -> (r: Vec<Transaction>)
    requires
        forall|k: int| 0 <= k < order.len() ==> #[trigger] order@[k] < txs.len(),
    ensures
        r@ == arrange(txs@, order@),
{
    let mut r: Vec<Transaction> = Vec::new();
    let mut k: usize = 0;
    while k < order.len()
        invariant
            k <= order.len(),
            forall|j: int| 0 <= j < order.len() ==> #[trigger] order@[j] < txs.len(),
            r@ == arrange(txs@, order@.subrange(0, k as int)),
        decreases order.len() - k,
    {
        r.push(txs[order[k]].clone());
        proof {
            assert(order@.subrange(0, k + 1) == order@.subrange(0, k as int).push(order@[k as int]));
        }
        k = k + 1;
    }
    proof {
        assert(order@.subrange(0, k as int) == order@);
    }
    r
}

/// Relies on rand's `SliceRandom::shuffle`, driven by the thread-local generator
/// that `rand::rng()` returns: it rearranges the slice by swapping its elements,
/// so the same values stay, each as many times. The generator panics only when
/// the operating system gives it no entropy to seed from, a failure of the
/// whole process rather than of any input.
#[verifier::external_body]
fn shuffle_in_place(v: &mut Vec<usize>)
    ensures
        final(v)@.to_multiset() == old(v)@.to_multiset(),
{
    rand::seq::SliceRandom::shuffle(v.as_mut_slice(), &mut rand::rng());
}

/// Every position below `n` once, in an order drawn at random. Two calls may
/// return different orders.
pub fn random_order(n: usize) -> (p: Vec<usize>)
    ensures
        is_index_permutation(p@, n as nat),
{
    let mut p: Vec<usize> = Vec::new();
    let mut i: usize = 0;
    while i < n
        invariant
            i <= n,
            p@.len() == i,
            forall|k: int| 0 <= k < i ==> #[trigger] p@[k] == k,
        decreases n - i,
    {
        p.push(i);
        i = i + 1;
    }
    let ghost ident = p@;
    shuffle_in_place(&mut p);
    proof {
        broadcast use vstd::seq_lib::group_to_multiset_ensures;

        assert(ident.no_duplicates());
        ident.lemma_multiset_has_no_duplicates();
        p@.lemma_multiset_has_no_duplicates_conv();
        assert(p@.len() == p@.to_multiset().len());
        assert(ident.len() == ident.to_multiset().len());
        assert(p@.len() == n);
        assert forall|a: int, b: int| 0 <= a < b < p@.len() implies p@[a] != p@[b] by {
            assert(p@.no_duplicates());
        }
        assert forall|k: int| 0 <= k < p@.len() implies #[trigger] p@[k] < n by {
            assert(p@.contains(p@[k]));
            assert(p@.to_multiset().count(p@[k]) > 0);
            assert(ident.to_multiset().count(p@[k]) > 0);
            assert(ident.contains(p@[k]));
        }
        assert forall|x: usize| x < n implies #[trigger] p@.contains(x) by {
            assert(ident[x as int] == x);
            assert(ident.contains(x));
            assert(ident.to_multiset().count(x) > 0);
            assert(p@.to_multiset().count(x) > 0);
        }
    }
    p
}

/// Taking every position of `s` once, in any order, keeps its transactions.
pub proof fn lemma_arrange_is_permutation(s: Seq<Transaction>, p: Seq<usize>)
    requires
        is_index_permutation(p, s.len()),
        s.len() <= usize::MAX,
    ensures
        is_permutation(s, arrange(s, p)),
    decreases s.len(),
{
    broadcast use vstd::seq_lib::group_to_multiset_ensures;
    broadcast use vstd::multiset::group_multiset_axioms;

    if s.len() == 0 {
        assert(arrange(s, p) =~= s);
    } else {
        let last = (s.len() - 1) as usize;
        assert(p.contains(last));
        let k = choose|k: int| 0 <= k < p.len() && p[k] == last;
        let p2 = p.remove(k);
        let s2 = s.drop_last();
        assert forall|i: int| 0 <= i < p2.len() implies #[trigger] p2[i] < s2.len() by {
            if i < k {
                assert(p2[i] == p[i]);
            } else {
                assert(p2[i] == p[i + 1]);
            }
        }
        assert forall|i: int, j: int| 0 <= i < j < p2.len() implies p2[i] != p2[j] by {
            let i0 = if i < k { i } else { i + 1 };
            let j0 = if j < k { j } else { j + 1 };
            assert(p2[i] == p[i0] && p2[j] == p[j0]);
        }
        assert forall|x: usize| x < s2.len() implies #[trigger] p2.contains(x) by {
            assert(p.contains(x));
            let j = choose|j: int| 0 <= j < p.len() && p[j] == x;
            assert(j != k);
            if j < k {
                assert(p2[j] == x);
            } else {
                assert(p2[j - 1] == x);
            }
        }
        lemma_arrange_is_permutation(s2, p2);
        let a = arrange(s, p);
        assert(arrange(s2, p2) =~= a.remove(k));
        assert(s2.push(s[last as int]) =~= s);
        assert(a[k] == s[last as int]);
        assert(a.to_multiset().count(s[last as int]) > 0) by {
            assert(a.contains(s[last as int]));
        }
        assert(a.to_multiset() =~= a.remove(k).to_multiset().insert(s[last as int]));
    }
}

proof fn lemma_stable_orders_agree(s: Seq<Transaction>, key: OrderKey, p1: Seq<usize>, p2: Seq<usize>, k: int)
    requires
        is_stable_order(s, key, p1),
        is_stable_order(s, key, p2),
        0 <= k < p1.len(),
    ensures
        forall|j: int| 0 <= j <= k ==> p1[j] == p2[j],
    decreases k,
{
    if k > 0 {
        lemma_stable_orders_agree(s, key, p1, p2, k - 1);
    }
    let a = p1[k];
    let b = p2[k];
    if a != b {
        assert(p1.contains(b));
        let m = choose|m: int| 0 <= m < p1.len() && p1[m] == b;
        if m < k {
            assert(p2[m] == b);
        }
        assert(precedes(s, key, p1[k] as int, p1[m] as int));
        assert(p2.contains(a));
        let m2 = choose|m: int| 0 <= m < p2.len() && p2[m] == a;
        if m2 < k {
            assert(p1[m2] == a);
        }
        assert(precedes(s, key, p2[k] as int, p2[m2] as int));
    }
}

/// A stable order under a key is unique: two of them over the same pool agree.
pub proof fn lemma_stable_order_unique(s: Seq<Transaction>, key: OrderKey, p1: Seq<usize>, p2: Seq<usize>)
    requires
        is_stable_order(s, key, p1),
        is_stable_order(s, key, p2),
    ensures
        p1 == p2,
{
    if p1.len() > 0 {
        lemma_stable_orders_agree(s, key, p1, p2, p1.len() - 1);
    }
    assert(p1 =~= p2);
}

} // verus!
