use vstd::prelude::*;

use crate::ordering::{
    arrange_batch, is_permutation, is_stable_order, is_stable_sort, lemma_arrange_is_permutation,
    random_order, stable_order, OrderKey,
};
use crate::metrics::{count_by_origin, is_distribution, sum_counts, OriginCount, PoolMetrics};
use crate::strategy::Strategy;
use crate::transaction::Transaction;

verus! {

/// The pending-transaction pool of one batching cycle. It only grows, and
/// keeps transactions in the order they were added.
#[derive(Debug)]
pub struct SimpleSequencer {
    transactions: Vec<Transaction>,
}

impl View for SimpleSequencer {
    type V = Seq<Transaction>;

    /// The pooled transactions, in insertion order.
    closed spec fn view(&self) -> Seq<Transaction> {
        self.transactions@
    }
}

impl SimpleSequencer {
    /// An empty pool.
    pub fn new() -> (r: Self)
        ensures
            r@ == Seq::<Transaction>::empty(),
    {
        SimpleSequencer { transactions: Vec::new() }
    }

    /// Appends `tx` after every transaction already pooled.
    pub fn add_transaction(&mut self, tx: Transaction)
        ensures
            final(self)@ == old(self)@.push(tx),
    {
        self.transactions.push(tx);
    }

    /// Number of pooled transactions.
    pub fn size(&self) -> (r: usize)
        ensures
            r == self@.len(),
    {
        self.transactions.len()
    }

    /// A copy of the pool's contents, in insertion order.
    pub fn snapshot(&self) -> (r: Vec<Transaction>)
        ensures
            r@ == self@,
    {
        let mut r: Vec<Transaction> = Vec::new();
        let mut i: usize = 0;
        while i < self.transactions.len()
            invariant
                i <= self.transactions.len(),
                r@ == self.transactions@.subrange(0, i as int),
            decreases self.transactions.len() - i,
        {
            r.push(self.transactions[i].clone());
            proof {
                assert(self.transactions@.subrange(0, i + 1) == self.transactions@.subrange(
                    0,
                    i as int,
                ).push(self.transactions@[i as int]));
            }
            i = i + 1;
        }
        proof {
            assert(self.transactions@.subrange(0, i as int) == self.transactions@);
        }
        r
    }

    fn sorted_batch(&self, key: OrderKey) -> (r: Vec<Transaction>)
        ensures
            is_stable_sort(self@, key, r@),
            is_permutation(self@, r@),
    {
        let order = stable_order(&self.transactions, key);
        let r = arrange_batch(&self.transactions, &order);
        proof {
            assert(self@.len() == self.transactions.len());
            lemma_arrange_is_permutation(self@, order@);
            assert(is_stable_order(self@, key, order@));
        }
        r
    }

    /// The pool ordered by gas price, highest first; equal prices keep their
    /// insertion order. A bidder can always outbid to take the first place.
    pub fn create_vulnerable_batch(&self) -> (r: Vec<Transaction>)
        ensures
            is_stable_sort(self@, OrderKey::GasPriceDescending, r@),
            is_permutation(self@, r@),
            r@.len() == self@.len(),
    {
        let r = self.sorted_batch(OrderKey::GasPriceDescending);
        proof {
            vstd::seq_lib::to_multiset_len(r@);
            vstd::seq_lib::to_multiset_len(self@);
        }
        r
    }

    /// The pool ordered by timestamp, earliest first; equal timestamps keep
    /// their insertion order.
    pub fn create_fair_batch(&self) -> (r: Vec<Transaction>)
        ensures
            is_stable_sort(self@, OrderKey::TimestampAscending, r@),
            is_permutation(self@, r@),
            r@.len() == self@.len(),
    {
        let r = self.sorted_batch(OrderKey::TimestampAscending);
        proof {
            vstd::seq_lib::to_multiset_len(r@);
            vstd::seq_lib::to_multiset_len(self@);
        }
        r
    }

    /// The pool in an order drawn at random, fresh on each call: two calls on
    /// the same pool may differ.
    pub fn create_random_batch(&self) -> (r: Vec<Transaction>)
        ensures
            is_permutation(self@, r@),
            r@.len() == self@.len(),
    {
        let order = random_order(self.transactions.len());
        let r = arrange_batch(&self.transactions, &order);
        proof {
            lemma_arrange_is_permutation(self@, order@);
        }
        r
    }

    /// The pool ordered by `strategy`.
    pub fn create_batch(&self, strategy: Strategy) -> (r: Vec<Transaction>)
        ensures
            is_permutation(self@, r@),
            r@.len() == self@.len(),
            match strategy.sort_key() {
                Some(key) => is_stable_sort(self@, key, r@),
                None => true,
            },
    {
        match strategy {
            Strategy::Priority => self.create_vulnerable_batch(),
            Strategy::Fair => self.create_fair_batch(),
            Strategy::Random => self.create_random_batch(),
        }
    }

    /// Number of pooled transactions per origin, each origin listed once.
    pub fn distribution_by(&self) -> (r: Vec<OriginCount>)
        ensures
            is_distribution(self@, r@),
            sum_counts(r@) == self@.len(),
    {
        count_by_origin(&self.transactions)
    }

    /// Total count and per-origin counts of the pool.
    pub fn metrics(&self) -> (r: PoolMetrics)
        ensures
            r.total == self@.len(),
            is_distribution(self@, r.by_origin@),
            sum_counts(r.by_origin@) == r.total,
    {
        PoolMetrics { total: self.transactions.len(), by_origin: self.distribution_by() }
    }
}

} // verus!
