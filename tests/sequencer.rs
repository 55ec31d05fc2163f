use mev_sequencer::ordering::{arrange_batch, random_order, stable_order};
use mev_sequencer::{OrderKey, SimpleSequencer, Strategy, Transaction, UnknownStrategy};

fn tx(id: &str, rollup: &str, timestamp: u64, gas_price: u64) -> Transaction {
    Transaction::new(
        id.to_string(),
        rollup.to_string(),
        timestamp,
        gas_price,
        format!("payload of {}", id),
    )
}

fn ids(batch: &[Transaction]) -> Vec<String> {
    batch.iter().map(|t| t.id.clone()).collect()
}

fn scenario_pool() -> SimpleSequencer {
    let mut pool = SimpleSequencer::new();
    pool.add_transaction(tx("a", "optimism", 5, 20));
    pool.add_transaction(tx("b", "arbitrum", 1, 100));
    pool.add_transaction(tx("c", "polygon", 3, 20));
    pool
}

fn mixed_pool() -> SimpleSequencer {
    let mut pool = SimpleSequencer::new();
    let rollups = ["optimism", "arbitrum", "polygon"];
    for i in 0..10u64 {
        let gas = if i % 3 == 0 { 100 } else { 20 };
        let time = 1000 + (i % 4) * 7;
        pool.add_transaction(tx(&format!("tx_{}", i), rollups[(i % 3) as usize], time, gas));
    }
    pool
}

#[test]
fn priority_scenario_orders_by_bid_then_insertion() {
    let pool = scenario_pool();
    assert_eq!(ids(&pool.create_vulnerable_batch()), vec!["b", "a", "c"]);
}

#[test]
fn fair_scenario_orders_by_timestamp() {
    let pool = scenario_pool();
    assert_eq!(ids(&pool.create_fair_batch()), vec!["b", "c", "a"]);
}

#[test]
fn empty_pool_gives_empty_batches_and_zero_metrics() {
    let pool = SimpleSequencer::new();
    assert!(pool.create_vulnerable_batch().is_empty());
    assert!(pool.create_fair_batch().is_empty());
    assert!(pool.create_random_batch().is_empty());
    let m = pool.metrics();
    assert_eq!(m.total, 0);
    assert!(m.by_origin.is_empty());
    assert_eq!(pool.size(), 0);
}

#[test]
fn every_strategy_returns_a_permutation() {
    let pool = mixed_pool();
    let mut expected = ids(&pool.snapshot());
    expected.sort();
    for strategy in [Strategy::Priority, Strategy::Fair, Strategy::Random] {
        let mut got = ids(&pool.create_batch(strategy));
        assert_eq!(got.len(), pool.size());
        got.sort();
        assert_eq!(got, expected);
    }
}

#[test]
fn deterministic_strategies_repeat_exactly() {
    let pool = mixed_pool();
    assert_eq!(ids(&pool.create_vulnerable_batch()), ids(&pool.create_vulnerable_batch()));
    assert_eq!(ids(&pool.create_fair_batch()), ids(&pool.create_fair_batch()));
}

#[test]
fn priority_batch_is_descending_and_stable() {
    let pool = mixed_pool();
    let batch = pool.create_vulnerable_batch();
    assert_eq!(
        ids(&batch),
        vec!["tx_0", "tx_3", "tx_6", "tx_9", "tx_1", "tx_2", "tx_4", "tx_5", "tx_7", "tx_8"]
    );
    for w in batch.windows(2) {
        assert!(w[0].gas_price >= w[1].gas_price);
    }
}

#[test]
fn fair_batch_is_ascending_and_stable() {
    let pool = mixed_pool();
    let batch = pool.create_fair_batch();
    // timestamps: 1000, 1007, 1014, 1021, 1000, 1007, 1014, 1021, 1000, 1007
    assert_eq!(
        ids(&batch),
        vec!["tx_0", "tx_4", "tx_8", "tx_1", "tx_5", "tx_9", "tx_2", "tx_6", "tx_3", "tx_7"]
    );
    for w in batch.windows(2) {
        assert!(w[0].timestamp <= w[1].timestamp);
    }
}

#[test]
fn random_batches_are_not_degenerate() {
    let pool = scenario_pool();
    let mut counts: std::collections::HashMap<Vec<String>, usize> = std::collections::HashMap::new();
    let calls = 1200;
    for _ in 0..calls {
        *counts.entry(ids(&pool.create_random_batch())).or_insert(0) += 1;
    }
    assert!(counts.len() > 1);
    let most = counts.values().copied().max().unwrap();
    assert!(most * 2 < calls, "one order came {} times out of {}", most, calls);
}

#[test]
fn random_order_moves_positions_sometimes() {
    let identity: Vec<usize> = (0..8).collect();
    let mut moved = false;
    for _ in 0..50 {
        let p = random_order(8);
        let mut sorted = p.clone();
        sorted.sort();
        assert_eq!(sorted, identity);
        if p != identity {
            moved = true;
        }
    }
    assert!(moved);
}

#[test]
fn ingestion_counts_add_up() {
    let pool = mixed_pool();
    assert_eq!(pool.size(), 10);
    let dist = pool.distribution_by();
    assert_eq!(dist.iter().map(|e| e.count).sum::<usize>(), 10);
    let get = |o: &str| dist.iter().find(|e| e.origin == o).map(|e| e.count);
    assert_eq!(get("optimism"), Some(4));
    assert_eq!(get("arbitrum"), Some(3));
    assert_eq!(get("polygon"), Some(3));
    assert_eq!(dist.len(), 3);
    let m = pool.metrics();
    assert_eq!(m.total, 10);
    assert_eq!(m.by_origin.len(), 3);
}

#[test]
fn origins_are_listed_in_first_occurrence_order() {
    let mut pool = SimpleSequencer::new();
    pool.add_transaction(tx("x", "zeta", 1, 1));
    pool.add_transaction(tx("y", "alpha", 2, 1));
    pool.add_transaction(tx("z", "zeta", 3, 1));
    let dist = pool.distribution_by();
    assert_eq!(dist.len(), 2);
    assert_eq!(dist[0].origin, "zeta");
    assert_eq!(dist[0].count, 2);
    assert_eq!(dist[1].origin, "alpha");
    assert_eq!(dist[1].count, 1);
}

#[test]
fn snapshot_keeps_insertion_order() {
    let pool = scenario_pool();
    let snap = pool.snapshot();
    assert_eq!(ids(&snap), vec!["a", "b", "c"]);
    assert_eq!(snap[1].rollup, "arbitrum");
    assert_eq!(snap[1].data, "payload of b");
}

#[test]
fn strategy_names_resolve() {
    assert_eq!(Strategy::from_name("priority"), Ok(Strategy::Priority));
    assert_eq!(Strategy::from_name("fair"), Ok(Strategy::Fair));
    assert_eq!(Strategy::from_name("random"), Ok(Strategy::Random));
}

#[test]
fn unknown_strategy_is_reported() {
    assert_eq!(
        Strategy::from_name("batch-auction"),
        Err(UnknownStrategy { name: "batch-auction".to_string() })
    );
    assert_eq!(
        Strategy::from_name("Priority"),
        Err(UnknownStrategy { name: "Priority".to_string() })
    );
    assert_eq!(Strategy::from_name(""), Err(UnknownStrategy { name: String::new() }));
}

#[test]
fn create_batch_dispatches_by_strategy() {
    let pool = scenario_pool();
    assert_eq!(ids(&pool.create_batch(Strategy::Priority)), vec!["b", "a", "c"]);
    assert_eq!(ids(&pool.create_batch(Strategy::Fair)), vec!["b", "c", "a"]);
    assert_eq!(pool.create_batch(Strategy::Random).len(), 3);
}

#[test]
fn equal_keys_keep_insertion_order() {
    let mut pool = SimpleSequencer::new();
    for i in 0..5u64 {
        pool.add_transaction(tx(&format!("t{}", i), "r", 7, 7));
    }
    let expected: Vec<String> = (0..5).map(|i| format!("t{}", i)).collect();
    assert_eq!(ids(&pool.create_vulnerable_batch()), expected);
    assert_eq!(ids(&pool.create_fair_batch()), expected);
}

#[test]
fn extreme_bids_and_times_sort_correctly() {
    let mut pool = SimpleSequencer::new();
    pool.add_transaction(tx("low", "r", u64::MAX, 0));
    pool.add_transaction(tx("high", "r", 0, u64::MAX));
    pool.add_transaction(tx("mid", "r", 5, 5));
    assert_eq!(ids(&pool.create_vulnerable_batch()), vec!["high", "mid", "low"]);
    assert_eq!(ids(&pool.create_fair_batch()), vec!["high", "mid", "low"]);
}

#[test]
fn stable_order_gives_positions() {
    let pool = scenario_pool();
    let snap = pool.snapshot();
    assert_eq!(stable_order(&snap, OrderKey::GasPriceDescending), vec![1, 0, 2]);
    assert_eq!(stable_order(&snap, OrderKey::TimestampAscending), vec![1, 2, 0]);
    assert_eq!(ids(&arrange_batch(&snap, &vec![2, 0, 1])), vec!["c", "a", "b"]);
}

#[test]
fn single_transaction_pool() {
    let mut pool = SimpleSequencer::new();
    pool.add_transaction(tx("only", "r", 1, 1));
    for strategy in [Strategy::Priority, Strategy::Fair, Strategy::Random] {
        assert_eq!(ids(&pool.create_batch(strategy)), vec!["only"]);
    }
}
