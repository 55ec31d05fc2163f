use vstd::prelude::*;

verus! {

/// A pending transaction. Its fields are never interpreted beyond what the
/// ordering strategies and the metrics read.
#[derive(Debug)]
pub struct Transaction {
    /// Identifier, expected (not enforced) to be unique within a pool.
    pub id: String,
    /// The rollup or chain that submitted the transaction.
    pub rollup: String,
    /// Logical submission time.
    pub timestamp: u64,
    /// Priority bid: a higher value asks for an earlier place.
    pub gas_price: u64,
    /// Opaque application data.
    pub data: String,
}

impl Clone for Transaction {
    fn clone(&self) -> (r: Self)
        ensures
            r == *self,
    {
        Transaction {
            id: self.id.clone(),
            rollup: self.rollup.clone(),
            timestamp: self.timestamp,
            gas_price: self.gas_price,
            data: self.data.clone(),
        }
    }
}

impl Transaction {
    pub fn new(id: String, rollup: String, timestamp: u64, gas_price: u64, data: String) -> (r: Self)
        ensures
            r.id == id,
            r.rollup == rollup,
            r.timestamp == timestamp,
            r.gas_price == gas_price,
            r.data == data,
    {
        Transaction { id, rollup, timestamp, gas_price, data }
    }
}

} // verus!
