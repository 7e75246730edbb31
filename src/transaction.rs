use vstd::prelude::*;

verus! {

/// The mathematical content of a transaction.
pub struct TransactionView {
    pub id: Seq<char>,
    pub gas: u128,
    pub data: Seq<u8>,
    pub sender: Seq<char>,
}

/// A transaction admitted into the pool. Immutable once created.
#[derive(Clone, Debug)]
pub struct Transaction {
    id: String,
    gas: u128,
    data: Vec<u8>,
    sender: String,
}

impl View for Transaction {
    type V = TransactionView;

    closed spec fn view(&self) -> TransactionView {
        TransactionView { id: self.id@, gas: self.gas, data: self.data@, sender: self.sender@ }
    }
}

impl Transaction {
    pub fn new(id: String, gas: u128, data: Vec<u8>, sender: String) -> (r: Transaction)
        ensures
            r@ == (TransactionView { id: id@, gas, data: data@, sender: sender@ }),
    {
        Transaction { id, gas, data, sender }
    }

    pub fn id(&self) -> (r: &String)
        ensures
            r@ == self@.id,
    {
        &self.id
    }

    /// The fee the sender paid; higher fees are mined first.
    pub fn gas(&self) -> (r: u128)
        ensures
            r == self@.gas,
    {
        self.gas
    }

    pub fn data(&self) -> (r: &Vec<u8>)
        ensures
            r@ == self@.data,
    {
        &self.data
    }

    pub fn sender(&self) -> (r: &String)
        ensures
            r@ == self@.sender,
    {
        &self.sender
    }
}

} // verus!
