use vstd::prelude::*;

use crate::transaction::Transaction;

verus! {

/// std's clock reading, carried as a block's creation time and never
/// looked into.
#[verifier::external_type_specification]
#[verifier::external_body]
pub struct ExSystemTime(std::time::SystemTime);

/// Relies on std::time::SystemTime::now for a block's creation time. Nothing
/// is assumed of the value read from the clock.
pub assume_specification[ std::time::SystemTime::now ]() -> std::time::SystemTime;

/// One block of the chain: its sequence number, when it was made and the
/// transactions it holds, in order.
pub struct Block {
    number: u128,
    timestamp: std::time::SystemTime,
    txs: Vec<Transaction>,
}

impl Block {
    pub fn new(number: u128, timestamp: std::time::SystemTime, txs: Vec<Transaction>) -> (r: Block)
        ensures
            r.spec_number() == number,
            r.spec_timestamp() == timestamp,
            r.spec_txs() == txs@,
    {
        Block { number, timestamp, txs }
    }

    pub closed spec fn spec_number(&self) -> u128 {
        self.number
    }

    pub closed spec fn spec_timestamp(&self) -> std::time::SystemTime {
        self.timestamp
    }

    pub closed spec fn spec_txs(&self) -> Seq<Transaction> {
        self.txs@
    }

    pub fn number(&self) -> (r: u128)
        ensures
            r == self.spec_number(),
    {
        self.number
    }

    pub fn timestamp(&self) -> (r: std::time::SystemTime)
        ensures
            r == self.spec_timestamp(),
    {
        self.timestamp
    }

    pub fn txs(&self) -> (r: &Vec<Transaction>)
        ensures
            r@ == self.spec_txs(),
    {
        &self.txs
    }
}

/// The append-only sequence of blocks, which always starts with the empty
/// genesis block numbered 0.
pub struct Blockchain {
    blocks: Vec<Block>,
}

/// Block `i` of a well-formed chain carries the number `i`.
pub open spec fn numbered_in_sequence(blocks: Seq<Block>) -> bool {
    forall|i: int| 0 <= i < blocks.len() ==> (#[trigger] blocks[i]).spec_number() == i
}

/// Appending blocks that each carry the height of the chain they are
/// appended to keeps the numbers 0, 1, 2, ... without gaps or repeats,
/// however many are appended.
pub proof fn lemma_block_numbers_in_sequence(chain: &Blockchain, appended: Seq<Block>)
    requires
        chain.wf(),
        forall|k: int| 0 <= k < appended.len() ==> (#[trigger] appended[k]).spec_number() == chain@.len() + k,
    ensures
        numbered_in_sequence(chain@ + appended),
        forall|i: int, j: int|
            0 <= i < j < chain@.len() + appended.len() ==> (#[trigger] (chain@ + appended)[i]).spec_number()
                < (#[trigger] (chain@ + appended)[j]).spec_number(),
{
    let all = chain@ + appended;
    assert forall|i: int| 0 <= i < all.len() implies (#[trigger] all[i]).spec_number() == i by {
        if i >= chain@.len() {
            assert(all[i] == appended[i - chain@.len()]);
        }
    }
    assert forall|i: int, j: int| 0 <= i < j < all.len() implies (#[trigger] all[i]).spec_number() < (
    #[trigger] all[j]).spec_number() by {
        assert(all[i].spec_number() == i);
        assert(all[j].spec_number() == j);
    }
}

impl View for Blockchain {
    type V = Seq<Block>;

    closed spec fn view(&self) -> Seq<Block> {
        self.blocks@
    }
}

impl Blockchain {
    /// The chain's invariant: a genesis block with no transactions, and
    /// block numbers 0, 1, 2, ... without gaps or repeats.
    pub open spec fn wf(&self) -> bool {
        &&& self@.len() >= 1
        &&& self@[0].spec_txs().len() == 0
        &&& numbered_in_sequence(self@)
    }

    /// A chain holding only the genesis block.
    pub fn new() -> (r: Blockchain)
        ensures
            r.wf(),
            r@.len() == 1,
    {
        let now = std::time::SystemTime::now();
        let b = Block { number: 0, timestamp: now, txs: Vec::new() };
        let mut blocks: Vec<Block> = Vec::new();
        blocks.push(b);
        Blockchain { blocks }
    }

    /// The number of blocks, which is also the number the next block takes.
    pub fn get_height(&self) -> (r: u128)
        ensures
            r == self@.len(),
    {
        self.blocks.len() as u128
    }

    /// Appends a block that carries the next sequence number.
    pub fn append(&mut self, block: Block)
        requires
            old(self).wf(),
            block.spec_number() == old(self)@.len(),
        ensures
            final(self).wf(),
            final(self)@ == old(self)@.push(block),
    {
        self.blocks.push(block);
    }

    /// The most recent block; a well-formed chain always has one.
    pub fn last_block(&self) -> (r: &Block)
        requires
            self.wf(),
        ensures
            *r == self@.last(),
    {
        let n = self.blocks.len();
        &self.blocks[n - 1]
    }

    /// Block `i`, if the chain is that long.
    pub fn block(&self, i: usize) -> (r: Option<&Block>)
        ensures
            i < self@.len() ==> r == Some(&self@[i as int]),
            i >= self@.len() ==> r is None,
    {
        if i < self.blocks.len() {
            Some(&self.blocks[i])
        } else {
            None
        }
    }
}

} // verus!
