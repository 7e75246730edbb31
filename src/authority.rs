use vstd::prelude::*;

use crate::chain::{Block, Blockchain};
use crate::transaction::Transaction;

verus! {

/// Why an authority stopped before it could mine.
#[derive(Clone, Copy, Debug, PartialEq, Eq, Structural)]
pub enum AuthorityError {
    ElectionChannelClosed,
}

impl AuthorityError {
    pub fn message(&self) -> (r: &'static str) {
        match self {
            AuthorityError::ElectionChannelClosed => "Election channel closed before this node was elected",
        }
    }
}

/// What an authority observes on the election channel.
pub enum ElectionEvent {
    /// An elected authority's identifier and the batch it is to mine.
    Published(String, Vec<Transaction>),
    /// Rounds this node had not read yet were replaced by a newer one,
    /// which it reads next.
    Lagged,
    /// The channel will publish nothing more.
    Closed,
}

/// Where an authority stands after an election event.
#[derive(Clone, Copy, Debug, PartialEq, Eq, Structural)]
pub enum AuthorityState {
    /// Another authority was elected: keep waiting.
    Listening,
    /// This authority was elected and appended the block with this number.
    Appended(u128),
}

/// An authority candidate, known by the account identifier it mines for.
pub struct Node {
    owner_addr: String,
}

impl Node {
    pub closed spec fn spec_owner(&self) -> Seq<char> {
        self.owner_addr@
    }

    pub fn new(owner_addr: String) -> (r: Node)
        ensures
            r.spec_owner() == owner_addr@,
    {
        Node { owner_addr }
    }

    pub fn owner_addr(&self) -> (r: &String)
        ensures
            r@ == self.spec_owner(),
    {
        &self.owner_addr
    }

    /// Mines a batch: appends a block numbered with the chain's height that
    /// holds the batch as it is, and returns that number.
    pub fn execute_txs(&self, chain: &mut Blockchain, txs: Vec<Transaction>) -> (r: u128)
        requires
            old(chain).wf(),
        ensures
            final(chain).wf(),
            r == old(chain)@.len(),
            final(chain)@.len() == old(chain)@.len() + 1,
            final(chain)@.drop_last() == old(chain)@,
            final(chain)@.last().spec_number() == r,
            final(chain)@.last().spec_txs() == txs@,
    {
        let number = chain.get_height();
        let b = Block::new(number, std::time::SystemTime::now(), txs);
        chain.append(b);
        assert(chain@.drop_last() =~= old(chain)@);
        number
    }

    /// One election round as this authority sees it. When the published
    /// authority is this node it mines the batch; when it is another node,
    /// or the node only learns that it fell behind, it keeps listening and
    /// leaves the chain alone; when the channel is closed it fails with
    /// `ElectionChannelClosed`.
    pub fn on_election(&self, chain: &mut Blockchain, event: ElectionEvent) -> (r: Result<
        AuthorityState,
        AuthorityError,
    >)
        requires
            old(chain).wf(),
        ensures
            final(chain).wf(),
            match event {
                ElectionEvent::Closed => r == Err::<AuthorityState, AuthorityError>(
                    AuthorityError::ElectionChannelClosed,
                ) && final(chain)@ == old(chain)@,
                ElectionEvent::Lagged => r == Ok::<AuthorityState, AuthorityError>(
                    AuthorityState::Listening,
                ) && final(chain)@ == old(chain)@,
                ElectionEvent::Published(elected, txs) => if elected@ == self.spec_owner() {
                    &&& r == Ok::<AuthorityState, AuthorityError>(
                        AuthorityState::Appended(old(chain)@.len() as u128),
                    )
                    &&& final(chain)@.len() == old(chain)@.len() + 1
                    &&& final(chain)@.drop_last() == old(chain)@
                    &&& final(chain)@.last().spec_txs() == txs@
                } else {
                    r == Ok::<AuthorityState, AuthorityError>(AuthorityState::Listening)
                        && final(chain)@ == old(chain)@
                },
            },
    {
        match event {
            ElectionEvent::Closed => Err(AuthorityError::ElectionChannelClosed),
            ElectionEvent::Lagged => Ok(AuthorityState::Listening),
            ElectionEvent::Published(elected, txs) => {
                if elected == self.owner_addr {
                    let n = self.execute_txs(chain, txs);
                    Ok(AuthorityState::Appended(n))
                } else {
                    Ok(AuthorityState::Listening)
                }
            },
        }
    }
}

} // verus!
