use vstd::prelude::*;

use crate::address::{address_of, random_address, ADDRESS_BYTES};
use crate::transaction::Transaction;

verus! {

/// Why a ledger operation was refused. A refused operation changes nothing.
#[derive(Clone, Copy, Debug, PartialEq, Eq, Structural)]
pub enum LedgerError {
    DuplicateAccount,
    UnknownAccount,
    NotAdmin,
    InsufficientFunds,
    BalanceOverflow,
}

impl LedgerError {
    pub fn message(&self) -> (r: &'static str) {
        match self {
            LedgerError::DuplicateAccount => "User was already registered",
            LedgerError::UnknownAccount => "No such user",
            LedgerError::NotAdmin => "Funder is not an admin.",
            LedgerError::InsufficientFunds => "Sender doesn't have enough funds to pay for gas.",
            LedgerError::BalanceOverflow => "Balance would overflow",
        }
    }
}

/// An account: its identifier and balance.
pub struct User {
    address: String,
    balance: u128,
}

impl User {
    pub closed spec fn spec_address(&self) -> Seq<char> {
        self.address@
    }

    pub closed spec fn spec_balance(&self) -> u128 {
        self.balance
    }

    /// An account with balance 0, under the given identifier or, without
    /// one, under a fresh random identifier.
    pub fn new(addr: Option<String>) -> (r: User)
        ensures
            r.spec_balance() == 0,
            addr is Some ==> r.spec_address() == addr->Some_0@,
            addr is None ==> exists|b: Seq<u8>| b.len() == ADDRESS_BYTES && r.spec_address() == address_of(b),
    {
        let address = match addr {
            Some(a) => a,
            None => random_address(),
        };
        User { address, balance: 0 }
    }

    /// An account with the given identifier and opening balance.
    pub fn with_balance(address: String, balance: u128) -> (r: User)
        ensures
            r.spec_address() == address@,
            r.spec_balance() == balance,
    {
        User { address, balance }
    }

    pub fn get_address(&self) -> (r: &String)
        ensures
            r@ == self.spec_address(),
    {
        &self.address
    }

    pub fn get_balance(&self) -> (r: &u128)
        ensures
            *r == self.spec_balance(),
    {
        &self.balance
    }

    /// Debits `gas` and builds the transaction that carries `data` under a
    /// fresh random identifier; fails with `InsufficientFunds`, changing
    /// nothing, when the balance is below `gas`.
    pub fn send_tx(&mut self, data: Vec<u8>, gas: u128) -> (r: Result<Transaction, LedgerError>)
        ensures
            final(self).spec_address() == old(self).spec_address(),
            old(self).spec_balance() < gas ==> r == Err::<Transaction, LedgerError>(
                LedgerError::InsufficientFunds,
            ) && *final(self) == *old(self),
            old(self).spec_balance() >= gas ==> r is Ok && final(self).spec_balance()
                == old(self).spec_balance() - gas,
            r matches Ok(tx) ==> tx@.gas == gas && tx@.data == data@ && tx@.sender
                == old(self).spec_address(),
            r matches Ok(tx) ==> exists|b: Seq<u8>| b.len() == ADDRESS_BYTES && tx@.id == address_of(b),
    {
        if self.balance < gas {
            return Err(LedgerError::InsufficientFunds);
        }
        self.balance = self.balance - gas;
        let id = random_address();
        Ok(Transaction::new(id, gas, data, self.address.clone()))
    }
}

/// What a ledger holds: each account's balance and the set of administrators.
pub struct LedgerView {
    pub balances: Map<Seq<char>, int>,
    pub admins: Set<Seq<char>>,
}

/// The outcome of crediting `amount` to account `a`.
pub open spec fn credit_outcome(v: LedgerView, a: Seq<char>, amount: int) -> Result<(), LedgerError> {
    if !v.balances.contains_key(a) {
        Err(LedgerError::UnknownAccount)
    } else if v.balances[a] + amount > u128::MAX {
        Err(LedgerError::BalanceOverflow)
    } else {
        Ok(())
    }
}

/// The ledger after crediting `amount` to account `a`.
pub open spec fn after_credit(v: LedgerView, a: Seq<char>, amount: int) -> LedgerView {
    if credit_outcome(v, a, amount) is Ok {
        LedgerView { balances: v.balances.insert(a, v.balances[a] + amount), admins: v.admins }
    } else {
        v
    }
}

/// The outcome of `funder` minting `amount` into account `funded`.
pub open spec fn fund_outcome(v: LedgerView, funder: Seq<char>, funded: Seq<char>, amount: int) -> Result<
    (),
    LedgerError,
> {
    if !v.admins.contains(funder) {
        Err(LedgerError::NotAdmin)
    } else {
        credit_outcome(v, funded, amount)
    }
}

/// The ledger after `funder` mints `amount` into account `funded`.
pub open spec fn after_fund(v: LedgerView, funder: Seq<char>, funded: Seq<char>, amount: int) -> LedgerView {
    if v.admins.contains(funder) {
        after_credit(v, funded, amount)
    } else {
        v
    }
}

/// The outcome of `sender` paying a fee of `gas` for a transaction.
pub open spec fn submit_outcome(v: LedgerView, sender: Seq<char>, gas: int) -> Result<(), LedgerError> {
    if !v.balances.contains_key(sender) {
        Err(LedgerError::UnknownAccount)
    } else if v.balances[sender] < gas {
        Err(LedgerError::InsufficientFunds)
    } else {
        Ok(())
    }
}

/// The ledger after `sender` pays a fee of `gas` for a transaction.
pub open spec fn after_submit(v: LedgerView, sender: Seq<char>, gas: int) -> LedgerView {
    if submit_outcome(v, sender, gas) is Ok {
        LedgerView { balances: v.balances.insert(sender, v.balances[sender] - gas), admins: v.admins }
    } else {
        v
    }
}

/// An operation that moves balances.
pub enum LedgerOp {
    Fund { funder: Seq<char>, funded: Seq<char>, amount: nat },
    Submit { sender: Seq<char>, gas: nat },
}

pub open spec fn apply_op(v: LedgerView, op: LedgerOp) -> LedgerView {
    match op {
        LedgerOp::Fund { funder, funded, amount } => after_fund(v, funder, funded, amount as int),
        LedgerOp::Submit { sender, gas } => after_submit(v, sender, gas as int),
    }
}

/// The ledger after the operations, in order.
pub open spec fn apply_ops(v: LedgerView, ops: Seq<LedgerOp>) -> LedgerView
    decreases ops.len(),
{
    if ops.len() == 0 {
        v
    } else {
        apply_ops(apply_op(v, ops[0]), ops.drop_first())
    }
}

pub open spec fn balances_nonnegative(v: LedgerView) -> bool {
    forall|a: Seq<char>| #[trigger] v.balances.contains_key(a) ==> v.balances[a] >= 0
}

/// The accounts, keyed by identifier, and the administrators.
pub struct UserMap {
    users: Vec<User>,
    admins: Vec<String>,
}

spec fn has_user(users: Seq<User>, a: Seq<char>) -> bool {
    exists|i: int| 0 <= i < users.len() && (#[trigger] users[i]).spec_address() == a
}

spec fn index_of(users: Seq<User>, a: Seq<char>) -> int {
    choose|i: int| 0 <= i < users.len() && (#[trigger] users[i]).spec_address() == a
}

spec fn distinct_users(users: Seq<User>) -> bool {
    forall|i: int, j: int|
        0 <= i < users.len() && 0 <= j < users.len() && i != j ==> (#[trigger] users[i]).spec_address()
            != (#[trigger] users[j]).spec_address()
}

spec fn distinct_admins(admins: Seq<String>) -> bool {
    forall|i: int, j: int|
        0 <= i < admins.len() && 0 <= j < admins.len() && i != j ==> (#[trigger] admins[i])@
            != (#[trigger] admins[j])@
}

spec fn admins_registered(users: Seq<User>, admins: Seq<String>) -> bool {
    forall|i: int| 0 <= i < admins.len() ==> has_user(users, (#[trigger] admins[i])@)
}

spec fn balances_of(users: Seq<User>) -> Map<Seq<char>, int> {
    Map::new(|a: Seq<char>| has_user(users, a), |a: Seq<char>| users[index_of(users, a)].spec_balance() as int)
}

spec fn admins_of(admins: Seq<String>) -> Set<Seq<char>> {
    Set::new(|a: Seq<char>| exists|i: int| 0 <= i < admins.len() && (#[trigger] admins[i])@ == a)
}

impl View for UserMap {
    type V = LedgerView;

    closed spec fn view(&self) -> LedgerView {
        LedgerView { balances: balances_of(self.users@), admins: admins_of(self.admins@) }
    }
}

proof fn lemma_balance_at(users: Seq<User>, i: int)
    requires
        distinct_users(users),
        0 <= i < users.len(),
    ensures
        balances_of(users).contains_key(users[i].spec_address()),
        balances_of(users)[users[i].spec_address()] == users[i].spec_balance() as int,
{
    let a = users[i].spec_address();
    assert(has_user(users, a));
    let j = index_of(users, a);
    assert(users[j].spec_address() == a);
}

proof fn lemma_set_balance(users: Seq<User>, updated: Seq<User>, i: int)
    requires
        distinct_users(users),
        0 <= i < users.len(),
        updated.len() == users.len(),
        updated[i].spec_address() == users[i].spec_address(),
        forall|k: int| 0 <= k < users.len() && k != i ==> updated[k] == users[k],
    ensures
        distinct_users(updated),
        forall|b: Seq<char>| #[trigger] has_user(updated, b) == has_user(users, b),
        balances_of(updated) == balances_of(users).insert(
            users[i].spec_address(),
            updated[i].spec_balance() as int,
        ),
{
    let a = users[i].spec_address();
    assert forall|j: int, k: int|
        0 <= j < updated.len() && 0 <= k < updated.len() && j != k implies (#[trigger] updated[j]).spec_address()
            != (#[trigger] updated[k]).spec_address() by {
        assert(users[j].spec_address() == updated[j].spec_address());
        assert(users[k].spec_address() == updated[k].spec_address());
    }
    let nb = balances_of(users).insert(a, updated[i].spec_balance() as int);
    assert forall|b: Seq<char>| #[trigger] balances_of(updated).contains_key(b) == nb.contains_key(b) by {
        if has_user(updated, b) {
            let k = choose|k: int| 0 <= k < updated.len() && (#[trigger] updated[k]).spec_address() == b;
            assert(users[k].spec_address() == b);
        }
        if has_user(users, b) {
            let k = choose|k: int| 0 <= k < users.len() && (#[trigger] users[k]).spec_address() == b;
            assert(updated[k].spec_address() == b);
        }
        lemma_balance_at(users, i);
    }
    assert forall|b: Seq<char>| #[trigger] has_user(updated, b) == has_user(users, b) by {
        assert(balances_of(updated).contains_key(b) == nb.contains_key(b));
        lemma_balance_at(users, i);
    }
    assert forall|b: Seq<char>| #[trigger] nb.contains_key(b) implies balances_of(updated)[b] == nb[b] by {
        if b == a {
            lemma_balance_at(updated, i);
        } else {
            let k = choose|k: int| 0 <= k < users.len() && (#[trigger] users[k]).spec_address() == b;
            lemma_balance_at(users, k);
            lemma_balance_at(updated, k);
        }
    }
    assert(balances_of(updated) =~= nb);
}

impl UserMap {
    /// Every administrator is a registered account.
    pub proof fn lemma_admins_registered(&self)
        requires
            self.wf(),
        ensures
            forall|a: Seq<char>| #[trigger] self@.admins.contains(a) ==> self@.balances.contains_key(a),
    {
        assert forall|a: Seq<char>| #[trigger] self@.admins.contains(a) implies self@.balances.contains_key(
            a,
        ) by {
            let j = choose|j: int| 0 <= j < self.admins@.len() && (#[trigger] self.admins@[j])@ == a;
        }
    }

    /// Identifiers are unique among accounts and among administrators, and
    /// every administrator is a registered account.
    pub closed spec fn wf(&self) -> bool {
        &&& distinct_users(self.users@)
        &&& distinct_admins(self.admins@)
        &&& admins_registered(self.users@, self.admins@)
    }

    /// An empty ledger.
    pub fn new() -> (r: UserMap)
        ensures
            r.wf(),
            r@.balances == Map::<Seq<char>, int>::empty(),
            r@.admins == Set::<Seq<char>>::empty(),
    {
        let r = UserMap { users: Vec::new(), admins: Vec::new() };
        assert(r@.balances =~= Map::<Seq<char>, int>::empty());
        assert(r@.admins =~= Set::<Seq<char>>::empty());
        r
    }

    fn find_user(&self, addr: &String) -> (r: Option<usize>)
        requires
            self.wf(),
        ensures
            match r {
                Some(i) => i < self.users@.len() && self.users@[i as int].spec_address() == addr@,
                None => !self@.balances.contains_key(addr@),
            },
    {
        let mut i: usize = 0;
        while i < self.users.len()
            invariant
                i <= self.users@.len(),
                forall|k: int| 0 <= k < i ==> (#[trigger] self.users@[k]).spec_address() != addr@,
            decreases self.users@.len() - i,
        {
            if self.users[i].address == *addr {
                return Some(i);
            }
            i = i + 1;
        }
        None
    }

    fn find_admin(&self, addr: &String) -> (r: Option<usize>)
        requires
            self.wf(),
        ensures
            match r {
                Some(i) => i < self.admins@.len() && self.admins@[i as int]@ == addr@,
                None => !self@.admins.contains(addr@),
            },
    {
        let mut i: usize = 0;
        while i < self.admins.len()
            invariant
                i <= self.admins@.len(),
                forall|k: int| 0 <= k < i ==> (#[trigger] self.admins@[k])@ != addr@,
            decreases self.admins@.len() - i,
        {
            if self.admins[i] == *addr {
                return Some(i);
            }
            i = i + 1;
        }
        None
    }

    /// Registers an account; fails with `DuplicateAccount`, changing
    /// nothing, when its identifier is already registered.
    pub fn add_user(&mut self, usr: User) -> (r: Result<String, LedgerError>)
        requires
            old(self).wf(),
        ensures
            final(self).wf(),
            final(self)@.admins == old(self)@.admins,
            old(self)@.balances.contains_key(usr.spec_address()) ==> r == Err::<String, LedgerError>(
                LedgerError::DuplicateAccount,
            ) && final(self)@ == old(self)@,
            !old(self)@.balances.contains_key(usr.spec_address()) ==> r is Ok && r->Ok_0@
                == usr.spec_address() && final(self)@.balances == old(self)@.balances.insert(
                usr.spec_address(),
                usr.spec_balance() as int,
            ),
    {
        match self.find_user(&usr.address) {
            Some(i) => {
                proof {
                    lemma_balance_at(self.users@, i as int);
                }
                Err(LedgerError::DuplicateAccount)
            },
            None => {
                let addr = usr.address.clone();
                let ghost old_users = self.users@;
                self.users.push(usr);
                proof {
                    let users = self.users@;
                    let n = old_users.len() as int;
                    assert forall|i: int| 0 <= i < n implies (#[trigger] users[i]).spec_address()
                        != usr.spec_address() by {
                        assert(users[i] == old_users[i]);
                        if users[i].spec_address() == usr.spec_address() {
                            assert(has_user(old_users, usr.spec_address()));
                        }
                    }
                    assert(distinct_users(users));
                    assert forall|j: int| 0 <= j < self.admins@.len() implies has_user(
                        users,
                        (#[trigger] self.admins@[j])@,
                    ) by {
                        let a = self.admins@[j]@;
                        assert(has_user(old_users, a));
                        let k = choose|k: int| 0 <= k < old_users.len() && (#[trigger] old_users[k]).spec_address() == a;
                        assert(users[k] == old_users[k]);
                    }
                    let nb = old(self)@.balances.insert(usr.spec_address(), usr.spec_balance() as int);
                    assert forall|a: Seq<char>| #[trigger] balances_of(users).contains_key(a)
                        == nb.contains_key(a) by {
                        if has_user(users, a) {
                            let k = choose|k: int| 0 <= k < users.len() && (#[trigger] users[k]).spec_address() == a;
                            if k < n {
                                assert(old_users[k] == users[k]);
                                assert(has_user(old_users, a));
                            }
                        }
                        if has_user(old_users, a) {
                            let k = choose|k: int| 0 <= k < old_users.len() && (#[trigger] old_users[k]).spec_address() == a;
                            assert(users[k] == old_users[k]);
                        }
                        if a == usr.spec_address() {
                            assert(users[n] == usr);
                        }
                    }
                    assert forall|a: Seq<char>| #[trigger] nb.contains_key(a) implies balances_of(users)[a]
                        == nb[a] by {
                        if a == usr.spec_address() {
                            lemma_balance_at(users, n);
                        } else {
                            let k = choose|k: int| 0 <= k < old_users.len() && (#[trigger] old_users[k]).spec_address() == a;
                            lemma_balance_at(old_users, k);
                            assert(users[k] == old_users[k]);
                            lemma_balance_at(users, k);
                        }
                    }
                    assert(balances_of(users) =~= nb);
                }
                Ok(addr)
            },
        }
    }

    /// Grants (`is_admin`) or withdraws administrator rights of a
    /// registered account; for an unregistered identifier it does nothing.
    pub fn set_admin(&mut self, addr: String, is_admin: bool)
        requires
            old(self).wf(),
        ensures
            final(self).wf(),
            final(self)@.balances == old(self)@.balances,
            old(self)@.balances.contains_key(addr@) ==> final(self)@.admins == if is_admin {
                old(self)@.admins.insert(addr@)
            } else {
                old(self)@.admins.remove(addr@)
            },
            !old(self)@.balances.contains_key(addr@) ==> final(self)@.admins == old(self)@.admins,
    {
        let ghost old_admins = self.admins@;
        if self.find_user(&addr).is_none() {
            return;
        }
        match self.find_admin(&addr) {
            Some(i) => {
                if !is_admin {
                    self.admins.remove(i);
                    proof {
                        let ad = self.admins@;
                        assert forall|j: int, k: int|
                            0 <= j < ad.len() && 0 <= k < ad.len() && j != k implies (#[trigger] ad[j])@
                                != (#[trigger] ad[k])@ by {
                            let j0 = if j < i { j } else { j + 1 };
                            let k0 = if k < i { k } else { k + 1 };
                            assert(ad[j] == old_admins[j0]);
                            assert(ad[k] == old_admins[k0]);
                        }
                        assert forall|a: Seq<char>| #[trigger] admins_of(ad).contains(a)
                            == admins_of(old_admins).remove(addr@).contains(a) by {
                            if admins_of(ad).contains(a) {
                                let j = choose|j: int| 0 <= j < ad.len() && (#[trigger] ad[j])@ == a;
                                let j0 = if j < i { j } else { j + 1 };
                                assert(ad[j] == old_admins[j0]);
                            }
                            if admins_of(old_admins).remove(addr@).contains(a) {
                                let j = choose|j: int| 0 <= j < old_admins.len() && (#[trigger] old_admins[j])@ == a;
                                assert(j != i);
                                let j1 = if j < i { j } else { j - 1 };
                                assert(ad[j1] == old_admins[j]);
                            }
                        }
                        assert(admins_of(ad) =~= admins_of(old_admins).remove(addr@));
                        assert forall|j: int| 0 <= j < ad.len() implies has_user(
                            self.users@,
                            (#[trigger] ad[j])@,
                        ) by {
                            let j0 = if j < i { j } else { j + 1 };
                            assert(ad[j] == old_admins[j0]);
                        }
                    }
                } else {
                    assert(admins_of(old_admins).insert(addr@) =~= admins_of(old_admins));
                }
            },
            None => {
                if is_admin {
                    self.admins.push(addr);
                    proof {
                        let ad = self.admins@;
                        let n = old_admins.len() as int;
                        assert forall|j: int, k: int|
                            0 <= j < ad.len() && 0 <= k < ad.len() && j != k implies (#[trigger] ad[j])@
                                != (#[trigger] ad[k])@ by {
                            if j < n && k < n {
                                assert(ad[j] == old_admins[j] && ad[k] == old_admins[k]);
                            } else if j < n {
                                assert(ad[j] == old_admins[j]);
                                assert(admins_of(old_admins).contains(ad[j]@));
                            } else {
                                assert(ad[k] == old_admins[k]);
                                assert(admins_of(old_admins).contains(ad[k]@));
                            }
                        }
                        assert forall|a: Seq<char>| #[trigger] admins_of(ad).contains(a)
                            == admins_of(old_admins).insert(addr@).contains(a) by {
                            if admins_of(ad).contains(a) {
                                let j = choose|j: int| 0 <= j < ad.len() && (#[trigger] ad[j])@ == a;
                                if j < n {
                                    assert(ad[j] == old_admins[j]);
                                }
                            }
                            if admins_of(old_admins).contains(a) {
                                let j = choose|j: int| 0 <= j < old_admins.len() && (#[trigger] old_admins[j])@ == a;
                                assert(ad[j] == old_admins[j]);
                            }
                            assert(ad[n]@ == addr@);
                        }
                        assert(admins_of(ad) =~= admins_of(old_admins).insert(addr@));
                        assert forall|j: int| 0 <= j < ad.len() implies has_user(
                            self.users@,
                            (#[trigger] ad[j])@,
                        ) by {
                            if j < n {
                                assert(ad[j] == old_admins[j]);
                            }
                        }
                    }
                } else {
                    assert(admins_of(old_admins).remove(addr@) =~= admins_of(old_admins));
                }
            },
        }
    }

    /// The account registered under `addr`, if any.
    pub fn get_user(&mut self, addr: &String) -> (r: Option<&User>)
        requires
            old(self).wf(),
        ensures
            *final(self) == *old(self),
            r is Some == old(self)@.balances.contains_key(addr@),
            r matches Some(u) ==> u.spec_address() == addr@ && u.spec_balance() as int
                == old(self)@.balances[addr@],
    {
        match self.find_user(addr) {
            Some(i) => {
                proof {
                    lemma_balance_at(self.users@, i as int);
                }
                Some(&self.users[i])
            },
            None => None,
        }
    }

    pub fn is_admin(&self, addr: &String) -> (r: bool)
        requires
            self.wf(),
        ensures
            r == self@.admins.contains(addr@),
    {
        self.find_admin(addr).is_some()
    }

    fn credit(&mut self, addr: &String, amount: u128) -> (r: Result<(), LedgerError>)
        requires
            old(self).wf(),
        ensures
            final(self).wf(),
            r == credit_outcome(old(self)@, addr@, amount as int),
            final(self)@ == after_credit(old(self)@, addr@, amount as int),
    {
        match self.find_user(addr) {
            None => Err(LedgerError::UnknownAccount),
            Some(i) => {
                proof {
                    lemma_balance_at(self.users@, i as int);
                }
                let bal = self.users[i].balance;
                match bal.checked_add(amount) {
                    None => Err(LedgerError::BalanceOverflow),
                    Some(nb) => {
                        let ghost old_users = self.users@;
                        self.users[i].balance = nb;
                        proof {
                            lemma_set_balance(old_users, self.users@, i as int);
                        }
                        let ghost v = after_credit(old(self)@, addr@, amount as int);
                        assert(self@.balances == v.balances);
                        Ok(())
                    },
                }
            },
        }
    }

    /// Mints `amount` into account `funded` on behalf of administrator
    /// `funder`. Fails with `NotAdmin` when `funder` is no administrator,
    /// with `UnknownAccount` when `funded` is not registered, and with
    /// `BalanceOverflow` when the balance would pass `u128::MAX`; a failed
    /// call changes nothing.
    pub fn fund_user(&mut self, funder: &String, funded: &String, amount: u128) -> (r: Result<
        (),
        LedgerError,
    >)
        requires
            old(self).wf(),
        ensures
            final(self).wf(),
            r == fund_outcome(old(self)@, funder@, funded@, amount as int),
            final(self)@ == after_fund(old(self)@, funder@, funded@, amount as int),
    {
        if !self.is_admin(funder) {
            return Err(LedgerError::NotAdmin);
        }
        self.credit(funded, amount)
    }

    /// Debits the fee `gas` from `sender` and builds the transaction that
    /// is to be handed to the pool. Fails with `UnknownAccount` when
    /// `sender` is not registered and with `InsufficientFunds` when its
    /// balance is below `gas`; a failed call changes nothing.
    pub fn submit_tx(&mut self, sender: &String, data: Vec<u8>, gas: u128) -> (r: Result<
        Transaction,
        LedgerError,
    >)
        requires
            old(self).wf(),
        ensures
            final(self).wf(),
            final(self)@ == after_submit(old(self)@, sender@, gas as int),
            match r {
                Ok(tx) => submit_outcome(old(self)@, sender@, gas as int) is Ok && tx@.gas == gas
                    && tx@.data == data@ && tx@.sender == sender@ && exists|b: Seq<u8>|
                    b.len() == ADDRESS_BYTES && tx@.id == address_of(b),
                Err(e) => submit_outcome(old(self)@, sender@, gas as int) == Err::<(), LedgerError>(e),
            },
    {
        match self.find_user(sender) {
            None => Err(LedgerError::UnknownAccount),
            Some(i) => {
                proof {
                    lemma_balance_at(self.users@, i as int);
                }
                let ghost old_users = self.users@;
                let r = self.users[i].send_tx(data, gas);
                proof {
                    if r is Ok {
                        lemma_set_balance(old_users, self.users@, i as int);
                        let v = after_submit(old(self)@, sender@, gas as int);
                        assert(self@.balances == v.balances);
                    } else {
                        assert(self.users@ =~= old_users);
                    }
                }
                r
            },
        }
    }

    /// Credits a transaction's fee back to its sender, for a transaction
    /// that could not be handed to the pool after its fee was debited.
    /// Fails as crediting any account does, changing nothing.
    pub fn refund(&mut self, tx: &Transaction) -> (r: Result<(), LedgerError>)
        requires
            old(self).wf(),
        ensures
            final(self).wf(),
            r == credit_outcome(old(self)@, tx@.sender, tx@.gas as int),
            final(self)@ == after_credit(old(self)@, tx@.sender, tx@.gas as int),
    {
        self.credit(tx.sender(), tx.gas())
    }
}


proof fn lemma_op_keeps_nonnegative(v: LedgerView, op: LedgerOp)
    requires
        balances_nonnegative(v),
    ensures
        balances_nonnegative(apply_op(v, op)),
{
    let w = apply_op(v, op);
    assert forall|a: Seq<char>| #[trigger] w.balances.contains_key(a) implies w.balances[a] >= 0 by {
        if v.balances.contains_key(a) {
            assert(v.balances[a] >= 0);
        }
    }
}

/// Whatever sequence of fundings and fee payments is applied to a ledger,
/// no balance ever goes below zero: a payment is only taken from a balance
/// that covers it, and funding only adds.
pub proof fn lemma_balances_never_negative(ledger: &UserMap, ops: Seq<LedgerOp>)
    ensures
        balances_nonnegative(ledger@),
        forall|n: int| 0 <= n <= ops.len() ==> balances_nonnegative(#[trigger] apply_ops(ledger@, ops.take(n))),
{
    assert(balances_nonnegative(ledger@));
    assert forall|n: int| 0 <= n <= ops.len() implies balances_nonnegative(
        #[trigger] apply_ops(ledger@, ops.take(n)),
    ) by {
        lemma_ops_keep_nonnegative(ledger@, ops.take(n));
    }
}

proof fn lemma_ops_keep_nonnegative(v: LedgerView, ops: Seq<LedgerOp>)
    requires
        balances_nonnegative(v),
    ensures
        balances_nonnegative(apply_ops(v, ops)),
    decreases ops.len(),
{
    if ops.len() > 0 {
        lemma_op_keeps_nonnegative(v, ops[0]);
        lemma_ops_keep_nonnegative(apply_op(v, ops[0]), ops.drop_first());
    }
}

/// Funding on behalf of an identifier that is no administrator always fails
/// with `NotAdmin` and leaves every balance as it was.
pub proof fn lemma_fund_needs_admin(v: LedgerView, funder: Seq<char>, funded: Seq<char>, amount: int)
    requires
        !v.admins.contains(funder),
    ensures
        fund_outcome(v, funder, funded, amount) == Err::<(), LedgerError>(LedgerError::NotAdmin),
        after_fund(v, funder, funded, amount) == v,
{
}

} // verus!
