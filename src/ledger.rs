use std::collections::{HashMap, HashSet};
use vstd::prelude::*;

use crate::transaction::{Transaction, TransactionOp};

verus! {

broadcast use vstd::std_specs::hash::group_hash_axioms;

/// Why a record left the ledger unchanged. None of these is an error: a
/// skipped record never stops the processing of the records after it.
#[derive(Clone, Copy, Debug, PartialEq, Eq, Structural)]
pub enum SkipReason {
    /// A deposit, a withdrawal or a referenced transaction without an amount.
    MissingAmount,
    /// A withdrawal of at least the available funds.
    InsufficientFunds,
    /// A dispute, resolve or chargeback naming no stored transaction.
    UnknownTransaction,
    /// A resolve or chargeback of a transaction that is not under dispute.
    NotDisputed,
    /// A balance would leave the range of `i64`.
    Overflow,
}

/// What applying one record did.
#[derive(Clone, Copy, Debug, PartialEq, Eq, Structural)]
pub enum Outcome {
    Applied,
    Skipped(SkipReason),
}

/// The mathematical state of one client account.
pub struct Account {
    pub client: u16,
    pub available: int,
    pub held: int,
    pub total: int,
    pub locked: bool,
    pub disputed: Set<u32>,
}

pub open spec fn fits(x: int) -> bool {
    i64::MIN <= x <= i64::MAX
}

/// The account of a client seen for the first time.
pub open spec fn fresh(id: u16) -> Account {
    Account { client: id, available: 0, held: 0, total: 0, locked: false, disputed: Set::empty() }
}

/// The total is the sum of the available and the held funds.
pub open spec fn balanced(c: Account) -> bool {
    c.total == c.available + c.held
}

/// A deposit adds its amount to the available and the total funds.
pub open spec fn deposit_step(c: Account, amount: Option<i64>) -> (Account, Outcome) {
    match amount {
        None => (c, Outcome::Skipped(SkipReason::MissingAmount)),
        Some(a) => if fits(c.available + a) && fits(c.total + a) {
            (Account { available: c.available + a, total: c.total + a, ..c }, Outcome::Applied)
        } else {
            (c, Outcome::Skipped(SkipReason::Overflow))
        },
    }
}

/// A withdrawal takes its amount from the available and the total funds,
/// only where the available funds exceed it.
pub open spec fn withdrawal_step(c: Account, amount: Option<i64>) -> (Account, Outcome) {
    match amount {
        None => (c, Outcome::Skipped(SkipReason::MissingAmount)),
        Some(a) => if c.available <= a {
            (c, Outcome::Skipped(SkipReason::InsufficientFunds))
        } else if fits(c.available - a) && fits(c.total - a) {
            (Account { available: c.available - a, total: c.total - a, ..c }, Outcome::Applied)
        } else {
            (c, Outcome::Skipped(SkipReason::Overflow))
        },
    }
}

/// A dispute holds the amount of the referenced transaction and marks it
/// as disputed.
pub open spec fn dispute_step(c: Account, referenced: Option<Transaction>) -> (Account, Outcome) {
    match referenced {
        None => (c, Outcome::Skipped(SkipReason::UnknownTransaction)),
        Some(t) => match t.amount {
            None => (c, Outcome::Skipped(SkipReason::MissingAmount)),
            Some(a) => if fits(c.available - a) && fits(c.held + a) {
                (
                    Account {
                        available: c.available - a,
                        held: c.held + a,
                        disputed: c.disputed.insert(t.tx),
                        ..c
                    },
                    Outcome::Applied,
                )
            } else {
                (c, Outcome::Skipped(SkipReason::Overflow))
            },
        },
    }
}

/// A resolve releases the held amount of a disputed transaction. Only a
/// transaction under dispute can be resolved.
pub open spec fn resolve_step(c: Account, referenced: Option<Transaction>) -> (Account, Outcome) {
    match referenced {
        None => (c, Outcome::Skipped(SkipReason::UnknownTransaction)),
        Some(t) => match t.amount {
            None => (c, Outcome::Skipped(SkipReason::MissingAmount)),
            Some(a) => if !c.disputed.contains(t.tx) {
                (c, Outcome::Skipped(SkipReason::NotDisputed))
            } else if fits(c.held - a) && fits(c.available + a) {
                (
                    Account {
                        available: c.available + a,
                        held: c.held - a,
                        disputed: c.disputed.remove(t.tx),
                        ..c
                    },
                    Outcome::Applied,
                )
            } else {
                (c, Outcome::Skipped(SkipReason::Overflow))
            },
        },
    }
}

/// A chargeback removes the held amount of a disputed transaction from the
/// account and locks it for good. Only a transaction under dispute can be
/// charged back, and once only.
pub open spec fn chargeback_step(c: Account, referenced: Option<Transaction>) -> (Account, Outcome) {
    match referenced {
        None => (c, Outcome::Skipped(SkipReason::UnknownTransaction)),
        Some(t) => match t.amount {
            None => (c, Outcome::Skipped(SkipReason::MissingAmount)),
            Some(a) => if !c.disputed.contains(t.tx) {
                (c, Outcome::Skipped(SkipReason::NotDisputed))
            } else if fits(c.held - a) && fits(c.total - a) {
                (
                    Account {
                        held: c.held - a,
                        total: c.total - a,
                        locked: true,
                        disputed: c.disputed.remove(t.tx),
                        ..c
                    },
                    Outcome::Applied,
                )
            } else {
                (c, Outcome::Skipped(SkipReason::Overflow))
            },
        },
    }
}

pub open spec fn opt_deref(t: Option<&Transaction>) -> Option<Transaction> {
    match t {
        Some(r) => Some(*r),
        None => None,
    }
}

/// A client's balances. The set of transactions under dispute is kept
/// private: it decides which resolves and chargebacks take effect.
#[derive(Debug)]
pub struct Client {
    pub client: u16,
    pub available: i64,
    pub held: i64,
    pub total: i64,
    pub locked: bool,
    dispute_tx: HashSet<u32>,
}

impl View for Client {
    type V = Account;

    closed spec fn view(&self) -> Account {
        Account {
            client: self.client,
            available: self.available as int,
            held: self.held as int,
            total: self.total as int,
            locked: self.locked,
            disputed: self.dispute_tx@,
        }
    }
}

impl Client {
    /// An unlocked account with zero balances and nothing under dispute.
    pub fn new(client: u16) -> (r: Client)
        ensures
            r@ == fresh(client),
    {
        Client { client, available: 0, held: 0, total: 0, locked: false, dispute_tx: HashSet::new() }
    }

    /// The client id.
    pub fn client(&self) -> (r: u16)
        ensures
            r == self@.client,
    {
        self.client
    }

    /// The available funds, in ten-thousandths.
    pub fn available(&self) -> (r: i64)
        ensures
            r == self@.available,
    {
        self.available
    }

    /// The held funds, in ten-thousandths.
    pub fn held(&self) -> (r: i64)
        ensures
            r == self@.held,
    {
        self.held
    }

    /// The total funds, in ten-thousandths.
    pub fn total(&self) -> (r: i64)
        ensures
            r == self@.total,
    {
        self.total
    }

    /// Whether the account is locked.
    pub fn locked(&self) -> (r: bool)
        ensures
            r == self@.locked,
    {
        self.locked
    }

    /// Whether the transaction `tx` is currently under dispute.
    pub fn is_disputed(&self, tx: u32) -> (r: bool)
        ensures
            r == self@.disputed.contains(tx),
    {
        self.dispute_tx.contains(&tx)
    }

    /// Adds the amount to the available and the total funds.
    pub fn deposit(&mut self, tx: &Transaction) -> (r: Outcome)
        ensures
            (final(self)@, r) == deposit_step(old(self)@, tx.amount),
    {
        match tx.amount {
            None => Outcome::Skipped(SkipReason::MissingAmount),
            Some(a) => match (self.available.checked_add(a), self.total.checked_add(a)) {
                (Some(available), Some(total)) => {
                    self.available = available;
                    self.total = total;
                    Outcome::Applied
                },
                _ => Outcome::Skipped(SkipReason::Overflow),
            },
        }
    }

    /// Takes the amount from the available and the total funds, only where
    /// the available funds exceed it: no applied withdrawal leaves them
    /// negative.
    pub fn withdrawal(&mut self, tx: &Transaction) -> (r: Outcome)
        ensures
            (final(self)@, r) == withdrawal_step(old(self)@, tx.amount),
            r == Outcome::Applied ==> final(self)@.available > 0,
            final(self)@.available >= 0 || final(self)@.available == old(self)@.available,
    {
        match tx.amount {
            None => Outcome::Skipped(SkipReason::MissingAmount),
            Some(a) => {
                if self.available <= a {
                    Outcome::Skipped(SkipReason::InsufficientFunds)
                } else {
                    match (self.available.checked_sub(a), self.total.checked_sub(a)) {
                        (Some(available), Some(total)) => {
                            self.available = available;
                            self.total = total;
                            Outcome::Applied
                        },
                        _ => Outcome::Skipped(SkipReason::Overflow),
                    }
                }
            },
        }
    }

    /// Moves the referenced amount from the available to the held funds and
    /// marks the transaction as disputed.
    pub fn dispute(&mut self, tx: Option<&Transaction>) -> (r: Outcome)
        ensures
            (final(self)@, r) == dispute_step(old(self)@, opt_deref(tx)),
    {
        match tx {
            None => Outcome::Skipped(SkipReason::UnknownTransaction),
            Some(t) => match t.amount {
                None => Outcome::Skipped(SkipReason::MissingAmount),
                Some(a) => match (self.available.checked_sub(a), self.held.checked_add(a)) {
                    (Some(available), Some(held)) => {
                        self.available = available;
                        self.held = held;
                        self.dispute_tx.insert(t.tx);
                        Outcome::Applied
                    },
                    _ => Outcome::Skipped(SkipReason::Overflow),
                },
            },
        }
    }

    /// Releases the held amount of a disputed transaction back to the
    /// available funds and clears its dispute mark.
    pub fn resolve(&mut self, tx: Option<&Transaction>) -> (r: Outcome)
        ensures
            (final(self)@, r) == resolve_step(old(self)@, opt_deref(tx)),
    {
        match tx {
            None => Outcome::Skipped(SkipReason::UnknownTransaction),
            Some(t) => match t.amount {
                None => Outcome::Skipped(SkipReason::MissingAmount),
                Some(a) => {
                    if !self.dispute_tx.contains(&t.tx) {
                        Outcome::Skipped(SkipReason::NotDisputed)
                    } else {
                        match (self.held.checked_sub(a), self.available.checked_add(a)) {
                            (Some(held), Some(available)) => {
                                self.available = available;
                                self.held = held;
                                self.dispute_tx.remove(&t.tx);
                                Outcome::Applied
                            },
                            _ => Outcome::Skipped(SkipReason::Overflow),
                        }
                    }
                },
            },
        }
    }

    /// Removes the held amount of a disputed transaction from the held and
    /// the total funds, clears its dispute mark and locks the account.
    pub fn chargeback(&mut self, tx: Option<&Transaction>) -> (r: Outcome)
        ensures
            (final(self)@, r) == chargeback_step(old(self)@, opt_deref(tx)),
    {
        match tx {
            None => Outcome::Skipped(SkipReason::UnknownTransaction),
            Some(t) => match t.amount {
                None => Outcome::Skipped(SkipReason::MissingAmount),
                Some(a) => {
                    if !self.dispute_tx.contains(&t.tx) {
                        Outcome::Skipped(SkipReason::NotDisputed)
                    } else {
                        match (self.held.checked_sub(a), self.total.checked_sub(a)) {
                            (Some(held), Some(total)) => {
                                self.held = held;
                                self.total = total;
                                self.locked = true;
                                self.dispute_tx.remove(&t.tx);
                                Outcome::Applied
                            },
                            _ => Outcome::Skipped(SkipReason::Overflow),
                        }
                    }
                },
            },
        }
    }
}

/// The mathematical state of a ledger: every known account, and every
/// applied deposit and withdrawal by its transaction id.
pub struct LedgerModel {
    pub accounts: Map<u16, Account>,
    pub index: Map<u32, Transaction>,
}

pub open spec fn empty_model() -> LedgerModel {
    LedgerModel { accounts: Map::empty(), index: Map::empty() }
}

/// The account of `id`, created on first reference.
pub open spec fn account_in(accounts: Map<u16, Account>, id: u16) -> Account {
    if accounts.contains_key(id) {
        accounts[id]
    } else {
        fresh(id)
    }
}

/// The stored deposit or withdrawal that `tx` refers to, if any.
pub open spec fn referenced(index: Map<u32, Transaction>, tx: u32) -> Option<Transaction> {
    if index.contains_key(tx) {
        Some(index[tx])
    } else {
        None
    }
}

/// What one record does to the account it names.
pub open spec fn account_step(c: Account, index: Map<u32, Transaction>, t: Transaction) -> (
    Account,
    Outcome,
) {
    match t.op {
        TransactionOp::DEPOSIT => deposit_step(c, t.amount),
        TransactionOp::WITHDRAWAL => withdrawal_step(c, t.amount),
        TransactionOp::DISPUTE => dispute_step(c, referenced(index, t.tx)),
        TransactionOp::RESOLVE => resolve_step(c, referenced(index, t.tx)),
        TransactionOp::CHARGEBACK => chargeback_step(c, referenced(index, t.tx)),
    }
}

/// What one record does to the ledger: its account is updated (and created
/// if new), and an applied deposit or withdrawal becomes referenceable.
pub open spec fn next(s: LedgerModel, t: Transaction) -> (LedgerModel, Outcome) {
    let (c, out) = account_step(account_in(s.accounts, t.client), s.index, t);
    let stored = out == Outcome::Applied && (t.op == TransactionOp::DEPOSIT || t.op
        == TransactionOp::WITHDRAWAL);
    (
        LedgerModel {
            accounts: s.accounts.insert(t.client, c),
            index: if stored {
                s.index.insert(t.tx, t)
            } else {
                s.index
            },
        },
        out,
    )
}

/// The ledger after the records `ts`, in order.
pub open spec fn replay(s: LedgerModel, ts: Seq<Transaction>) -> LedgerModel
    decreases ts.len(),
{
    if ts.len() == 0 {
        s
    } else {
        next(replay(s, ts.drop_last()), ts.last()).0
    }
}

/// Each stored transaction sits under its own id.
pub open spec fn index_keyed(index: Map<u32, Transaction>) -> bool {
    forall|k: u32| #[trigger] index.contains_key(k) ==> index[k].tx == k
}

/// Every balance of every account lies in the range of `i64`.
pub open spec fn all_fit(s: LedgerModel) -> bool {
    forall|id: u16| #[trigger]
        s.accounts.contains_key(id) ==> fits(s.accounts[id].available) && fits(
            s.accounts[id].held,
        ) && fits(s.accounts[id].total)
}

/// What every state that a ledger can reach satisfies.
pub open spec fn model_valid(s: LedgerModel) -> bool {
    index_keyed(s.index) && all_fit(s)
}

pub open spec fn all_balanced(s: LedgerModel) -> bool {
    forall|id: u16| #[trigger] s.accounts.contains_key(id) ==> balanced(s.accounts[id])
}

/// The ledger engine: owns every client account and the index of
/// referenceable transactions.
pub struct Ledger {
    clients: HashMap<u16, Client>,
    transactions: HashMap<u32, Transaction>,
    order: Vec<u16>,
}

impl Ledger {
    pub closed spec fn model(&self) -> LedgerModel {
        LedgerModel {
            accounts: self.clients@.map_values(|c: Client| c@),
            index: self.transactions@,
        }
    }

    /// Client ids in the order in which they were first seen.
    pub closed spec fn ids(&self) -> Seq<u16> {
        self.order@
    }

    pub closed spec fn wf(&self) -> bool {
        &&& self.order@.no_duplicates()
        &&& index_keyed(self.transactions@)
        &&& forall|id: u16| #[trigger]
            self.clients@.contains_key(id) <==> self.order@.contains(id)
        &&& forall|id: u16| #[trigger]
            self.clients@.contains_key(id) ==> self.clients@[id].client == id && balanced(
                self.clients@[id]@,
            )
    }

    /// A ledger with no clients and no stored transactions.
    pub fn new() -> (r: Ledger)
        ensures
            r.wf(),
            r.model() == empty_model(),
    {
        let r = Ledger { clients: HashMap::new(), transactions: HashMap::new(), order: Vec::new() };
        assert(r.model().accounts =~= Map::empty());
        r
    }

    /// Applies one record to the account it names. Records that cannot take
    /// effect are skipped, and the outcome says why. An applied deposit or
    /// withdrawal whose id is already stored replaces the stored one.
    pub fn apply(&mut self, t: Transaction) -> (r: Outcome)
        requires
            old(self).wf(),
        ensures
            final(self).wf(),
            (final(self).model(), r) == next(old(self).model(), t),
    {
        let id = t.client;
        let ghost before = self.model();
        let ghost old_order = self.order@;
        let ghost mut pushed = false;
        let mut c = match self.clients.remove(&id) {
            Some(c) => c,
            None => {
                self.order.push(id);
                proof {
                    pushed = true;
                }
                Client::new(id)
            },
        };
        assert(c@ == account_in(before.accounts, id));
        let out = match t.op {
            TransactionOp::DEPOSIT => {
                let o = c.deposit(&t);
                if o == Outcome::Applied {
                    self.transactions.insert(t.tx, t);
                }
                o
            },
            TransactionOp::WITHDRAWAL => {
                let o = c.withdrawal(&t);
                if o == Outcome::Applied {
                    self.transactions.insert(t.tx, t);
                }
                o
            },
            TransactionOp::DISPUTE => c.dispute(self.transactions.get(&t.tx)),
            TransactionOp::RESOLVE => c.resolve(self.transactions.get(&t.tx)),
            TransactionOp::CHARGEBACK => c.chargeback(self.transactions.get(&t.tx)),
        };
        proof {
            lemma_step_keeps_balance(account_in(before.accounts, id), before.index, t);
        }
        self.clients.insert(id, c);
        proof {
            assert(self.model().accounts =~= before.accounts.insert(id, c@));
            assert forall|k: u16| #[trigger]
                self.clients@.contains_key(k) <==> self.order@.contains(k) by {
                if k != id {
                    assert(old(self).clients@.contains_key(k) <==> old_order.contains(k));
                    if old_order.contains(k) {
                        let j = choose|j: int| 0 <= j < old_order.len() && old_order[j] == k;
                        assert(self.order@[j] == k);
                    }
                    if self.order@.contains(k) {
                        let j = choose|j: int| 0 <= j < self.order@.len() && self.order@[j] == k;
                        assert(old_order[j] == k);
                    }
                } else if pushed {
                    assert(self.order@[self.order@.len() - 1] == id);
                } else {
                    assert(old_order.contains(id));
                    let j = choose|j: int| 0 <= j < old_order.len() && old_order[j] == id;
                    assert(self.order@[j] == id);
                }
            }
        }
        out
    }

    /// Applies the records in order.
    pub fn apply_all(&mut self, ts: &Vec<Transaction>)
        requires
            old(self).wf(),
        ensures
            final(self).wf(),
            final(self).model() == replay(old(self).model(), ts@),
    {
        let ghost start = self.model();
        let mut i: usize = 0;
        while i < ts.len()
            invariant
                i <= ts.len(),
                self.wf(),
                self.model() == replay(start, ts@.take(i as int)),
            decreases ts.len() - i,
        {
            assert(ts@.take(i as int + 1).drop_last() =~= ts@.take(i as int));
            self.apply(ts[i]);
            i = i + 1;
        }
        assert(ts@.take(i as int) =~= ts@);
    }

    /// The account of `id`, if that client has been seen.
    pub fn client(&self, id: u16) -> (r: Option<&Client>)
        ensures
            match r {
                Some(c) => self.model().accounts.contains_key(id) && c@ == self.model().accounts[id],
                None => !self.model().accounts.contains_key(id),
            },
    {
        self.clients.get(&id)
    }

    /// Hands out every account, one per known client, in the order in which
    /// the clients were first seen.
    pub fn into_clients(self) -> (r: Vec<Client>)
        requires
            self.wf(),
        ensures
            r@.len() == self.ids().len(),
            self.ids().no_duplicates(),
            forall|i: int|
                0 <= i < r@.len() ==> #[trigger] r@[i]@ == self.model().accounts[self.ids()[i]]
                    && r@[i]@.client == self.ids()[i],
            forall|id: u16| #[trigger]
                self.model().accounts.contains_key(id) <==> self.ids().contains(id),
    {
        let ghost ids = self.order@;
        let ghost start = self.clients@;
        let Ledger { clients: mut clients, transactions: _, order } = self;
        let mut out: Vec<Client> = Vec::new();
        let mut i: usize = 0;
        while i < order.len()
            invariant
                order@ == ids,
                ids.no_duplicates(),
                i <= order.len(),
                out@.len() == i,
                forall|id: u16| #[trigger] start.contains_key(id) <==> ids.contains(id),
                forall|id: u16| #[trigger]
                    start.contains_key(id) ==> start[id].client == id,
                forall|j: int| i <= j < ids.len() ==> #[trigger] clients@.contains_key(ids[j])
                    && clients@[ids[j]] == start[ids[j]],
                forall|j: int|
                    0 <= j < i ==> #[trigger] out@[j].client == ids[j] && out@[j] == start[ids[j]],
            decreases order.len() - i,
        {
            let id = order[i];
            assert(clients@.contains_key(ids[i as int]));
            assert(ids.contains(ids[i as int]));
            let ghost before = clients@;
            let c = clients.remove(&id);
            assert(clients@ == before.remove(id));
            assert(c == Some(before[id]));
            match c {
                Some(c) => {
                    let ghost prev = out@;
                    out.push(c);
                    assert forall|j: int| 0 <= j < i + 1 implies #[trigger] out@[j].client == ids[j]
                        && out@[j] == start[ids[j]] by {
                        if j < i {
                            assert(out@[j] == prev[j]);
                            assert(prev[j].client == ids[j]);
                        } else {
                            assert(out@[j] == before[id]);
                            assert(start.contains_key(id));
                            assert(before[id] == start[id]);
                        }
                    }
                },
                None => {},
            }
            proof {
                assert forall|j: int| i + 1 <= j < ids.len() implies #[trigger] clients@.contains_key(ids[j])
                    && clients@[ids[j]] == start[ids[j]] by {
                    assert(ids[j] != ids[i as int]);
                    assert(before.contains_key(ids[j]));
                }
            }
            i = i + 1;
        }
        proof {
            assert forall|j: int| 0 <= j < out@.len() implies #[trigger] out@[j]@
                == start.map_values(|c: Client| c@)[ids[j]] && out@[j]@.client == ids[j] by {
                assert(ids.contains(ids[j]));
            }
        }
        out
    }
}

proof fn lemma_step_keeps_balance(c: Account, index: Map<u32, Transaction>, t: Transaction)
    ensures
        balanced(c) ==> balanced(account_step(c, index, t).0),
        account_step(c, index, t).0.client == c.client,
{
}

proof fn lemma_next_keeps_balance(s: LedgerModel, t: Transaction)
    requires
        all_balanced(s),
    ensures
        all_balanced(next(s, t).0),
{
    let c = account_in(s.accounts, t.client);
    lemma_step_keeps_balance(c, s.index, t);
    let n = next(s, t).0;
    assert forall|id: u16| #[trigger] n.accounts.contains_key(id) implies balanced(n.accounts[id]) by {
        if id != t.client {
            assert(s.accounts.contains_key(id));
        }
    }
}

/// Whatever records are applied, in whatever order, every account keeps
/// `total == available + held` after each of them (deposits and withdrawals
/// in particular).
pub proof fn lemma_replay_balanced(s: LedgerModel, ts: Seq<Transaction>)
    requires
        all_balanced(s),
    ensures
        all_balanced(replay(s, ts)),
    decreases ts.len(),
{
    if ts.len() > 0 {
        lemma_replay_balanced(s, ts.drop_last());
        lemma_next_keeps_balance(replay(s, ts.drop_last()), ts.last());
    }
}

/// Starting from an empty ledger, every account is balanced after any
/// sequence of records.
pub proof fn lemma_balanced_from_empty(ts: Seq<Transaction>)
    ensures
        all_balanced(replay(empty_model(), ts)),
{
    lemma_replay_balanced(empty_model(), ts);
}

/// A withdrawal never makes the available funds negative: an applied one
/// leaves them positive, and a skipped one leaves them as they were.
pub proof fn lemma_withdrawal_keeps_available(s: LedgerModel, t: Transaction)
    requires
        t.op == TransactionOp::WITHDRAWAL,
    ensures
        next(s, t).1 == Outcome::Applied ==> next(s, t).0.accounts[t.client].available > 0,
        next(s, t).0.accounts[t.client].available >= 0 || next(s, t).0.accounts[t.client].available
            == account_in(s.accounts, t.client).available,
{
}

/// A dispute followed at once by a resolve of the same transaction leaves
/// the client's available and held funds (and its total and lock) as they
/// were before the dispute, where the amounts involved stay in the range of
/// `i64`.
pub proof fn lemma_dispute_then_resolve(s: LedgerModel, d: Transaction, r: Transaction)
    requires
        d.op == TransactionOp::DISPUTE,
        r.op == TransactionOp::RESOLVE,
        d.client == r.client,
        d.tx == r.tx,
        model_valid(s),
        s.index.contains_key(d.tx) && s.index[d.tx].amount is Some ==> fits(
            account_in(s.accounts, d.client).available - s.index[d.tx].amount->0,
        ) && fits(account_in(s.accounts, d.client).held + s.index[d.tx].amount->0),
    ensures
        account_in(next(next(s, d).0, r).0.accounts, d.client).available == account_in(
            s.accounts,
            d.client,
        ).available,
        account_in(next(next(s, d).0, r).0.accounts, d.client).held == account_in(
            s.accounts,
            d.client,
        ).held,
        account_in(next(next(s, d).0, r).0.accounts, d.client).total == account_in(
            s.accounts,
            d.client,
        ).total,
        account_in(next(next(s, d).0, r).0.accounts, d.client).locked == account_in(
            s.accounts,
            d.client,
        ).locked,
{
    let c = account_in(s.accounts, d.client);
    assert(s.index.contains_key(d.tx) ==> s.index[d.tx].tx == d.tx);
    assert(s.accounts.contains_key(d.client) ==> fits(c.held) && fits(c.available));
    let s1 = next(s, d).0;
    let c1 = account_in(s1.accounts, d.client);
    assert(s1.index == s.index);
    assert(c1 == dispute_step(c, referenced(s.index, d.tx)).0);
    let c2 = account_in(next(s1, r).0.accounts, d.client);
    assert(c2 == resolve_step(c1, referenced(s.index, d.tx)).0);
    if let Some(t) = referenced(s.index, d.tx) {
        if let Some(a) = t.amount {
            assert(t.tx == d.tx);
            assert(c1.disputed.contains(d.tx));
        }
    }
}

/// A dispute followed by a chargeback of the same transaction takes the
/// disputed amount off the total and locks the account, where the amounts
/// involved stay in the range of `i64`.
pub proof fn lemma_dispute_then_chargeback(s: LedgerModel, d: Transaction, cb: Transaction)
    requires
        d.op == TransactionOp::DISPUTE,
        cb.op == TransactionOp::CHARGEBACK,
        d.client == cb.client,
        d.tx == cb.tx,
        model_valid(s),
        s.index.contains_key(d.tx),
        s.index[d.tx].amount is Some,
        fits(account_in(s.accounts, d.client).available - s.index[d.tx].amount->0),
        fits(account_in(s.accounts, d.client).held + s.index[d.tx].amount->0),
        fits(account_in(s.accounts, d.client).total - s.index[d.tx].amount->0),
    ensures
        account_in(next(next(s, d).0, cb).0.accounts, d.client).total == account_in(
            s.accounts,
            d.client,
        ).total - s.index[d.tx].amount->0,
        account_in(next(next(s, d).0, cb).0.accounts, d.client).locked,
{
    let c = account_in(s.accounts, d.client);
    assert(s.index.contains_key(d.tx) ==> s.index[d.tx].tx == d.tx);
    assert(s.accounts.contains_key(d.client) ==> fits(c.held) && fits(c.available));
    let s1 = next(s, d).0;
    let c1 = account_in(s1.accounts, d.client);
    assert(s1.index == s.index);
    assert(c1 == dispute_step(c, referenced(s.index, d.tx)).0);
    assert(s.index[d.tx].tx == d.tx);
    assert(c1.disputed.contains(d.tx));
    let c2 = account_in(next(s1, cb).0.accounts, d.client);
    assert(c2 == chargeback_step(c1, referenced(s.index, d.tx)).0);
}

/// Once locked, an account stays locked whatever records follow.
pub proof fn lemma_locked_stays(s: LedgerModel, ts: Seq<Transaction>, id: u16)
    requires
        account_in(s.accounts, id).locked,
    ensures
        account_in(replay(s, ts).accounts, id).locked,
    decreases ts.len(),
{
    if ts.len() > 0 {
        lemma_locked_stays(s, ts.drop_last(), id);
    }
}

/// What a well-formed ledger's model always satisfies.
pub proof fn lemma_model_valid(l: &Ledger)
    requires
        l.wf(),
    ensures
        model_valid(l.model()),
        all_balanced(l.model()),
{
    assert forall|id: u16| #[trigger] l.model().accounts.contains_key(id) implies balanced(
        l.model().accounts[id],
    ) by {
        assert(l.clients@.contains_key(id));
    }
    assert forall|id: u16| #[trigger] l.model().accounts.contains_key(id) implies fits(
        l.model().accounts[id].available,
    ) && fits(l.model().accounts[id].held) && fits(l.model().accounts[id].total) by {
        assert(l.clients@.contains_key(id));
    }
}

} // verus!
