use vstd::prelude::*;

use std::collections::HashMap;
use std::collections::VecDeque;

use crate::common::{ClientId, EntryState, LedgerEntry, Transaction, TransactionType, TxId};
use crate::error::{Error, ErrorKind};

verus! {

broadcast use vstd::std_specs::hash::group_hash_axioms;

/// Mathematical model of one account: its balances, its lock flag and
/// the ledger of every transaction ever accepted for it.
#[verifier::ext_equal]
pub struct AccountView {
    pub client: ClientId,
    pub available: u64,
    pub held: u64,
    pub locked: bool,
    pub ledger: Map<TxId, LedgerEntry>,
}

impl AccountView {
    /// The account total must fit the fixed-point representation.
    pub open spec fn wf(self) -> bool {
        self.available + self.held <= u64::MAX
    }

    /// The state of a brand-new account.
    pub open spec fn fresh(client: ClientId) -> AccountView {
        AccountView {
            client,
            available: 0,
            held: 0,
            locked: false,
            ledger: Map::empty(),
        }
    }
}

/// Effect of a Deposit: rejected on a duplicate id, on a missing
/// amount, and when the new total would not fit; locked accounts still
/// accept deposits. On success the amount joins the available balance
/// and a Posted ledger entry is recorded.
pub open spec fn deposit_spec(s: AccountView, t: Transaction) -> Result<AccountView, ErrorKind> {
    if s.ledger.contains_key(t.tx) {
        Err(ErrorKind::DuplicateTransactionId)
    } else {
        match t.amount {
            None => Err(ErrorKind::AmountMissing),
            Some(amount) => if s.available + s.held + amount > u64::MAX {
                Err(ErrorKind::NumericOverflow)
            } else {
                Ok(AccountView {
                    available: (s.available + amount) as u64,
                    ledger: s.ledger.insert(
                        t.tx,
                        LedgerEntry { state: EntryState::Posted, amount },
                    ),
                    ..s
                })
            },
        }
    }
}

/// Effect of a Withdrawal: rejected on a locked account, on a
/// duplicate id, on a missing amount, and unless the available balance
/// strictly exceeds the amount. On success the amount leaves the
/// available balance and a Withdrawn ledger entry is recorded.
pub open spec fn withdrawal_spec(s: AccountView, t: Transaction) -> Result<AccountView, ErrorKind> {
    if s.locked {
        Err(ErrorKind::AccountLocked)
    } else if s.ledger.contains_key(t.tx) {
        Err(ErrorKind::DuplicateTransactionId)
    } else {
        match t.amount {
            None => Err(ErrorKind::AmountMissing),
            Some(amount) => if s.available <= amount {
                Err(ErrorKind::InsufficientAvailable)
            } else {
                Ok(AccountView {
                    available: (s.available - amount) as u64,
                    ledger: s.ledger.insert(
                        t.tx,
                        LedgerEntry { state: EntryState::Withdrawn, amount },
                    ),
                    ..s
                })
            },
        }
    }
}

/// Effect of a Dispute: rejected when the referenced id is unknown,
/// when the entry is not a Posted deposit, and when the available
/// balance cannot cover the entry's amount. On success the entry turns
/// Disputed and its amount moves from available to held.
pub open spec fn dispute_spec(s: AccountView, t: Transaction) -> Result<AccountView, ErrorKind> {
    if !s.ledger.contains_key(t.tx) {
        Err(ErrorKind::TransactionNotFound)
    } else {
        let entry = s.ledger[t.tx];
        if entry.state != EntryState::Posted {
            Err(ErrorKind::InvalidLifecycleTransition {
                attempted: t.transaction_type,
                actual: entry.state,
            })
        } else if s.available < entry.amount {
            Err(ErrorKind::InsufficientAvailable)
        } else {
            Ok(AccountView {
                available: (s.available - entry.amount) as u64,
                held: (s.held + entry.amount) as u64,
                ledger: s.ledger.insert(
                    t.tx,
                    LedgerEntry { state: EntryState::Disputed, amount: entry.amount },
                ),
                ..s
            })
        }
    }
}

/// Effect of a Resolve: rejected when the referenced id is unknown,
/// when the entry is not Disputed, and when the held balance cannot
/// cover the entry's amount. On success the entry returns to Posted
/// and its amount moves from held back to available, after which it
/// can be disputed again.
pub open spec fn resolve_spec(s: AccountView, t: Transaction) -> Result<AccountView, ErrorKind> {
    if !s.ledger.contains_key(t.tx) {
        Err(ErrorKind::TransactionNotFound)
    } else {
        let entry = s.ledger[t.tx];
        if entry.state != EntryState::Disputed {
            Err(ErrorKind::InvalidLifecycleTransition {
                attempted: t.transaction_type,
                actual: entry.state,
            })
        } else if s.held < entry.amount {
            Err(ErrorKind::InsufficientHeld)
        } else {
            Ok(AccountView {
                available: (s.available + entry.amount) as u64,
                held: (s.held - entry.amount) as u64,
                ledger: s.ledger.insert(
                    t.tx,
                    LedgerEntry { state: EntryState::Posted, amount: entry.amount },
                ),
                ..s
            })
        }
    }
}

/// Effect of a Chargeback: rejected when the referenced id is unknown,
/// when the entry is not Disputed, and when the held balance cannot
/// cover the entry's amount. On success the entry turns Chargebacked
/// (terminal), the held amount is forfeited and the account is locked
/// permanently.
pub open spec fn chargeback_spec(s: AccountView, t: Transaction) -> Result<AccountView, ErrorKind> {
    if !s.ledger.contains_key(t.tx) {
        Err(ErrorKind::TransactionNotFound)
    } else {
        let entry = s.ledger[t.tx];
        if entry.state != EntryState::Disputed {
            Err(ErrorKind::InvalidLifecycleTransition {
                attempted: t.transaction_type,
                actual: entry.state,
            })
        } else if s.held < entry.amount {
            Err(ErrorKind::InsufficientHeld)
        } else {
            Ok(AccountView {
                held: (s.held - entry.amount) as u64,
                locked: true,
                ledger: s.ledger.insert(
                    t.tx,
                    LedgerEntry { state: EntryState::Chargebacked, amount: entry.amount },
                ),
                ..s
            })
        }
    }
}

/// Effect of one transaction of any kind on one account.
pub open spec fn apply_spec(s: AccountView, t: Transaction) -> Result<AccountView, ErrorKind> {
    match t.transaction_type {
        TransactionType::Deposit => deposit_spec(s, t),
        TransactionType::Withdrawal => withdrawal_spec(s, t),
        TransactionType::Dispute => dispute_spec(s, t),
        TransactionType::Resolve => resolve_spec(s, t),
        TransactionType::Chargeback => chargeback_spec(s, t),
    }
}

/// An operation either succeeds and moves the account to exactly the
/// state the transition function gives, or fails with exactly its
/// error kind and leaves the account untouched.
pub open spec fn op_result_obeys(
    expected: Result<AccountView, ErrorKind>,
    r: Result<(), Error>,
    pre: AccountView,
    post: AccountView,
) -> bool {
    match expected {
        Ok(v) => r is Ok && post == v,
        Err(k) => match r {
            Ok(_) => false,
            Err(e) => e.kind == k && post == pre,
        },
    }
}

/// Holds the current state of a client (account).
#[derive(Debug)]
pub struct ClientState {
    pub client: ClientId,
    pub available: u64,
    pub held: u64,
    pub locked: bool,
    pub tx_for_transaction_state: HashMap<TxId, LedgerEntry>,
}

impl View for ClientState {
    type V = AccountView;

    open spec fn view(&self) -> AccountView {
        AccountView {
            client: self.client,
            available: self.available,
            held: self.held,
            locked: self.locked,
            ledger: self.tx_for_transaction_state@,
        }
    }
}

impl PartialEq for ClientState {
    /// Two states are compared by balances, identifier and lock flag,
    /// not by their ledgers.
    fn eq(&self, other: &Self) -> (r: bool) {
        self.client == other.client && self.available == other.available && self.held
            == other.held && self.locked == other.locked
    }
}

impl vstd::std_specs::cmp::PartialEqSpecImpl for ClientState {
    open spec fn obeys_eq_spec() -> bool {
        true
    }

    open spec fn eq_spec(&self, other: &Self) -> bool {
        self.client == other.client && self.available == other.available && self.held
            == other.held && self.locked == other.locked
    }
}

/// Looks up the ledger entry for `transaction.tx` and checks that it
/// is in `allowed_state`; the lookup the dispute-family operations
/// share.
fn get_tx_state_and_check_state(
    tx_for_transaction_state: &HashMap<TxId, LedgerEntry>,
    transaction: &Transaction,
    allowed_state: EntryState,
) -> (r: Result<LedgerEntry, Error>)
    ensures
        match r {
            Ok(entry) => tx_for_transaction_state@.contains_key(transaction.tx) && entry
                == tx_for_transaction_state@[transaction.tx] && entry.state == allowed_state,
            Err(err) => match err.kind {
                ErrorKind::TransactionNotFound => !tx_for_transaction_state@.contains_key(
                    transaction.tx,
                ),
                ErrorKind::InvalidLifecycleTransition { attempted, actual } => {
                    &&& tx_for_transaction_state@.contains_key(transaction.tx)
                    &&& actual == tx_for_transaction_state@[transaction.tx].state
                    &&& actual != allowed_state
                    &&& attempted == transaction.transaction_type
                },
                _ => false,
            },
        },
{
    match tx_for_transaction_state.get(&transaction.tx) {
        None => Err(Error::new(ErrorKind::TransactionNotFound, "transaction id does not exist")),
        Some(entry) => {
            if entry.state == allowed_state {
                Ok(*entry)
            } else {
                Err(
                    Error::new(
                        ErrorKind::InvalidLifecycleTransition {
                            attempted: transaction.transaction_type,
                            actual: entry.state,
                        },
                        "transaction is not in a state the operation accepts",
                    ),
                )
            }
        },
    }
}

impl ClientState {
    /// A state with the given balances and an empty ledger.
    pub fn new(client: ClientId, available: u64, held: u64, locked: bool) -> (r: ClientState)
        ensures
            r@ == (AccountView {
                client,
                available,
                held,
                locked,
                ledger: Map::<TxId, LedgerEntry>::empty(),
            }),
    {
        ClientState { client, available, held, locked, tx_for_transaction_state: HashMap::new() }
    }

    /// Applies a Deposit as `deposit_spec` describes.
    pub fn deposit(&mut self, transaction: Transaction) -> (r: Result<(), Error>)
        requires
            old(self)@.wf(),
            transaction.transaction_type == TransactionType::Deposit,
        ensures
            final(self)@.wf(),
            op_result_obeys(deposit_spec(old(self)@, transaction), r, old(self)@, final(self)@),
    {
        if self.tx_for_transaction_state.contains_key(&transaction.tx) {
            return Err(Error::new(ErrorKind::DuplicateTransactionId, "transaction already processed"));
        }
        let amount = match transaction.amount {
            Some(a) => a,
            None => {
                return Err(Error::new(ErrorKind::AmountMissing, "amount must be provided in a deposit"));
            },
        };
        if amount > u64::MAX - self.available - self.held {
            return Err(Error::new(ErrorKind::NumericOverflow, "account total cannot carry the amount"));
        }
        self.available = self.available + amount;
        self.tx_for_transaction_state.insert(
            transaction.tx,
            LedgerEntry { state: EntryState::Posted, amount },
        );
        proof {
            assert(self@ =~= deposit_spec(old(self)@, transaction)->Ok_0);
        }
        Ok(())
    }

    /// Applies a Withdrawal as `withdrawal_spec` describes.
    pub fn withdrawal(&mut self, transaction: Transaction) -> (r: Result<(), Error>)
        requires
            old(self)@.wf(),
            transaction.transaction_type == TransactionType::Withdrawal,
        ensures
            final(self)@.wf(),
            op_result_obeys(withdrawal_spec(old(self)@, transaction), r, old(self)@, final(self)@),
    {
        if self.locked {
            return Err(Error::new(ErrorKind::AccountLocked, "account is locked"));
        }
        if self.tx_for_transaction_state.contains_key(&transaction.tx) {
            return Err(Error::new(ErrorKind::DuplicateTransactionId, "transaction already processed"));
        }
        let amount = match transaction.amount {
            Some(a) => a,
            None => {
                return Err(Error::new(ErrorKind::AmountMissing, "amount must be provided in a withdrawal"));
            },
        };
        if self.available <= amount {
            return Err(
                Error::new(ErrorKind::InsufficientAvailable, "account did not have enough available funds"),
            );
        }
        self.available = self.available - amount;
        self.tx_for_transaction_state.insert(
            transaction.tx,
            LedgerEntry { state: EntryState::Withdrawn, amount },
        );
        proof {
            assert(self@ =~= withdrawal_spec(old(self)@, transaction)->Ok_0);
        }
        Ok(())
    }

    /// Applies a Dispute as `dispute_spec` describes.
    pub fn dispute(&mut self, transaction: Transaction) -> (r: Result<(), Error>)
        requires
            old(self)@.wf(),
            transaction.transaction_type == TransactionType::Dispute,
        ensures
            final(self)@.wf(),
            op_result_obeys(dispute_spec(old(self)@, transaction), r, old(self)@, final(self)@),
    {
        let entry = match get_tx_state_and_check_state(
            &self.tx_for_transaction_state,
            &transaction,
            EntryState::Posted,
        ) {
            Ok(entry) => entry,
            Err(err) => {
                return Err(err);
            },
        };
        if self.available < entry.amount {
            return Err(
                Error::new(ErrorKind::InsufficientAvailable, "account did not have enough available funds"),
            );
        }
        self.available = self.available - entry.amount;
        self.held = self.held + entry.amount;
        self.tx_for_transaction_state.insert(
            transaction.tx,
            LedgerEntry { state: EntryState::Disputed, amount: entry.amount },
        );
        proof {
            assert(self@ =~= dispute_spec(old(self)@, transaction)->Ok_0);
        }
        Ok(())
    }

    /// Applies a Resolve as `resolve_spec` describes.
    pub fn resolve(&mut self, transaction: Transaction) -> (r: Result<(), Error>)
        requires
            old(self)@.wf(),
            transaction.transaction_type == TransactionType::Resolve,
        ensures
            final(self)@.wf(),
            op_result_obeys(resolve_spec(old(self)@, transaction), r, old(self)@, final(self)@),
    {
        let entry = match get_tx_state_and_check_state(
            &self.tx_for_transaction_state,
            &transaction,
            EntryState::Disputed,
        ) {
            Ok(entry) => entry,
            Err(err) => {
                return Err(err);
            },
        };
        if self.held < entry.amount {
            return Err(Error::new(ErrorKind::InsufficientHeld, "account did not have enough held funds"));
        }
        self.held = self.held - entry.amount;
        self.available = self.available + entry.amount;
        self.tx_for_transaction_state.insert(
            transaction.tx,
            LedgerEntry { state: EntryState::Posted, amount: entry.amount },
        );
        proof {
            assert(self@ =~= resolve_spec(old(self)@, transaction)->Ok_0);
        }
        Ok(())
    }

    /// Applies a Chargeback as `chargeback_spec` describes.
    pub fn chargeback(&mut self, transaction: Transaction) -> (r: Result<(), Error>)
        requires
            old(self)@.wf(),
            transaction.transaction_type == TransactionType::Chargeback,
        ensures
            final(self)@.wf(),
            op_result_obeys(chargeback_spec(old(self)@, transaction), r, old(self)@, final(self)@),
    {
        let entry = match get_tx_state_and_check_state(
            &self.tx_for_transaction_state,
            &transaction,
            EntryState::Disputed,
        ) {
            Ok(entry) => entry,
            Err(err) => {
                return Err(err);
            },
        };
        if self.held < entry.amount {
            return Err(Error::new(ErrorKind::InsufficientHeld, "account did not have enough held funds"));
        }
        self.held = self.held - entry.amount;
        self.locked = true;
        self.tx_for_transaction_state.insert(
            transaction.tx,
            LedgerEntry { state: EntryState::Chargebacked, amount: entry.amount },
        );
        proof {
            assert(self@ =~= chargeback_spec(old(self)@, transaction)->Ok_0);
        }
        Ok(())
    }

    /// Dispatches one transaction to the operation matching its kind.
    pub fn apply(&mut self, transaction: Transaction) -> (r: Result<(), Error>)
        requires
            old(self)@.wf(),
        ensures
            final(self)@.wf(),
            op_result_obeys(apply_spec(old(self)@, transaction), r, old(self)@, final(self)@),
    {
        match transaction.transaction_type {
            TransactionType::Deposit => self.deposit(transaction),
            TransactionType::Withdrawal => self.withdrawal(transaction),
            TransactionType::Dispute => self.dispute(transaction),
            TransactionType::Resolve => self.resolve(transaction),
            TransactionType::Chargeback => self.chargeback(transaction),
        }
    }
}


/// Model of one lane: the accounts it owns and the order in which
/// their clients first appeared.
#[verifier::ext_equal]
pub struct LaneView {
    pub accounts: Map<ClientId, AccountView>,
    pub order: Seq<ClientId>,
}

/// The empty lane.
pub open spec fn empty_lane() -> LaneView {
    LaneView { accounts: Map::empty(), order: Seq::empty() }
}

/// A lane is well formed when its order lists each of its clients
/// exactly once and every account is well formed and keyed by its own
/// identifier.
pub open spec fn lane_wf(l: LaneView) -> bool {
    &&& l.order.no_duplicates()
    &&& (forall|i: int| 0 <= i < l.order.len() ==> l.accounts.contains_key(#[trigger] l.order[i]))
    &&& (forall|c: ClientId| #[trigger] l.accounts.contains_key(c) ==> l.order.contains(c))
    &&& (forall|c: ClientId| #[trigger] l.accounts.contains_key(c) ==> l.accounts[c].wf()
        && l.accounts[c].client == c)
}

/// Effect of one transaction on a lane: the account is created lazily
/// on first reference; the operation then acts as `apply_spec` gives.
/// A rejected transaction leaves balances untouched, but the lazily
/// created account remains and is reported at the end of the run.
pub open spec fn lane_apply(l: LaneView, t: Transaction) -> (LaneView, Result<(), ErrorKind>) {
    let known = l.accounts.contains_key(t.client);
    let pre = if known {
        l.accounts[t.client]
    } else {
        AccountView::fresh(t.client)
    };
    let order = if known {
        l.order
    } else {
        l.order.push(t.client)
    };
    match apply_spec(pre, t) {
        Ok(post) => (LaneView { accounts: l.accounts.insert(t.client, post), order }, Ok(())),
        Err(k) => (LaneView { accounts: l.accounts.insert(t.client, pre), order }, Err(k)),
    }
}

/// The accounts a lane reports when it is drained, in first-appearance
/// order.
pub open spec fn lane_states(l: LaneView) -> Seq<AccountView> {
    l.order.map_values(|c: ClientId| l.accounts[c])
}

/// The reported result carries exactly the spec-level error kind.
pub open spec fn reports(rk: Result<(), ErrorKind>, r: Result<(), Error>) -> bool {
    match (rk, r) {
        (Ok(_), Ok(_)) => true,
        (Err(k), Err(e)) => e.kind == k,
        _ => false,
    }
}

/// One processing lane: the exclusive owner of the accounts routed to
/// it, together with the order in which they were first seen.
pub struct Worker {
    pub state_for_client: HashMap<ClientId, ClientState>,
    pub insertion_order: Vec<ClientId>,
}

impl View for Worker {
    type V = LaneView;

    open spec fn view(&self) -> LaneView {
        LaneView {
            accounts: self.state_for_client@.map_values(|s: ClientState| s@),
            order: self.insertion_order@,
        }
    }
}

impl Worker {
    /// A lane with no accounts.
    pub fn new() -> (r: Worker)
        ensures
            r@ == empty_lane(),
            lane_wf(r@),
    {
        let r = Worker { state_for_client: HashMap::new(), insertion_order: Vec::new() };
        proof {
            assert(r@ =~= empty_lane());
        }
        r
    }

    /// Pulls one transaction through the lane, creating the account
    /// lazily, exactly as `lane_apply` gives.
    pub fn process(&mut self, transaction: Transaction) -> (r: Result<(), Error>)
        requires
            lane_wf(old(self)@),
        ensures
            lane_wf(final(self)@),
            final(self)@ == lane_apply(old(self)@, transaction).0,
            reports(lane_apply(old(self)@, transaction).1, r),
    {
        let client = transaction.client;
        let mut state = match self.state_for_client.remove(&client) {
            Some(s) => s,
            None => {
                self.insertion_order.push(client);
                ClientState::new(client, 0, 0, false)
            },
        };
        proof {
            if old(self)@.accounts.contains_key(client) {
                assert(state@ == old(self)@.accounts[client]);
            } else {
                assert(state@ =~= AccountView::fresh(client));
            }
        }
        let r = state.apply(transaction);
        self.state_for_client.insert(client, state);
        proof {
            assert(self@.accounts =~= lane_apply(old(self)@, transaction).0.accounts);
            assert(self@ =~= lane_apply(old(self)@, transaction).0);
            let l2 = lane_apply(old(self)@, transaction).0;
            assert forall|c: ClientId| #[trigger] l2.accounts.contains_key(c) implies l2.order.contains(c) by {
                if c != client {
                    assert(old(self)@.accounts.contains_key(c));
                    assert(old(self)@.order.contains(c));
                    let j = choose|j: int| 0 <= j < old(self)@.order.len()
                        && (#[trigger] old(self)@.order[j]) == c;
                    assert(l2.order[j] == c);
                } else {
                    if old(self)@.accounts.contains_key(client) {
                        assert(old(self)@.order.contains(client));
                        let j = choose|j: int| 0 <= j < old(self)@.order.len()
                            && (#[trigger] old(self)@.order[j]) == client;
                        assert(l2.order[j] == client);
                    } else {
                        assert(l2.order[l2.order.len() - 1] == client);
                    }
                }
            }
            if !old(self)@.accounts.contains_key(client) {
                assert(!old(self)@.order.contains(client));
                assert(l2.order.no_duplicates());
            }
        }
        r
    }

    /// Closes the lane and hands back its accounts, in the order the
    /// clients first appeared.
    pub fn collect_states(self) -> (out: Vec<ClientState>)
        requires
            lane_wf(self@),
        ensures
            out@.map_values(|s: ClientState| s@) == lane_states(self@),
    {
        let mut this = self;
        let ghost l = this@;
        let ghost m0 = this.state_for_client@;
        let mut out: Vec<ClientState> = Vec::new();
        let mut i: usize = 0;
        while i < this.insertion_order.len()
            invariant
                lane_wf(l),
                i <= l.order.len(),
                this.insertion_order@ == l.order,
                l.accounts == m0.map_values(|s: ClientState| s@),
                m0.dom().finite(),
                out@.len() == i,
                forall|j: int| 0 <= j < i ==> (#[trigger] out@[j])@ == l.accounts[l.order[j]],
                forall|c: ClientId| this.state_for_client@.contains_key(c) <==> (
                    m0.contains_key(c) && !l.order.take(i as int).contains(c)),
                forall|c: ClientId| #[trigger] this.state_for_client@.contains_key(c)
                    ==> this.state_for_client@[c] == m0[c],
            decreases l.order.len() - i,
        {
            let client = this.insertion_order[i];
            proof {
                assert(l.accounts.contains_key(l.order[i as int]));
                assert(m0.contains_key(client));
                assert(!l.order.take(i as int).contains(client)) by {
                    if l.order.take(i as int).contains(client) {
                        let j = choose|j: int| 0 <= j < i && (#[trigger] l.order.take(i as int)[j]) == client;
                        assert(l.order[j] == l.order[i as int]);
                        assert(false);
                    }
                }
                assert(this.state_for_client@.contains_key(client));
            }
            let ghost m_before = this.state_for_client@;
            let state = match this.state_for_client.remove(&client) {
                Some(s) => s,
                None => {
                    proof {
                        assert(false);
                    }
                    ClientState::new(client, 0, 0, false)
                },
            };
            proof {
                assert(this.state_for_client@ == m_before.remove(client));
                assert(state == m_before[client]);
                assert(state@ == l.accounts[l.order[i as int]]);
            }
            out.push(state);
            i = i + 1;
            proof {
                assert(l.order.take(i as int) =~= l.order.take(i as int - 1).push(client));
                assert forall|c: ClientId| this.state_for_client@.contains_key(c) <==> (
                    m0.contains_key(c) && !l.order.take(i as int).contains(c)) by {
                    let taken = l.order.take(i as int);
                    let taken_before = l.order.take(i as int - 1);
                    if this.state_for_client@.contains_key(c) {
                        assert(c != client);
                        assert(m_before.contains_key(c));
                        assert(!taken_before.contains(c));
                        assert(!taken.contains(c)) by {
                            if taken.contains(c) {
                                let j = choose|j: int| 0 <= j < taken.len()
                                    && (#[trigger] taken[j]) == c;
                                assert(j < i - 1 ==> taken_before[j] == c);
                            }
                        }
                    }
                    if m0.contains_key(c) && !taken.contains(c) {
                        assert(taken[i - 1] == client);
                        assert(c != client);
                        assert(!taken_before.contains(c)) by {
                            if taken_before.contains(c) {
                                let j = choose|j: int|
                                    0 <= j < i - 1 && (#[trigger] taken_before[j]) == c;
                                assert(taken[j] == c);
                            }
                        }
                        assert(m_before.contains_key(c));
                        assert(this.state_for_client@.contains_key(c));
                    }
                }
            }
        }
        proof {
            assert(out@.map_values(|s: ClientState| s@) =~= lane_states(l));
        }
        out
    }
}


/// The lane that handles a client: a pure function of the account
/// identifier and the lane count alone, so a given account is always
/// routed to the same lane.
pub open spec fn lane_of(client: ClientId, num_workers: int) -> int {
    client as int % num_workers
}

/// Computes the lane for a client.
pub fn lane_for(client: ClientId, num_workers: usize) -> (r: usize)
    requires
        num_workers >= 1,
    ensures
        r == lane_of(client, num_workers as int),
{
    (client as usize) % num_workers
}

/// A manager is well formed when every lane is well formed and owns
/// exactly the clients that the routing function sends to it.
pub open spec fn manager_wf(lanes: Seq<LaneView>) -> bool {
    &&& 1 <= lanes.len() < 65535
    &&& (forall|i: int| 0 <= i < lanes.len() ==> lane_wf(#[trigger] lanes[i]))
    &&& (forall|i: int, c: ClientId|
        0 <= i < lanes.len() && (#[trigger] lanes[i].accounts.contains_key(c))
            ==> lane_of(c, lanes.len() as int) == i)
}

/// The states every lane reports once the manager is drained: lane by
/// lane in routing order, each lane in first-appearance order.
pub open spec fn collect_states_spec(lanes: Seq<LaneView>) -> Seq<AccountView>
    decreases lanes.len(),
{
    if lanes.len() == 0 {
        Seq::empty()
    } else {
        lane_states(lanes[0]) + collect_states_spec(lanes.drop_first())
    }
}

/// AccountManager manages the state of each account and gives APIs
/// for sending transactions through it. The work is fanned out over a
/// fixed set of lanes; every transaction for a given account lands in
/// the same lane, so its transactions apply in submission order while
/// different accounts proceed independently.
pub struct AccountManager {
    pub workers: Vec<Worker>,
}

impl View for AccountManager {
    type V = Seq<LaneView>;

    open spec fn view(&self) -> Seq<LaneView> {
        self.workers@.map_values(|w: Worker| w@)
    }
}

impl AccountManager {
    /// Construct a new AccountManager.
    ///
    /// `num_workers` is the number of lanes the transactions are
    /// fanned out over; it must be at least 1 and below the number of
    /// distinct client identifiers.
    pub fn new(num_workers: usize) -> (r: AccountManager)
        requires
            1 <= num_workers < 65535,
        ensures
            manager_wf(r@),
            r@.len() == num_workers,
            forall|i: int| 0 <= i < num_workers ==> r@[i] == empty_lane(),
    {
        let mut workers: Vec<Worker> = Vec::with_capacity(num_workers);
        while workers.len() < num_workers
            invariant
                workers@.len() <= num_workers,
                forall|j: int| 0 <= j < workers@.len() ==> (#[trigger] workers@[j])@ == empty_lane(),
            decreases num_workers - workers.len(),
        {
            workers.push(Worker::new());
        }
        let r = AccountManager { workers };
        proof {
            assert(forall|i: int| 0 <= i < num_workers ==> r@[i] == (#[trigger] r.workers@[i])@);
            assert(manager_wf(r@)) by {
                assert(forall|i: int| 0 <= i < r@.len() ==> lane_wf(#[trigger] r@[i]));
            }
        }
        r
    }

    /// Routes a transaction to the lane owning its account and applies
    /// it there; every other lane is left exactly as it was.
    pub fn process_transaction(&mut self, transaction: Transaction) -> (r: Result<(), Error>)
        requires
            manager_wf(old(self)@),
        ensures
            manager_wf(final(self)@),
            final(self)@.len() == old(self)@.len(),
            ({
                let lane = lane_of(transaction.client, old(self)@.len() as int);
                let stepped = lane_apply(old(self)@[lane], transaction);
                &&& final(self)@ == old(self)@.update(lane, stepped.0)
                &&& reports(stepped.1, r)
            }),
    {
        let lane = lane_for(transaction.client, self.workers.len());
        let mut worker = self.workers.remove(lane);
        proof {
            assert(worker@ == old(self)@[lane as int]);
            assert(lane_wf(old(self)@[lane as int]));
        }
        let r = worker.process(transaction);
        self.workers.insert(lane, worker);
        proof {
            let lanes0 = old(self)@;
            let lane_i = lane as int;
            let stepped = lane_apply(lanes0[lane_i], transaction);
            assert(self.workers@ =~= old(self).workers@.update(lane_i, worker));
            assert(self@ =~= lanes0.update(lane_i, stepped.0));
            assert(manager_wf(self@)) by {
                assert forall|i: int, c: ClientId|
                    0 <= i < self@.len() && (#[trigger] self@[i].accounts.contains_key(c))
                        implies lane_of(c, self@.len() as int) == i by {
                    if i == lane_i {
                        if c != transaction.client {
                            assert(lanes0[i].accounts.contains_key(c));
                        }
                    } else {
                        assert(lanes0[i].accounts.contains_key(c));
                    }
                }
            }
        }
        r
    }

    /// Closes all the workers and returns every client state: lane by
    /// lane in routing order, each lane in first-appearance order.
    pub fn collect_account_states(self) -> (out: VecDeque<ClientState>)
        requires
            manager_wf(self@),
        ensures
            out@.map_values(|s: ClientState| s@) == collect_states_spec(self@),
    {
        let mut this = self;
        let ghost lanes0 = this@;
        let mut out: VecDeque<ClientState> = VecDeque::new();
        while this.workers.len() > 0
            invariant
                forall|i: int| 0 <= i < this@.len() ==> lane_wf(#[trigger] this@[i]),
                out@.map_values(|s: ClientState| s@) + collect_states_spec(this@)
                    == collect_states_spec(lanes0),
            decreases this.workers.len(),
        {
            let ghost lanes_pre = this@;
            let worker = this.workers.remove(0);
            proof {
                assert(worker@ == lanes_pre[0]);
                assert(this@ =~= lanes_pre.drop_first());
            }
            let mut states = worker.collect_states();
            while states.len() > 0
                invariant
                    out@.map_values(|s: ClientState| s@) + states@.map_values(
                        |s: ClientState| s@,
                    ) + collect_states_spec(this@) == collect_states_spec(lanes0),
                decreases states.len(),
            {
                let ghost out_pre = out@;
                let ghost states_pre = states@;
                let state = states.remove(0);
                out.push_back(state);
                proof {
                    assert(out@.map_values(|s: ClientState| s@) =~= out_pre.map_values(
                        |s: ClientState| s@,
                    ) + seq![state@]);
                    assert(states_pre.map_values(|s: ClientState| s@) =~= seq![state@]
                        + states@.map_values(|s: ClientState| s@));
                    assert(out@.map_values(|s: ClientState| s@) + states@.map_values(
                        |s: ClientState| s@,
                    ) =~= out_pre.map_values(|s: ClientState| s@) + states_pre.map_values(
                        |s: ClientState| s@,
                    ));
                }
            }
            proof {
                assert(states@.map_values(|s: ClientState| s@) =~= Seq::<AccountView>::empty());
            }
        }
        proof {
            assert(collect_states_spec(this@) == Seq::<AccountView>::empty());
            assert(out@.map_values(|s: ClientState| s@) =~= out@.map_values(
                |s: ClientState| s@,
            ) + Seq::<AccountView>::empty());
        }
        out
    }
}


/// Every account a well-formed set of lanes reports is well formed.
pub proof fn lemma_collect_states_wf(lanes: Seq<LaneView>)
    requires
        forall|i: int| 0 <= i < lanes.len() ==> lane_wf(#[trigger] lanes[i]),
    ensures
        forall|j: int|
            0 <= j < collect_states_spec(lanes).len() ==> (#[trigger] collect_states_spec(
                lanes,
            )[j]).wf(),
    decreases lanes.len(),
{
    if lanes.len() > 0 {
        assert(forall|i: int|
            0 <= i < lanes.drop_first().len() ==> lane_wf(#[trigger] lanes.drop_first()[i]));
        lemma_collect_states_wf(lanes.drop_first());
        assert forall|j: int|
            0 <= j < collect_states_spec(lanes).len() implies (#[trigger] collect_states_spec(
            lanes,
        )[j]).wf() by {
            let head = lane_states(lanes[0]);
            if j < head.len() {
                assert(collect_states_spec(lanes)[j] == head[j]);
                assert(head[j] == lanes[0].accounts[lanes[0].order[j]]);
                assert(lanes[0].accounts.contains_key(lanes[0].order[j]));
            } else {
                assert(collect_states_spec(lanes)[j] == collect_states_spec(lanes.drop_first())[j
                    - head.len()]);
            }
        }
    }
}

} // verus!
