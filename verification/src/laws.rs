use vstd::prelude::*;

use crate::account_manager::{
    apply_spec, deposit_spec, dispute_spec, lane_apply, lane_of, AccountView, LaneView,
};
use crate::common::{ClientId, EntryState, Transaction, TransactionType, TxId};
use crate::error::ErrorKind;

verus! {

/// The state after one transaction: changed on success, untouched on
/// rejection.
pub open spec fn apply_step(s: AccountView, t: Transaction) -> AccountView {
    match apply_spec(s, t) {
        Ok(v) => v,
        Err(_) => s,
    }
}

/// The state after a whole sequence of transactions, applied in order.
pub open spec fn apply_all(s: AccountView, ts: Seq<Transaction>) -> AccountView
    decreases ts.len(),
{
    if ts.len() == 0 {
        s
    } else {
        apply_all(apply_step(s, ts[0]), ts.drop_first())
    }
}

/// One transaction keeps an account well formed.
pub proof fn lemma_step_preserves_wf(s: AccountView, t: Transaction)
    requires
        s.wf(),
    ensures
        apply_step(s, t).wf(),
{
}

/// A whole sequence of transactions keeps an account well formed.
pub proof fn lemma_apply_all_preserves_wf(s: AccountView, ts: Seq<Transaction>)
    requires
        s.wf(),
    ensures
        apply_all(s, ts).wf(),
    decreases ts.len(),
{
    if ts.len() > 0 {
        lemma_step_preserves_wf(s, ts[0]);
        lemma_apply_all_preserves_wf(apply_step(s, ts[0]), ts.drop_first());
    }
}

/// Balances never go negative: every state reachable from a fresh
/// account is well formed, and the available and held balances, being
/// unsigned, are nonnegative after every applied operation.
pub proof fn lemma_balances_nonnegative(client: ClientId, ts: Seq<Transaction>)
    ensures
        apply_all(AccountView::fresh(client), ts).wf(),
        apply_all(AccountView::fresh(client), ts).available >= 0,
        apply_all(AccountView::fresh(client), ts).held >= 0,
{
    lemma_apply_all_preserves_wf(AccountView::fresh(client), ts);
}

/// Resubmitting an already-accepted transaction id is rejected as a
/// duplicate and leaves the account untouched. (A withdrawal against
/// a locked account is rejected for the lock before the id is even
/// examined, so the lock is excluded here.)
pub proof fn lemma_duplicate_id_rejected(s: AccountView, t: Transaction)
    requires
        s.ledger.contains_key(t.tx),
        t.transaction_type == TransactionType::Deposit || (t.transaction_type
            == TransactionType::Withdrawal && !s.locked),
    ensures
        apply_spec(s, t) == Err::<AccountView, ErrorKind>(ErrorKind::DuplicateTransactionId),
        apply_step(s, t) == s,
{
}

/// A Dispute on a withdrawal's id always fails, and a Dispute on an
/// unknown id always fails with TransactionNotFound; neither changes
/// the account.
pub proof fn lemma_dispute_rejections(s: AccountView, t: Transaction)
    requires
        t.transaction_type == TransactionType::Dispute,
    ensures
        !s.ledger.contains_key(t.tx) ==> apply_spec(s, t) == Err::<AccountView, ErrorKind>(
            ErrorKind::TransactionNotFound,
        ),
        s.ledger.contains_key(t.tx) && s.ledger[t.tx].state == EntryState::Withdrawn
            ==> apply_spec(s, t) == Err::<AccountView, ErrorKind>(
            ErrorKind::InvalidLifecycleTransition {
                attempted: TransactionType::Dispute,
                actual: EntryState::Withdrawn,
            },
        ),
        apply_spec(s, t) is Err ==> apply_step(s, t) == s,
{
}

/// Resolve followed by a new Dispute of the same id is legal and
/// returns the account to exactly the state of the first dispute.
pub proof fn lemma_resolve_then_redispute(s: AccountView, t_res: Transaction, t_disp: Transaction)
    requires
        s.wf(),
        t_res.transaction_type == TransactionType::Resolve,
        t_disp.transaction_type == TransactionType::Dispute,
        t_disp.tx == t_res.tx,
        apply_spec(s, t_res) is Ok,
    ensures
        apply_spec(apply_spec(s, t_res)->Ok_0, t_disp) == Ok::<AccountView, ErrorKind>(s),
{
    let s1 = apply_spec(s, t_res)->Ok_0;
    assert(dispute_spec(s1, t_disp)->Ok_0 =~= s);
}

/// A lock and a Chargebacked entry survive one further transaction.
pub proof fn lemma_chargebacked_step(s: AccountView, t: Transaction, id: TxId)
    requires
        s.locked,
        s.ledger.contains_key(id),
        s.ledger[id].state == EntryState::Chargebacked,
    ensures
        apply_step(s, t).locked,
        apply_step(s, t).ledger.contains_key(id),
        apply_step(s, t).ledger[id].state == EntryState::Chargebacked,
{
}

/// A lock and a Chargebacked entry survive every further sequence of
/// transactions: the lock is permanent and the entry can never leave
/// its terminal state.
pub proof fn lemma_chargebacked_entry_stays(s: AccountView, ts: Seq<Transaction>, id: TxId)
    requires
        s.locked,
        s.ledger.contains_key(id),
        s.ledger[id].state == EntryState::Chargebacked,
    ensures
        apply_all(s, ts).locked,
        apply_all(s, ts).ledger.contains_key(id),
        apply_all(s, ts).ledger[id].state == EntryState::Chargebacked,
    decreases ts.len(),
{
    if ts.len() > 0 {
        lemma_chargebacked_step(s, ts[0], id);
        lemma_chargebacked_entry_stays(apply_step(s, ts[0]), ts.drop_first(), id);
    }
}

/// Any Dispute, Resolve or Chargeback that references a Chargebacked
/// entry is rejected for its terminal lifecycle state.
pub proof fn lemma_chargebacked_reference_rejected(s: AccountView, t: Transaction)
    requires
        s.ledger.contains_key(t.tx),
        s.ledger[t.tx].state == EntryState::Chargebacked,
        t.transaction_type == TransactionType::Dispute || t.transaction_type
            == TransactionType::Resolve || t.transaction_type == TransactionType::Chargeback,
    ensures
        apply_spec(s, t) == Err::<AccountView, ErrorKind>(
            ErrorKind::InvalidLifecycleTransition {
                attempted: t.transaction_type,
                actual: EntryState::Chargebacked,
            },
        ),
        apply_step(s, t) == s,
{
}

/// Chargeback is terminal: a successful Chargeback leaves the entry
/// Chargebacked and the account locked, and both facts survive any
/// further sequence of transactions.
pub proof fn lemma_chargeback_terminal(s: AccountView, t: Transaction, ts: Seq<Transaction>)
    requires
        t.transaction_type == TransactionType::Chargeback,
        apply_spec(s, t) is Ok,
    ensures
        ({
            let s1 = apply_spec(s, t)->Ok_0;
            let after = apply_all(s1, ts);
            &&& s1.locked
            &&& s1.ledger[t.tx].state == EntryState::Chargebacked
            &&& after.locked
            &&& after.ledger.contains_key(t.tx)
            &&& after.ledger[t.tx].state == EntryState::Chargebacked
        }),
{
    let s1 = apply_spec(s, t)->Ok_0;
    lemma_chargebacked_entry_stays(s1, ts, t.tx);
}

/// A locked account rejects every Withdrawal but accepts a Deposit
/// exactly as the same account without the lock would, keeping the
/// lock in place.
pub proof fn lemma_locked_account(s: AccountView, t: Transaction)
    requires
        s.locked,
    ensures
        t.transaction_type == TransactionType::Withdrawal ==> apply_spec(s, t) == Err::<
            AccountView,
            ErrorKind,
        >(ErrorKind::AccountLocked),
        t.transaction_type == TransactionType::Deposit ==> (match (
            apply_spec(s, t),
            deposit_spec(AccountView { locked: false, ..s }, t),
        ) {
            (Ok(locked_result), Ok(unlocked_result)) => locked_result == (AccountView {
                locked: true,
                ..unlocked_result
            }),
            (Err(while_locked), Err(while_unlocked)) => while_locked == while_unlocked,
            _ => false,
        }),
{
    if t.transaction_type == TransactionType::Deposit {
        let unlocked = AccountView { locked: false, ..s };
        match (deposit_spec(s, t), deposit_spec(unlocked, t)) {
            (Ok(a), Ok(b)) => {
                assert(a =~= AccountView { locked: true, ..b });
            },
            _ => {},
        }
    }
}


/// Sharding is deterministic and accounts are independent: a
/// transaction lands in the lane its account identifier routes to,
/// every other lane is untouched, and no other account's state
/// changes anywhere.
pub proof fn lemma_sharding_independence(lanes: Seq<LaneView>, t: Transaction, c: ClientId)
    requires
        lanes.len() >= 1,
        c != t.client,
    ensures
        ({
            let lane = lane_of(t.client, lanes.len() as int);
            let stepped = lanes.update(lane, lane_apply(lanes[lane], t).0);
            &&& 0 <= lane < lanes.len()
            &&& stepped.len() == lanes.len()
            &&& (forall|i: int| 0 <= i < lanes.len() && i != lane ==> #[trigger] stepped[i] == lanes[i])
            &&& (forall|i: int|
                0 <= i < lanes.len() ==> (#[trigger] stepped[i]).accounts.contains_key(c)
                    == lanes[i].accounts.contains_key(c))
            &&& (forall|i: int|
                0 <= i < lanes.len() && lanes[i].accounts.contains_key(c)
                    ==> (#[trigger] stepped[i]).accounts[c] == lanes[i].accounts[c])
        }),
{
}

} // verus!
