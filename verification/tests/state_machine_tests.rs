use account_balance_calculator::account_manager::ClientState;
use account_balance_calculator::common::{EntryState, Transaction, TransactionType};
use account_balance_calculator::error::{Error, ErrorKind};

fn tx(
    transaction_type: TransactionType,
    client: u16,
    tx: u32,
    amount: Option<u64>,
) -> Transaction {
    Transaction { transaction_type, client, tx, amount }
}

#[test]
fn deposit_without_amount_is_amount_missing_test() {
    let mut state = ClientState::new(1, 0, 0, false);
    let err = state.deposit(tx(TransactionType::Deposit, 1, 1, None)).unwrap_err();
    assert_eq!(err.kind, ErrorKind::AmountMissing);
    assert_eq!(state, ClientState::new(1, 0, 0, false));
}

#[test]
fn withdrawal_without_amount_is_amount_missing_test() {
    let mut state = ClientState::new(1, 10000, 0, false);
    let err = state.withdrawal(tx(TransactionType::Withdrawal, 1, 1, None)).unwrap_err();
    assert_eq!(err.kind, ErrorKind::AmountMissing);
}

#[test]
fn duplicate_transaction_id_error_test() {
    let mut state = ClientState::new(1, 0, 0, false);
    state.deposit(tx(TransactionType::Deposit, 1, 7, Some(10000))).unwrap();
    let err = state.deposit(tx(TransactionType::Deposit, 1, 7, Some(10000))).unwrap_err();
    assert_eq!(err.kind, ErrorKind::DuplicateTransactionId);
    let err = state.withdrawal(tx(TransactionType::Withdrawal, 1, 7, Some(10000))).unwrap_err();
    assert_eq!(err.kind, ErrorKind::DuplicateTransactionId);
}

#[test]
fn locked_account_rejects_withdrawal_test() {
    let mut state = ClientState::new(1, 10000, 0, true);
    let err = state.withdrawal(tx(TransactionType::Withdrawal, 1, 1, Some(5000))).unwrap_err();
    assert_eq!(err.kind, ErrorKind::AccountLocked);
    // The same account still accepts a deposit.
    state.deposit(tx(TransactionType::Deposit, 1, 2, Some(5000))).unwrap();
    assert_eq!(state, ClientState::new(1, 15000, 0, true));
}

#[test]
fn exact_balance_withdrawal_is_rejected_test() {
    // The available balance must strictly exceed the amount.
    let mut state = ClientState::new(1, 0, 0, false);
    state.deposit(tx(TransactionType::Deposit, 1, 1, Some(10000))).unwrap();
    let err = state.withdrawal(tx(TransactionType::Withdrawal, 1, 2, Some(10000))).unwrap_err();
    assert_eq!(err.kind, ErrorKind::InsufficientAvailable);
    assert_eq!(state, ClientState::new(1, 10000, 0, false));
}

#[test]
fn dispute_with_insufficient_available_is_rejected_test() {
    let mut state = ClientState::new(1, 0, 0, false);
    state.deposit(tx(TransactionType::Deposit, 1, 1, Some(10000))).unwrap();
    state.withdrawal(tx(TransactionType::Withdrawal, 1, 2, Some(9000))).unwrap();
    // Only 0.1 is left available, so the 1.0 deposit cannot be held.
    let err = state.dispute(tx(TransactionType::Dispute, 1, 1, None)).unwrap_err();
    assert_eq!(err.kind, ErrorKind::InsufficientAvailable);
    assert_eq!(state, ClientState::new(1, 1000, 0, false));
}

#[test]
fn dispute_on_unknown_id_is_not_found_test() {
    let mut state = ClientState::new(1, 0, 0, false);
    let err = state.dispute(tx(TransactionType::Dispute, 1, 9, None)).unwrap_err();
    assert_eq!(err.kind, ErrorKind::TransactionNotFound);
    let err = state.resolve(tx(TransactionType::Resolve, 1, 9, None)).unwrap_err();
    assert_eq!(err.kind, ErrorKind::TransactionNotFound);
    let err = state.chargeback(tx(TransactionType::Chargeback, 1, 9, None)).unwrap_err();
    assert_eq!(err.kind, ErrorKind::TransactionNotFound);
}

#[test]
fn dispute_on_withdrawal_is_rejected_test() {
    let mut state = ClientState::new(1, 0, 0, false);
    state.deposit(tx(TransactionType::Deposit, 1, 1, Some(20000))).unwrap();
    state.withdrawal(tx(TransactionType::Withdrawal, 1, 2, Some(10000))).unwrap();
    let err = state.dispute(tx(TransactionType::Dispute, 1, 2, None)).unwrap_err();
    assert!(matches!(
        err.kind,
        ErrorKind::InvalidLifecycleTransition {
            attempted: TransactionType::Dispute,
            actual: EntryState::Withdrawn,
        }
    ));
    assert_eq!(state, ClientState::new(1, 10000, 0, false));
}

#[test]
fn double_dispute_is_rejected_test() {
    let mut state = ClientState::new(1, 0, 0, false);
    state.deposit(tx(TransactionType::Deposit, 1, 1, Some(10000))).unwrap();
    state.dispute(tx(TransactionType::Dispute, 1, 1, None)).unwrap();
    let err = state.dispute(tx(TransactionType::Dispute, 1, 1, None)).unwrap_err();
    assert!(matches!(
        err.kind,
        ErrorKind::InvalidLifecycleTransition {
            attempted: TransactionType::Dispute,
            actual: EntryState::Disputed,
        }
    ));
}

#[test]
fn resolve_of_undisputed_entry_is_rejected_test() {
    let mut state = ClientState::new(1, 0, 0, false);
    state.deposit(tx(TransactionType::Deposit, 1, 1, Some(10000))).unwrap();
    let err = state.resolve(tx(TransactionType::Resolve, 1, 1, None)).unwrap_err();
    assert!(matches!(
        err.kind,
        ErrorKind::InvalidLifecycleTransition {
            attempted: TransactionType::Resolve,
            actual: EntryState::Posted,
        }
    ));
}

#[test]
fn chargebacked_entry_is_terminal_test() {
    let mut state = ClientState::new(1, 0, 0, false);
    state.deposit(tx(TransactionType::Deposit, 1, 1, Some(10000))).unwrap();
    state.dispute(tx(TransactionType::Dispute, 1, 1, None)).unwrap();
    state.chargeback(tx(TransactionType::Chargeback, 1, 1, None)).unwrap();
    for _ in 0..2 {
        let err = state.dispute(tx(TransactionType::Dispute, 1, 1, None)).unwrap_err();
        assert!(matches!(
            err.kind,
            ErrorKind::InvalidLifecycleTransition { actual: EntryState::Chargebacked, .. }
        ));
        let err = state.resolve(tx(TransactionType::Resolve, 1, 1, None)).unwrap_err();
        assert!(matches!(
            err.kind,
            ErrorKind::InvalidLifecycleTransition { actual: EntryState::Chargebacked, .. }
        ));
        let err = state.chargeback(tx(TransactionType::Chargeback, 1, 1, None)).unwrap_err();
        assert!(matches!(
            err.kind,
            ErrorKind::InvalidLifecycleTransition { actual: EntryState::Chargebacked, .. }
        ));
    }
    assert_eq!(state, ClientState::new(1, 0, 0, true));
}

#[test]
fn resolve_then_redispute_restores_disputed_state_test() {
    let mut state = ClientState::new(1, 0, 0, false);
    state.deposit(tx(TransactionType::Deposit, 1, 1, Some(10000))).unwrap();
    state.dispute(tx(TransactionType::Dispute, 1, 1, None)).unwrap();
    let disputed = ClientState::new(1, 0, 10000, false);
    assert_eq!(state, disputed);
    state.resolve(tx(TransactionType::Resolve, 1, 1, None)).unwrap();
    state.dispute(tx(TransactionType::Dispute, 1, 1, None)).unwrap();
    assert_eq!(state, disputed);
}

#[test]
fn deposit_overflowing_the_total_is_rejected_test() {
    let mut state = ClientState::new(1, 0, 0, false);
    state.deposit(tx(TransactionType::Deposit, 1, 1, Some(u64::MAX))).unwrap();
    let err = state.deposit(tx(TransactionType::Deposit, 1, 2, Some(1))).unwrap_err();
    assert_eq!(err.kind, ErrorKind::NumericOverflow);
    assert_eq!(state, ClientState::new(1, u64::MAX, 0, false));
}

#[test]
fn error_new_keeps_kind_and_message_test() {
    let err = Error::new(ErrorKind::TransactionNotFound, "missing");
    assert_eq!(err.kind, ErrorKind::TransactionNotFound);
    assert_eq!(err.messages, vec!["missing".to_string()]);
    let err = Error::new(ErrorKind::AccountLocked, "");
    assert!(err.messages.is_empty());
}
