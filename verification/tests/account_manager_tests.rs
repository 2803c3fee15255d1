use account_balance_calculator::account_manager::{AccountManager, ClientState};
use account_balance_calculator::common::{ClientId, Transaction, TransactionType, TxId};

const NUM_WORKERS: usize = 5;

fn tx(
    transaction_type: TransactionType,
    client: ClientId,
    tx: TxId,
    amount: Option<u64>,
) -> Transaction {
    Transaction { transaction_type, client, tx, amount }
}

#[test]
fn simple_deposit_test() {
    let mut account_manager = AccountManager::new(NUM_WORKERS);

    account_manager
        .process_transaction(tx(TransactionType::Deposit, 1, 1, Some(10000)))
        .unwrap();

    let account_states = account_manager.collect_account_states();

    assert_eq!(
        account_states[0],
        ClientState::new(
            1,     /* client */
            10000, /* available */
            0,     /* held */
            false, /* locked */
        )
    );
}

#[test]
fn simple_withdrawal_test() {
    let mut account_manager = AccountManager::new(NUM_WORKERS);

    account_manager
        .process_transaction(tx(TransactionType::Deposit, 1, 1, Some(20000)))
        .unwrap();
    account_manager
        .process_transaction(tx(TransactionType::Withdrawal, 1, 2, Some(10000)))
        .unwrap();

    let account_states = account_manager.collect_account_states();

    assert_eq!(
        account_states[0],
        ClientState::new(
            1,     /* client */
            10000, /* available */
            0,     /* held */
            false, /* locked */
        )
    );
}

#[test]
fn simple_dispute_test() {
    let mut account_manager = AccountManager::new(NUM_WORKERS);

    account_manager
        .process_transaction(tx(TransactionType::Deposit, 1, 1, Some(10000)))
        .unwrap();
    account_manager
        .process_transaction(tx(TransactionType::Dispute, 1, 1, None))
        .unwrap();

    let account_states = account_manager.collect_account_states();

    assert_eq!(
        account_states[0],
        ClientState::new(
            1,     /* client */
            0,     /* available */
            10000, /* held */
            false, /* locked */
        )
    );
}

#[test]
fn dispute_with_resolve_test() {
    let mut account_manager = AccountManager::new(NUM_WORKERS);

    account_manager
        .process_transaction(tx(TransactionType::Deposit, 1, 1, Some(10000)))
        .unwrap();
    account_manager
        .process_transaction(tx(TransactionType::Dispute, 1, 1, None))
        .unwrap();
    account_manager
        .process_transaction(tx(TransactionType::Resolve, 1, 1, None))
        .unwrap();

    let account_states = account_manager.collect_account_states();

    assert_eq!(
        account_states[0],
        ClientState::new(
            1,     /* client */
            10000, /* available */
            0,     /* held */
            false, /* locked */
        )
    );
}

#[test]
fn dispute_with_chargeback_test() {
    let mut account_manager = AccountManager::new(NUM_WORKERS);

    account_manager
        .process_transaction(tx(TransactionType::Deposit, 1, 1, Some(10000)))
        .unwrap();
    account_manager
        .process_transaction(tx(TransactionType::Dispute, 1, 1, None))
        .unwrap();
    account_manager
        .process_transaction(tx(TransactionType::Chargeback, 1, 1, None))
        .unwrap();

    let account_states = account_manager.collect_account_states();

    assert_eq!(
        account_states[0],
        ClientState::new(
            1,    /* client */
            0,    /* available */
            0,    /* held */
            true, /* locked */
        )
    );
}

#[test]
fn deposit_duplicate_tx_test() {
    let mut account_manager = AccountManager::new(NUM_WORKERS);

    account_manager
        .process_transaction(tx(TransactionType::Deposit, 1, 1, Some(10000)))
        .unwrap();
    // The duplicate is rejected and dropped; the run continues.
    let _ = account_manager.process_transaction(tx(TransactionType::Deposit, 1, 1, Some(10000)));

    let account_states = account_manager.collect_account_states();

    assert_eq!(
        account_states[0],
        ClientState::new(
            1,     /* client */
            10000, /* available */
            0,     /* held */
            false, /* locked */
        )
    );
}

#[test]
fn chargeback_prevents_withdrawals_test() {
    let mut account_manager = AccountManager::new(NUM_WORKERS);

    account_manager
        .process_transaction(tx(TransactionType::Deposit, 1, 1, Some(10000)))
        .unwrap();
    account_manager
        .process_transaction(tx(TransactionType::Deposit, 1, 2, Some(10000)))
        .unwrap();
    account_manager
        .process_transaction(tx(TransactionType::Dispute, 1, 1, None))
        .unwrap();
    account_manager
        .process_transaction(tx(TransactionType::Chargeback, 1, 1, None))
        .unwrap();

    let _ = account_manager.process_transaction(tx(TransactionType::Withdrawal, 1, 3, Some(10000)));

    let account_states = account_manager.collect_account_states();

    assert_eq!(
        account_states[0],
        ClientState::new(
            1,     /* client */
            10000, /* available */
            0,     /* held */
            true,  /* locked */
        )
    );
}

#[test]
fn allow_deposits_if_chargeback_test() {
    let mut account_manager = AccountManager::new(NUM_WORKERS);

    account_manager
        .process_transaction(tx(TransactionType::Deposit, 1, 1, Some(10000)))
        .unwrap();
    account_manager
        .process_transaction(tx(TransactionType::Deposit, 1, 2, Some(10000)))
        .unwrap();
    account_manager
        .process_transaction(tx(TransactionType::Dispute, 1, 1, None))
        .unwrap();
    account_manager
        .process_transaction(tx(TransactionType::Chargeback, 1, 1, None))
        .unwrap();

    account_manager
        .process_transaction(tx(TransactionType::Deposit, 1, 3, Some(10000)))
        .unwrap();

    let account_states = account_manager.collect_account_states();

    assert_eq!(
        account_states[0],
        ClientState::new(
            1,     /* client */
            20000, /* available */
            0,     /* held */
            true,  /* locked */
        )
    );
}

#[test]
fn not_enough_funds_for_withdrawal_test() {
    let mut account_manager = AccountManager::new(NUM_WORKERS);

    account_manager
        .process_transaction(tx(TransactionType::Deposit, 1, 1, Some(10000)))
        .unwrap();
    let _ = account_manager.process_transaction(tx(TransactionType::Withdrawal, 1, 2, Some(20000)));

    let account_states = account_manager.collect_account_states();

    assert_eq!(
        account_states[0],
        ClientState::new(
            1,     /* client */
            10000, /* available */
            0,     /* held */
            false, /* locked */
        )
    );
}

#[test]
fn dispute_with_resolve_can_be_disputed_again_test() {
    let mut account_manager = AccountManager::new(NUM_WORKERS);

    account_manager
        .process_transaction(tx(TransactionType::Deposit, 1, 1, Some(10000)))
        .unwrap();
    account_manager
        .process_transaction(tx(TransactionType::Dispute, 1, 1, None))
        .unwrap();
    account_manager
        .process_transaction(tx(TransactionType::Resolve, 1, 1, None))
        .unwrap();
    account_manager
        .process_transaction(tx(TransactionType::Dispute, 1, 1, None))
        .unwrap();

    let account_states = account_manager.collect_account_states();

    assert_eq!(
        account_states[0],
        ClientState::new(
            1,     /* client */
            0,     /* available */
            10000, /* held */
            false, /* locked */
        )
    );
}

#[test]
fn chargeback_does_not_allow_dispute_on_same_transaction_test() {
    let mut account_manager = AccountManager::new(NUM_WORKERS);

    account_manager
        .process_transaction(tx(TransactionType::Deposit, 1, 1, Some(10000)))
        .unwrap();
    account_manager
        .process_transaction(tx(TransactionType::Deposit, 1, 2, Some(10000)))
        .unwrap();
    account_manager
        .process_transaction(tx(TransactionType::Dispute, 1, 1, None))
        .unwrap();
    account_manager
        .process_transaction(tx(TransactionType::Chargeback, 1, 1, None))
        .unwrap();

    let _ = account_manager.process_transaction(tx(TransactionType::Dispute, 1, 1, Some(10000)));

    let account_states = account_manager.collect_account_states();

    assert_eq!(
        account_states[0],
        ClientState::new(
            1,     /* client */
            10000, /* available */
            0,     /* held */
            true,  /* locked */
        )
    );
}
