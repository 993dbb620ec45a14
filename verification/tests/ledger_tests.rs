use payments_engine::account::ClientAccount;
use payments_engine::ledger::ClientState;
use payments_engine::transaction::{AMOUNT_SCALE, Transaction, TransactionType};

fn deposit(client: u16, tx: u32, whole_units: i64) -> Transaction {
    Transaction {
        tx_type: TransactionType::Deposit,
        client,
        tx,
        amount: Some(whole_units * AMOUNT_SCALE),
    }
}

fn withdrawal(client: u16, tx: u32, whole_units: i64) -> Transaction {
    Transaction {
        tx_type: TransactionType::Withdrawal,
        client,
        tx,
        amount: Some(whole_units * AMOUNT_SCALE),
    }
}

fn action(tx_type: TransactionType, client: u16, tx: u32) -> Transaction {
    Transaction { tx_type, client, tx, amount: None }
}

fn units(whole_units: i64) -> i128 {
    (whole_units * AMOUNT_SCALE) as i128
}

#[test]
fn test_new_account() {
    let account = ClientAccount::new(1);
    assert_eq!(account.client, 1);
    assert_eq!(account.available, 0);
    assert_eq!(account.total, 0);
    assert!(!account.locked);
}

#[test]
fn test_requires_amount() {
    let deposit = Transaction {
        tx_type: TransactionType::Deposit,
        client: 1,
        tx: 1,
        amount: Some(100 * AMOUNT_SCALE),
    };
    assert!(deposit.requires_amount());

    let dispute = Transaction {
        tx_type: TransactionType::Dispute,
        client: 1,
        tx: 1,
        amount: None,
    };
    assert!(!dispute.requires_amount());
}

#[test]
fn test_is_valid() {
    let valid = Transaction {
        tx_type: TransactionType::Deposit,
        client: 1,
        tx: 1,
        amount: Some(100 * AMOUNT_SCALE),
    };
    assert!(valid.is_valid());

    let invalid = Transaction {
        tx_type: TransactionType::Deposit,
        client: 1,
        tx: 1,
        amount: Some(0),
    };
    assert!(!invalid.is_valid());
}

#[test]
fn test_is_valid_rejects_amount_on_dispute_actions() {
    let dispute_with_amount = Transaction {
        tx_type: TransactionType::Dispute,
        client: 1,
        tx: 1,
        amount: Some(AMOUNT_SCALE),
    };
    assert!(!dispute_with_amount.is_valid());

    let bare_dispute = Transaction {
        tx_type: TransactionType::Dispute,
        client: 1,
        tx: 1,
        amount: None,
    };
    assert!(bare_dispute.is_valid());

    let negative = Transaction {
        tx_type: TransactionType::Withdrawal,
        client: 1,
        tx: 1,
        amount: Some(-AMOUNT_SCALE),
    };
    assert!(!negative.is_valid());
}

#[test]
fn test_deposit_scenario() {
    let mut state = ClientState::new(1);
    state.apply(deposit(1, 1, 100));
    assert_eq!(state.account.available, units(100));
    assert_eq!(state.account.held, 0);
    assert_eq!(state.account.total, units(100));
    assert!(!state.account.locked);
}

#[test]
fn test_deposit_then_withdrawal_scenario() {
    let mut state = ClientState::new(1);
    state.apply(deposit(1, 1, 100));
    state.apply(withdrawal(1, 2, 30));
    assert_eq!(state.account.available, units(70));
    assert_eq!(state.account.total, units(70));
}

#[test]
fn test_dispute_scenario() {
    let mut state = ClientState::new(1);
    state.apply(deposit(1, 1, 100));
    state.apply(action(TransactionType::Dispute, 1, 1));
    assert_eq!(state.account.available, 0);
    assert_eq!(state.account.held, units(100));
    assert_eq!(state.account.total, units(100));
}

#[test]
fn test_resolve_scenario() {
    let mut state = ClientState::new(1);
    state.apply(deposit(1, 1, 100));
    state.apply(action(TransactionType::Dispute, 1, 1));
    state.apply(action(TransactionType::Resolve, 1, 1));
    assert_eq!(state.account.available, units(100));
    assert_eq!(state.account.held, 0);
    assert_eq!(state.account.total, units(100));
}

#[test]
fn test_chargeback_scenario() {
    let mut state = ClientState::new(1);
    state.apply(deposit(1, 1, 100));
    state.apply(action(TransactionType::Dispute, 1, 1));
    state.apply(action(TransactionType::Chargeback, 1, 1));
    assert_eq!(state.account.available, 0);
    assert_eq!(state.account.held, 0);
    assert_eq!(state.account.total, 0);
    assert!(state.account.locked);

    state.apply(deposit(1, 3, 50));
    assert_eq!(state.account.available, 0);
    assert_eq!(state.account.total, 0);
}

#[test]
fn test_withdrawal_without_funds_is_noop() {
    let mut state = ClientState::new(1);
    state.apply(withdrawal(1, 1, 50));
    assert_eq!(state.account.available, 0);
    assert_eq!(state.account.held, 0);
    assert_eq!(state.account.total, 0);
    assert!(!state.account.locked);
}

#[test]
fn test_second_dispute_is_noop() {
    let mut state = ClientState::new(1);
    state.apply(deposit(1, 1, 100));
    state.apply(action(TransactionType::Dispute, 1, 1));
    state.apply(action(TransactionType::Dispute, 1, 1));
    assert_eq!(state.account.available, 0);
    assert_eq!(state.account.held, units(100));
    assert_eq!(state.account.total, units(100));
}

#[test]
fn test_dispute_unknown_tx_is_noop() {
    let mut state = ClientState::new(1);
    state.apply(deposit(1, 1, 100));
    state.apply(action(TransactionType::Dispute, 1, 99));
    assert_eq!(state.account.available, units(100));
    assert_eq!(state.account.held, 0);
}

#[test]
fn test_resolve_undisputed_is_noop() {
    let mut state = ClientState::new(1);
    state.apply(deposit(1, 1, 100));
    state.apply(action(TransactionType::Resolve, 1, 1));
    state.apply(action(TransactionType::Chargeback, 1, 1));
    assert_eq!(state.account.available, units(100));
    assert_eq!(state.account.held, 0);
    assert!(!state.account.locked);
}

#[test]
fn test_withdrawal_dispute_lifecycle() {
    let mut state = ClientState::new(1);
    state.apply(deposit(1, 1, 100));
    state.apply(withdrawal(1, 2, 30));
    state.apply(action(TransactionType::Dispute, 1, 2));
    assert_eq!(state.account.available, units(70));
    assert_eq!(state.account.held, units(30));
    assert_eq!(state.account.total, units(100));

    state.apply(action(TransactionType::Resolve, 1, 2));
    assert_eq!(state.account.available, units(70));
    assert_eq!(state.account.held, 0);
    assert_eq!(state.account.total, units(70));
}

#[test]
fn test_withdrawal_chargeback_refunds() {
    let mut state = ClientState::new(1);
    state.apply(deposit(1, 1, 100));
    state.apply(withdrawal(1, 2, 30));
    state.apply(action(TransactionType::Dispute, 1, 2));
    state.apply(action(TransactionType::Chargeback, 1, 2));
    assert_eq!(state.account.available, units(100));
    assert_eq!(state.account.held, 0);
    assert_eq!(state.account.total, units(100));
    assert!(state.account.locked);
}

#[test]
fn test_adversarial_dispute_goes_negative() {
    let mut state = ClientState::new(1);
    state.apply(deposit(1, 1, 100));
    state.apply(withdrawal(1, 2, 60));
    state.apply(action(TransactionType::Dispute, 1, 1));
    assert_eq!(state.account.available, units(-60));
    assert_eq!(state.account.held, units(100));
    assert_eq!(state.account.total, units(40));
    assert_eq!(
        state.account.total,
        state.account.available + state.account.held
    );
}

#[test]
fn test_dispute_actions_allowed_on_locked_account() {
    let mut state = ClientState::new(1);
    state.apply(deposit(1, 1, 100));
    state.apply(deposit(1, 2, 40));
    state.apply(action(TransactionType::Dispute, 1, 1));
    state.apply(action(TransactionType::Chargeback, 1, 1));
    assert!(state.account.locked);

    state.apply(action(TransactionType::Dispute, 1, 2));
    assert_eq!(state.account.available, 0);
    assert_eq!(state.account.held, units(40));
    assert_eq!(state.account.total, units(40));
}

#[test]
fn test_deposit_without_amount_is_noop() {
    let mut state = ClientState::new(1);
    let bare = Transaction {
        tx_type: TransactionType::Deposit,
        client: 1,
        tx: 1,
        amount: None,
    };
    state.apply(bare);
    assert_eq!(state.account.available, 0);
    assert_eq!(state.account.total, 0);
}

#[test]
fn test_transaction_id_at_max() {
    let mut state = ClientState::new(1);
    state.apply(deposit(1, u32::MAX, 100));
    state.apply(action(TransactionType::Dispute, 1, u32::MAX));
    assert_eq!(state.account.held, units(100));
}

#[test]
fn test_fractional_amounts_are_exact() {
    let mut state = ClientState::new(1);
    let tiny = Transaction {
        tx_type: TransactionType::Deposit,
        client: 1,
        tx: 1,
        amount: Some(12_346),
    };
    state.apply(tiny);
    assert_eq!(state.account.available, 12_346);
    assert_eq!(state.account.total, 12_346);
}
