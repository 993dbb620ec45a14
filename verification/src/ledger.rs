//! The per-client transaction state machine.
//!
//! A [`ClientState`] pairs one account with the history of its accepted
//! deposits and withdrawals, and applies each incoming transaction through a
//! five-kind transition table. Every condition the table does not meet is a
//! silent no-op: the record "does not apply" and processing continues.

use std::collections::HashMap;

use vstd::prelude::*;

use crate::account::{AccountModel, ClientAccount, account_in_range, fresh_account};
use crate::transaction::{Transaction, TransactionType};

verus! {

broadcast use vstd::std_specs::hash::group_hash_axioms;

/// A deposit or withdrawal kept for later dispute handling.
#[derive(Debug, Clone, Copy)]
pub struct TransactionRecord {
    /// The original amount, in fixed-point ten-thousandths.
    pub amount: i64,
    /// Whether the record is currently under dispute.
    pub disputed: bool,
    /// Whether the record was a deposit (`false`: a withdrawal).
    pub is_deposit: bool,
}

/// Mathematical image of a [`ClientState`]: the account model plus the
/// history as a map from transaction id to its retained record.
#[verifier::ext_equal]
pub ghost struct LedgerModel {
    pub account: AccountModel,
    pub history: Map<u32, TransactionRecord>,
}

/// One client's ledger: its account and its transaction history.
#[derive(Debug)]
pub struct ClientState {
    pub account: ClientAccount,
    pub tx_history: HashMap<u32, TransactionRecord>,
}

impl View for ClientState {
    type V = LedgerModel;

    open spec fn view(&self) -> LedgerModel {
        LedgerModel { account: self.account@, history: self.tx_history@ }
    }
}

/// The ledger a client starts with: a fresh account and no history.
pub open spec fn fresh_ledger(client: u16) -> LedgerModel {
    LedgerModel { account: fresh_account(client), history: Map::empty() }
}

/// The amount a transaction carries, as an unbounded integer (0 when absent).
pub open spec fn tx_amount(t: Transaction) -> int {
    tx_amount_i64(t) as int
}

/// The amount a transaction carries, in its stored width (0 when absent).
pub open spec fn tx_amount_i64(t: Transaction) -> i64 {
    match t.amount {
        Some(a) => a,
        None => 0,
    }
}

/// Effect of an accepted deposit: both `available` and `total` grow by the
/// amount, and the history gains an undisputed deposit record under `t.tx`.
pub open spec fn apply_deposit(s: LedgerModel, t: Transaction) -> LedgerModel {
    let a = tx_amount(t);
    LedgerModel {
        account: AccountModel {
            client: s.account.client,
            available: s.account.available + a,
            held: s.account.held,
            total: s.account.total + a,
            locked: s.account.locked,
        },
        history: s.history.insert(
            t.tx,
            TransactionRecord { amount: tx_amount_i64(t), disputed: false, is_deposit: true },
        ),
    }
}

/// Effect of an accepted withdrawal: both `available` and `total` shrink by
/// the amount, and the history gains an undisputed withdrawal record.
pub open spec fn apply_withdrawal(s: LedgerModel, t: Transaction) -> LedgerModel {
    let a = tx_amount(t);
    LedgerModel {
        account: AccountModel {
            client: s.account.client,
            available: s.account.available - a,
            held: s.account.held,
            total: s.account.total - a,
            locked: s.account.locked,
        },
        history: s.history.insert(
            t.tx,
            TransactionRecord { amount: tx_amount_i64(t), disputed: false, is_deposit: false },
        ),
    }
}

/// Effect of disputing the record stored under `t.tx`. A disputed deposit
/// freezes its funds (`available` to `held`, `total` unchanged); a disputed
/// withdrawal first puts the withdrawn funds back on the books (`held` and
/// `total` both grow).
pub open spec fn apply_dispute(s: LedgerModel, t: Transaction) -> LedgerModel {
    let r = s.history[t.tx];
    let a = r.amount as int;
    LedgerModel {
        account: if r.is_deposit {
            AccountModel {
                client: s.account.client,
                available: s.account.available - a,
                held: s.account.held + a,
                total: s.account.total,
                locked: s.account.locked,
            }
        } else {
            AccountModel {
                client: s.account.client,
                available: s.account.available,
                held: s.account.held + a,
                total: s.account.total + a,
                locked: s.account.locked,
            }
        },
        history: s.history.insert(
            t.tx,
            TransactionRecord { amount: r.amount, disputed: true, is_deposit: r.is_deposit },
        ),
    }
}

/// Effect of resolving a disputed record: a deposit's funds thaw back to
/// `available`; a legitimate withdrawal is re-applied (`held` and `total`
/// both shrink). The record leaves the disputed state.
pub open spec fn apply_resolve(s: LedgerModel, t: Transaction) -> LedgerModel {
    let r = s.history[t.tx];
    let a = r.amount as int;
    LedgerModel {
        account: if r.is_deposit {
            AccountModel {
                client: s.account.client,
                available: s.account.available + a,
                held: s.account.held - a,
                total: s.account.total,
                locked: s.account.locked,
            }
        } else {
            AccountModel {
                client: s.account.client,
                available: s.account.available,
                held: s.account.held - a,
                total: s.account.total - a,
                locked: s.account.locked,
            }
        },
        history: s.history.insert(
            t.tx,
            TransactionRecord { amount: r.amount, disputed: false, is_deposit: r.is_deposit },
        ),
    }
}

/// Effect of charging back a disputed record: a deposit's funds leave the
/// books (`held` and `total` shrink); a fraudulent withdrawal is refunded
/// (`held` to `available`, `total` unchanged). Either way the account locks
/// and the record stays disputed: the state is terminal.
pub open spec fn apply_chargeback(s: LedgerModel, t: Transaction) -> LedgerModel {
    let r = s.history[t.tx];
    let a = r.amount as int;
    LedgerModel {
        account: if r.is_deposit {
            AccountModel {
                client: s.account.client,
                available: s.account.available,
                held: s.account.held - a,
                total: s.account.total - a,
                locked: true,
            }
        } else {
            AccountModel {
                client: s.account.client,
                available: s.account.available + a,
                held: s.account.held - a,
                total: s.account.total,
                locked: true,
            }
        },
        history: s.history,
    }
}

/// The full transition table over unbounded integers: which transactions
/// apply, and with what effect. Every unmet precondition leaves the ledger
/// unchanged.
pub open spec fn apply_step(s: LedgerModel, t: Transaction) -> LedgerModel {
    if !t.spec_is_valid() {
        s
    } else if s.account.locked && !t.spec_is_dispute_action() {
        s
    } else {
        match t.tx_type {
            TransactionType::Deposit => apply_deposit(s, t),
            TransactionType::Withdrawal => {
                if s.account.available >= tx_amount(t) {
                    apply_withdrawal(s, t)
                } else {
                    s
                }
            },
            TransactionType::Dispute => {
                if s.history.contains_key(t.tx) && !s.history[t.tx].disputed {
                    apply_dispute(s, t)
                } else {
                    s
                }
            },
            TransactionType::Resolve => {
                if s.history.contains_key(t.tx) && s.history[t.tx].disputed {
                    apply_resolve(s, t)
                } else {
                    s
                }
            },
            TransactionType::Chargeback => {
                if s.history.contains_key(t.tx) && s.history[t.tx].disputed {
                    apply_chargeback(s, t)
                } else {
                    s
                }
            },
        }
    }
}

/// What one call of [`ClientState::apply`] does: the transition table, with
/// a transaction additionally dropped (a no-op, like any other unmet
/// condition) when its effect would leave some balance outside the
/// executable range.
pub open spec fn apply_checked(s: LedgerModel, t: Transaction) -> LedgerModel {
    let n = apply_step(s, t);
    if account_in_range(n.account) {
        n
    } else {
        s
    }
}

/// Law: every transaction, applied or dropped, preserves the arithmetic
/// invariant `total == available + held`.
pub proof fn lemma_apply_preserves_balance(s: LedgerModel, t: Transaction)
    requires
        crate::account::balanced(s.account),
    ensures
        crate::account::balanced(apply_checked(s, t).account),
{
}

/// Law: `locked` is monotonic — no transaction ever unlocks an account.
pub proof fn lemma_locked_monotonic(s: LedgerModel, t: Transaction)
    requires
        s.account.locked,
    ensures
        apply_checked(s, t).account.locked,
{
}

/// Law: disputing the same transaction twice without an intervening resolve
/// is a no-op the second time.
pub proof fn lemma_dispute_idempotent(s: LedgerModel, t: Transaction)
    requires
        t.tx_type == TransactionType::Dispute,
    ensures
        apply_checked(apply_checked(s, t), t) == apply_checked(s, t),
{
}

impl ClientState {
    /// A fresh ledger for the given client.
    pub fn new(client: u16) -> (r: Self)
        ensures
            r@ == fresh_ledger(client),
    {
        ClientState { account: ClientAccount::new(client), tx_history: HashMap::new() }
    }

    /// Applies one transaction to this ledger, following the transition
    /// table exactly; anything that does not apply is a silent no-op.
    pub fn apply(&mut self, transaction: Transaction)
        ensures
            final(self)@ == apply_checked(old(self)@, transaction),
    {
        if !transaction.is_valid() {
            return ;
        }
        if self.account.locked && !transaction.is_dispute_action() {
            return ;
        }
        match transaction.tx_type {
            TransactionType::Deposit => {
                let amount = match transaction.amount {
                    Some(a) => a,
                    None => { return ; },
                };
                let a = amount as i128;
                match (self.account.available.checked_add(a), self.account.total.checked_add(a)) {
                    (Some(av), Some(to)) => {
                        self.account.available = av;
                        self.account.total = to;
                        self.tx_history.insert(
                            transaction.tx,
                            TransactionRecord { amount, disputed: false, is_deposit: true },
                        );
                    },
                    _ => {},
                }
            },
            TransactionType::Withdrawal => {
                let amount = match transaction.amount {
                    Some(a) => a,
                    None => { return ; },
                };
                let a = amount as i128;
                if self.account.available >= a {
                    match (
                        self.account.available.checked_sub(a),
                        self.account.total.checked_sub(a),
                    ) {
                        (Some(av), Some(to)) => {
                            self.account.available = av;
                            self.account.total = to;
                            self.tx_history.insert(
                                transaction.tx,
                                TransactionRecord { amount, disputed: false, is_deposit: false },
                            );
                        },
                        _ => {},
                    }
                }
            },
            TransactionType::Dispute => {
                let record = match self.tx_history.get(&transaction.tx) {
                    Some(r) => *r,
                    None => { return ; },
                };
                if record.disputed {
                    return ;
                }
                let a = record.amount as i128;
                if record.is_deposit {
                    match (self.account.available.checked_sub(a), self.account.held.checked_add(a))
                        {
                        (Some(av), Some(h)) => {
                            self.account.available = av;
                            self.account.held = h;
                            self.tx_history.insert(
                                transaction.tx,
                                TransactionRecord {
                                    amount: record.amount,
                                    disputed: true,
                                    is_deposit: true,
                                },
                            );
                        },
                        _ => {},
                    }
                } else {
                    match (self.account.held.checked_add(a), self.account.total.checked_add(a)) {
                        (Some(h), Some(to)) => {
                            self.account.held = h;
                            self.account.total = to;
                            self.tx_history.insert(
                                transaction.tx,
                                TransactionRecord {
                                    amount: record.amount,
                                    disputed: true,
                                    is_deposit: false,
                                },
                            );
                        },
                        _ => {},
                    }
                }
            },
            TransactionType::Resolve => {
                let record = match self.tx_history.get(&transaction.tx) {
                    Some(r) => *r,
                    None => { return ; },
                };
                if !record.disputed {
                    return ;
                }
                let a = record.amount as i128;
                if record.is_deposit {
                    match (self.account.available.checked_add(a), self.account.held.checked_sub(a))
                        {
                        (Some(av), Some(h)) => {
                            self.account.available = av;
                            self.account.held = h;
                            self.tx_history.insert(
                                transaction.tx,
                                TransactionRecord {
                                    amount: record.amount,
                                    disputed: false,
                                    is_deposit: true,
                                },
                            );
                        },
                        _ => {},
                    }
                } else {
                    match (self.account.held.checked_sub(a), self.account.total.checked_sub(a)) {
                        (Some(h), Some(to)) => {
                            self.account.held = h;
                            self.account.total = to;
                            self.tx_history.insert(
                                transaction.tx,
                                TransactionRecord {
                                    amount: record.amount,
                                    disputed: false,
                                    is_deposit: false,
                                },
                            );
                        },
                        _ => {},
                    }
                }
            },
            TransactionType::Chargeback => {
                let record = match self.tx_history.get(&transaction.tx) {
                    Some(r) => *r,
                    None => { return ; },
                };
                if !record.disputed {
                    return ;
                }
                let a = record.amount as i128;
                if record.is_deposit {
                    match (self.account.held.checked_sub(a), self.account.total.checked_sub(a)) {
                        (Some(h), Some(to)) => {
                            self.account.held = h;
                            self.account.total = to;
                            self.account.locked = true;
                        },
                        _ => {},
                    }
                } else {
                    match (self.account.available.checked_add(a), self.account.held.checked_sub(a))
                        {
                        (Some(av), Some(h)) => {
                            self.account.available = av;
                            self.account.held = h;
                            self.account.locked = true;
                        },
                        _ => {},
                    }
                }
            },
        }
    }
}

} // verus!
