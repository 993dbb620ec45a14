//! The validated unit of input: one transaction record.

use vstd::prelude::*;

verus! {

/// Number of fixed-point steps per whole currency unit: amounts carry four
/// decimal places, stored exactly as a count of ten-thousandths.
pub const AMOUNT_SCALE: i64 = 10000;

/// The five kinds of transaction the engine accepts.
#[derive(Debug, Clone, Copy, PartialEq, Eq, Structural)]
pub enum TransactionType {
    Deposit,
    Withdrawal,
    Dispute,
    Resolve,
    Chargeback,
}

/// One input record: a kind, the client it concerns, a transaction id and,
/// for deposits and withdrawals, a fixed-point amount.
///
/// A record is well formed (`is_valid`) when the amount is present and
/// positive exactly for the kinds that move money; every other record is
/// dropped silently by the ledger state machine, never reported as an error.
#[derive(Debug, Clone, Copy)]
pub struct Transaction {
    pub tx_type: TransactionType,
    pub client: u16,
    pub tx: u32,
    pub amount: Option<i64>,
}

impl Transaction {
    /// True when this kind of transaction moves money and so must carry an amount.
    pub open spec fn spec_requires_amount(self) -> bool {
        self.tx_type == TransactionType::Deposit || self.tx_type == TransactionType::Withdrawal
    }

    /// True for the three kinds that act on an existing record of this client.
    pub open spec fn spec_is_dispute_action(self) -> bool {
        self.tx_type == TransactionType::Dispute || self.tx_type == TransactionType::Resolve
            || self.tx_type == TransactionType::Chargeback
    }

    /// A record is valid when it carries a positive amount exactly if its kind
    /// requires one.
    pub open spec fn spec_is_valid(self) -> bool {
        if self.spec_requires_amount() {
            match self.amount {
                Some(a) => a > 0,
                None => false,
            }
        } else {
            self.amount is None
        }
    }

    /// Returns true if this transaction type requires an amount.
    pub fn requires_amount(&self) -> (r: bool)
        ensures
            r == self.spec_requires_amount(),
    {
        matches!(self.tx_type, TransactionType::Deposit | TransactionType::Withdrawal)
    }

    /// Returns true if this transaction type is a dispute-related action.
    pub fn is_dispute_action(&self) -> (r: bool)
        ensures
            r == self.spec_is_dispute_action(),
    {
        matches!(
            self.tx_type,
            TransactionType::Dispute | TransactionType::Resolve | TransactionType::Chargeback
        )
    }

    /// Validates that the transaction carries an amount exactly where one is
    /// required, and that such an amount is positive.
    pub fn is_valid(&self) -> (r: bool)
        ensures
            r == self.spec_is_valid(),
    {
        if self.requires_amount() {
            match self.amount {
                Some(a) => a > 0,
                None => false,
            }
        } else {
            self.amount.is_none()
        }
    }
}

} // verus!
