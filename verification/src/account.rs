//! One client's balances.

use vstd::prelude::*;

verus! {

/// Mathematical image of a [`ClientAccount`]: the balances as unbounded
/// integers, so that transition effects can be stated without overflow
/// concerns.
pub ghost struct AccountModel {
    pub client: u16,
    pub available: int,
    pub held: int,
    pub total: int,
    pub locked: bool,
}

/// The arithmetic invariant of every account: the total balance is exactly
/// the available part plus the held part.
pub open spec fn balanced(a: AccountModel) -> bool {
    a.total == a.available + a.held
}

/// True when all three balances fit the executable representation.
pub open spec fn account_in_range(a: AccountModel) -> bool {
    &&& i128::MIN <= a.available <= i128::MAX
    &&& i128::MIN <= a.held <= i128::MAX
    &&& i128::MIN <= a.total <= i128::MAX
}

/// One client's account balances, in fixed-point ten-thousandths.
///
/// The state machine never requires the balances to be non-negative:
/// adversarial dispute sequences may drive them below zero, and that is kept
/// observable rather than clamped.
#[derive(Debug, Clone, Copy)]
pub struct ClientAccount {
    pub client: u16,
    pub available: i128,
    pub held: i128,
    pub total: i128,
    pub locked: bool,
}

impl View for ClientAccount {
    type V = AccountModel;

    open spec fn view(&self) -> AccountModel {
        AccountModel {
            client: self.client,
            available: self.available as int,
            held: self.held as int,
            total: self.total as int,
            locked: self.locked,
        }
    }
}

/// The state a fresh account starts in: all balances zero, unlocked.
pub open spec fn fresh_account(client: u16) -> AccountModel {
    AccountModel { client, available: 0, held: 0, total: 0, locked: false }
}

impl ClientAccount {
    /// A new, empty, unlocked account for the given client.
    pub fn new(client: u16) -> (r: Self)
        ensures
            r@ == fresh_account(client),
    {
        Self { client, available: 0, held: 0, total: 0, locked: false }
    }
}

} // verus!
