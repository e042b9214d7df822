//! The three operations of the wallet: open an account, read a balance,
//! send tokens.

use vstd::prelude::*;
use crate::error::{ErrorKind, MyResult};
use crate::identity::Identity;
use crate::laws::lemma_transfer_conserves_total;
use crate::ledger::Ledger;
use crate::model::{
    after_transfer, balance_in, initialized, total, transfer_error, INITIAL_BALANCE,
};

verus! {

/// Gives `caller` the initial balance, whatever it held before: a second
/// call resets the balance, it does not add to it.
pub fn init_balance(ledger: &mut Ledger, caller: Identity)
    ensures
        final(ledger)@ == initialized(old(ledger)@, caller@),
{
    ledger.insert(caller, INITIAL_BALANCE);
}

/// The balance of `caller`: 0 for an identity that has no account.
pub fn get_balance(ledger: &Ledger, caller: &Identity) -> (balance: u64)
    ensures
        balance == balance_in(ledger@, caller@),
{
    match ledger.get(caller) {
        Some(balance) => balance,
        None => 0,
    }
}

/// Whether the receiver's balance would still fit in 64 bits after the
/// transfer, where the transfer is one that goes through.
pub open spec fn spec_credit_fits(
    balances: Map<Seq<u8>, int>,
    from: Seq<u8>,
    to: Seq<u8>,
    amount: int,
) -> bool {
    transfer_error(balances, from, amount) is None && from != to ==> balance_in(balances, to)
        + amount <= u64::MAX
}

/// Whether `send_tokens` can be asked for this transfer: whether the
/// receiver's balance would still fit in 64 bits after it.
pub fn credit_fits(ledger: &Ledger, caller: &Identity, to: &Identity, amount: u64) -> (fits: bool)
    ensures
        fits == spec_credit_fits(ledger@, caller@, to@, amount as int),
{
    match ledger.get(caller) {
        None => true,
        Some(balance) => {
            balance < amount || *caller == *to || get_balance(ledger, to) <= u64::MAX - amount
        },
    }
}

/// Moves `amount` from `caller` to `to`.
///
/// The sender is looked for first: without an account the transfer fails
/// with `SenderNotFound`. Then its balance is held against the amount: if it
/// is smaller the transfer fails with `InsufficientBalance`. A transfer that
/// fails changes nothing. One that goes through debits the sender and
/// credits the receiver, which gets an account if it had none, and the sum
/// of all balances stays what it was.
pub fn send_tokens(ledger: &mut Ledger, caller: Identity, to: Identity, amount: u64) -> (result:
    MyResult)
    requires
        spec_credit_fits(old(ledger)@, caller@, to@, amount as int),
    ensures
        result == match transfer_error(old(ledger)@, caller@, amount as int) {
            Some(kind) => MyResult::Failure(kind),
            None => MyResult::Success,
        },
        final(ledger)@ == after_transfer(old(ledger)@, caller@, to@, amount as int),
        total(final(ledger)@) == total(old(ledger)@),
{
    match ledger.get(&caller) {
        None => MyResult::Failure(ErrorKind::SenderNotFound),
        Some(balance) => {
            if balance >= amount {
                proof {
                    ledger.lemma_view_bounded();
                    lemma_transfer_conserves_total(ledger@, caller@, to@, amount as int);
                }
                ledger.insert(caller, balance - amount);
                let held = get_balance(ledger, &to);
                ledger.insert(to, held + amount);
                MyResult::Success
            } else {
                MyResult::Failure(ErrorKind::InsufficientBalance)
            }
        },
    }
}

} // verus!
