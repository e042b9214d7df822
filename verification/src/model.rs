//! The ledger as mathematics: a finite map from identities to balances, and
//! what each operation makes of it.

use vstd::prelude::*;
use crate::error::ErrorKind;

verus! {

/// The balance that `init_balance` gives an identity.
pub const INITIAL_BALANCE: u64 = 1000;

/// The balance of `id`: what the map holds for it, and 0 where it holds
/// nothing.
pub open spec fn balance_in(balances: Map<Seq<u8>, int>, id: Seq<u8>) -> int {
    if balances.dom().contains(id) {
        balances[id]
    } else {
        0
    }
}

/// No account holds less than nothing.
pub open spec fn nonnegative(balances: Map<Seq<u8>, int>) -> bool {
    forall|id: Seq<u8>| balances.dom().contains(id) ==> #[trigger] balances[id] >= 0
}

/// The sum of all balances of a finite ledger.
pub open spec fn total(balances: Map<Seq<u8>, int>) -> int
    decreases balances.dom().len(),
    when balances.dom().finite()
{
    if balances.dom().len() == 0 {
        0
    } else {
        let id = balances.dom().choose();
        balances[id] + total(balances.remove(id))
    }
}

/// The ledger after `id` was initialized: its balance is the initial one,
/// whatever it was before.
pub open spec fn initialized(balances: Map<Seq<u8>, int>, id: Seq<u8>) -> Map<Seq<u8>, int> {
    balances.insert(id, INITIAL_BALANCE as int)
}

/// Why a transfer of `amount` from `from` is refused, if it is: the sender
/// is looked for first, then its balance is held against the amount.
pub open spec fn transfer_error(balances: Map<Seq<u8>, int>, from: Seq<u8>, amount: int) -> Option<
    ErrorKind,
> {
    if !balances.dom().contains(from) {
        Some(ErrorKind::SenderNotFound)
    } else if balances[from] < amount {
        Some(ErrorKind::InsufficientBalance)
    } else {
        None
    }
}

/// The ledger after `amount` was moved from `from` to `to`: the sender is
/// debited, then the receiver, created empty where it was unknown, is
/// credited.
pub open spec fn transferred(
    balances: Map<Seq<u8>, int>,
    from: Seq<u8>,
    to: Seq<u8>,
    amount: int,
) -> Map<Seq<u8>, int> {
    let debited = balances.insert(from, balances[from] - amount);
    debited.insert(to, balance_in(debited, to) + amount)
}

/// The ledger after a transfer was asked for: moved where the transfer is
/// accepted, untouched where it is refused.
pub open spec fn after_transfer(
    balances: Map<Seq<u8>, int>,
    from: Seq<u8>,
    to: Seq<u8>,
    amount: int,
) -> Map<Seq<u8>, int> {
    if transfer_error(balances, from, amount) is None {
        transferred(balances, from, to, amount)
    } else {
        balances
    }
}

/// One request to the ledger that may change it.
pub enum Operation {
    Initialize { identity: Seq<u8> },
    Transfer { from: Seq<u8>, to: Seq<u8>, amount: int },
}

/// The ledger after one operation.
pub open spec fn step(balances: Map<Seq<u8>, int>, op: Operation) -> Map<Seq<u8>, int> {
    match op {
        Operation::Initialize { identity } => initialized(balances, identity),
        Operation::Transfer { from, to, amount } => after_transfer(balances, from, to, amount),
    }
}

/// The ledger after a sequence of operations, the first of them first.
pub open spec fn run(balances: Map<Seq<u8>, int>, ops: Seq<Operation>) -> Map<Seq<u8>, int>
    decreases ops.len(),
{
    if ops.len() == 0 {
        balances
    } else {
        step(run(balances, ops.drop_last()), ops.last())
    }
}

} // verus!
