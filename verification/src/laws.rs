//! What holds of the ledger whatever is asked of it.

use vstd::prelude::*;
use vstd::seq_lib::{commutative_foldl, lemma_fold_left_permutation};
use crate::model::{
    after_transfer, balance_in, initialized, nonnegative, run, step, total, transfer_error,
    transferred, Operation, INITIAL_BALANCE,
};

verus! {

/// The total of a finite ledger is the balance of any one of its accounts
/// plus the total of the others.
pub proof fn lemma_total_remove(balances: Map<Seq<u8>, int>, id: Seq<u8>)
    requires
        balances.dom().finite(),
        balances.dom().contains(id),
    ensures
        total(balances) == balances[id] + total(balances.remove(id)),
    decreases balances.dom().len(),
{
    let first = balances.dom().choose();
    if first != id {
        let rest = balances.remove(first);
        lemma_total_remove(rest, id);
        lemma_total_remove(balances.remove(id), first);
        assert(rest.remove(id) =~= balances.remove(id).remove(first));
    }
}

/// Setting one balance changes the total by the difference between the new
/// balance and the old one.
pub proof fn lemma_total_insert(balances: Map<Seq<u8>, int>, id: Seq<u8>, balance: int)
    requires
        balances.dom().finite(),
    ensures
        total(balances.insert(id, balance)) == total(balances) - balance_in(balances, id) + balance,
{
    let set = balances.insert(id, balance);
    lemma_total_remove(set, id);
    assert(set.remove(id) =~= balances.remove(id));
    if balances.dom().contains(id) {
        lemma_total_remove(balances, id);
    } else {
        assert(balances.remove(id) =~= balances);
    }
}

/// Conservation: a transfer that goes through leaves the sum of all balances
/// as it was.
pub proof fn lemma_transfer_conserves_total(
    balances: Map<Seq<u8>, int>,
    from: Seq<u8>,
    to: Seq<u8>,
    amount: int,
)
    requires
        balances.dom().finite(),
        transfer_error(balances, from, amount) is None,
    ensures
        transferred(balances, from, to, amount).dom().finite(),
        total(transferred(balances, from, to, amount)) == total(balances),
{
    let debited = balances.insert(from, balances[from] - amount);
    lemma_total_insert(balances, from, balances[from] - amount);
    lemma_total_insert(debited, to, balance_in(debited, to) + amount);
}

/// Conservation, refusals included: whatever a request for a transfer
/// returns, the sum of all balances is afterwards what it was.
pub proof fn lemma_after_transfer_conserves_total(
    balances: Map<Seq<u8>, int>,
    from: Seq<u8>,
    to: Seq<u8>,
    amount: int,
)
    requires
        balances.dom().finite(),
    ensures
        after_transfer(balances, from, to, amount).dom().finite(),
        total(after_transfer(balances, from, to, amount)) == total(balances),
{
    if transfer_error(balances, from, amount) is None {
        lemma_transfer_conserves_total(balances, from, to, amount);
    }
}

/// Whether every operation of the sequence is a transfer.
pub open spec fn only_transfers(ops: Seq<Operation>) -> bool {
    forall|i: int| 0 <= i < ops.len() ==> #[trigger] ops[i] is Transfer
}

/// Conservation over time: after any sequence of transfers the sum of all
/// balances is what it was before the first of them.
pub proof fn lemma_transfers_conserve_total(balances: Map<Seq<u8>, int>, ops: Seq<Operation>)
    requires
        balances.dom().finite(),
        only_transfers(ops),
    ensures
        run(balances, ops).dom().finite(),
        total(run(balances, ops)) == total(balances),
    decreases ops.len(),
{
    if ops.len() > 0 {
        let before = ops.drop_last();
        assert forall|i: int| 0 <= i < before.len() implies #[trigger] before[i] is Transfer by {
            assert(ops[i] is Transfer);
        }
        lemma_transfers_conserve_total(balances, before);
        match ops.last() {
            Operation::Transfer { from, to, amount } => {
                lemma_after_transfer_conserves_total(run(balances, before), from, to, amount);
            },
            Operation::Initialize { .. } => {},
        }
    }
}

/// Whether the operation can be asked of a ledger: no negative amount is
/// ever moved.
pub open spec fn well_formed(op: Operation) -> bool {
    match op {
        Operation::Initialize { .. } => true,
        Operation::Transfer { amount, .. } => amount >= 0,
    }
}

/// No operation takes a balance below zero.
pub proof fn lemma_step_keeps_nonnegative(balances: Map<Seq<u8>, int>, op: Operation)
    requires
        nonnegative(balances),
        well_formed(op),
    ensures
        nonnegative(step(balances, op)),
{
    let after = step(balances, op);
    assert forall|id: Seq<u8>| after.dom().contains(id) implies #[trigger] after[id] >= 0 by {
        if balances.dom().contains(id) {
            assert(balances[id] >= 0);
        }
        match op {
            Operation::Transfer { from, to, amount } => {
                if balances.dom().contains(from) {
                    assert(balances[from] >= 0);
                }
            },
            Operation::Initialize { .. } => {},
        }
    }
}

/// No negative balance: in every state that operations lead to from the
/// empty ledger, every balance is at least zero.
pub proof fn lemma_reachable_nonnegative(ops: Seq<Operation>, id: Seq<u8>)
    requires
        forall|i: int| 0 <= i < ops.len() ==> well_formed(#[trigger] ops[i]),
    ensures
        nonnegative(run(Map::empty(), ops)),
        balance_in(run(Map::empty(), ops), id) >= 0,
    decreases ops.len(),
{
    let end = run(Map::<Seq<u8>, int>::empty(), ops);
    if ops.len() > 0 {
        let before = ops.drop_last();
        assert forall|i: int| 0 <= i < before.len() implies well_formed(#[trigger] before[i]) by {
            assert(well_formed(ops[i]));
        }
        lemma_reachable_nonnegative(before, id);
        lemma_step_keeps_nonnegative(run(Map::empty(), before), ops.last());
    }
    if end.dom().contains(id) {
        assert(end[id] >= 0);
    }
}

/// Initializing overwrites: after two initializations in a row the balance
/// is the initial one, not twice that, and the ledger is what one
/// initialization makes of it.
pub proof fn lemma_initialize_twice(balances: Map<Seq<u8>, int>, id: Seq<u8>)
    ensures
        initialized(initialized(balances, id), id) == initialized(balances, id),
        balance_in(initialized(initialized(balances, id), id), id) == INITIAL_BALANCE,
{
    assert(initialized(initialized(balances, id), id) =~= initialized(balances, id));
}

/// Whether the operation can give `id` an account: by initializing it, or by
/// sending to it.
pub open spec fn creates(op: Operation, id: Seq<u8>) -> bool {
    match op {
        Operation::Initialize { identity } => identity == id,
        Operation::Transfer { to, .. } => to == id,
    }
}

/// An unknown identity reads as zero: one that was never initialized and was
/// never the receiver of a transfer has no account, and its balance is 0.
pub proof fn lemma_untouched_reads_zero(ops: Seq<Operation>, id: Seq<u8>)
    requires
        forall|i: int| 0 <= i < ops.len() ==> !creates(#[trigger] ops[i], id),
    ensures
        !run(Map::empty(), ops).dom().contains(id),
        balance_in(run(Map::empty(), ops), id) == 0,
    decreases ops.len(),
{
    if ops.len() > 0 {
        let before = ops.drop_last();
        assert forall|i: int| 0 <= i < before.len() implies !creates(#[trigger] before[i], id) by {
            assert(!creates(ops[i], id));
        }
        lemma_untouched_reads_zero(before, id);
        assert(!creates(ops.last(), id));
    }
}

/// A transfer to oneself that goes through changes no balance, also where
/// it moves all that the sender has.
pub proof fn lemma_self_transfer_changes_nothing(
    balances: Map<Seq<u8>, int>,
    id: Seq<u8>,
    amount: int,
)
    requires
        transfer_error(balances, id, amount) is None,
    ensures
        transferred(balances, id, id, amount) == balances,
{
    assert(transferred(balances, id, id, amount) =~= balances);
}

/// A transfer of nothing from a sender that has an account goes through and
/// changes no balance.
pub proof fn lemma_zero_transfer_changes_nothing(
    balances: Map<Seq<u8>, int>,
    from: Seq<u8>,
    to: Seq<u8>,
)
    requires
        nonnegative(balances),
        balances.dom().contains(from),
    ensures
        transfer_error(balances, from, 0) is None,
        forall|id: Seq<u8>|
            balance_in(transferred(balances, from, to, 0), id) == balance_in(balances, id),
{
    assert(balances[from] >= 0);
}

/// Whether every operation of the sequence is a transfer that goes through
/// in the state in which it is asked for, when the sequence starts from
/// `balances`.
pub open spec fn all_accepted(balances: Map<Seq<u8>, int>, ops: Seq<Operation>) -> bool
    decreases ops.len(),
{
    if ops.len() == 0 {
        true
    } else {
        &&& all_accepted(balances, ops.drop_last())
        &&& match ops.last() {
            Operation::Transfer { from, amount, .. } => transfer_error(
                run(balances, ops.drop_last()),
                from,
                amount,
            ) is None,
            Operation::Initialize { .. } => false,
        }
    }
}

/// What `id` sends less what it receives in one operation.
pub open spec fn outflow(op: Operation, id: Seq<u8>) -> int {
    match op {
        Operation::Transfer { from, to, amount } => (if from == id {
            amount
        } else {
            0
        }) - (if to == id {
            amount
        } else {
            0
        }),
        Operation::Initialize { .. } => 0,
    }
}

/// What `id` sends less what it receives over the whole sequence. It is a
/// sum, so the order of the operations does not enter into it.
pub open spec fn net_outflow(ops: Seq<Operation>, id: Seq<u8>) -> int
    decreases ops.len(),
{
    if ops.len() == 0 {
        0
    } else {
        net_outflow(ops.drop_last(), id) + outflow(ops.last(), id)
    }
}

/// No update is lost and nothing is spent twice: after transfers that all
/// went through, in whatever order they were taken, each balance is what it
/// was, less all that the identity sent, plus all that it received.
pub proof fn lemma_accepted_transfers_add_up(
    balances: Map<Seq<u8>, int>,
    ops: Seq<Operation>,
    id: Seq<u8>,
)
    requires
        all_accepted(balances, ops),
    ensures
        balance_in(run(balances, ops), id) == balance_in(balances, id) - net_outflow(ops, id),
    decreases ops.len(),
{
    if ops.len() > 0 {
        lemma_accepted_transfers_add_up(balances, ops.drop_last(), id);
    }
}

/// The net outflow is the sum of the outflows, taken from the left.
proof fn lemma_net_outflow_is_a_fold(ops: Seq<Operation>, id: Seq<u8>)
    ensures
        net_outflow(ops, id) == ops.fold_left(0int, |sum: int, op: Operation| sum + outflow(op, id)),
    decreases ops.len(),
{
    if ops.len() > 0 {
        lemma_net_outflow_is_a_fold(ops.drop_last(), id);
    }
}

/// Serial orders agree: where the same transfers are taken in two orders,
/// and in each order every one of them goes through, every balance is in
/// the end the same.
pub proof fn lemma_accepted_orders_agree(
    balances: Map<Seq<u8>, int>,
    first: Seq<Operation>,
    second: Seq<Operation>,
    id: Seq<u8>,
)
    requires
        first.to_multiset() == second.to_multiset(),
        all_accepted(balances, first),
        all_accepted(balances, second),
    ensures
        balance_in(run(balances, first), id) == balance_in(run(balances, second), id),
{
    let sum_up = |sum: int, op: Operation| sum + outflow(op, id);
    assert(commutative_foldl(sum_up));
    lemma_fold_left_permutation(first, second, sum_up, 0int);
    lemma_net_outflow_is_a_fold(first, id);
    lemma_net_outflow_is_a_fold(second, id);
    lemma_accepted_transfers_add_up(balances, first, id);
    lemma_accepted_transfers_add_up(balances, second, id);
}

} // verus!
