//! The store: which balance each identity holds.

use vstd::prelude::*;
use crate::identity::Identity;
use crate::laws::lemma_total_insert;
use crate::model::total;

verus! {

/// One entry of the ledger.
#[derive(Debug)]
struct Account {
    identity: Identity,
    balance: u64,
}

/// A mapping from identities to balances. No identity has two entries, and
/// the order in which the entries came is of no account.
#[derive(Debug)]
pub struct Ledger {
    accounts: Vec<Account>,
}

/// The map that a list of entries stands for; a later entry would win over
/// an earlier one for the same identity.
spec fn entries_map(accounts: Seq<Account>) -> Map<Seq<u8>, int>
    decreases accounts.len(),
{
    if accounts.len() == 0 {
        Map::empty()
    } else {
        entries_map(accounts.drop_last()).insert(
            accounts.last().identity@,
            accounts.last().balance as int,
        )
    }
}

/// No identity occurs twice among the entries.
spec fn distinct(accounts: Seq<Account>) -> bool {
    forall|i: int, j: int|
        0 <= i < j < accounts.len() ==> accounts[i].identity@ != accounts[j].identity@
}

/// The identities of the map are those of the entries, and there are
/// finitely many.
proof fn lemma_entries_domain(accounts: Seq<Account>)
    ensures
        entries_map(accounts).dom().finite(),
        forall|id: Seq<u8>|
            entries_map(accounts).dom().contains(id) <==> exists|i: int|
                0 <= i < accounts.len() && (#[trigger] accounts[i]).identity@ == id,
    decreases accounts.len(),
{
    if accounts.len() > 0 {
        let front = accounts.drop_last();
        lemma_entries_domain(front);
        assert forall|id: Seq<u8>| entries_map(accounts).dom().contains(id) implies exists|i: int|
            0 <= i < accounts.len() && (#[trigger] accounts[i]).identity@ == id by {
            if id == accounts.last().identity@ {
                assert(accounts[accounts.len() - 1].identity@ == id);
            } else {
                let i = choose|i: int| 0 <= i < front.len() && (#[trigger] front[i]).identity@ == id;
                assert(accounts[i].identity@ == id);
            }
        }
        assert forall|id: Seq<u8>|
            (exists|i: int|
                0 <= i < accounts.len() && (#[trigger] accounts[i]).identity@
                    == id) implies entries_map(accounts).dom().contains(id) by {
            let i = choose|i: int| 0 <= i < accounts.len() && (#[trigger] accounts[i]).identity@ == id;
            if i < front.len() {
                assert(front[i].identity@ == id);
            }
        }
    }
}

/// Where no identity occurs twice, the map holds for each entry's identity
/// that entry's balance.
proof fn lemma_entries_value(accounts: Seq<Account>, i: int)
    requires
        distinct(accounts),
        0 <= i < accounts.len(),
    ensures
        entries_map(accounts).dom().contains(accounts[i].identity@),
        entries_map(accounts)[accounts[i].identity@] == accounts[i].balance,
    decreases accounts.len(),
{
    if i < accounts.len() - 1 {
        let front = accounts.drop_last();
        assert(distinct(front)) by {
            assert forall|a: int, b: int| 0 <= a < b < front.len() implies front[a].identity@
                != front[b].identity@ by {
                assert(accounts[a].identity@ != accounts[b].identity@);
            }
        }
        lemma_entries_value(front, i);
        assert(front[i] == accounts[i]);
    }
}

/// Each balance of the map is one of an entry.
proof fn lemma_entries_bounded(accounts: Seq<Account>, id: Seq<u8>)
    requires
        entries_map(accounts).dom().contains(id),
    ensures
        0 <= entries_map(accounts)[id] <= u64::MAX,
    decreases accounts.len(),
{
    if accounts.len() > 0 && id != accounts.last().identity@ {
        lemma_entries_bounded(accounts.drop_last(), id);
    }
}

impl View for Ledger {
    type V = Map<Seq<u8>, int>;

    /// The ledger as a map from each identity that has an account to its
    /// balance.
    closed spec fn view(&self) -> Map<Seq<u8>, int> {
        entries_map(self.accounts@)
    }
}

impl Ledger {
    /// No identity has two entries.
    #[verifier::type_invariant]
    spec fn wf(&self) -> bool {
        distinct(self.accounts@)
    }

    /// A ledger holds finitely many accounts, and each balance is one that
    /// 64 bits hold: none is negative.
    pub proof fn lemma_view_bounded(&self)
        ensures
            self@.dom().finite(),
            forall|id: Seq<u8>|
                self@.dom().contains(id) ==> 0 <= #[trigger] self@[id] <= u64::MAX,
    {
        lemma_entries_domain(self.accounts@);
        assert forall|id: Seq<u8>| self@.dom().contains(id) implies 0 <= #[trigger] self@[id]
            <= u64::MAX by {
            lemma_entries_bounded(self.accounts@, id);
        }
    }

    /// The ledger without accounts.
    pub fn new() -> (ledger: Ledger)
        ensures
            ledger@ == Map::<Seq<u8>, int>::empty(),
    {
        Ledger { accounts: Vec::new() }
    }

    /// Where the entry of `identity` stands, if it has one.
    fn position(&self, identity: &Identity) -> (found: Option<usize>)
        ensures
            match found {
                Some(i) => i < self.accounts@.len() && self.accounts@[i as int].identity@
                    == identity@,
                None => forall|i: int|
                    0 <= i < self.accounts@.len() ==> (#[trigger] self.accounts@[i]).identity@
                        != identity@,
            },
    {
        let mut i: usize = 0;
        while i < self.accounts.len()
            invariant
                i <= self.accounts@.len(),
                forall|j: int| 0 <= j < i ==> (#[trigger] self.accounts@[j]).identity@ != identity@,
            decreases self.accounts@.len() - i,
        {
            if self.accounts[i].identity == *identity {
                return Some(i);
            }
            i += 1;
        }
        None
    }

    /// The balance that the ledger holds for `identity`, if it holds one.
    pub fn get(&self, identity: &Identity) -> (balance: Option<u64>)
        ensures
            match balance {
                Some(b) => self@.dom().contains(identity@) && self@[identity@] == b,
                None => !self@.dom().contains(identity@),
            },
    {
        proof {
            use_type_invariant(self);
            lemma_entries_domain(self.accounts@);
        }
        match self.position(identity) {
            Some(i) => {
                proof {
                    lemma_entries_value(self.accounts@, i as int);
                }
                Some(self.accounts[i].balance)
            },
            None => None,
        }
    }

    /// The sum of all balances. It is wider than a balance, so that it
    /// holds the sum of as many balances as a ledger can have.
    pub fn total(&self) -> (sum: u128)
        ensures
            sum == total(self@),
    {
        proof {
            use_type_invariant(self);
        }
        let mut sum: u128 = 0;
        let mut i: usize = 0;
        while i < self.accounts.len()
            invariant
                distinct(self.accounts@),
                i <= self.accounts@.len(),
                sum == total(entries_map(self.accounts@.take(i as int))),
                sum <= i * u64::MAX,
            decreases self.accounts@.len() - i,
        {
            proof {
                let seen = self.accounts@.take(i as int);
                let next = self.accounts@.take(i + 1);
                assert(next.drop_last() =~= seen);
                lemma_entries_domain(seen);
                lemma_total_insert(
                    entries_map(seen),
                    self.accounts@[i as int].identity@,
                    self.accounts@[i as int].balance as int,
                );
            }
            sum = sum + self.accounts[i].balance as u128;
            i += 1;
        }
        assert(self.accounts@.take(i as int) =~= self.accounts@);
        sum
    }

    /// Sets the balance of `identity`, whether or not it had an account.
    pub fn insert(&mut self, identity: Identity, balance: u64)
        ensures
            final(self)@ == old(self)@.insert(identity@, balance as int),
    {
        proof {
            use_type_invariant(&*self);
        }
        let ghost before = self.accounts@;
        let ghost id = identity@;
        let found = self.position(&identity);
        // The entries leave the ledger while they change, and come back as
        // a whole.
        let mut accounts: Vec<Account> = Vec::new();
        core::mem::swap(&mut self.accounts, &mut accounts);
        let ghost at: int;
        match found {
            Some(i) => {
                proof {
                    at = i as int;
                }
                accounts.set(i, Account { identity, balance });
            },
            None => {
                proof {
                    at = before.len() as int;
                }
                accounts.push(Account { identity, balance });
            },
        }
        proof {
            let after = accounts@;
            let expected = entries_map(before).insert(id, balance as int);
            assert(after[at].identity@ == id);
            assert(distinct(after));
            lemma_entries_domain(before);
            lemma_entries_domain(after);
            assert forall|k: Seq<u8>| entries_map(after).dom().contains(k) implies expected.dom().contains(
                k,
            ) by {
                let j = choose|j: int| 0 <= j < after.len() && (#[trigger] after[j]).identity@ == k;
                if k != id {
                    assert(before[j].identity@ == k);
                }
            }
            assert forall|k: Seq<u8>| expected.dom().contains(k) implies entries_map(
                after,
            ).dom().contains(k) by {
                if k != id {
                    let j = choose|j: int|
                        0 <= j < before.len() && (#[trigger] before[j]).identity@ == k;
                    assert(after[j].identity@ == k);
                }
            }
            assert forall|k: Seq<u8>| entries_map(after).dom().contains(k) implies entries_map(
                after,
            )[k] == expected[k] by {
                let j = choose|j: int| 0 <= j < after.len() && (#[trigger] after[j]).identity@ == k;
                lemma_entries_value(after, j);
                if k != id {
                    assert(before[j].identity@ == k);
                    lemma_entries_value(before, j);
                }
            }
            assert(entries_map(after) =~= expected);
        }
        self.accounts = accounts;
    }
}

} // verus!
