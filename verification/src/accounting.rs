//! The account ledger: a mapping from signer name to balance, with
//! overflow- and underflow-safe deposit, withdraw and transfer operations.

use vstd::prelude::*;

use crate::errors::{AccountError, AccountErrorModel};
use crate::tx::{Tx, TxModel};

verus! {

/// One account: a signer name and its current balance.
#[derive(Clone, Debug)]
struct AccountEntry {
    signer: String,
    balance: u64,
}

/// A type for managing accounts and their current currency balance.
///
/// Viewed as a map from signer name to balance. A balance of zero is
/// representable and distinct from an absent account.
#[derive(Clone, Debug)]
pub struct Accounts {
    accounts: Vec<AccountEntry>,
}

/// The map described by a sequence of account entries.
spec fn entries_map(s: Seq<AccountEntry>) -> Map<Seq<char>, u64>
    decreases s.len(),
{
    if s.len() == 0 {
        Map::empty()
    } else {
        entries_map(s.drop_last()).insert(s.last().signer@, s.last().balance)
    }
}

/// The sum of the balances of a sequence of account entries.
spec fn sum_entries(s: Seq<AccountEntry>) -> int
    decreases s.len(),
{
    if s.len() == 0 {
        0
    } else {
        sum_entries(s.drop_last()) + s.last().balance
    }
}

/// No two entries carry the same signer name.
spec fn keys_unique(s: Seq<AccountEntry>) -> bool {
    forall|i: int, j: int| 0 <= i < j < s.len() ==> s[i].signer@ != s[j].signer@
}

/// A key is in the map exactly when some entry carries it.
proof fn lemma_map_contains(s: Seq<AccountEntry>, k: Seq<char>)
    ensures
        entries_map(s).contains_key(k) <==> exists|i: int| 0 <= i < s.len() && s[i].signer@ == k,
    decreases s.len(),
{
    if s.len() > 0 {
        lemma_map_contains(s.drop_last(), k);
        if s.last().signer@ == k {
            assert(s[s.len() - 1].signer@ == k);
        } else if entries_map(s).contains_key(k) {
            let i = choose|i: int| 0 <= i < s.drop_last().len() && s.drop_last()[i].signer@ == k;
            assert(s[i].signer@ == k);
        } else {
            assert forall|i: int| 0 <= i < s.len() implies s[i].signer@ != k by {
                if i < s.len() - 1 {
                    assert(s.drop_last()[i] == s[i]);
                }
            }
        }
    }
}

/// With unique keys, the map sends each entry's signer to its balance.
proof fn lemma_map_at(s: Seq<AccountEntry>, i: int)
    requires
        keys_unique(s),
        0 <= i < s.len(),
    ensures
        entries_map(s).contains_key(s[i].signer@),
        entries_map(s)[s[i].signer@] == s[i].balance,
    decreases s.len(),
{
    if i == s.len() - 1 {
    } else {
        assert(s.drop_last()[i] == s[i]);
        lemma_map_at(s.drop_last(), i);
        assert(s.last().signer@ != s[i].signer@);
    }
}

/// Replacing the balance of one entry updates the map at its key alone.
proof fn lemma_map_update(s: Seq<AccountEntry>, i: int, e: AccountEntry)
    requires
        keys_unique(s),
        0 <= i < s.len(),
        e.signer@ == s[i].signer@,
    ensures
        keys_unique(s.update(i, e)),
        entries_map(s.update(i, e)) == entries_map(s).insert(e.signer@, e.balance),
        sum_entries(s.update(i, e)) == sum_entries(s) - s[i].balance + e.balance,
    decreases s.len(),
{
    let s2 = s.update(i, e);
    assert forall|x: int, y: int| 0 <= x < y < s2.len() implies s2[x].signer@ != s2[y].signer@ by {
        assert(s2[x].signer@ == s[x].signer@ && s2[y].signer@ == s[y].signer@);
    }
    if i == s.len() - 1 {
        assert(s2.drop_last() =~= s.drop_last());
        assert(entries_map(s2) =~= entries_map(s).insert(e.signer@, e.balance));
    } else {
        assert(s2.drop_last() =~= s.drop_last().update(i, e));
        assert(s.drop_last()[i] == s[i]);
        lemma_map_update(s.drop_last(), i, e);
        assert(s2.last() == s.last());
        assert(s.last().signer@ != e.signer@);
        assert(entries_map(s2) =~= entries_map(s).insert(e.signer@, e.balance));
    }
}

/// Appending an entry with a fresh key inserts it into the map.
proof fn lemma_map_push(s: Seq<AccountEntry>, e: AccountEntry)
    requires
        keys_unique(s),
        forall|i: int| 0 <= i < s.len() ==> s[i].signer@ != e.signer@,
    ensures
        keys_unique(s.push(e)),
        entries_map(s.push(e)) == entries_map(s).insert(e.signer@, e.balance),
        sum_entries(s.push(e)) == sum_entries(s) + e.balance,
{
    let s2 = s.push(e);
    assert(s2.drop_last() =~= s);
    assert(s2.last() == e);
    assert forall|x: int, y: int| 0 <= x < y < s2.len() implies s2[x].signer@ != s2[y].signer@ by {
        if y < s2.len() - 1 {
            assert(s2[x] == s[x] && s2[y] == s[y]);
        } else {
            assert(s2[x] == s[x] && s2[y] == e);
        }
    }
}

/// A deposit of `amount` into `k` cannot overflow the target balance.
pub open spec fn can_deposit(m: Map<Seq<char>, u64>, k: Seq<char>, amount: int) -> bool {
    !m.contains_key(k) || m[k] + amount <= u64::MAX
}

/// The ledger after a successful deposit of `amount` into `k`.
pub open spec fn deposited(m: Map<Seq<char>, u64>, k: Seq<char>, amount: int) -> Map<
    Seq<char>,
    u64,
> {
    if m.contains_key(k) {
        m.insert(k, (m[k] + amount) as u64)
    } else {
        m.insert(k, amount as u64)
    }
}

/// A withdrawal of `amount` from `k` finds the account and enough funds.
pub open spec fn can_withdraw(m: Map<Seq<char>, u64>, k: Seq<char>, amount: int) -> bool {
    m.contains_key(k) && amount <= m[k]
}

/// The ledger after a successful withdrawal of `amount` from `k`.
pub open spec fn withdrawn(m: Map<Seq<char>, u64>, k: Seq<char>, amount: int) -> Map<
    Seq<char>,
    u64,
> {
    m.insert(k, (m[k] - amount) as u64)
}

impl View for Accounts {
    type V = Map<Seq<char>, u64>;

    closed spec fn view(&self) -> Map<Seq<char>, u64> {
        entries_map(self.accounts@)
    }
}

impl Accounts {
    /// Internal representation invariant: signer names are unique.
    pub closed spec fn wf(&self) -> bool {
        keys_unique(self.accounts@)
    }

    /// The sum of all balances held in the ledger.
    pub closed spec fn total(&self) -> int {
        sum_entries(self.accounts@)
    }

    /// Returns an empty ledger.
    pub fn new() -> (r: Self)
        ensures
            r@ == Map::<Seq<char>, u64>::empty(),
            r.wf(),
            r.total() == 0,
    {
        Accounts { accounts: Vec::new() }
    }

    /// The position of the entry for `key`, if there is one.
    fn index_of(&self, key: &String) -> (r: Option<usize>)
        ensures
            match r {
                Some(i) => i < self.accounts@.len() && self.accounts@[i as int].signer@ == key@,
                None => forall|i: int|
                    0 <= i < self.accounts@.len() ==> self.accounts@[i].signer@ != key@,
            },
    {
        let mut i: usize = 0;
        while i < self.accounts.len()
            invariant
                i <= self.accounts@.len(),
                forall|j: int| 0 <= j < i as int ==> self.accounts@[j].signer@ != key@,
            decreases self.accounts@.len() - i,
        {
            if self.accounts[i].signer == *key {
                return Some(i);
            }
            i = i + 1;
        }
        None
    }

    /// Fetch the balance of `signer`.
    ///
    /// Returns the balance exactly when the account exists, and
    /// `NotFound` exactly when it does not.
    pub fn balance_of(&self, signer: &str) -> (r: Result<u64, AccountError>)
        requires
            self.wf(),
        ensures
            self@.contains_key(signer@) ==> r == Ok::<u64, AccountError>(self@[signer@]),
            !self@.contains_key(signer@) ==> (r matches Err(e) && e@
                == AccountErrorModel::NotFound(signer@)),
    {
        let key: String = signer.to_owned();
        proof {
            lemma_map_contains(self.accounts@, signer@);
        }
        match self.index_of(&key) {
            Some(i) => {
                proof {
                    lemma_map_at(self.accounts@, i as int);
                }
                Ok(self.accounts[i].balance)
            },
            None => Err(AccountError::NotFound(key)),
        }
    }

    /// Deposit `amount` into the `signer` account, creating the account if it
    /// does not exist yet.
    ///
    /// Fails with `OverFunded` exactly when the credit would overflow; the
    /// ledger is then unchanged.
    pub fn deposit(&mut self, signer: &str, amount: u64) -> (r: Result<Tx, AccountError>)
        requires
            old(self).wf(),
        ensures
            final(self).wf(),
            can_deposit(old(self)@, signer@, amount as int) ==> {
                &&& final(self)@ == deposited(old(self)@, signer@, amount as int)
                &&& final(self).total() == old(self).total() + amount
                &&& (r matches Ok(t) && t@ == (TxModel::Deposit {
                    account: signer@,
                    amount: amount as int,
                }))
            },
            !can_deposit(old(self)@, signer@, amount as int) ==> {
                &&& final(self)@ == old(self)@
                &&& final(self).total() == old(self).total()
                &&& (r matches Err(e) && e@ == AccountErrorModel::OverFunded(
                    signer@,
                    amount as int,
                ))
            },
    {
        let key: String = signer.to_owned();
        proof {
            lemma_map_contains(self.accounts@, signer@);
        }
        match self.index_of(&key) {
            Some(i) => {
                proof {
                    lemma_map_at(self.accounts@, i as int);
                }
                match self.accounts[i].balance.checked_add(amount) {
                    Some(updated) => {
                        let ghost s0 = self.accounts@;
                        self.accounts[i].balance = updated;
                        proof {
                            lemma_map_update(s0, i as int, self.accounts@[i as int]);
                        }
                        Ok(Tx::Deposit { account: key, amount })
                    },
                    None => Err(AccountError::OverFunded(key, amount)),
                }
            },
            None => {
                let ghost s0 = self.accounts@;
                let entry = AccountEntry { signer: key, balance: amount };
                let account = entry.signer.clone();
                self.accounts.push(entry);
                proof {
                    lemma_map_push(s0, self.accounts@.last());
                }
                Ok(Tx::Deposit { account, amount })
            },
        }
    }

    /// Withdraw `amount` from the `signer` account.
    ///
    /// Fails with `NotFound` exactly when the account does not exist, and
    /// with `UnderFunded` exactly when the balance is short; the ledger is
    /// then unchanged.
    pub fn withdraw(&mut self, signer: &str, amount: u64) -> (r: Result<Tx, AccountError>)
        requires
            old(self).wf(),
        ensures
            final(self).wf(),
            !old(self)@.contains_key(signer@) ==> {
                &&& final(self)@ == old(self)@
                &&& final(self).total() == old(self).total()
                &&& (r matches Err(e) && e@ == AccountErrorModel::NotFound(signer@))
            },
            can_withdraw(old(self)@, signer@, amount as int) ==> {
                &&& final(self)@ == withdrawn(old(self)@, signer@, amount as int)
                &&& final(self).total() == old(self).total() - amount
                &&& (r matches Ok(t) && t@ == (TxModel::Withdraw {
                    account: signer@,
                    amount: amount as int,
                }))
            },
            old(self)@.contains_key(signer@) && old(self)@[signer@] < amount ==> {
                &&& final(self)@ == old(self)@
                &&& final(self).total() == old(self).total()
                &&& (r matches Err(e) && e@ == AccountErrorModel::UnderFunded(signer@))
            },
    {
        let key: String = signer.to_owned();
        proof {
            lemma_map_contains(self.accounts@, signer@);
        }
        match self.index_of(&key) {
            Some(i) => {
                proof {
                    lemma_map_at(self.accounts@, i as int);
                }
                match self.accounts[i].balance.checked_sub(amount) {
                    Some(updated) => {
                        let ghost s0 = self.accounts@;
                        self.accounts[i].balance = updated;
                        proof {
                            lemma_map_update(s0, i as int, self.accounts@[i as int]);
                        }
                        Ok(Tx::Withdraw { account: key, amount })
                    },
                    None => Err(AccountError::UnderFunded(key)),
                }
            },
            None => Err(AccountError::NotFound(key)),
        }
    }

    /// Withdraw `amount` from `sender` and deposit it into `recipient`.
    ///
    /// If the withdrawal fails the ledger is unchanged. If the deposit fails
    /// (the recipient's balance would overflow), the withdrawal has already
    /// been committed and is not rolled back.
    pub fn send(&mut self, sender: &str, recipient: &str, amount: u64) -> (r: Result<
        (Tx, Tx),
        AccountError,
    >)
        requires
            old(self).wf(),
        ensures
            final(self).wf(),
            !old(self)@.contains_key(sender@) ==> {
                &&& final(self)@ == old(self)@
                &&& final(self).total() == old(self).total()
                &&& (r matches Err(e) && e@ == AccountErrorModel::NotFound(sender@))
            },
            old(self)@.contains_key(sender@) && old(self)@[sender@] < amount ==> {
                &&& final(self)@ == old(self)@
                &&& final(self).total() == old(self).total()
                &&& (r matches Err(e) && e@ == AccountErrorModel::UnderFunded(sender@))
            },
            can_withdraw(old(self)@, sender@, amount as int) && can_deposit(
                withdrawn(old(self)@, sender@, amount as int),
                recipient@,
                amount as int,
            ) ==> {
                &&& final(self)@ == deposited(
                    withdrawn(old(self)@, sender@, amount as int),
                    recipient@,
                    amount as int,
                )
                &&& final(self).total() == old(self).total()
                &&& (r matches Ok(t) && t.0@ == (TxModel::Withdraw {
                    account: sender@,
                    amount: amount as int,
                }) && t.1@ == (TxModel::Deposit { account: recipient@, amount: amount as int }))
            },
            can_withdraw(old(self)@, sender@, amount as int) && !can_deposit(
                withdrawn(old(self)@, sender@, amount as int),
                recipient@,
                amount as int,
            ) ==> {
                &&& final(self)@ == withdrawn(old(self)@, sender@, amount as int)
                &&& final(self).total() == old(self).total() - amount
                &&& (r matches Err(e) && e@ == AccountErrorModel::OverFunded(
                    recipient@,
                    amount as int,
                ))
            },
    {
        let w_tx = match self.withdraw(sender, amount) {
            Ok(t) => t,
            Err(e) => {
                return Err(e);
            },
        };
        let d_tx = match self.deposit(recipient, amount) {
            Ok(t) => t,
            Err(e) => {
                return Err(e);
            },
        };
        Ok((w_tx, d_tx))
    }
}

} // verus!
