use vstd::prelude::*;

use crate::AccountId;

verus! {

/// Why an operation on the ledger was rejected.
#[derive(Debug, Clone, Copy, PartialEq, Eq, Structural)]
pub enum Error {
    /// The requested supply does not fit in a balance.
    InvalidSupply,
    /// The caller holds less than the amount to be moved.
    InsufficientBalance,
    /// A credit would exceed the largest representable balance.
    ArithmeticOverflow,
}

/// One stored account and its balance.
pub type Entry = (AccountId, u32);

/// The balance of `a` in `s`: that of the last entry for `a`, or zero when
/// `a` has no entry.
pub open spec fn lookup(s: Seq<Entry>, a: Seq<u8>) -> nat
    decreases s.len(),
{
    if s.len() == 0 {
        0
    } else if s.last().0@ == a {
        s.last().1 as nat
    } else {
        lookup(s.drop_last(), a)
    }
}

/// The sum of all stored balances.
pub open spec fn seq_sum(s: Seq<Entry>) -> int
    decreases s.len(),
{
    if s.len() == 0 {
        0
    } else {
        seq_sum(s.drop_last()) + s.last().1
    }
}

/// No account is stored twice.
pub open spec fn keys_unique(s: Seq<Entry>) -> bool {
    forall|i: int, j: int| 0 <= i < j < s.len() ==> s[i].0@ != s[j].0@
}

proof fn lemma_lookup_at(s: Seq<Entry>, i: int)
    requires
        keys_unique(s),
        0 <= i < s.len(),
    ensures
        lookup(s, s[i].0@) == s[i].1,
    decreases s.len(),
{
    if i < s.len() - 1 {
        assert(s.last().0@ != s[i].0@);
        assert(s.drop_last()[i] == s[i]);
        lemma_lookup_at(s.drop_last(), i);
    }
}

proof fn lemma_lookup_absent(s: Seq<Entry>, a: Seq<u8>)
    requires
        forall|i: int| 0 <= i < s.len() ==> s[i].0@ != a,
    ensures
        lookup(s, a) == 0,
    decreases s.len(),
{
    if s.len() > 0 {
        assert(s.last() == s[s.len() - 1]);
        assert forall|i: int| 0 <= i < s.drop_last().len() implies s.drop_last()[i].0@ != a by {
            assert(s.drop_last()[i] == s[i]);
        }
        lemma_lookup_absent(s.drop_last(), a);
    }
}

proof fn lemma_update(s: Seq<Entry>, i: int, v: u32)
    requires
        keys_unique(s),
        0 <= i < s.len(),
    ensures
        keys_unique(s.update(i, (s[i].0, v))),
        seq_sum(s.update(i, (s[i].0, v))) == seq_sum(s) - s[i].1 + v,
        forall|a: Seq<u8>|
            #![auto]
            lookup(s.update(i, (s[i].0, v)), a) == if a == s[i].0@ {
                v as nat
            } else {
                lookup(s, a)
            },
    decreases s.len(),
{
    let t = s.update(i, (s[i].0, v));
    assert forall|p: int, q: int| 0 <= p < q < t.len() implies t[p].0@ != t[q].0@ by {
        assert(t[p].0@ == s[p].0@ && t[q].0@ == s[q].0@);
    }
    if i == s.len() - 1 {
        assert(t.drop_last() =~= s.drop_last());
        assert forall|a: Seq<u8>| a != s[i].0@ implies lookup(t, a) == lookup(s, a) by {}
    } else {
        let d = s.drop_last();
        assert(keys_unique(d));
        assert(d[i] == s[i]);
        lemma_update(d, i, v);
        assert(t.drop_last() =~= d.update(i, (d[i].0, v)));
        assert(t.last() == s.last());
        assert(s.last().0@ != s[i].0@);
        assert forall|a: Seq<u8>|
            #![auto]
            lookup(t, a) == if a == s[i].0@ {
                v as nat
            } else {
                lookup(s, a)
            } by {
            assert(lookup(t.drop_last(), a) == lookup(d.update(i, (d[i].0, v)), a));
        }
    }
}

proof fn lemma_push(s: Seq<Entry>, e: Entry)
    requires
        keys_unique(s),
        forall|i: int| 0 <= i < s.len() ==> s[i].0@ != e.0@,
    ensures
        keys_unique(s.push(e)),
        seq_sum(s.push(e)) == seq_sum(s) + e.1,
        forall|a: Seq<u8>|
            #![auto]
            lookup(s.push(e), a) == if a == e.0@ {
                e.1 as nat
            } else {
                lookup(s, a)
            },
{
    let t = s.push(e);
    assert(t.drop_last() =~= s);
    assert forall|p: int, q: int| 0 <= p < q < t.len() implies t[p].0@ != t[q].0@ by {
        if q == s.len() {
            assert(t[p] == s[p]);
        } else {
            assert(t[p] == s[p] && t[q] == s[q]);
        }
    }
}

proof fn lemma_one_below_sum(s: Seq<Entry>, a: Seq<u8>)
    ensures
        lookup(s, a) <= seq_sum(s),
        seq_sum(s) >= 0,
    decreases s.len(),
{
    if s.len() > 0 {
        lemma_one_below_sum(s.drop_last(), a);
    }
}

proof fn lemma_two_below_sum(s: Seq<Entry>, a: Seq<u8>, b: Seq<u8>)
    requires
        a != b,
    ensures
        lookup(s, a) + lookup(s, b) <= seq_sum(s),
    decreases s.len(),
{
    if s.len() > 0 {
        lemma_two_below_sum(s.drop_last(), a, b);
        lemma_one_below_sum(s.drop_last(), a);
        lemma_one_below_sum(s.drop_last(), b);
    }
}

/// A token ledger: a total supply fixed at creation, and the balance of each
/// account that has held funds. An account without an entry holds nothing.
pub struct MyToken {
    total_supply: u32,
    entries: Vec<Entry>,
}

impl MyToken {
    /// The supply minted at creation.
    pub closed spec fn supply(&self) -> nat {
        self.total_supply as nat
    }

    /// The balance of account `a`: zero for an account never credited.
    pub closed spec fn balance(&self, a: Seq<u8>) -> nat {
        lookup(self.entries@, a)
    }

    /// The sum of the balances of all accounts that hold an entry.
    pub closed spec fn sum_of_balances(&self) -> int {
        seq_sum(self.entries@)
    }

    /// Each account is stored once, and the stored balances add up to the
    /// supply.
    pub closed spec fn wf(&self) -> bool {
        &&& keys_unique(self.entries@)
        &&& seq_sum(self.entries@) == self.total_supply
    }

    /// Conservation: in a well-formed ledger the balances of all accounts
    /// add up to the supply minted at creation. `new_token` makes a
    /// well-formed ledger and `transfer` keeps it so, whatever it returns, so
    /// this holds after every sequence of transfers.
    pub proof fn lemma_conservation(&self)
        requires
            self.wf(),
        ensures
            self.sum_of_balances() == self.supply(),
    {
    }

    /// No account holds more than the supply, nor less than nothing.
    pub proof fn lemma_balance_within_supply(&self, a: Seq<u8>)
        requires
            self.wf(),
        ensures
            0 <= self.balance(a) <= self.supply(),
    {
        lemma_one_below_sum(self.entries@, a);
    }

    /// Creates a ledger whose whole supply belongs to `caller`.
    pub fn new_token(supply: u32, caller: AccountId) -> (r: MyToken)
        ensures
            r.wf(),
            r.supply() == supply,
            r.balance(caller@) == supply,
            forall|a: Seq<u8>| a != caller@ ==> r.balance(a) == 0,
    {
        let mut entries: Vec<Entry> = Vec::new();
        entries.push((caller, supply));
        proof {
            lemma_push(Seq::empty(), (caller, supply));
            assert(entries@ =~= Seq::<Entry>::empty().push((caller, supply)));
        }
        MyToken { total_supply: supply, entries }
    }

    /// Creates a ledger from a supply given in a wider type, rejecting one
    /// that does not fit in a balance.
    pub fn try_new_token(supply: u64, caller: AccountId) -> (r: Result<MyToken, Error>)
        ensures
            supply > u32::MAX ==> r == Err::<MyToken, Error>(Error::InvalidSupply),
            supply <= u32::MAX ==> (r matches Ok(t) && t.wf() && t.supply() == supply
                && t.balance(caller@) == supply
                && forall|a: Seq<u8>| a != caller@ ==> t.balance(a) == 0),
    {
        if supply > u32::MAX as u64 {
            Err(Error::InvalidSupply)
        } else {
            Ok(MyToken::new_token(supply as u32, caller))
        }
    }

    /// The supply minted at creation.
    pub fn total_supply(&self) -> (r: u32)
        ensures
            r == self.supply(),
    {
        self.total_supply
    }

    /// The position of `account` among the entries, if it has one.
    fn find(&self, account: &AccountId) -> (r: Option<usize>)
        ensures
            r matches Some(i) ==> i < self.entries@.len() && self.entries@[i as int].0@ == account@,
            r is None ==> forall|i: int| 0 <= i < self.entries@.len() ==> self.entries@[i].0@ != account@,
    {
        let mut i: usize = 0;
        while i < self.entries.len()
            invariant
                i <= self.entries@.len(),
                forall|j: int| 0 <= j < i ==> self.entries@[j].0@ != account@,
            decreases self.entries@.len() - i,
        {
            if self.entries[i].0.same(account) {
                return Some(i);
            }
            i = i + 1;
        }
        None
    }

    /// The balance of `account`: zero for an account without an entry.
    pub fn balance_of(&self, account: AccountId) -> (r: u32)
        requires
            self.wf(),
        ensures
            r == self.balance(account@),
    {
        match self.find(&account) {
            Some(i) => {
                proof {
                    lemma_lookup_at(self.entries@, i as int);
                }
                self.entries[i].1
            },
            None => {
                proof {
                    lemma_lookup_absent(self.entries@, account@);
                }
                0
            },
        }
    }

    /// Stores `value` as the balance of `account`.
    fn set_balance(&mut self, account: AccountId, value: u32)
        requires
            keys_unique(old(self).entries@),
        ensures
            keys_unique(final(self).entries@),
            final(self).total_supply == old(self).total_supply,
            seq_sum(final(self).entries@) == seq_sum(old(self).entries@) - lookup(
                old(self).entries@,
                account@,
            ) + value,
            forall|a: Seq<u8>|
                #![auto]
                lookup(final(self).entries@, a) == if a == account@ {
                    value as nat
                } else {
                    lookup(old(self).entries@, a)
                },
    {
        match self.find(&account) {
            Some(i) => {
                proof {
                    lemma_lookup_at(self.entries@, i as int);
                    lemma_update(self.entries@, i as int, value);
                }
                let key = self.entries[i].0;
                self.entries.set(i, (key, value));
            },
            None => {
                proof {
                    lemma_lookup_absent(self.entries@, account@);
                    lemma_push(self.entries@, (account, value));
                }
                self.entries.push((account, value));
            },
        }
    }

    /// Moves `value` from the account of `caller` to that of `to`.
    ///
    /// Fails with `InsufficientBalance`, changing nothing, when `caller`
    /// holds less than `value`. A transfer to oneself changes nothing.
    pub fn transfer(&mut self, caller: AccountId, to: AccountId, value: u32)
        -> (r: Result<(), Error>)
        requires
            old(self).wf(),
        ensures
            final(self).wf(),
            final(self).supply() == old(self).supply(),
            final(self).sum_of_balances() == final(self).supply(),
            r is Ok <==> value <= old(self).balance(caller@),
            r is Err ==> r == Err::<(), Error>(Error::InsufficientBalance)
                && *final(self) == *old(self),
            caller@ == to@ ==> *final(self) == *old(self),
            r is Ok && caller@ != to@ ==> final(self).balance(caller@)
                == old(self).balance(caller@) - value
                && final(self).balance(to@) == old(self).balance(to@) + value,
            forall|a: Seq<u8>|
                a != caller@ && a != to@ ==> final(self).balance(a) == old(self).balance(a),
    {
        let sender_balance = self.balance_of(caller);
        if sender_balance < value {
            return Err(Error::InsufficientBalance);
        }
        if caller.same(&to) {
            return Ok(());
        }
        let to_balance = self.balance_of(to);
        proof {
            lemma_two_below_sum(self.entries@, caller@, to@);
        }
        let credited = match to_balance.checked_add(value) {
            Some(v) => v,
            None => {
                return Err(Error::ArithmeticOverflow);
            },
        };
        self.set_balance(caller, sender_balance - value);
        self.set_balance(to, credited);
        Ok(())
    }
}

} // verus!
