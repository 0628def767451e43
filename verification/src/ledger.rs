//! Share balances per account and the total supply they add up to.

use vstd::prelude::*;
use crate::error::Error;
use crate::table::{Table, Entries, entries_view, amount_of, put, distinct_keys, total_of, lemma_put,
    lemma_amount_within_total};

verus! {

/// The ledger as numbers: the supply and what each account holds.
pub struct LedgerView {
    pub total_supply: nat,
    pub balances: Entries,
}

impl LedgerView {
    /// Every share in the supply is held by some account, and no other
    /// shares exist.
    pub open spec fn balanced(self) -> bool {
        &&& distinct_keys(self.balances)
        &&& self.total_supply == total_of(self.balances)
    }

    pub open spec fn balance(self, account: Seq<char>) -> nat {
        amount_of(self.balances, account)
    }

    /// The ledger after `amount` new shares went to `account`.
    pub open spec fn credited(self, account: Seq<char>, amount: nat) -> LedgerView {
        LedgerView {
            total_supply: self.total_supply + amount,
            balances: put(self.balances, account, self.balance(account) + amount),
        }
    }

    /// The ledger after `amount` shares of `account` were burned.
    pub open spec fn debited(self, account: Seq<char>, amount: nat) -> LedgerView {
        LedgerView {
            total_supply: (self.total_supply - amount) as nat,
            balances: put(self.balances, account, (self.balance(account) - amount) as nat),
        }
    }
}

pub proof fn lemma_credited(l: LedgerView, account: Seq<char>, amount: nat)
    requires
        l.balanced(),
    ensures
        l.credited(account, amount).balanced(),
        l.credited(account, amount).balance(account) == l.balance(account) + amount,
        forall|other: Seq<char>|
            other != account ==> #[trigger] l.credited(account, amount).balance(other)
                == l.balance(other),
{
    lemma_put(l.balances, account, l.balance(account) + amount);
}

pub proof fn lemma_debited(l: LedgerView, account: Seq<char>, amount: nat)
    requires
        l.balanced(),
        amount <= l.balance(account),
    ensures
        l.debited(account, amount).balanced(),
        l.debited(account, amount).balance(account) == l.balance(account) - amount,
        forall|other: Seq<char>|
            other != account ==> #[trigger] l.debited(account, amount).balance(other)
                == l.balance(other),
        amount <= l.total_supply,
{
    lemma_put(l.balances, account, (l.balance(account) - amount) as nat);
    lemma_amount_within_total(l.balances, account);
}

/// Who holds how many shares. Crediting and debiting are the only ways to
/// change the supply, and each moves supply and balance together.
pub struct AccountLedger {
    total_supply: u128,
    balances: Table,
}

impl View for AccountLedger {
    type V = LedgerView;

    closed spec fn view(&self) -> LedgerView {
        LedgerView { total_supply: self.total_supply as nat, balances: self.balances@ }
    }
}

impl AccountLedger {
    pub closed spec fn wf(&self) -> bool {
        &&& self.balances.wf()
        &&& self@.balanced()
    }

    pub proof fn lemma_wf(&self)
        requires
            self.wf(),
        ensures
            self@.balanced(),
            self@.total_supply <= u128::MAX,
    {
    }

    pub fn new() -> (ledger: AccountLedger)
        ensures
            ledger.wf(),
            ledger@.total_supply == 0,
            ledger@.balances == Seq::<(Seq<char>, nat)>::empty(),
    {
        AccountLedger { total_supply: 0, balances: Table::new() }
    }

    /// The shares that exist: always the sum of all balances.
    pub fn total_supply(&self) -> (supply: u128)
        requires
            self.wf(),
        ensures
            supply == self@.total_supply,
            supply == total_of(self@.balances),
    {
        self.total_supply
    }

    /// The shares `account` holds; an unknown account holds none.
    pub fn balance_of(&self, account: &String) -> (balance: u128)
        requires
            self.wf(),
        ensures
            balance == self@.balance(account@),
            balance <= self@.total_supply,
    {
        proof {
            lemma_amount_within_total(self.balances@, account@);
        }
        self.balances.amount(account)
    }

    /// Mints `amount` shares to `account`.
    pub fn credit(&mut self, account: &String, amount: u128) -> (r: Result<(), Error>)
        requires
            old(self).wf(),
        ensures
            final(self).wf(),
            r is Err <==> old(self)@.total_supply + amount > u128::MAX,
            r is Err ==> r == Err::<(), Error>(Error::ArithmeticOverflow) && final(self)@ == old(self)@,
            r is Ok ==> final(self)@ == old(self)@.credited(account@, amount as nat),
    {
        let supply = match self.total_supply.checked_add(amount) {
            Some(s) => s,
            None => {
                return Err(Error::ArithmeticOverflow);
            },
        };
        let balance = self.balance_of(account);
        proof {
            lemma_credited(self@, account@, amount as nat);
        }
        self.balances.set(account, balance + amount);
        self.total_supply = supply;
        Ok(())
    }

    /// Burns `amount` shares of `account`, if it holds that many.
    pub fn debit(&mut self, account: &String, amount: u128) -> (r: Result<(), Error>)
        requires
            old(self).wf(),
        ensures
            final(self).wf(),
            r is Err <==> amount > old(self)@.balance(account@),
            r is Err ==> r == Err::<(), Error>(Error::InsufficientBalance) && final(self)@ == old(self)@,
            r is Ok ==> final(self)@ == old(self)@.debited(account@, amount as nat),
    {
        let balance = self.balance_of(account);
        if amount > balance {
            return Err(Error::InsufficientBalance);
        }
        proof {
            lemma_debited(self@, account@, amount as nat);
        }
        self.balances.set(account, balance - amount);
        self.total_supply = self.total_supply - amount;
        Ok(())
    }

    /// A ledger with the given supply and balances; none if an account
    /// occurs twice or the balances do not add up to the supply.
    pub fn restore(total_supply: u128, balances: &Vec<(String, u128)>) -> (r: Option<
        AccountLedger,
    >)
        ensures
            r is Some <==> distinct_keys(entries_view(balances@)) && total_supply == total_of(
                entries_view(balances@),
            ),
            r matches Some(ledger) ==> ledger.wf() && ledger@.total_supply == total_supply
                && ledger@.balances == entries_view(balances@),
    {
        let balances = match Table::from_entries(balances) {
            Some(table) => table,
            None => {
                return None;
            },
        };
        match balances.sum() {
            Some(sum) => {
                if sum == total_supply {
                    Some(AccountLedger { total_supply, balances })
                } else {
                    None
                }
            },
            None => None,
        }
    }

    /// Every account the ledger knows, with its balance.
    pub fn entries(&self) -> (list: Vec<(String, u128)>)
        requires
            self.wf(),
        ensures
            entries_view(list@) == self@.balances,
    {
        self.balances.entries()
    }

    /// How many accounts the ledger knows.
    pub fn len(&self) -> (n: usize)
        requires
            self.wf(),
        ensures
            n == self@.balances.len(),
    {
        self.balances.len()
    }

    /// The account at place `i`, in the order accounts first came in.
    pub fn account_at(&self, i: usize) -> (account: &String)
        requires
            self.wf(),
            i < self@.balances.len(),
        ensures
            account@ == self@.balances[i as int].0,
    {
        self.balances.key_at(i)
    }
}

} // verus!
