//! The assets the fund holds, and how much of each is promised to
//! redemptions that are still under way.

use vstd::prelude::*;
use crate::error::Error;
use crate::table::{Table, Entries, entries_view, amount_of, has_key, put, distinct_keys,
    lemma_put};

verus! {

/// The pool as numbers: what is in custody, and what of it is promised.
pub struct PoolView {
    pub pooled: Entries,
    pub reserved: Entries,
}

impl PoolView {
    /// How much of `asset` is in custody.
    pub open spec fn quantity(self, asset: Seq<char>) -> nat {
        amount_of(self.pooled, asset)
    }

    /// How much of `asset` is promised to redemptions under way.
    pub open spec fn promised(self, asset: Seq<char>) -> nat {
        amount_of(self.reserved, asset)
    }

    /// How much of `asset` is still free to promise.
    pub open spec fn available(self, asset: Seq<char>) -> nat {
        (self.quantity(asset) - self.promised(asset)) as nat
    }

    /// Nothing is promised that is not in custody.
    pub open spec fn covered(self) -> bool {
        &&& distinct_keys(self.pooled)
        &&& distinct_keys(self.reserved)
        &&& forall|asset: Seq<char>| #[trigger]
            amount_of(self.reserved, asset) <= amount_of(self.pooled, asset)
    }

    pub open spec fn with_deposit(self, asset: Seq<char>, amount: nat) -> PoolView {
        PoolView { pooled: put(self.pooled, asset, self.quantity(asset) + amount), ..self }
    }

    pub open spec fn with_reservation(self, asset: Seq<char>, amount: nat) -> PoolView {
        PoolView { reserved: put(self.reserved, asset, self.promised(asset) + amount), ..self }
    }

    pub open spec fn with_release(self, asset: Seq<char>, amount: nat) -> PoolView {
        PoolView {
            reserved: put(self.reserved, asset, (self.promised(asset) - amount) as nat),
            ..self
        }
    }

    pub open spec fn with_payout(self, asset: Seq<char>, amount: nat) -> PoolView {
        PoolView {
            pooled: put(self.pooled, asset, (self.quantity(asset) - amount) as nat),
            reserved: put(self.reserved, asset, (self.promised(asset) - amount) as nat),
        }
    }
}

pub proof fn lemma_with_deposit(p: PoolView, asset: Seq<char>, amount: nat)
    requires
        p.covered(),
    ensures
        p.with_deposit(asset, amount).covered(),
        p.with_deposit(asset, amount).quantity(asset) == p.quantity(asset) + amount,
        forall|other: Seq<char>|
            other != asset ==> #[trigger] p.with_deposit(asset, amount).quantity(other)
                == p.quantity(other),
{
    lemma_put(p.pooled, asset, p.quantity(asset) + amount);
    let q = p.with_deposit(asset, amount);
    assert forall|a: Seq<char>| #[trigger] amount_of(q.reserved, a) <= amount_of(q.pooled, a) by {
        assert(amount_of(p.reserved, a) <= amount_of(p.pooled, a));
    }
}

pub proof fn lemma_with_reservation(p: PoolView, asset: Seq<char>, amount: nat)
    requires
        p.covered(),
        p.promised(asset) + amount <= p.quantity(asset),
    ensures
        p.with_reservation(asset, amount).covered(),
        p.with_reservation(asset, amount).promised(asset) == p.promised(asset) + amount,
        forall|other: Seq<char>|
            other != asset ==> #[trigger] p.with_reservation(asset, amount).promised(other)
                == p.promised(other),
{
    lemma_put(p.reserved, asset, p.promised(asset) + amount);
    let q = p.with_reservation(asset, amount);
    assert forall|a: Seq<char>| #[trigger] amount_of(q.reserved, a) <= amount_of(q.pooled, a) by {
        assert(amount_of(p.reserved, a) <= amount_of(p.pooled, a));
    }
}

pub proof fn lemma_with_release(p: PoolView, asset: Seq<char>, amount: nat)
    requires
        p.covered(),
        amount <= p.promised(asset),
    ensures
        p.with_release(asset, amount).covered(),
        p.with_release(asset, amount).promised(asset) == p.promised(asset) - amount,
        forall|other: Seq<char>|
            other != asset ==> #[trigger] p.with_release(asset, amount).promised(other)
                == p.promised(other),
{
    lemma_put(p.reserved, asset, (p.promised(asset) - amount) as nat);
    let q = p.with_release(asset, amount);
    assert forall|a: Seq<char>| #[trigger] amount_of(q.reserved, a) <= amount_of(q.pooled, a) by {
        assert(amount_of(p.reserved, a) <= amount_of(p.pooled, a));
    }
}

pub proof fn lemma_with_payout(p: PoolView, asset: Seq<char>, amount: nat)
    requires
        p.covered(),
        amount <= p.promised(asset),
    ensures
        p.with_payout(asset, amount).covered(),
        p.with_payout(asset, amount).promised(asset) == p.promised(asset) - amount,
        p.with_payout(asset, amount).quantity(asset) == p.quantity(asset) - amount,
        forall|other: Seq<char>|
            other != asset ==> #[trigger] p.with_payout(asset, amount).promised(other)
                == p.promised(other),
        forall|other: Seq<char>|
            other != asset ==> #[trigger] p.with_payout(asset, amount).quantity(other)
                == p.quantity(other),
{
    assert(amount_of(p.reserved, asset) <= amount_of(p.pooled, asset));
    lemma_put(p.reserved, asset, (p.promised(asset) - amount) as nat);
    lemma_put(p.pooled, asset, (p.quantity(asset) - amount) as nat);
    let q = p.with_payout(asset, amount);
    assert forall|a: Seq<char>| #[trigger] amount_of(q.reserved, a) <= amount_of(q.pooled, a) by {
        assert(amount_of(p.reserved, a) <= amount_of(p.pooled, a));
    }
}

/// What the fund holds of each asset. A reservation promises part of an
/// asset to a redemption without letting it go; it ends either by the
/// payout going through, which takes the quantity out of custody, or by a
/// release, which makes it free to promise again.
pub struct AssetPool {
    pooled: Table,
    reserved: Table,
}

impl View for AssetPool {
    type V = PoolView;

    closed spec fn view(&self) -> PoolView {
        PoolView { pooled: self.pooled@, reserved: self.reserved@ }
    }
}

impl AssetPool {
    pub closed spec fn wf(&self) -> bool {
        &&& self.pooled.wf()
        &&& self.reserved.wf()
        &&& self@.covered()
    }

    pub proof fn lemma_wf(&self)
        requires
            self.wf(),
        ensures
            self@.covered(),
            forall|i: int| 0 <= i < self@.pooled.len() ==> (#[trigger] self@.pooled[i]).1 <= u128::MAX,
    {
        self.pooled.lemma_wf();
    }

    pub fn new() -> (pool: AssetPool)
        ensures
            pool.wf(),
            pool@.pooled == Seq::<(Seq<char>, nat)>::empty(),
            pool@.reserved == Seq::<(Seq<char>, nat)>::empty(),
    {
        AssetPool { pooled: Table::new(), reserved: Table::new() }
    }

    /// How much of `asset` is in custody; nothing of an unknown asset.
    pub fn quantity_of(&self, asset: &String) -> (quantity: u128)
        requires
            self.wf(),
        ensures
            quantity == self@.quantity(asset@),
    {
        self.pooled.amount(asset)
    }

    /// How much of `asset` is promised to redemptions under way.
    pub fn promised_of(&self, asset: &String) -> (quantity: u128)
        requires
            self.wf(),
        ensures
            quantity == self@.promised(asset@),
            quantity <= self@.quantity(asset@),
    {
        assert(amount_of(self@.reserved, asset@) <= amount_of(self@.pooled, asset@));
        self.reserved.amount(asset)
    }

    /// How much of `asset` can still be promised.
    pub fn available_of(&self, asset: &String) -> (quantity: u128)
        requires
            self.wf(),
        ensures
            quantity == self@.available(asset@),
    {
        let promised = self.promised_of(asset);
        self.pooled.amount(asset) - promised
    }

    /// Takes `amount` of `asset` into custody.
    pub fn deposit(&mut self, asset: &String, amount: u128) -> (r: Result<(), Error>)
        requires
            old(self).wf(),
        ensures
            final(self).wf(),
            r is Err <==> old(self)@.quantity(asset@) + amount > u128::MAX,
            r is Err ==> r == Err::<(), Error>(Error::ArithmeticOverflow) && final(self)@ == old(self)@,
            r is Ok ==> final(self)@ == old(self)@.with_deposit(asset@, amount as nat),
    {
        let quantity = self.pooled.amount(asset);
        match quantity.checked_add(amount) {
            Some(sum) => {
                proof {
                    lemma_with_deposit(self@, asset@, amount as nat);
                }
                self.pooled.set(asset, sum);
                Ok(())
            },
            None => Err(Error::ArithmeticOverflow),
        }
    }

    /// Promises `amount` of `asset` to a redemption, if that much is free.
    pub fn reserve(&mut self, asset: &String, amount: u128) -> (r: Result<(), Error>)
        requires
            old(self).wf(),
        ensures
            final(self).wf(),
            r is Err <==> amount > old(self)@.available(asset@),
            r is Err ==> r == Err::<(), Error>(Error::PoolContention) && final(self)@ == old(self)@,
            r is Ok ==> final(self)@ == old(self)@.with_reservation(asset@, amount as nat),
    {
        let promised = self.promised_of(asset);
        let quantity = self.pooled.amount(asset);
        if amount > quantity - promised {
            return Err(Error::PoolContention);
        }
        proof {
            lemma_with_reservation(self@, asset@, amount as nat);
        }
        self.reserved.set(asset, promised + amount);
        Ok(())
    }

    /// Ends a reservation whose payout failed: `amount` of `asset` is free
    /// to promise again, and custody is as it was. Returns whether that
    /// much was reserved; if not, nothing changes.
    pub fn release(&mut self, asset: &String, amount: u128) -> (done: bool)
        requires
            old(self).wf(),
        ensures
            final(self).wf(),
            done <==> amount <= old(self)@.promised(asset@),
            done ==> final(self)@ == old(self)@.with_release(asset@, amount as nat),
            !done ==> final(self)@ == old(self)@,
    {
        let promised = self.promised_of(asset);
        if amount > promised {
            return false;
        }
        proof {
            lemma_with_release(self@, asset@, amount as nat);
        }
        self.reserved.set(asset, promised - amount);
        true
    }

    /// Ends a reservation whose payout went through: `amount` of `asset`
    /// has left custody for good. Returns whether that much was reserved;
    /// if not, nothing changes.
    pub fn pay_out(&mut self, asset: &String, amount: u128) -> (done: bool)
        requires
            old(self).wf(),
        ensures
            final(self).wf(),
            done <==> amount <= old(self)@.promised(asset@),
            done ==> final(self)@ == old(self)@.with_payout(asset@, amount as nat),
            !done ==> final(self)@ == old(self)@,
    {
        let promised = self.promised_of(asset);
        if amount > promised {
            return false;
        }
        let quantity = self.pooled.amount(asset);
        proof {
            lemma_with_payout(self@, asset@, amount as nat);
        }
        self.reserved.set(asset, promised - amount);
        self.pooled.set(asset, quantity - amount);
        true
    }

    /// A pool with the given quantities in custody and nothing promised;
    /// none if an asset occurs twice.
    pub fn restore(pooled: &Vec<(String, u128)>) -> (r: Option<AssetPool>)
        ensures
            r is Some <==> distinct_keys(entries_view(pooled@)),
            r matches Some(pool) ==> pool.wf() && pool@.pooled == entries_view(pooled@)
                && pool@.reserved == Seq::<(Seq<char>, nat)>::empty(),
    {
        match Table::from_entries(pooled) {
            Some(pooled) => {
                let pool = AssetPool { pooled, reserved: Table::new() };
                proof {
                    assert forall|asset: Seq<char>| #[trigger]
                        amount_of(pool@.reserved, asset) <= amount_of(pool@.pooled, asset) by {
                        assert(!has_key(pool@.reserved, asset));
                    }
                }
                Some(pool)
            },
            None => None,
        }
    }

    /// Every asset the pool knows, with the quantity in custody.
    pub fn entries(&self) -> (list: Vec<(String, u128)>)
        requires
            self.wf(),
        ensures
            entries_view(list@) == self@.pooled,
    {
        self.pooled.entries()
    }

    /// How many assets the pool knows.
    pub fn len(&self) -> (n: usize)
        requires
            self.wf(),
        ensures
            n == self@.pooled.len(),
    {
        self.pooled.len()
    }

    /// The asset at place `i`, in the order assets first came in.
    pub fn asset_at(&self, i: usize) -> (asset: &String)
        requires
            self.wf(),
            i < self@.pooled.len(),
        ensures
            asset@ == self@.pooled[i as int].0,
    {
        self.pooled.key_at(i)
    }

    /// The quantity in custody of the asset at place `i`.
    pub fn quantity_at(&self, i: usize) -> (quantity: u128)
        requires
            self.wf(),
            i < self@.pooled.len(),
        ensures
            quantity == self@.pooled[i as int].1,
    {
        self.pooled.value_at(i)
    }
}

impl Clone for AssetPool {
    fn clone(&self) -> (pool: AssetPool)
        ensures
            pool@ == self@,
            pool.wf() == self.wf(),
    {
        AssetPool { pooled: self.pooled.clone(), reserved: self.reserved.clone() }
    }
}

} // verus!
