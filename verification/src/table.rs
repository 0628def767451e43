//! A small keyed store from names to quantities that remembers the order in
//! which names first came in.

use vstd::prelude::*;
use crate::sums::{total, lemma_total_push, lemma_total_update, lemma_total_covers,
    lemma_total_take_step, lemma_total_prefix};

verus! {

/// What a [`Table`] holds: its entries in order of first insertion.
pub type Entries = Seq<(Seq<char>, nat)>;

/// The largest quantity a table can hold.
pub open spec fn max_quantity() -> nat {
    u128::MAX as nat
}

/// A list of names with quantities as the entries it stands for.
pub open spec fn entries_view(list: Seq<(String, u128)>) -> Entries {
    list.map_values(|entry: (String, u128)| (entry.0@, entry.1 as nat))
}

pub open spec fn has_key(e: Entries, key: Seq<char>) -> bool {
    exists|i: int| 0 <= i < e.len() && (#[trigger] e[i]).0 == key
}

/// Where `key` stands in `e` (meaningful only if it is there).
pub open spec fn position(e: Entries, key: Seq<char>) -> int {
    choose|i: int| 0 <= i < e.len() && (#[trigger] e[i]).0 == key
}

/// The quantity recorded under `key`; absent names count as zero.
pub open spec fn amount_of(e: Entries, key: Seq<char>) -> nat {
    if has_key(e, key) {
        e[position(e, key)].1
    } else {
        0
    }
}

pub open spec fn distinct_keys(e: Entries) -> bool {
    forall|i: int, j: int| 0 <= i < j < e.len() ==> (#[trigger] e[i]).0 != (#[trigger] e[j]).0
}

pub open spec fn bounded(e: Entries) -> bool {
    forall|i: int| 0 <= i < e.len() ==> (#[trigger] e[i]).1 <= max_quantity()
}

/// `e` with `value` recorded under `key`: in place if the name is known,
/// at the end otherwise.
pub open spec fn put(e: Entries, key: Seq<char>, value: nat) -> Entries {
    if has_key(e, key) {
        e.update(position(e, key), (key, value))
    } else {
        e.push((key, value))
    }
}

pub open spec fn amounts(e: Entries) -> Seq<nat> {
    e.map_values(|p: (Seq<char>, nat)| p.1)
}

/// The sum of every quantity in `e`.
pub open spec fn total_of(e: Entries) -> nat {
    total(amounts(e))
}

pub proof fn lemma_position(e: Entries, key: Seq<char>, i: int)
    requires
        distinct_keys(e),
        0 <= i < e.len(),
        e[i].0 == key,
    ensures
        has_key(e, key),
        position(e, key) == i,
        amount_of(e, key) == e[i].1,
{
}

pub proof fn lemma_put(e: Entries, key: Seq<char>, value: nat)
    requires
        distinct_keys(e),
    ensures
        distinct_keys(put(e, key, value)),
        has_key(put(e, key, value), key),
        amount_of(put(e, key, value), key) == value,
        forall|k: Seq<char>|
            k != key ==> #[trigger] amount_of(put(e, key, value), k) == amount_of(e, k),
        forall|k: Seq<char>|
            k != key ==> (#[trigger] has_key(put(e, key, value), k) <==> has_key(e, k)),
        total_of(put(e, key, value)) + amount_of(e, key) == total_of(e) + value,
        bounded(e) && value <= max_quantity() ==> bounded(put(e, key, value)),
{
    let p = put(e, key, value);
    if has_key(e, key) {
        let i = position(e, key);
        assert(p[i].0 == key);
        lemma_position(p, key, i);
        assert forall|k: Seq<char>| k != key implies (#[trigger] has_key(p, k) <==> has_key(e, k))
            && amount_of(p, k) == amount_of(e, k) by {
            if has_key(e, k) {
                let j = position(e, k);
                assert(p[j] == e[j]);
                lemma_position(p, k, j);
            }
            if has_key(p, k) {
                let j = position(p, k);
                assert(e[j] == p[j]);
                lemma_position(e, k, j);
            }
        }
        assert(amounts(p) =~= amounts(e).update(i, value));
        lemma_total_update(amounts(e), i, value);
    } else {
        let n = e.len() as int;
        assert(p[n].0 == key);
        lemma_position(p, key, n);
        assert forall|k: Seq<char>| k != key implies (#[trigger] has_key(p, k) <==> has_key(e, k))
            && amount_of(p, k) == amount_of(e, k) by {
            if has_key(e, k) {
                let j = position(e, k);
                assert(p[j] == e[j]);
                lemma_position(p, k, j);
            }
            if has_key(p, k) {
                let j = position(p, k);
                assert(e[j] == p[j]);
                lemma_position(e, k, j);
            }
        }
        assert(amounts(p) =~= amounts(e).push(value));
        lemma_total_push(amounts(e), value);
    }
}

/// Every recorded quantity is at most the sum of all of them.
pub proof fn lemma_amount_within_total(e: Entries, key: Seq<char>)
    ensures
        amount_of(e, key) <= total_of(e),
{
    if has_key(e, key) {
        lemma_total_covers(amounts(e), position(e, key));
    }
}

/// Names with quantities, each name at most once, in order of first
/// insertion.
pub struct Table {
    keys: Vec<String>,
    values: Vec<u128>,
}

impl View for Table {
    type V = Entries;

    closed spec fn view(&self) -> Entries {
        Seq::new(self.keys@.len(), |i: int| (self.keys@[i]@, self.values@[i] as nat))
    }
}

impl Table {
    /// Every name occurs once.
    pub closed spec fn wf(&self) -> bool {
        &&& self.keys@.len() == self.values@.len()
        &&& distinct_keys(self@)
    }

    pub proof fn lemma_wf(&self)
        requires
            self.wf(),
        ensures
            distinct_keys(self@),
            bounded(self@),
    {
    }

    pub fn new() -> (t: Table)
        ensures
            t.wf(),
            t@ == Seq::<(Seq<char>, nat)>::empty(),
    {
        let t = Table { keys: Vec::new(), values: Vec::new() };
        assert(t@ =~= Seq::<(Seq<char>, nat)>::empty());
        t
    }

    pub fn len(&self) -> (n: usize)
        requires
            self.wf(),
        ensures
            n == self@.len(),
    {
        self.keys.len()
    }

    /// The name at place `i`.
    pub fn key_at(&self, i: usize) -> (key: &String)
        requires
            self.wf(),
            i < self@.len(),
        ensures
            key@ == self@[i as int].0,
    {
        &self.keys[i]
    }

    /// The quantity at place `i`.
    pub fn value_at(&self, i: usize) -> (value: u128)
        requires
            self.wf(),
            i < self@.len(),
        ensures
            value == self@[i as int].1,
    {
        self.values[i]
    }

    /// The place of `key`, if it is known.
    pub fn find(&self, key: &String) -> (place: Option<usize>)
        requires
            self.wf(),
        ensures
            match place {
                Some(i) => i < self@.len() && self@[i as int].0 == key@ && has_key(self@, key@)
                    && position(self@, key@) == i,
                None => !has_key(self@, key@),
            },
    {
        let mut i: usize = 0;
        while i < self.keys.len()
            invariant
                self.wf(),
                i <= self.keys@.len(),
                forall|j: int| 0 <= j < i ==> (#[trigger] self@[j]).0 != key@,
            decreases self.keys@.len() - i,
        {
            if self.keys[i] == *key {
                proof {
                    lemma_position(self@, key@, i as int);
                }
                return Some(i);
            }
            i += 1;
        }
        None
    }

    /// The quantity under `key`, if the name is known.
    pub fn get(&self, key: &String) -> (value: Option<u128>)
        requires
            self.wf(),
        ensures
            value.is_some() == has_key(self@, key@),
            value matches Some(v) ==> v == amount_of(self@, key@),
    {
        match self.find(key) {
            Some(i) => Some(self.values[i]),
            None => None,
        }
    }

    /// The quantity under `key`, zero for an unknown name.
    pub fn amount(&self, key: &String) -> (value: u128)
        requires
            self.wf(),
        ensures
            value == amount_of(self@, key@),
    {
        match self.find(key) {
            Some(i) => self.values[i],
            None => 0,
        }
    }

    /// Records `value` under `key`, overwriting what was there.
    pub fn set(&mut self, key: &String, value: u128)
        requires
            old(self).wf(),
        ensures
            final(self).wf(),
            final(self)@ == put(old(self)@, key@, value as nat),
    {
        let place = self.find(key);
        proof {
            lemma_put(self@, key@, value as nat);
        }
        match place {
            Some(i) => {
                self.values.set(i, value);
                assert(self@ =~= old(self)@.update(i as int, (key@, value as nat)));
            },
            None => {
                self.keys.push(key.clone());
                self.values.push(value);
                assert(self@ =~= old(self)@.push((key@, value as nat)));
            },
        }
    }
}

impl Table {
    /// A table of the given entries, in their order; none if a name
    /// occurs twice.
    pub fn from_entries(list: &Vec<(String, u128)>) -> (r: Option<Table>)
        ensures
            r is Some <==> distinct_keys(entries_view(list@)),
            r matches Some(t) ==> t.wf() && t@ == entries_view(list@),
    {
        let ghost all = entries_view(list@);
        let mut t = Table::new();
        let mut i: usize = 0;
        while i < list.len()
            invariant
                i <= list@.len(),
                all == entries_view(list@),
                t.wf(),
                t@ == all.take(i as int),
            decreases list@.len() - i,
        {
            let ghost before = t@;
            match t.find(&list[i].0) {
                Some(j) => {
                    assert(all[j as int].0 == all[i as int].0);
                    return None;
                },
                None => {},
            }
            t.keys.push(list[i].0.clone());
            t.values.push(list[i].1);
            proof {
                assert(t@ =~= before.push(all[i as int]));
                assert(all.take(i + 1) =~= before.push(all[i as int]));
                assert forall|a: int, b: int| 0 <= a < b < t@.len() implies (#[trigger] t@[a]).0
                    != (#[trigger] t@[b]).0 by {
                    if b == i {
                        assert(before[a].0 != all[i as int].0);
                    } else {
                        assert(before[a].0 != before[b].0);
                    }
                }
            }
            i += 1;
        }
        assert(all.take(i as int) =~= all);
        Some(t)
    }

    /// The entries, in order.
    pub fn entries(&self) -> (list: Vec<(String, u128)>)
        requires
            self.wf(),
        ensures
            entries_view(list@) == self@,
    {
        let mut list: Vec<(String, u128)> = Vec::new();
        let mut i: usize = 0;
        while i < self.keys.len()
            invariant
                self.wf(),
                i <= self.keys@.len(),
                entries_view(list@) == self@.take(i as int),
            decreases self.keys@.len() - i,
        {
            let ghost before = entries_view(list@);
            list.push((self.keys[i].clone(), self.values[i]));
            assert(entries_view(list@) =~= before.push(self@[i as int]));
            assert(self@.take(i + 1) =~= before.push(self@[i as int]));
            i += 1;
        }
        assert(self@.take(i as int) =~= self@);
        list
    }

    /// The sum of all quantities, if it fits in 128 bits.
    pub fn sum(&self) -> (r: Option<u128>)
        requires
            self.wf(),
        ensures
            r is Some <==> total_of(self@) <= u128::MAX,
            r matches Some(s) ==> s == total_of(self@),
    {
        let mut sum: u128 = 0;
        let mut i: usize = 0;
        while i < self.values.len()
            invariant
                self.wf(),
                i <= self.values@.len(),
                sum == total(amounts(self@).take(i as int)),
            decreases self.values@.len() - i,
        {
            proof {
                lemma_total_take_step(amounts(self@), i as int);
                lemma_total_prefix(amounts(self@), i + 1);
            }
            sum = match sum.checked_add(self.values[i]) {
                Some(s) => s,
                None => {
                    return None;
                },
            };
            i += 1;
        }
        assert(amounts(self@).take(i as int) =~= amounts(self@));
        Some(sum)
    }
}

impl Clone for Table {
    fn clone(&self) -> (t: Table)
        ensures
            t@ == self@,
            t.wf() == self.wf(),
    {
        let mut keys: Vec<String> = Vec::new();
        let mut i: usize = 0;
        while i < self.keys.len()
            invariant
                i <= self.keys@.len(),
                keys@.len() == i,
                forall|j: int| 0 <= j < i ==> keys@[j]@ == self.keys@[j]@,
            decreases self.keys@.len() - i,
        {
            keys.push(self.keys[i].clone());
            i += 1;
        }
        let mut values: Vec<u128> = Vec::new();
        let mut k: usize = 0;
        while k < self.values.len()
            invariant
                k <= self.values@.len(),
                values@.len() == k,
                forall|j: int| 0 <= j < k ==> values@[j] == self.values@[j],
            decreases self.values@.len() - k,
        {
            values.push(self.values[k]);
            k += 1;
        }
        let t = Table { keys, values };
        assert(values@ =~= self.values@);
        assert(t@ =~= self@);
        t
    }
}

} // verus!
