//! Prices per asset as an outside feed last set them.

use vstd::prelude::*;
use crate::table::{Table, Entries, entries_view, has_key, amount_of, put, distinct_keys};

verus! {

/// What the oracle knows of one asset. A missing price is no fault, but it
/// is told apart from a price that a feed has set.
#[derive(Clone, Copy, Debug, PartialEq, Eq, Structural)]
pub enum PriceQuote {
    /// The price last set for the asset.
    Listed(u128),
    /// Nobody has priced the asset yet; it is valued at one unit.
    NoData,
}

/// The price that values one unit of an asset nobody has priced.
pub open spec fn default_price() -> nat {
    1
}

/// The price of `asset` under `prices`.
pub open spec fn price_in(prices: Entries, asset: Seq<char>) -> nat {
    if has_key(prices, asset) {
        amount_of(prices, asset)
    } else {
        default_price()
    }
}

impl PriceQuote {
    /// The price to value with.
    pub fn value(&self) -> (price: u128)
        ensures
            price == match *self {
                PriceQuote::Listed(p) => p as nat,
                PriceQuote::NoData => default_price(),
            },
    {
        match self {
            PriceQuote::Listed(p) => *p,
            PriceQuote::NoData => 1,
        }
    }
}

/// Read access to the prices, and the one privileged write.
pub struct PriceOracleView {
    prices: Table,
}

impl View for PriceOracleView {
    type V = Entries;

    closed spec fn view(&self) -> Entries {
        self.prices@
    }
}

impl PriceOracleView {
    pub closed spec fn wf(&self) -> bool {
        self.prices.wf()
    }

    pub proof fn lemma_wf(&self)
        requires
            self.wf(),
        ensures
            distinct_keys(self@),
    {
        self.prices.lemma_wf();
    }

    pub fn new() -> (oracle: PriceOracleView)
        ensures
            oracle.wf(),
            oracle@ == Seq::<(Seq<char>, nat)>::empty(),
    {
        PriceOracleView { prices: Table::new() }
    }

    /// What is known of `asset`.
    pub fn quote(&self, asset: &String) -> (q: PriceQuote)
        requires
            self.wf(),
        ensures
            q == (if has_key(self@, asset@) {
                PriceQuote::Listed(amount_of(self@, asset@) as u128)
            } else {
                PriceQuote::NoData
            }),
            amount_of(self@, asset@) <= u128::MAX,
    {
        match self.prices.get(asset) {
            Some(p) => PriceQuote::Listed(p),
            None => PriceQuote::NoData,
        }
    }

    /// The price of `asset`: the one last set, or one unit if none was.
    pub fn price_of(&self, asset: &String) -> (price: u128)
        requires
            self.wf(),
        ensures
            price == price_in(self@, asset@),
    {
        self.quote(asset).value()
    }

    /// Overwrites the price of `asset`. Nothing of the old price is kept.
    pub fn set_price(&mut self, asset: &String, price: u128)
        requires
            old(self).wf(),
        ensures
            final(self).wf(),
            final(self)@ == put(old(self)@, asset@, price as nat),
    {
        self.prices.set(asset, price);
    }

    /// An oracle with the given prices; none if an asset occurs twice.
    pub fn restore(prices: &Vec<(String, u128)>) -> (r: Option<PriceOracleView>)
        ensures
            r is Some <==> distinct_keys(entries_view(prices@)),
            r matches Some(oracle) ==> oracle.wf() && oracle@ == entries_view(prices@),
    {
        match Table::from_entries(prices) {
            Some(prices) => Some(PriceOracleView { prices }),
            None => None,
        }
    }

    /// Every asset that has a price, with its price.
    pub fn entries(&self) -> (list: Vec<(String, u128)>)
        requires
            self.wf(),
        ensures
            entries_view(list@) == self@,
    {
        self.prices.entries()
    }

    /// How many assets have a price.
    pub fn len(&self) -> (n: usize)
        requires
            self.wf(),
        ensures
            n == self@.len(),
    {
        self.prices.len()
    }

    /// The priced asset at place `i`, in the order prices first came in.
    pub fn asset_at(&self, i: usize) -> (asset: &String)
        requires
            self.wf(),
            i < self@.len(),
        ensures
            asset@ == self@[i as int].0,
    {
        self.prices.key_at(i)
    }
}

} // verus!
