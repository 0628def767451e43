//! The fund itself: prices, ledger, pool and the redemptions under way,
//! kept consistent through every operation.

use vstd::prelude::*;
use crate::arith::share_of;
use crate::error::Error;
use crate::gateway::TransferOutcome;
use crate::ledger::AccountLedger;
use crate::model::{FundView, valid_basket, basket_value, basket_amount, deposit_all, legs_for,
    reserve_all, contended, has_request, request_index, filed, lemma_basket_value_prefix,
    lemma_basket_amount_prefix, lemma_deposit_all, lemma_legs_for, lemma_reserve_all,
    lemma_request_index, lemma_empty_inv, lemma_set_price_inv, lemma_mint_inv, lemma_redeem_inv,
    lemma_settle_inv, restorable};
use crate::oracle::{PriceOracleView, PriceQuote, price_in};
use crate::pool::AssetPool;
use crate::pool::lemma_with_reservation;
use crate::redemption::{LegStatus, LegView, RedemptionLeg, RedemptionRequest, RedemptionStatus,
    RequestView, has_pending, legs_pending, legs_view, pending_amount, pending_total,
    requests_view, settled_leg, settled_request, lemma_pending_total_covers,
    lemma_legs_pending_take_step, lemma_pending_total_take_step};
use crate::table::{entries_view, amount_of, distinct_keys, has_key, position, total_of,
    lemma_position};

verus! {

/// The index fund.
pub struct TknIndex {
    oracle: PriceOracleView,
    ledger: AccountLedger,
    pool: AssetPool,
    requests: Vec<RedemptionRequest>,
    next_id: u64,
}

impl View for TknIndex {
    type V = FundView;

    closed spec fn view(&self) -> FundView {
        FundView {
            ledger: self.ledger@,
            pool: self.pool@,
            prices: self.oracle@,
            requests: requests_view(self.requests@),
            next_id: self.next_id as nat,
        }
    }
}

impl TknIndex {
    /// The fund is in a state that its operations can have led to.
    pub closed spec fn wf(&self) -> bool {
        &&& self.oracle.wf()
        &&& self.ledger.wf()
        &&& self.pool.wf()
        &&& self@.inv()
    }

    /// A well-formed fund satisfies the model's invariant: in particular
    /// the supply is the sum of all balances, and nothing is promised that
    /// is not pooled.
    pub proof fn lemma_wf(&self)
        requires
            self.wf(),
        ensures
            self@.inv(),
            self@.ledger.total_supply <= u128::MAX,
            self@.next_id <= u64::MAX,
    {
        self.ledger.lemma_wf();
    }

    /// A fund with no shares, no assets, no prices.
    pub fn new() -> (fund: TknIndex)
        ensures
            fund.wf(),
            fund@ == FundView::empty(),
    {
        let fund = TknIndex {
            oracle: PriceOracleView::new(),
            ledger: AccountLedger::new(),
            pool: AssetPool::new(),
            requests: Vec::new(),
            next_id: 0,
        };
        proof {
            lemma_empty_inv();
            assert(fund@.requests =~= Seq::<RequestView>::empty());
            assert(fund@.ledger == FundView::empty().ledger);
            assert(fund@.pool == FundView::empty().pool);
        }
        fund
    }

    /// The price of `asset`: the one last set, or one unit if none was.
    pub fn get_asset_price(&self, asset: &String) -> (price: u128)
        requires
            self.wf(),
        ensures
            price == price_in(self@.prices, asset@),
    {
        self.oracle.price_of(asset)
    }

    /// What is known of the price of `asset`: the price last set, or that
    /// none was, in which case the asset is valued at one unit.
    pub fn asset_quote(&self, asset: &String) -> (quote: PriceQuote)
        requires
            self.wf(),
        ensures
            quote == (if has_key(self@.prices, asset@) {
                PriceQuote::Listed(amount_of(self@.prices, asset@) as u128)
            } else {
                PriceQuote::NoData
            }),
            amount_of(self@.prices, asset@) <= u128::MAX,
    {
        self.oracle.quote(asset)
    }

    /// Sets the price of `asset`, overwriting any earlier one.
    pub fn update_asset_price(&mut self, asset: String, price: u128)
        requires
            old(self).wf(),
        ensures
            final(self).wf(),
            final(self)@ == old(self)@.set_price(asset@, price as nat),
    {
        proof {
            lemma_set_price_inv(self@, asset@, price as nat);
        }
        self.oracle.set_price(&asset, price);
    }

    /// The shares `account_id` holds; an unknown account holds none.
    pub fn balance_of(&self, account_id: String) -> (balance: u128)
        requires
            self.wf(),
        ensures
            balance == self@.ledger.balance(account_id@),
    {
        self.ledger.balance_of(&account_id)
    }

    /// The shares that exist, which is what all accounts together hold.
    pub fn total_supply(&self) -> (supply: u128)
        requires
            self.wf(),
        ensures
            supply == self@.ledger.total_supply,
            supply == total_of(self@.ledger.balances),
    {
        self.ledger.total_supply()
    }

    /// How much of `asset` the fund has in custody.
    pub fn quantity_of(&self, asset: &String) -> (quantity: u128)
        requires
            self.wf(),
        ensures
            quantity == self@.pool.quantity(asset@),
    {
        self.pool.quantity_of(asset)
    }

    /// How much of `asset` is promised to redemptions under way.
    pub fn promised_of(&self, asset: &String) -> (quantity: u128)
        requires
            self.wf(),
        ensures
            quantity == self@.pool.promised(asset@),
            quantity <= self@.pool.quantity(asset@),
    {
        self.pool.promised_of(asset)
    }

    /// Takes the basket `amounts` into the pool and mints its value at
    /// current prices as shares for `account_id`. The transfer of the
    /// assets into custody is the caller's business. A basket that is
    /// empty or holds a zero amount is turned down whole, and so is one
    /// that would take a quantity past 128 bits; then nothing changes.
    #[verifier::loop_isolation(false)]
    pub fn mint(&mut self, account_id: String, amounts: Vec<(String, u128)>) -> (r: Result<
        (),
        Error,
    >)
        requires
            old(self).wf(),
        ensures
            final(self).wf(),
            match old(self)@.mint(account_id@, entries_view(amounts@)) {
                Ok(post) => r is Ok && final(self)@ == post,
                Err(e) => r == Err::<(), Error>(e) && final(self)@ == old(self)@,
            },
    {
        let ghost basket = entries_view(amounts@);
        if amounts.len() == 0 {
            return Err(Error::InvalidDeposit);
        }
        let mut i: usize = 0;
        while i < amounts.len()
            invariant
                i <= amounts@.len(),
                basket == entries_view(amounts@),
                forall|j: int| 0 <= j < i ==> (#[trigger] basket[j]).1 > 0,
            decreases amounts@.len() - i,
        {
            if amounts[i].1 == 0 {
                assert(basket[i as int].1 == 0);
                return Err(Error::InvalidDeposit);
            }
            i += 1;
        }
        assert(valid_basket(basket));
        let mut pool = self.pool.clone();
        let mut value: u128 = 0;
        let mut k: usize = 0;
        while k < amounts.len()
            invariant
                k <= amounts@.len(),
                basket == entries_view(amounts@),
                self.oracle.wf(),
                self.pool.wf(),
                pool.wf(),
                pool@ == deposit_all(self.pool@, basket.take(k as int)),
                value == basket_value(self.oracle@, basket.take(k as int)),
                self@.prices == self.oracle@,
                self@.pool == self.pool@,
            decreases amounts@.len() - k,
        {
            let asset = &amounts[k].0;
            let amount = amounts[k].1;
            let price = self.oracle.price_of(asset);
            proof {
                self.pool.lemma_wf();
                assert(basket.take(k + 1).drop_last() =~= basket.take(k as int));
                assert(basket.take(k + 1).last() == basket[k as int]);
                assert(basket[k as int] == (asset@, amount as nat));
                lemma_basket_value_prefix(self.oracle@, basket, k + 1);
                lemma_basket_amount_prefix(basket, asset@, k + 1);
                lemma_deposit_all(self.pool@, basket.take(k as int), asset@);
            }
            let worth = match price.checked_mul(amount) {
                Some(w) => w,
                None => {
                    return Err(Error::ArithmeticOverflow);
                },
            };
            value = match value.checked_add(worth) {
                Some(v) => v,
                None => {
                    return Err(Error::ArithmeticOverflow);
                },
            };
            match pool.deposit(asset, amount) {
                Ok(()) => {},
                Err(_) => {
                    assert(self@.pool.quantity(asset@) + basket_amount(basket, asset@)
                        > u128::MAX);
                    return Err(Error::ArithmeticOverflow);
                },
            }
            k += 1;
        }
        assert(basket.take(k as int) =~= basket);
        proof {
            self.ledger.lemma_wf();
        }
        match self.ledger.credit(&account_id, value) {
            Ok(()) => {},
            Err(_) => {
                return Err(Error::ArithmeticOverflow);
            },
        }
        proof {
            assert forall|asset: Seq<char>|
                old(self)@.pool.quantity(asset) + #[trigger] basket_amount(basket, asset)
                    <= u128::MAX by {
                old(self).pool.lemma_wf();
                lemma_deposit_all(old(self)@.pool, basket, asset);
                pool.lemma_wf();
                if has_key(pool@.pooled, asset) {
                    assert(pool@.pooled[position(pool@.pooled, asset)].1 <= u128::MAX);
                }
            }
            assert(!old(self)@.mint_overflows(basket));
            lemma_mint_inv(old(self)@, account_id@, basket);
        }
        self.pool = pool;
        Ok(())
    }

    /// Starts a redemption of `amount` shares of `account_id`. For every
    /// pooled asset the pro-rata part is reserved, then the shares are
    /// burned; only after that may the caller send out the transfers of
    /// the returned request's legs, and hand each outcome to
    /// [`TknIndex::settle`]. Fails, changing nothing, if the account
    /// holds fewer shares or if some asset has less free than its leg
    /// needs.
    #[verifier::loop_isolation(false)]
    pub fn redeem(&mut self, account_id: String, amount: u128) -> (r: Result<
        RedemptionRequest,
        Error,
    >)
        requires
            old(self).wf(),
        ensures
            final(self).wf(),
            match old(self)@.redeem(account_id@, amount as nat) {
                Ok((post, request)) => r is Ok && r->Ok_0@ == request && final(self)@ == post,
                Err(e) => r == Err::<RedemptionRequest, Error>(e) && final(self)@ == old(self)@,
            },
    {
        let balance = self.ledger.balance_of(&account_id);
        if balance < amount {
            return Err(Error::InsufficientBalance);
        }
        let supply = self.ledger.total_supply();
        let mut pool = self.pool.clone();
        let mut legs: Vec<RedemptionLeg> = Vec::new();
        let n = pool.len();
        let ghost pooled = self.pool@.pooled;
        let ghost shares = amount as nat;
        let ghost stock = supply as nat;
        proof {
            self.pool.lemma_wf();
            assert(legs_view(legs@) =~= Seq::<LegView>::empty());
            assert(pooled.take(0) =~= Seq::<(Seq<char>, nat)>::empty());
        }
        let mut i: usize = 0;
        while i < n
            invariant
                i <= n,
                n == pooled.len(),
                pooled == self.pool@.pooled,
                shares == amount,
                stock == supply,
                amount <= supply,
                self.pool.wf(),
                self.pool@.covered(),
                pool.wf(),
                pool@.pooled == pooled,
                pool@.reserved == reserve_all(self.pool@.reserved, legs_view(legs@)),
                legs_view(legs@) == legs_for(pooled.take(i as int), shares, stock),
                forall|j: int|
                    0 <= j < i ==> self.pool@.promised((#[trigger] pooled[j]).0) + crate::arith::pro_rata(
                        pooled[j].1,
                        shares,
                        stock,
                    ) <= pooled[j].1,
            decreases n - i,
        {
            let asset = pool.asset_at(i).clone();
            let quantity = pool.quantity_at(i);
            let part = share_of(quantity, amount, supply);
            proof {
                let seen = pooled.take(i as int);
                assert(pooled.take(i + 1).drop_last() =~= seen);
                assert(pooled.take(i + 1).last() == pooled[i as int]);
                assert(distinct_keys(seen)) by {
                    assert forall|a: int, b: int| 0 <= a < b < seen.len() implies (
                    #[trigger] seen[a]).0 != (#[trigger] seen[b]).0 by {
                        assert(pooled[a].0 != pooled[b].0);
                    }
                }
                if has_key(seen, asset@) {
                    let a = position(seen, asset@);
                    assert(pooled[a].0 != pooled[i as int].0);
                }
                lemma_legs_for(seen, shares, stock, asset@);
                lemma_reserve_all(self.pool@.reserved, legs_view(legs@), asset@);
                lemma_position(pooled, asset@, i as int);
                assert(amount_of(self.pool@.reserved, asset@) <= amount_of(pooled, asset@));
            }
            if part > 0 {
                match pool.reserve(&asset, part) {
                    Ok(()) => {},
                    Err(_) => {
                        assert(self.pool@.promised(pooled[i as int].0) + crate::arith::pro_rata(
                            pooled[i as int].1,
                            shares,
                            stock,
                        ) > pooled[i as int].1);
                        assert(contended(self.pool@, shares, stock));
                        return Err(Error::PoolContention);
                    },
                }
                let ghost before = legs_view(legs@);
                let leg = RedemptionLeg::new(asset, part);
                let ghost added = leg@;
                legs.push(leg);
                assert(legs_view(legs@) =~= before.push(added));
                assert(before.push(added).drop_last() =~= before);
            }
            i += 1;
        }
        proof {
            assert(pooled.take(n as int) =~= pooled);
            assert(!contended(self.pool@, shares, stock));
        }
        if self.next_id == u64::MAX {
            return Err(Error::ArithmeticOverflow);
        }
        let request = RedemptionRequest {
            id: self.next_id,
            account: account_id,
            shares_burned: amount,
            legs,
        };
        proof {
            assert(request@ == old(self)@.request_for(account_id@, shares));
            lemma_redeem_inv(old(self)@, account_id@, shares);
        }
        let burned = self.ledger.debit(&request.account, amount);
        assert(burned is Ok);
        self.pool = pool;
        self.next_id = self.next_id + 1;
        let copy = request.clone();
        if request.legs.len() > 0 {
            let ghost before = requests_view(self.requests@);
            self.requests.push(request);
            assert(requests_view(self.requests@) =~= before.push(copy@));
        }
        proof {
            let post = old(self)@.redeem(account_id@, shares)->Ok_0.0;
            assert(self@.pool == post.pool);
            assert(self@.requests == post.requests);
            assert(self@ == post);
        }
        Ok(copy)
    }

    /// The place of the request numbered `id` among those under way.
    fn find_request(&self, id: u64) -> (place: Option<usize>)
        requires
            self.wf(),
        ensures
            match place {
                Some(j) => j < self@.requests.len() && has_request(self@.requests, id as nat)
                    && request_index(self@.requests, id as nat) == j,
                None => !has_request(self@.requests, id as nat),
            },
    {
        let mut j: usize = 0;
        while j < self.requests.len()
            invariant
                j <= self.requests@.len(),
                self.wf(),
                forall|k: int| 0 <= k < j ==> (#[trigger] self@.requests[k]).id != id,
            decreases self.requests@.len() - j,
        {
            if self.requests[j].id == id {
                proof {
                    assert(self@.requests[j as int].id == id);
                    lemma_request_index(self@.requests, j as int);
                }
                return Some(j);
            }
            assert(self@.requests[j as int].id != id);
            j += 1;
        }
        None
    }

    /// Takes in how the transfer for leg `leg` of request `request_id`
    /// ended. A payout that went through leaves custody for good. One
    /// that failed goes back to what is free to promise, and the account
    /// is credited the shares that the leg's amount is worth at the
    /// current price. Returns where the redemption stands afterwards; once
    /// no leg is pending the request is dropped. A notice for a leg that
    /// is not pending (a repeat, or a request that is gone) returns `None`
    /// and changes nothing.
    pub fn settle(&mut self, request_id: u64, leg: usize, outcome: TransferOutcome) -> (r: Result<
        Option<RedemptionStatus>,
        Error,
    >)
        requires
            old(self).wf(),
        ensures
            final(self).wf(),
            match old(self)@.settle(request_id as nat, leg as nat, outcome) {
                Ok((post, status)) => r == Ok::<Option<RedemptionStatus>, Error>(status) && final(self)@ == post,
                Err(e) => r == Err::<Option<RedemptionStatus>, Error>(e) && final(self)@ == old(self)@,
            },
    {
        let j = match self.find_request(request_id) {
            Some(j) => j,
            None => {
                return Ok(None);
            },
        };
        if leg >= self.requests[j].legs.len() {
            return Ok(None);
        }
        if self.requests[j].legs[leg].is_terminal() {
            return Ok(None);
        }
        let asset = self.requests[j].legs[leg].asset.clone();
        let amount = self.requests[j].legs[leg].amount;
        let ghost pre = self@;
        let ghost l = pre.requests[j as int].legs[leg as int];
        proof {
            assert(pre.requests[j as int] == self.requests@[j as int]@);
            assert(l == self.requests@[j as int].legs@[leg as int]@);
            assert(pre.leg_is_pending(request_id as nat, leg as nat));
            lemma_pending_total_covers(pre.requests, j as int, leg as int);
            assert(amount_of(pre.pool.reserved, l.asset) == crate::redemption::pending_total(
                pre.requests,
                l.asset,
            ));
        }
        let status = match outcome {
            TransferOutcome::Succeeded => {
                let done = self.pool.pay_out(&asset, amount);
                assert(done);
                LegStatus::Confirmed
            },
            TransferOutcome::Failed => {
                let price = self.oracle.price_of(&asset);
                proof {
                    self.ledger.lemma_wf();
                }
                let shares = match price.checked_mul(amount) {
                    Some(s) => s,
                    None => {
                        return Err(Error::ArithmeticOverflow);
                    },
                };
                let account = self.requests[j].account.clone();
                match self.ledger.credit(&account, shares) {
                    Ok(()) => {},
                    Err(_) => {
                        return Err(Error::ArithmeticOverflow);
                    },
                }
                let done = self.pool.release(&asset, amount);
                assert(done);
                LegStatus::Failed
            },
        };
        proof {
            lemma_settle_inv(pre, request_id as nat, leg as nat, outcome);
        }
        let ghost before = requests_view(self.requests@);
        let mut request = self.requests.remove(j);
        assert(requests_view(self.requests@) =~= before.remove(j as int));
        let ghost legs_before = legs_view(request.legs@);
        let mut settled = request.legs.remove(leg);
        settled.status = status;
        request.legs.insert(leg, settled);
        proof {
            assert(legs_view(request.legs@) =~= legs_before.update(
                leg as int,
                settled_leg(legs_before[leg as int], status),
            ));
            assert(request@ == settled_request(before[j as int], leg as int, status));
        }
        let now = request.status();
        let ghost after = request@;
        match now {
            RedemptionStatus::InProgress => {
                self.requests.insert(j, request);
                assert(requests_view(self.requests@) =~= before.update(j as int, after));
            },
            _ => {},
        }
        proof {
            let post = pre.settle(request_id as nat, leg as nat, outcome)->Ok_0.0;
            assert(self@.requests == filed(before, j as int, after));
            assert(self@.requests == post.requests);
            assert(self@.pool == post.pool);
            assert(self@.ledger == post.ledger);
            assert(self@ == post);
        }
        Ok(Some(now))
    }

    /// The fund made up of the given parts, as [`TknIndex::balances`] and
    /// its like hand them out; none if they do not fit together. What
    /// the pending legs ask for is reserved anew.
    #[verifier::loop_isolation(false)]
    pub fn restore(
        total_supply: u128,
        balances: &Vec<(String, u128)>,
        assets: &Vec<(String, u128)>,
        asset_prices: &Vec<(String, u128)>,
        requests: Vec<RedemptionRequest>,
        next_id: u64,
    ) -> (r: Option<TknIndex>)
        ensures
            r is Some <==> restorable(
                total_supply as nat,
                entries_view(balances@),
                entries_view(assets@),
                entries_view(asset_prices@),
                requests_view(requests@),
                next_id as nat,
            ),
            r matches Some(fund) ==> fund.wf() && fund@.ledger.total_supply == total_supply
                && fund@.ledger.balances == entries_view(balances@) && fund@.pool.pooled
                == entries_view(assets@) && fund@.prices == entries_view(asset_prices@)
                && fund@.requests == requests_view(requests@) && fund@.next_id == next_id,
            r matches Some(fund) ==> forall|asset: Seq<char>| #[trigger]
                fund@.pool.promised(asset) == pending_total(requests_view(requests@), asset),
    {
        let ledger = match AccountLedger::restore(total_supply, balances) {
            Some(ledger) => ledger,
            None => {
                return None;
            },
        };
        let mut pool = match AssetPool::restore(assets) {
            Some(pool) => pool,
            None => {
                return None;
            },
        };
        let oracle = match PriceOracleView::restore(asset_prices) {
            Some(oracle) => oracle,
            None => {
                return None;
            },
        };
        let ghost all = requests_view(requests@);
        let ghost pooled = entries_view(assets@);
        proof {
            assert forall|asset: Seq<char>| #[trigger]
                amount_of(pool@.reserved, asset) == pending_total(all.take(0), asset) by {
                assert(!has_key(pool@.reserved, asset));
                assert(all.take(0).map_values(
                    |request: RequestView| legs_pending(request.legs, asset),
                ) =~= Seq::<nat>::empty());
            }
        }
        let mut j: usize = 0;
        while j < requests.len()
            invariant
                j <= requests@.len(),
                pool.wf(),
                pool@.pooled == pooled,
                forall|asset: Seq<char>| #[trigger]
                    amount_of(pool@.reserved, asset) == pending_total(all.take(j as int), asset),
                forall|a: int, b: int|
                    0 <= a < b < j ==> (#[trigger] all[a]).id != (#[trigger] all[b]).id,
                forall|a: int| 0 <= a < j ==> (#[trigger] all[a]).id < next_id,
                forall|a: int| 0 <= a < j ==> has_pending((#[trigger] all[a]).legs),
            decreases requests@.len() - j,
        {
            assert(all[j as int] == requests@[j as int]@);
            if requests[j].id >= next_id {
                return None;
            }
            let mut a: usize = 0;
            while a < j
                invariant
                    a <= j,
                    forall|b: int| 0 <= b < a ==> (#[trigger] all[b]).id != all[j as int].id,
                decreases j - a,
            {
                assert(all[a as int] == requests@[a as int]@);
                if requests[a].id == requests[j].id {
                    return None;
                }
                a += 1;
            }
            match requests[j].status() {
                RedemptionStatus::InProgress => {},
                _ => {
                    return None;
                },
            }
            let ghost legs = all[j as int].legs;
            proof {
                assert forall|asset: Seq<char>| #[trigger]
                    amount_of(pool@.reserved, asset) == pending_total(all.take(j as int), asset)
                        + legs_pending(legs.take(0), asset) by {
                    assert(legs.take(0).map_values(|leg: LegView| pending_amount(leg, asset))
                        =~= Seq::<nat>::empty());
                }
            }
            let mut k: usize = 0;
            while k < requests[j].legs.len()
                invariant
                    k <= legs.len(),
                    legs == all[j as int].legs,
                    legs.len() == requests@[j as int].legs@.len(),
                    pool.wf(),
                    pool@.pooled == pooled,
                    forall|asset: Seq<char>| #[trigger]
                        amount_of(pool@.reserved, asset) == pending_total(
                            all.take(j as int),
                            asset,
                        ) + legs_pending(legs.take(k as int), asset),
                decreases legs.len() - k,
            {
                let ghost before = pool@;
                let ghost leg = legs[k as int];
                assert(leg == requests@[j as int].legs@[k as int]@);
                proof {
                    pool.lemma_wf();
                    assert(amount_of(before.reserved, leg.asset) <= amount_of(
                        before.pooled,
                        leg.asset,
                    ));
                }
                if !requests[j].legs[k].is_terminal() {
                    match pool.reserve(&requests[j].legs[k].asset, requests[j].legs[k].amount) {
                        Ok(()) => {
                            proof {
                                lemma_with_reservation(before, leg.asset, leg.amount);
                            }
                        },
                        Err(_) => {
                            proof {
                                lemma_legs_pending_take_step(legs, k as int, leg.asset);
                                lemma_pending_total_take_step(all, j as int, leg.asset);
                                assert(amount_of(before.reserved, leg.asset) == pending_total(
                                    all.take(j as int),
                                    leg.asset,
                                ) + legs_pending(legs.take(k as int), leg.asset));
                                assert(pending_total(all, leg.asset) > amount_of(
                                    pooled,
                                    leg.asset,
                                ));
                            }
                            return None;
                        },
                    }
                }
                proof {
                    assert forall|asset: Seq<char>| #[trigger]
                        amount_of(pool@.reserved, asset) == pending_total(
                            all.take(j as int),
                            asset,
                        ) + legs_pending(legs.take(k + 1), asset) by {
                        lemma_legs_pending_take_step(legs, k as int, asset);
                        assert(amount_of(before.reserved, asset) == pending_total(
                            all.take(j as int),
                            asset,
                        ) + legs_pending(legs.take(k as int), asset));
                        if leg.status == LegStatus::Pending && asset != leg.asset {
                            assert(before.with_reservation(leg.asset, leg.amount).promised(asset)
                                == before.promised(asset));
                        }
                    }
                }
                k += 1;
            }
            proof {
                assert(legs.take(k as int) =~= legs);
                assert forall|asset: Seq<char>| #[trigger]
                    amount_of(pool@.reserved, asset) == pending_total(all.take(j + 1), asset) by {
                    lemma_pending_total_take_step(all, j as int, asset);
                    assert(amount_of(pool@.reserved, asset) == pending_total(
                        all.take(j as int),
                        asset,
                    ) + legs_pending(legs.take(k as int), asset));
                }
            }
            j += 1;
        }
        proof {
            assert(all.take(j as int) =~= all);
            pool.lemma_wf();
            assert forall|asset: Seq<char>| #[trigger]
                pending_total(all, asset) <= amount_of(pooled, asset) by {
                assert(amount_of(pool@.reserved, asset) == pending_total(all, asset));
                assert(amount_of(pool@.reserved, asset) <= amount_of(pool@.pooled, asset));
            }
            ledger.lemma_wf();
            oracle.lemma_wf();
        }
        let fund = TknIndex { oracle, ledger, pool, requests, next_id };
        proof {
            assert forall|asset: Seq<char>| #[trigger]
                fund@.pool.promised(asset) == pending_total(all, asset) by {
                assert(amount_of(pool@.reserved, asset) == pending_total(all, asset));
            }
        }
        Some(fund)
    }

    /// Every account with its balance, in the order accounts first came in.
    pub fn balances(&self) -> (list: Vec<(String, u128)>)
        requires
            self.wf(),
        ensures
            entries_view(list@) == self@.ledger.balances,
    {
        self.ledger.entries()
    }

    /// Every pooled asset with the quantity in custody, in the order
    /// assets first came in.
    pub fn assets(&self) -> (list: Vec<(String, u128)>)
        requires
            self.wf(),
        ensures
            entries_view(list@) == self@.pool.pooled,
    {
        self.pool.entries()
    }

    /// Every priced asset with its price.
    pub fn asset_prices(&self) -> (list: Vec<(String, u128)>)
        requires
            self.wf(),
        ensures
            entries_view(list@) == self@.prices,
    {
        self.oracle.entries()
    }

    /// The number the next redemption gets.
    pub fn next_request_id(&self) -> (id: u64)
        requires
            self.wf(),
        ensures
            id == self@.next_id,
    {
        self.next_id
    }

    /// Copies of all redemptions under way, oldest first.
    pub fn requests(&self) -> (list: Vec<RedemptionRequest>)
        requires
            self.wf(),
        ensures
            requests_view(list@) == self@.requests,
    {
        let mut list: Vec<RedemptionRequest> = Vec::new();
        let mut i: usize = 0;
        while i < self.requests.len()
            invariant
                i <= self.requests@.len(),
                requests_view(list@) == requests_view(self.requests@).take(i as int),
            decreases self.requests@.len() - i,
        {
            let ghost before = requests_view(list@);
            let copy = self.requests[i].clone();
            list.push(copy);
            assert(requests_view(list@) =~= before.push(self.requests@[i as int]@));
            assert(requests_view(self.requests@).take(i + 1) =~= before.push(
                self.requests@[i as int]@,
            ));
            i += 1;
        }
        assert(requests_view(self.requests@).take(i as int) =~= requests_view(self.requests@));
        list
    }

    /// How many redemptions are under way.
    pub fn open_requests(&self) -> (n: usize)
        requires
            self.wf(),
        ensures
            n == self@.requests.len(),
    {
        self.requests.len()
    }

    /// A copy of the redemption under way at place `i`, oldest first.
    pub fn request_at(&self, i: usize) -> (request: RedemptionRequest)
        requires
            self.wf(),
            i < self@.requests.len(),
        ensures
            request@ == self@.requests[i as int],
    {
        self.requests[i].clone()
    }
}

impl Default for TknIndex {
    fn default() -> (fund: TknIndex)
        ensures
            fund.wf(),
            fund@ == FundView::empty(),
    {
        TknIndex::new()
    }
}

} // verus!
