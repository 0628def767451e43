//! The fund as a mathematical state machine: its state as plain numbers
//! and sequences, what each operation makes of a state, and the invariant
//! that every operation keeps.

use vstd::prelude::*;
use crate::arith::pro_rata;
use crate::error::Error;
use crate::gateway::TransferOutcome;
use crate::ledger::{LedgerView, lemma_credited, lemma_debited};
use crate::oracle::price_in;
use crate::pool::{PoolView, lemma_with_deposit, lemma_with_payout, lemma_with_release};
use crate::redemption::{LegStatus, LegView, RedemptionStatus, RequestView, has_pending,
    legs_pending, pending_amount, pending_total, settled_request, status_of,
    lemma_legs_pending_push, lemma_legs_pending_settled, lemma_legs_pending_none,
    lemma_pending_total_push, lemma_pending_total_update, lemma_pending_total_remove,
    lemma_pending_total_covers};
use crate::table::{Entries, amount_of, distinct_keys, has_key, position, put, total_of,
    lemma_position, lemma_put};

verus! {

/// A deposit basket is accepted only if it holds something and no amount
/// in it is zero.
pub open spec fn valid_basket(basket: Entries) -> bool {
    &&& basket.len() > 0
    &&& forall|i: int| 0 <= i < basket.len() ==> (#[trigger] basket[i]).1 > 0
}

/// What `basket` is worth at `prices`: price times amount, summed.
pub open spec fn basket_value(prices: Entries, basket: Entries) -> nat
    decreases basket.len(),
{
    if basket.len() == 0 {
        0
    } else {
        basket_value(prices, basket.drop_last()) + price_in(prices, basket.last().0)
            * basket.last().1
    }
}

/// How much of `asset` the `basket` brings, over all its entries.
pub open spec fn basket_amount(basket: Entries, asset: Seq<char>) -> nat
    decreases basket.len(),
{
    if basket.len() == 0 {
        0
    } else {
        basket_amount(basket.drop_last(), asset) + if basket.last().0 == asset {
            basket.last().1
        } else {
            0
        }
    }
}

/// The pool after every entry of `basket` was deposited, in order.
pub open spec fn deposit_all(pool: PoolView, basket: Entries) -> PoolView
    decreases basket.len(),
{
    if basket.len() == 0 {
        pool
    } else {
        deposit_all(pool, basket.drop_last()).with_deposit(basket.last().0, basket.last().1)
    }
}

/// The payout legs of a redemption of `shares` out of `supply`: one per
/// pooled asset, in the pool's order, for the pro-rata part of what is
/// pooled; assets whose part rounds down to nothing get no leg.
pub open spec fn legs_for(pooled: Entries, shares: nat, supply: nat) -> Seq<LegView>
    decreases pooled.len(),
{
    if pooled.len() == 0 {
        Seq::empty()
    } else {
        let before = legs_for(pooled.drop_last(), shares, supply);
        let amount = pro_rata(pooled.last().1, shares, supply);
        if amount > 0 {
            before.push(LegView { asset: pooled.last().0, amount, status: LegStatus::Pending })
        } else {
            before
        }
    }
}

/// The reservations after each of `legs` reserved its amount, in order.
pub open spec fn reserve_all(reserved: Entries, legs: Seq<LegView>) -> Entries
    decreases legs.len(),
{
    if legs.len() == 0 {
        reserved
    } else {
        let before = reserve_all(reserved, legs.drop_last());
        put(before, legs.last().asset, amount_of(before, legs.last().asset) + legs.last().amount)
    }
}

/// Whether some asset has less free to promise than a redemption of
/// `shares` out of `supply` would take of it.
pub open spec fn contended(pool: PoolView, shares: nat, supply: nat) -> bool {
    exists|i: int|
        0 <= i < pool.pooled.len() && pool.promised((#[trigger] pool.pooled[i]).0) + pro_rata(
            pool.pooled[i].1,
            shares,
            supply,
        ) > pool.pooled[i].1
}

pub open spec fn has_request(requests: Seq<RequestView>, id: nat) -> bool {
    exists|j: int| 0 <= j < requests.len() && (#[trigger] requests[j]).id == id
}

/// Where the request numbered `id` stands (meaningful only if there is one).
pub open spec fn request_index(requests: Seq<RequestView>, id: nat) -> int {
    choose|j: int| 0 <= j < requests.len() && (#[trigger] requests[j]).id == id
}

/// The requests after the one at `j` became `request`: it stays while a
/// leg of it is pending and is dropped once none is.
pub open spec fn filed(requests: Seq<RequestView>, j: int, request: RequestView) -> Seq<
    RequestView,
> {
    if has_pending(request.legs) {
        requests.update(j, request)
    } else {
        requests.remove(j)
    }
}

/// The whole state of the fund.
pub struct FundView {
    pub ledger: LedgerView,
    pub pool: PoolView,
    pub prices: Entries,
    /// The redemptions under way, oldest first.
    pub requests: Seq<RequestView>,
    /// The number the next redemption gets.
    pub next_id: nat,
}

impl FundView {
    /// The fund before anything happened.
    pub open spec fn empty() -> FundView {
        FundView {
            ledger: LedgerView { total_supply: 0, balances: Seq::empty() },
            pool: PoolView { pooled: Seq::empty(), reserved: Seq::empty() },
            prices: Seq::empty(),
            requests: Seq::empty(),
            next_id: 0,
        }
    }

    /// What holds of the fund at all times.
    pub open spec fn inv(self) -> bool {
        &&& self.ledger.balanced()
        &&& self.pool.covered()
        &&& distinct_keys(self.prices)
        &&& forall|asset: Seq<char>|
            #![trigger amount_of(self.pool.reserved, asset)]
            #![trigger pending_total(self.requests, asset)]
            amount_of(self.pool.reserved, asset) == pending_total(self.requests, asset)
        &&& forall|i: int, j: int|
            0 <= i < j < self.requests.len() ==> (#[trigger] self.requests[i]).id != (
            #[trigger] self.requests[j]).id
        &&& forall|i: int|
            0 <= i < self.requests.len() ==> (#[trigger] self.requests[i]).id < self.next_id
        &&& forall|i: int|
            0 <= i < self.requests.len() ==> has_pending((#[trigger] self.requests[i]).legs)
    }

    pub open spec fn set_price(self, asset: Seq<char>, price: nat) -> FundView {
        FundView { prices: put(self.prices, asset, price), ..self }
    }

    /// Whether minting for `basket` would take a quantity past 128 bits.
    pub open spec fn mint_overflows(self, basket: Entries) -> bool {
        ||| self.ledger.total_supply + basket_value(self.prices, basket) > u128::MAX
        ||| exists|asset: Seq<char>|
            self.pool.quantity(asset) + #[trigger] basket_amount(basket, asset) > u128::MAX
    }

    /// Minting: the basket goes into the pool, and its value at current
    /// prices comes out as new shares for `account`.
    pub open spec fn mint(self, account: Seq<char>, basket: Entries) -> Result<FundView, Error> {
        if !valid_basket(basket) {
            Err(Error::InvalidDeposit)
        } else if self.mint_overflows(basket) {
            Err(Error::ArithmeticOverflow)
        } else {
            Ok(
                FundView {
                    ledger: self.ledger.credited(account, basket_value(self.prices, basket)),
                    pool: deposit_all(self.pool, basket),
                    ..self
                },
            )
        }
    }

    /// The request that a redemption of `shares` by `account` opens.
    pub open spec fn request_for(self, account: Seq<char>, shares: nat) -> RequestView {
        RequestView {
            id: self.next_id,
            account,
            shares_burned: shares,
            legs: legs_for(self.pool.pooled, shares, self.ledger.total_supply),
        }
    }

    /// Starting a redemption: the legs are reserved in the pool and the
    /// shares are burned, all before any transfer goes out. A request with
    /// no leg is complete at once and is not kept.
    pub open spec fn redeem(self, account: Seq<char>, shares: nat) -> Result<
        (FundView, RequestView),
        Error,
    > {
        if self.ledger.balance(account) < shares {
            Err(Error::InsufficientBalance)
        } else if contended(self.pool, shares, self.ledger.total_supply) {
            Err(Error::PoolContention)
        } else if self.next_id >= u64::MAX {
            Err(Error::ArithmeticOverflow)
        } else {
            let request = self.request_for(account, shares);
            Ok(
                (
                    FundView {
                        ledger: self.ledger.debited(account, shares),
                        pool: PoolView {
                            reserved: reserve_all(self.pool.reserved, request.legs),
                            ..self.pool
                        },
                        requests: if request.legs.len() > 0 {
                            self.requests.push(request)
                        } else {
                            self.requests
                        },
                        next_id: self.next_id + 1,
                        ..self
                    },
                    request,
                ),
            )
        }
    }

    /// Whether leg `leg` of request `id` is there and still pending.
    pub open spec fn leg_is_pending(self, id: nat, leg: nat) -> bool {
        &&& has_request(self.requests, id)
        &&& leg < self.requests[request_index(self.requests, id)].legs.len()
        &&& self.requests[request_index(self.requests, id)].legs[leg as int].status
            == LegStatus::Pending
    }

    /// The shares that make up for the failed leg `leg` of request `id`:
    /// what the leg's amount is worth at the current price.
    pub open spec fn compensation(self, id: nat, leg: nat) -> nat {
        let l = self.requests[request_index(self.requests, id)].legs[leg as int];
        price_in(self.prices, l.asset) * l.amount
    }

    /// Taking in how the transfer for one leg ended. A notice for a leg
    /// that is not pending changes nothing.
    pub open spec fn settle(self, id: nat, leg: nat, outcome: TransferOutcome) -> Result<
        (FundView, Option<RedemptionStatus>),
        Error,
    > {
        if !self.leg_is_pending(id, leg) {
            Ok((self, None))
        } else {
            let j = request_index(self.requests, id);
            let request = self.requests[j];
            let l = request.legs[leg as int];
            match outcome {
                TransferOutcome::Succeeded => {
                    let after = settled_request(request, leg as int, LegStatus::Confirmed);
                    Ok(
                        (
                            FundView {
                                pool: self.pool.with_payout(l.asset, l.amount),
                                requests: filed(self.requests, j, after),
                                ..self
                            },
                            Some(status_of(after.legs)),
                        ),
                    )
                },
                TransferOutcome::Failed => {
                    if self.ledger.total_supply + self.compensation(id, leg) > u128::MAX {
                        Err(Error::ArithmeticOverflow)
                    } else {
                        let after = settled_request(request, leg as int, LegStatus::Failed);
                        Ok(
                            (
                                FundView {
                                    ledger: self.ledger.credited(
                                        request.account,
                                        self.compensation(id, leg),
                                    ),
                                    pool: self.pool.with_release(l.asset, l.amount),
                                    requests: filed(self.requests, j, after),
                                    ..self
                                },
                                Some(status_of(after.legs)),
                            ),
                        )
                    }
                },
            }
        }
    }
}

/// Whether the given parts make up a state of the fund: every name once,
/// the supply the sum of the balances, every request numbered apart and
/// below the next number and with a leg pending, and no more pending of
/// any asset than is pooled.
pub open spec fn restorable(
    total_supply: nat,
    balances: Entries,
    pooled: Entries,
    prices: Entries,
    requests: Seq<RequestView>,
    next_id: nat,
) -> bool {
    &&& distinct_keys(balances)
    &&& total_supply == total_of(balances)
    &&& distinct_keys(pooled)
    &&& distinct_keys(prices)
    &&& forall|i: int, j: int|
        0 <= i < j < requests.len() ==> (#[trigger] requests[i]).id != (#[trigger] requests[j]).id
    &&& forall|i: int| 0 <= i < requests.len() ==> (#[trigger] requests[i]).id < next_id
    &&& forall|i: int| 0 <= i < requests.len() ==> has_pending((#[trigger] requests[i]).legs)
    &&& forall|asset: Seq<char>| #[trigger]
        pending_total(requests, asset) <= amount_of(pooled, asset)
}

/// The parts of any state within the invariant make up a state again.
pub proof fn lemma_state_is_restorable(s: FundView)
    requires
        s.inv(),
    ensures
        restorable(
            s.ledger.total_supply,
            s.ledger.balances,
            s.pool.pooled,
            s.prices,
            s.requests,
            s.next_id,
        ),
{
    assert forall|asset: Seq<char>| #[trigger]
        pending_total(s.requests, asset) <= amount_of(s.pool.pooled, asset) by {
        assert(amount_of(s.pool.reserved, asset) == pending_total(s.requests, asset));
        assert(amount_of(s.pool.reserved, asset) <= amount_of(s.pool.pooled, asset));
    }
}

pub proof fn lemma_basket_value_prefix(prices: Entries, basket: Entries, n: int)
    requires
        0 <= n <= basket.len(),
    ensures
        basket_value(prices, basket.take(n)) <= basket_value(prices, basket),
    decreases basket.len(),
{
    if n == basket.len() {
        assert(basket.take(n) =~= basket);
    } else {
        lemma_basket_value_prefix(prices, basket.drop_last(), n);
        assert(basket.drop_last().take(n) =~= basket.take(n));
    }
}

pub proof fn lemma_basket_amount_prefix(basket: Entries, asset: Seq<char>, n: int)
    requires
        0 <= n <= basket.len(),
    ensures
        basket_amount(basket.take(n), asset) <= basket_amount(basket, asset),
    decreases basket.len(),
{
    if n == basket.len() {
        assert(basket.take(n) =~= basket);
    } else {
        lemma_basket_amount_prefix(basket.drop_last(), asset, n);
        assert(basket.drop_last().take(n) =~= basket.take(n));
    }
}

/// Deposits add up per asset, touch no reservation, and keep every
/// promise covered.
pub proof fn lemma_deposit_all(pool: PoolView, basket: Entries, asset: Seq<char>)
    requires
        pool.covered(),
    ensures
        deposit_all(pool, basket).covered(),
        deposit_all(pool, basket).reserved == pool.reserved,
        deposit_all(pool, basket).quantity(asset) == pool.quantity(asset) + basket_amount(
            basket,
            asset,
        ),
    decreases basket.len(),
{
    if basket.len() > 0 {
        lemma_deposit_all(pool, basket.drop_last(), asset);
        lemma_with_deposit(
            deposit_all(pool, basket.drop_last()),
            basket.last().0,
            basket.last().1,
        );
    }
}

/// What the legs of a redemption take of `asset`: its pro-rata part if it
/// is pooled, nothing otherwise. Every leg is pending.
pub proof fn lemma_legs_for(pooled: Entries, shares: nat, supply: nat, asset: Seq<char>)
    requires
        distinct_keys(pooled),
    ensures
        legs_pending(legs_for(pooled, shares, supply), asset) == (if has_key(pooled, asset) {
            pro_rata(amount_of(pooled, asset), shares, supply)
        } else {
            0
        }),
        forall|i: int|
            0 <= i < legs_for(pooled, shares, supply).len() ==> (#[trigger] legs_for(
                pooled,
                shares,
                supply,
            )[i]).status == LegStatus::Pending,
        forall|i: int|
            0 <= i < legs_for(pooled, shares, supply).len() ==> (#[trigger] legs_for(
                pooled,
                shares,
                supply,
            )[i]).amount > 0,
    decreases pooled.len(),
{
    if pooled.len() == 0 {
        assert(legs_for(pooled, shares, supply).map_values(
            |leg: LegView| pending_amount(leg, asset),
        ) =~= Seq::<nat>::empty());
    } else {
        let rest = pooled.drop_last();
        let last = pooled.last();
        let n = pooled.len() - 1;
        assert(distinct_keys(rest)) by {
            assert forall|i: int, j: int| 0 <= i < j < rest.len() implies (#[trigger] rest[i]).0
                != (#[trigger] rest[j]).0 by {
                assert(pooled[i].0 != pooled[j].0);
            }
        }
        lemma_legs_for(rest, shares, supply, asset);
        let before = legs_for(rest, shares, supply);
        let amount = pro_rata(last.1, shares, supply);
        let leg = LegView { asset: last.0, amount, status: LegStatus::Pending };
        if amount > 0 {
            lemma_legs_pending_push(before, leg, asset);
        }
        if last.0 == asset {
            lemma_position(pooled, asset, n);
            if has_key(rest, asset) {
                let k = position(rest, asset);
                assert(pooled[k].0 != pooled[n].0);
            }
        } else {
            if has_key(pooled, asset) {
                let k = position(pooled, asset);
                assert(rest[k] == pooled[k]);
                lemma_position(rest, asset, k);
            }
            if has_key(rest, asset) {
                let k = position(rest, asset);
                assert(pooled[k] == rest[k]);
                lemma_position(pooled, asset, k);
            }
        }
    }
}

/// Reserving pending legs adds, per asset, what the legs take of it.
pub proof fn lemma_reserve_all(reserved: Entries, legs: Seq<LegView>, asset: Seq<char>)
    requires
        distinct_keys(reserved),
        forall|i: int| 0 <= i < legs.len() ==> (#[trigger] legs[i]).status == LegStatus::Pending,
    ensures
        distinct_keys(reserve_all(reserved, legs)),
        amount_of(reserve_all(reserved, legs), asset) == amount_of(reserved, asset)
            + legs_pending(legs, asset),
    decreases legs.len(),
{
    if legs.len() == 0 {
        assert(legs.map_values(|leg: LegView| pending_amount(leg, asset)) =~= Seq::<
            nat,
        >::empty());
    } else {
        let rest = legs.drop_last();
        let last = legs.last();
        lemma_reserve_all(reserved, rest, asset);
        lemma_reserve_all(reserved, rest, last.asset);
        let before = reserve_all(reserved, rest);
        lemma_put(before, last.asset, amount_of(before, last.asset) + last.amount);
        lemma_legs_pending_push(rest, last, asset);
        assert(rest.push(last) =~= legs);
    }
}

pub proof fn lemma_request_index(requests: Seq<RequestView>, j: int)
    requires
        0 <= j < requests.len(),
        forall|a: int, b: int|
            0 <= a < b < requests.len() ==> (#[trigger] requests[a]).id != (
            #[trigger] requests[b]).id,
    ensures
        has_request(requests, requests[j].id),
        request_index(requests, requests[j].id) == j,
{
    let k = request_index(requests, requests[j].id);
    if k < j {
        assert(requests[k].id != requests[j].id);
    }
    if j < k {
        assert(requests[j].id != requests[k].id);
    }
}

pub proof fn lemma_empty_inv()
    ensures
        FundView::empty().inv(),
{
    let s = FundView::empty();
    assert(crate::table::amounts(s.ledger.balances) =~= Seq::<nat>::empty());
    assert forall|asset: Seq<char>|
        amount_of(s.pool.reserved, asset) == pending_total(s.requests, asset) by {
        assert(s.requests.map_values(|request: RequestView| legs_pending(request.legs, asset))
            =~= Seq::<nat>::empty());
    }
}

pub proof fn lemma_set_price_inv(s: FundView, asset: Seq<char>, price: nat)
    requires
        s.inv(),
    ensures
        s.set_price(asset, price).inv(),
{
    lemma_put(s.prices, asset, price);
}

pub proof fn lemma_mint_inv(s: FundView, account: Seq<char>, basket: Entries)
    requires
        s.inv(),
        s.mint(account, basket) is Ok,
    ensures
        s.mint(account, basket)->Ok_0.inv(),
{
    let post = s.mint(account, basket)->Ok_0;
    lemma_credited(s.ledger, account, basket_value(s.prices, basket));
    lemma_deposit_all(s.pool, basket, Seq::empty());
    assert forall|asset: Seq<char>|
        amount_of(post.pool.reserved, asset) == pending_total(post.requests, asset) by {
        assert(amount_of(s.pool.reserved, asset) == pending_total(s.requests, asset));
    }
}

pub proof fn lemma_redeem_inv(s: FundView, account: Seq<char>, shares: nat)
    requires
        s.inv(),
        s.redeem(account, shares) is Ok,
    ensures
        s.redeem(account, shares)->Ok_0.0.inv(),
{
    let post = s.redeem(account, shares)->Ok_0.0;
    let request = s.request_for(account, shares);
    let supply = s.ledger.total_supply;
    lemma_debited(s.ledger, account, shares);
    lemma_legs_for(s.pool.pooled, shares, supply, Seq::empty());
    lemma_reserve_all(s.pool.reserved, request.legs, Seq::empty());
    assert forall|asset: Seq<char>|
        #![trigger amount_of(post.pool.reserved, asset)]
        amount_of(post.pool.reserved, asset) == pending_total(post.requests, asset) && amount_of(
            post.pool.reserved,
            asset,
        ) <= amount_of(post.pool.pooled, asset) by {
        lemma_legs_for(s.pool.pooled, shares, supply, asset);
        lemma_reserve_all(s.pool.reserved, request.legs, asset);
        assert(amount_of(s.pool.reserved, asset) == pending_total(s.requests, asset));
        assert(amount_of(s.pool.reserved, asset) <= amount_of(s.pool.pooled, asset));
        if request.legs.len() > 0 {
            lemma_pending_total_push(s.requests, request, asset);
        } else {
            assert(request.legs.map_values(|leg: LegView| pending_amount(leg, asset)) =~= Seq::<
                nat,
            >::empty());
        }
        if has_key(s.pool.pooled, asset) {
            let i = position(s.pool.pooled, asset);
            assert(s.pool.pooled[i].0 == asset);
        }
    }
    if request.legs.len() > 0 {
        assert(request.legs[0].status == LegStatus::Pending);
        assert(has_pending(request.legs));
    }
}

/// What a notice for a pending leg makes of the requests: the leg's
/// amount is no longer pending for its asset, everything else is.
pub proof fn lemma_filed_pending(
    requests: Seq<RequestView>,
    j: int,
    leg: int,
    status: LegStatus,
    asset: Seq<char>,
)
    requires
        0 <= j < requests.len(),
        0 <= leg < requests[j].legs.len(),
        requests[j].legs[leg].status == LegStatus::Pending,
        status != LegStatus::Pending,
    ensures
        pending_total(filed(requests, j, settled_request(requests[j], leg, status)), asset)
            + pending_amount(requests[j].legs[leg], asset) == pending_total(requests, asset),
{
    let after = settled_request(requests[j], leg, status);
    lemma_legs_pending_settled(requests[j].legs, leg, status, asset);
    if has_pending(after.legs) {
        lemma_pending_total_update(requests, j, after, asset);
    } else {
        lemma_pending_total_remove(requests, j, asset);
        lemma_legs_pending_none(after.legs, asset);
    }
}

pub proof fn lemma_settle_inv(s: FundView, id: nat, leg: nat, outcome: TransferOutcome)
    requires
        s.inv(),
        s.settle(id, leg, outcome) is Ok,
    ensures
        s.settle(id, leg, outcome)->Ok_0.0.inv(),
{
    if s.leg_is_pending(id, leg) {
        let post = s.settle(id, leg, outcome)->Ok_0.0;
        let j = request_index(s.requests, id);
        let request = s.requests[j];
        let l = request.legs[leg as int];
        let status = match outcome {
            TransferOutcome::Succeeded => LegStatus::Confirmed,
            TransferOutcome::Failed => LegStatus::Failed,
        };
        let after = settled_request(request, leg as int, status);
        assert(post.requests == filed(s.requests, j, after));
        lemma_pending_total_covers(s.requests, j, leg as int);
        assert(amount_of(s.pool.reserved, l.asset) == pending_total(s.requests, l.asset));
        match outcome {
            TransferOutcome::Succeeded => {
                lemma_with_payout(s.pool, l.asset, l.amount);
            },
            TransferOutcome::Failed => {
                lemma_with_release(s.pool, l.asset, l.amount);
                lemma_credited(s.ledger, request.account, s.compensation(id, leg));
            },
        }
        assert forall|asset: Seq<char>|
            amount_of(post.pool.reserved, asset) == pending_total(post.requests, asset) by {
            lemma_filed_pending(s.requests, j, leg as int, status, asset);
            assert(amount_of(s.pool.reserved, asset) == pending_total(s.requests, asset));
            if asset != l.asset {
                assert(post.pool.promised(asset) == s.pool.promised(asset));
            }
        }
        if has_pending(after.legs) {
            assert forall|a: int| 0 <= a < post.requests.len() implies (
            #[trigger] post.requests[a]).id == s.requests[a].id by {}
        } else {
            assert forall|a: int| 0 <= a < post.requests.len() implies (
            #[trigger] post.requests[a]) == s.requests[if a < j {
                a
            } else {
                a + 1
            }] by {}
        }
    }
}

} // verus!
