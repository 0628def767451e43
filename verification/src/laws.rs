//! What holds of the fund whatever is done to it, stated over histories
//! of operations and proved from the model.

use vstd::prelude::*;
use crate::arith::{pro_rata, lemma_pro_rata_whole};
use crate::error::Error;
use crate::gateway::TransferOutcome;
use crate::model::{FundView, basket_amount, contended, filed, has_request, legs_for,
    request_index, lemma_deposit_all, lemma_empty_inv, lemma_legs_for, lemma_mint_inv,
    lemma_redeem_inv, lemma_request_index, lemma_set_price_inv, lemma_settle_inv};
use crate::pool::lemma_with_payout;
use crate::redemption::{LegStatus, RequestView, has_pending, legs_pending,
    pending_total, settled_request, lemma_pending_total_covers};
use crate::table::{Entries, amount_of, distinct_keys, has_key, position, total_of,
    lemma_position};

verus! {

/// One thing that can be done to the fund.
pub enum Event {
    SetPrice { asset: Seq<char>, price: nat },
    Mint { account: Seq<char>, basket: Entries },
    Redeem { account: Seq<char>, shares: nat },
    Settle { request: nat, leg: nat, outcome: TransferOutcome },
}

/// The state after `event`; an operation that is turned down leaves the
/// state as it was.
pub open spec fn apply(s: FundView, event: Event) -> FundView {
    match event {
        Event::SetPrice { asset, price } => s.set_price(asset, price),
        Event::Mint { account, basket } => match s.mint(account, basket) {
            Ok(post) => post,
            Err(_) => s,
        },
        Event::Redeem { account, shares } => match s.redeem(account, shares) {
            Ok(done) => done.0,
            Err(_) => s,
        },
        Event::Settle { request, leg, outcome } => match s.settle(request, leg, outcome) {
            Ok(done) => done.0,
            Err(_) => s,
        },
    }
}

/// The state that `events` lead to from the empty fund.
pub open spec fn replay(events: Seq<Event>) -> FundView
    decreases events.len(),
{
    if events.len() == 0 {
        FundView::empty()
    } else {
        apply(replay(events.drop_last()), events.last())
    }
}

/// What `event`, happening in state `s`, brings into the pool of `asset`.
pub open spec fn deposited_by(s: FundView, event: Event, asset: Seq<char>) -> nat {
    match event {
        Event::Mint { account, basket } => if s.mint(account, basket) is Ok {
            basket_amount(basket, asset)
        } else {
            0
        },
        _ => 0,
    }
}

/// What `event`, happening in state `s`, pays out of `asset` for good:
/// the amount of a pending leg whose transfer went through.
pub open spec fn paid_out_by(s: FundView, event: Event, asset: Seq<char>) -> nat {
    match event {
        Event::Settle { request, leg, outcome } => if outcome == TransferOutcome::Succeeded
            && s.leg_is_pending(request, leg) && s.requests[request_index(
            s.requests,
            request,
        )].legs[leg as int].asset == asset {
            s.requests[request_index(s.requests, request)].legs[leg as int].amount
        } else {
            0
        },
        _ => 0,
    }
}

/// All that `events` deposited of `asset`.
pub open spec fn deposits(events: Seq<Event>, asset: Seq<char>) -> nat
    decreases events.len(),
{
    if events.len() == 0 {
        0
    } else {
        deposits(events.drop_last(), asset) + deposited_by(
            replay(events.drop_last()),
            events.last(),
            asset,
        )
    }
}

/// All that `events` paid out of `asset` in confirmed legs.
pub open spec fn payouts(events: Seq<Event>, asset: Seq<char>) -> nat
    decreases events.len(),
{
    if events.len() == 0 {
        0
    } else {
        payouts(events.drop_last(), asset) + paid_out_by(
            replay(events.drop_last()),
            events.last(),
            asset,
        )
    }
}

/// No operation, accepted or turned down, leads out of the invariant.
pub proof fn lemma_step_keeps_invariant(s: FundView, event: Event)
    requires
        s.inv(),
    ensures
        apply(s, event).inv(),
{
    match event {
        Event::SetPrice { asset, price } => {
            lemma_set_price_inv(s, asset, price);
        },
        Event::Mint { account, basket } => {
            if s.mint(account, basket) is Ok {
                lemma_mint_inv(s, account, basket);
            }
        },
        Event::Redeem { account, shares } => {
            if s.redeem(account, shares) is Ok {
                lemma_redeem_inv(s, account, shares);
            }
        },
        Event::Settle { request, leg, outcome } => {
            if s.settle(request, leg, outcome) is Ok {
                lemma_settle_inv(s, request, leg, outcome);
            }
        },
    }
}

/// Every state that can be reached satisfies the invariant.
pub proof fn lemma_reachable_invariant(events: Seq<Event>)
    ensures
        replay(events).inv(),
    decreases events.len(),
{
    if events.len() == 0 {
        lemma_empty_inv();
    } else {
        lemma_reachable_invariant(events.drop_last());
        lemma_step_keeps_invariant(replay(events.drop_last()), events.last());
    }
}

/// In every state that can be reached, the total supply is the sum of all
/// share balances.
pub proof fn lemma_supply_is_sum_of_balances(events: Seq<Event>)
    ensures
        replay(events).ledger.total_supply == total_of(replay(events).ledger.balances),
{
    lemma_reachable_invariant(events);
}

/// In every state that can be reached, no more of an asset is promised to
/// redemptions than the pool holds of it, and what is promised is what
/// the pending legs ask for.
pub proof fn lemma_promises_are_covered(events: Seq<Event>, asset: Seq<char>)
    ensures
        replay(events).pool.promised(asset) <= replay(events).pool.quantity(asset),
        replay(events).pool.promised(asset) == pending_total(replay(events).requests, asset),
{
    lemma_reachable_invariant(events);
    let s = replay(events);
    assert(amount_of(s.pool.reserved, asset) <= amount_of(s.pool.pooled, asset));
    assert(amount_of(s.pool.reserved, asset) == pending_total(s.requests, asset));
}

/// One operation moves the pooled quantity of an asset by what it
/// deposits less what it pays out, whatever else it does.
pub proof fn lemma_step_moves_pool(s: FundView, event: Event, asset: Seq<char>)
    requires
        s.inv(),
    ensures
        apply(s, event).pool.quantity(asset) + paid_out_by(s, event, asset) == s.pool.quantity(
            asset,
        ) + deposited_by(s, event, asset),
{
    match event {
        Event::SetPrice { asset: a, price } => {},
        Event::Mint { account, basket } => {
            if s.mint(account, basket) is Ok {
                lemma_deposit_all(s.pool, basket, asset);
            }
        },
        Event::Redeem { account, shares } => {},
        Event::Settle { request, leg, outcome } => {
            if s.settle(request, leg, outcome) is Ok && s.leg_is_pending(request, leg) {
                let j = request_index(s.requests, request);
                let l = s.requests[j].legs[leg as int];
                lemma_pending_total_covers(s.requests, j, leg as int);
                assert(amount_of(s.pool.reserved, l.asset) == pending_total(s.requests, l.asset));
                match outcome {
                    TransferOutcome::Succeeded => {
                        lemma_with_payout(s.pool, l.asset, l.amount);
                        if asset != l.asset {
                            assert(s.pool.with_payout(l.asset, l.amount).quantity(asset)
                                == s.pool.quantity(asset));
                        }
                    },
                    TransferOutcome::Failed => {},
                }
            }
        },
    }
}

/// In every state that can be reached, the pooled quantity of an asset is
/// all that was deposited of it less all that confirmed legs paid out.
/// Failed legs and the shares that make up for them do not enter into it.
pub proof fn lemma_pool_is_deposits_less_payouts(events: Seq<Event>, asset: Seq<char>)
    ensures
        replay(events).pool.quantity(asset) + payouts(events, asset) == deposits(events, asset),
    decreases events.len(),
{
    if events.len() == 0 {
        assert(!has_key(FundView::empty().pool.pooled, asset));
    } else {
        lemma_pool_is_deposits_less_payouts(events.drop_last(), asset);
        lemma_reachable_invariant(events.drop_last());
        lemma_step_moves_pool(replay(events.drop_last()), events.last(), asset);
    }
}

/// Each leg of a redemption is for a pooled asset and for the pro-rata
/// part of what is pooled of it.
pub proof fn lemma_leg_is_pro_rata(pooled: Entries, shares: nat, supply: nat, i: int)
    requires
        distinct_keys(pooled),
        0 <= i < legs_for(pooled, shares, supply).len(),
    ensures
        has_key(pooled, legs_for(pooled, shares, supply)[i].asset),
        legs_for(pooled, shares, supply)[i].amount == pro_rata(
            amount_of(pooled, legs_for(pooled, shares, supply)[i].asset),
            shares,
            supply,
        ),
    decreases pooled.len(),
{
    let rest = pooled.drop_last();
    let n = pooled.len() - 1;
    let before = legs_for(rest, shares, supply);
    assert(distinct_keys(rest)) by {
        assert forall|a: int, b: int| 0 <= a < b < rest.len() implies (#[trigger] rest[a]).0 != (
        #[trigger] rest[b]).0 by {
            assert(pooled[a].0 != pooled[b].0);
        }
    }
    if i < before.len() {
        lemma_leg_is_pro_rata(rest, shares, supply, i);
        let asset = before[i].asset;
        let k = position(rest, asset);
        assert(pooled[k] == rest[k]);
        lemma_position(rest, asset, k);
        lemma_position(pooled, asset, k);
    } else {
        lemma_position(pooled, pooled[n].0, n);
    }
}

/// Redeeming the whole supply in one call pays out, for every asset, all
/// that is pooled of it: each leg is for the full quantity of its asset,
/// and an asset without a leg has nothing pooled. Nothing is left behind
/// by rounding.
pub proof fn lemma_full_redemption_takes_whole_pool(
    s: FundView,
    account: Seq<char>,
    asset: Seq<char>,
)
    requires
        s.inv(),
        s.ledger.total_supply > 0,
        s.redeem(account, s.ledger.total_supply) is Ok,
    ensures
        legs_pending(s.redeem(account, s.ledger.total_supply)->Ok_0.1.legs, asset)
            == s.pool.quantity(asset),
        forall|i: int|
            0 <= i < s.redeem(account, s.ledger.total_supply)->Ok_0.1.legs.len() ==> (
            #[trigger] s.redeem(account, s.ledger.total_supply)->Ok_0.1.legs[i]).amount
                == s.pool.quantity(
                s.redeem(account, s.ledger.total_supply)->Ok_0.1.legs[i].asset,
            ),
{
    let supply = s.ledger.total_supply;
    let legs = s.redeem(account, supply)->Ok_0.1.legs;
    assert(legs == legs_for(s.pool.pooled, supply, supply));
    lemma_legs_for(s.pool.pooled, supply, supply, asset);
    lemma_pro_rata_whole(s.pool.quantity(asset), supply);
    assert forall|i: int| 0 <= i < legs.len() implies (#[trigger] legs[i]).amount
        == s.pool.quantity(legs[i].asset) by {
        lemma_leg_is_pro_rata(s.pool.pooled, supply, supply, i);
        lemma_pro_rata_whole(s.pool.quantity(legs[i].asset), supply);
    }
}

/// A redemption that would take more of some asset than is free to
/// promise is turned down with `PoolContention`, and the state stays as
/// it was: what redemptions under way were promised is never given away
/// twice.
pub proof fn lemma_contention_is_refused(s: FundView, account: Seq<char>, shares: nat, i: int)
    requires
        s.ledger.balance(account) >= shares,
        0 <= i < s.pool.pooled.len(),
        s.pool.promised(s.pool.pooled[i].0) + pro_rata(
            s.pool.pooled[i].1,
            shares,
            s.ledger.total_supply,
        ) > s.pool.pooled[i].1,
    ensures
        s.redeem(account, shares) == Err::<(FundView, RequestView), Error>(Error::PoolContention),
        apply(s, Event::Redeem { account, shares }) == s,
{
    assert(contended(s.pool, shares, s.ledger.total_supply));
}

/// A notice for a leg is taken in once. Whatever a second notice for the
/// same leg says, it changes nothing: no second payout, no second
/// release, no second credit.
pub proof fn lemma_repeated_notice_changes_nothing(
    s: FundView,
    request: nat,
    leg: nat,
    first: TransferOutcome,
    second: TransferOutcome,
)
    requires
        s.inv(),
        s.settle(request, leg, first) is Ok,
    ensures
        s.settle(request, leg, first)->Ok_0.0.settle(request, leg, second) == Ok::<
            (FundView, Option<crate::redemption::RedemptionStatus>),
            Error,
        >((s.settle(request, leg, first)->Ok_0.0, None)),
{
    let post = s.settle(request, leg, first)->Ok_0.0;
    if s.leg_is_pending(request, leg) {
        lemma_settle_inv(s, request, leg, first);
        let j = request_index(s.requests, request);
        let status = match first {
            TransferOutcome::Succeeded => LegStatus::Confirmed,
            TransferOutcome::Failed => LegStatus::Failed,
        };
        let after = settled_request(s.requests[j], leg as int, status);
        assert(post.requests == filed(s.requests, j, after));
        if has_pending(after.legs) {
            assert(post.requests[j] == after);
            lemma_request_index(post.requests, j);
            assert(after.legs[leg as int].status != LegStatus::Pending);
        } else {
            if has_request(post.requests, request) {
                let k = request_index(post.requests, request);
                let from = if k < j {
                    k
                } else {
                    k + 1
                };
                assert(post.requests[k] == s.requests[from]);
                if from < j {
                    assert(s.requests[from].id != s.requests[j].id);
                } else {
                    assert(s.requests[j].id != s.requests[from].id);
                }
            }
        }
        assert(!post.leg_is_pending(request, leg));
    }
}

} // verus!
