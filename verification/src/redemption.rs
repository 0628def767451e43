//! A redemption under way: one payout leg per asset, each settled on its
//! own, and the sums that tie pending legs to reservations in the pool.

use vstd::prelude::*;
use crate::error::Error;
use crate::sums::{total, lemma_total_push, lemma_total_update, lemma_total_remove,
    lemma_total_covers, lemma_total_zero, lemma_total_take_step, lemma_total_prefix};

verus! {

/// Where one payout leg stands. A leg leaves `Pending` once and never
/// comes back to it.
#[derive(Clone, Copy, Debug, PartialEq, Eq, Structural)]
pub enum LegStatus {
    Pending,
    Confirmed,
    Failed,
}

/// Where a whole redemption stands.
#[derive(Clone, Copy, Debug, PartialEq, Eq, Structural)]
pub enum RedemptionStatus {
    /// At least one leg is still pending.
    InProgress,
    /// Every leg was paid out.
    Completed,
    /// Every leg is settled and at least one of them failed.
    PartiallyFailed,
}

pub struct LegView {
    pub asset: Seq<char>,
    pub amount: nat,
    pub status: LegStatus,
}

/// One asset's part of a redemption's payout.
#[derive(Debug, PartialEq, Eq)]
pub struct RedemptionLeg {
    pub asset: String,
    pub amount: u128,
    pub status: LegStatus,
}

impl View for RedemptionLeg {
    type V = LegView;

    open spec fn view(&self) -> LegView {
        LegView { asset: self.asset@, amount: self.amount as nat, status: self.status }
    }
}

impl Clone for RedemptionLeg {
    fn clone(&self) -> (leg: RedemptionLeg)
        ensures
            leg@ == self@,
    {
        RedemptionLeg { asset: self.asset.clone(), amount: self.amount, status: self.status }
    }
}

pub struct RequestView {
    pub id: nat,
    pub account: Seq<char>,
    pub shares_burned: nat,
    pub legs: Seq<LegView>,
}

/// A redemption: who redeemed, how many shares were burned for it, and
/// the legs that pay it out, in the order of the pool's assets.
#[derive(Debug, PartialEq, Eq)]
pub struct RedemptionRequest {
    pub id: u64,
    pub account: String,
    pub shares_burned: u128,
    pub legs: Vec<RedemptionLeg>,
}

pub open spec fn legs_view(legs: Seq<RedemptionLeg>) -> Seq<LegView> {
    legs.map_values(|leg: RedemptionLeg| leg@)
}

impl View for RedemptionRequest {
    type V = RequestView;

    open spec fn view(&self) -> RequestView {
        RequestView {
            id: self.id as nat,
            account: self.account@,
            shares_burned: self.shares_burned as nat,
            legs: legs_view(self.legs@),
        }
    }
}

pub open spec fn requests_view(requests: Seq<RedemptionRequest>) -> Seq<RequestView> {
    requests.map_values(|request: RedemptionRequest| request@)
}

/// What `leg` still holds reserved of `asset`.
pub open spec fn pending_amount(leg: LegView, asset: Seq<char>) -> nat {
    if leg.status == LegStatus::Pending && leg.asset == asset {
        leg.amount
    } else {
        0
    }
}

/// What the pending legs among `legs` hold reserved of `asset`.
pub open spec fn legs_pending(legs: Seq<LegView>, asset: Seq<char>) -> nat {
    total(legs.map_values(|leg: LegView| pending_amount(leg, asset)))
}

/// What all pending legs of all `requests` hold reserved of `asset`.
pub open spec fn pending_total(requests: Seq<RequestView>, asset: Seq<char>) -> nat {
    total(requests.map_values(|request: RequestView| legs_pending(request.legs, asset)))
}

pub open spec fn has_pending(legs: Seq<LegView>) -> bool {
    exists|i: int| 0 <= i < legs.len() && (#[trigger] legs[i]).status == LegStatus::Pending
}

pub open spec fn has_failed(legs: Seq<LegView>) -> bool {
    exists|i: int| 0 <= i < legs.len() && (#[trigger] legs[i]).status == LegStatus::Failed
}

/// The status of a redemption with these legs.
pub open spec fn status_of(legs: Seq<LegView>) -> RedemptionStatus {
    if has_pending(legs) {
        RedemptionStatus::InProgress
    } else if has_failed(legs) {
        RedemptionStatus::PartiallyFailed
    } else {
        RedemptionStatus::Completed
    }
}

/// `leg` with its status set.
pub open spec fn settled_leg(leg: LegView, status: LegStatus) -> LegView {
    LegView { status, ..leg }
}

/// `request` with the status of leg `i` set.
pub open spec fn settled_request(request: RequestView, i: int, status: LegStatus) -> RequestView {
    RequestView { legs: request.legs.update(i, settled_leg(request.legs[i], status)), ..request }
}

pub proof fn lemma_legs_pending_push(legs: Seq<LegView>, leg: LegView, asset: Seq<char>)
    ensures
        legs_pending(legs.push(leg), asset) == legs_pending(legs, asset) + pending_amount(
            leg,
            asset,
        ),
{
    let f = |leg: LegView| pending_amount(leg, asset);
    assert(legs.push(leg).map_values(f) =~= legs.map_values(f).push(f(leg)));
    lemma_total_push(legs.map_values(f), f(leg));
}

/// Settling a pending leg takes its amount out of what is pending for its
/// asset, and leaves every other asset alone.
pub proof fn lemma_legs_pending_settled(
    legs: Seq<LegView>,
    i: int,
    status: LegStatus,
    asset: Seq<char>,
)
    requires
        0 <= i < legs.len(),
        legs[i].status == LegStatus::Pending,
        status != LegStatus::Pending,
    ensures
        legs_pending(legs.update(i, settled_leg(legs[i], status)), asset) + pending_amount(
            legs[i],
            asset,
        ) == legs_pending(legs, asset),
{
    let f = |leg: LegView| pending_amount(leg, asset);
    let after = legs.update(i, settled_leg(legs[i], status));
    assert(after.map_values(f) =~= legs.map_values(f).update(i, 0));
    lemma_total_update(legs.map_values(f), i, 0);
}

pub proof fn lemma_legs_pending_covers(legs: Seq<LegView>, i: int, asset: Seq<char>)
    requires
        0 <= i < legs.len(),
    ensures
        pending_amount(legs[i], asset) <= legs_pending(legs, asset),
{
    let f = |leg: LegView| pending_amount(leg, asset);
    lemma_total_covers(legs.map_values(f), i);
}

pub proof fn lemma_legs_pending_none(legs: Seq<LegView>, asset: Seq<char>)
    requires
        !has_pending(legs),
    ensures
        legs_pending(legs, asset) == 0,
{
    let f = |leg: LegView| pending_amount(leg, asset);
    assert forall|i: int| 0 <= i < legs.len() implies legs.map_values(f)[i] == 0 by {
        assert(legs[i].status != LegStatus::Pending);
    }
    lemma_total_zero(legs.map_values(f));
}

pub proof fn lemma_pending_total_push(
    requests: Seq<RequestView>,
    request: RequestView,
    asset: Seq<char>,
)
    ensures
        pending_total(requests.push(request), asset) == pending_total(requests, asset)
            + legs_pending(request.legs, asset),
{
    let f = |request: RequestView| legs_pending(request.legs, asset);
    assert(requests.push(request).map_values(f) =~= requests.map_values(f).push(f(request)));
    lemma_total_push(requests.map_values(f), f(request));
}

pub proof fn lemma_pending_total_update(
    requests: Seq<RequestView>,
    j: int,
    request: RequestView,
    asset: Seq<char>,
)
    requires
        0 <= j < requests.len(),
    ensures
        pending_total(requests.update(j, request), asset) + legs_pending(requests[j].legs, asset)
            == pending_total(requests, asset) + legs_pending(request.legs, asset),
{
    let f = |request: RequestView| legs_pending(request.legs, asset);
    assert(requests.update(j, request).map_values(f) =~= requests.map_values(f).update(
        j,
        f(request),
    ));
    lemma_total_update(requests.map_values(f), j, f(request));
}

pub proof fn lemma_pending_total_remove(requests: Seq<RequestView>, j: int, asset: Seq<char>)
    requires
        0 <= j < requests.len(),
    ensures
        pending_total(requests.remove(j), asset) + legs_pending(requests[j].legs, asset)
            == pending_total(requests, asset),
{
    let f = |request: RequestView| legs_pending(request.legs, asset);
    assert(requests.remove(j).map_values(f) =~= requests.map_values(f).remove(j));
    lemma_total_remove(requests.map_values(f), j);
}

/// A pending leg's amount is part of what is pending for its asset.
pub proof fn lemma_pending_total_covers(requests: Seq<RequestView>, j: int, i: int)
    requires
        0 <= j < requests.len(),
        0 <= i < requests[j].legs.len(),
        requests[j].legs[i].status == LegStatus::Pending,
    ensures
        requests[j].legs[i].amount <= pending_total(requests, requests[j].legs[i].asset),
{
    let asset = requests[j].legs[i].asset;
    let f = |request: RequestView| legs_pending(request.legs, asset);
    lemma_legs_pending_covers(requests[j].legs, i, asset);
    lemma_total_covers(requests.map_values(f), j);
}

pub proof fn lemma_legs_pending_take_step(legs: Seq<LegView>, n: int, asset: Seq<char>)
    requires
        0 <= n < legs.len(),
    ensures
        legs_pending(legs.take(n + 1), asset) == legs_pending(legs.take(n), asset)
            + pending_amount(legs[n], asset),
        legs_pending(legs.take(n + 1), asset) <= legs_pending(legs, asset),
{
    let f = |leg: LegView| pending_amount(leg, asset);
    assert(legs.take(n + 1).map_values(f) =~= legs.map_values(f).take(n + 1));
    assert(legs.take(n).map_values(f) =~= legs.map_values(f).take(n));
    lemma_total_take_step(legs.map_values(f), n);
    lemma_total_prefix(legs.map_values(f), n + 1);
}

pub proof fn lemma_pending_total_take_step(requests: Seq<RequestView>, n: int, asset: Seq<char>)
    requires
        0 <= n < requests.len(),
    ensures
        pending_total(requests.take(n + 1), asset) == pending_total(requests.take(n), asset)
            + legs_pending(requests[n].legs, asset),
        pending_total(requests.take(n + 1), asset) <= pending_total(requests, asset),
{
    let f = |request: RequestView| legs_pending(request.legs, asset);
    assert(requests.take(n + 1).map_values(f) =~= requests.map_values(f).take(n + 1));
    assert(requests.take(n).map_values(f) =~= requests.map_values(f).take(n));
    lemma_total_take_step(requests.map_values(f), n);
    lemma_total_prefix(requests.map_values(f), n + 1);
}

impl RedemptionLeg {
    /// A leg for `amount` of `asset`, not yet settled.
    pub fn new(asset: String, amount: u128) -> (leg: RedemptionLeg)
        ensures
            leg@ == (LegView { asset: asset@, amount: amount as nat, status: LegStatus::Pending }),
    {
        RedemptionLeg { asset, amount, status: LegStatus::Pending }
    }

    /// What went wrong with the leg: a failed transfer, or nothing. The
    /// fund has made up for a failed leg by the time it is marked so.
    pub fn failure(&self) -> (failure: Option<Error>)
        ensures
            failure == (if self@.status == LegStatus::Failed {
                Some(Error::LegTransferFailed)
            } else {
                None
            }),
    {
        match self.status {
            LegStatus::Failed => Some(Error::LegTransferFailed),
            _ => None,
        }
    }

    /// Whether the leg is settled, one way or the other.
    pub fn is_terminal(&self) -> (terminal: bool)
        ensures
            terminal == (self@.status != LegStatus::Pending),
    {
        match self.status {
            LegStatus::Pending => false,
            LegStatus::Confirmed => true,
            LegStatus::Failed => true,
        }
    }
}

impl RedemptionRequest {
    /// Where the redemption stands, read off its legs.
    pub fn status(&self) -> (status: RedemptionStatus)
        ensures
            status == status_of(self@.legs),
    {
        let mut failed = false;
        let mut i: usize = 0;
        while i < self.legs.len()
            invariant
                i <= self.legs@.len(),
                forall|j: int| 0 <= j < i ==> (#[trigger] self@.legs[j]).status != LegStatus::Pending,
                failed <==> exists|j: int|
                    0 <= j < i && (#[trigger] self@.legs[j]).status == LegStatus::Failed,
            decreases self.legs@.len() - i,
        {
            match self.legs[i].status {
                LegStatus::Pending => {
                    assert(self@.legs[i as int].status == LegStatus::Pending);
                    return RedemptionStatus::InProgress;
                },
                LegStatus::Failed => {
                    assert(self@.legs[i as int].status == LegStatus::Failed);
                    failed = true;
                },
                LegStatus::Confirmed => {
                    assert(self@.legs[i as int].status == LegStatus::Confirmed);
                },
            }
            i += 1;
        }
        if failed {
            RedemptionStatus::PartiallyFailed
        } else {
            RedemptionStatus::Completed
        }
    }
}

impl Clone for RedemptionRequest {
    fn clone(&self) -> (request: RedemptionRequest)
        ensures
            request@ == self@,
    {
        let mut legs: Vec<RedemptionLeg> = Vec::new();
        let mut i: usize = 0;
        while i < self.legs.len()
            invariant
                i <= self.legs@.len(),
                legs@.len() == i,
                forall|j: int| 0 <= j < i ==> (#[trigger] legs@[j])@ == self.legs@[j]@,
            decreases self.legs@.len() - i,
        {
            legs.push(self.legs[i].clone());
            i += 1;
        }
        assert(legs_view(legs@) =~= legs_view(self.legs@));
        RedemptionRequest {
            id: self.id,
            account: self.account.clone(),
            shares_burned: self.shares_burned,
            legs,
        }
    }
}

} // verus!
