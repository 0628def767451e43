//! How a payout leaves the fund: as native value, or as a fungible asset
//! through the venue that moves it.

use vstd::prelude::*;
use crate::redemption::RedemptionRequest;

verus! {

/// How a transfer that the fund asked for ended.
#[derive(Clone, Copy, Debug, PartialEq, Eq, Structural)]
pub enum TransferOutcome {
    Succeeded,
    Failed,
}

/// A transfer for the host to carry out.
#[derive(Debug, PartialEq, Eq)]
pub enum Transfer {
    /// Native value straight to the account.
    Native { account: String, amount: u128 },
    /// A fungible asset, moved by the contract that keeps it.
    Fungible { account: String, asset: String, amount: u128 },
}

/// The mark that names of native value begin with.
pub open spec fn native_prefix() -> Seq<char> {
    seq!['n', 'e', 'a', 'r', ':']
}

pub open spec fn is_native_asset(asset: Seq<char>) -> bool {
    asset.len() >= 5 && asset.subrange(0, 5) == native_prefix()
}

/// Whether `asset` names the native unit rather than a fungible asset.
pub fn is_native(asset: &String) -> (native: bool)
    ensures
        native == is_native_asset(asset@),
{
    let name = asset.as_str();
    if name.unicode_len() < 5 {
        return false;
    }
    let native = name.get_char(0) == 'n' && name.get_char(1) == 'e' && name.get_char(2) == 'a'
        && name.get_char(3) == 'r' && name.get_char(4) == ':';
    proof {
        let head = asset@.subrange(0, 5);
        assert(head[0] == asset@[0] && head[1] == asset@[1] && head[2] == asset@[2] && head[3]
            == asset@[3] && head[4] == asset@[4]);
        if native {
            assert(head =~= native_prefix());
        }
    }
    native
}

/// Whether `t` is the transfer that pays `amount` of `asset` to `account`:
/// native value for a native asset, a fungible transfer of the asset
/// otherwise.
pub open spec fn pays(t: Transfer, account: Seq<char>, asset: Seq<char>, amount: nat) -> bool {
    match t {
        Transfer::Native { account: to, amount: paid } => is_native_asset(asset) && to@ == account
            && paid == amount,
        Transfer::Fungible { account: to, asset: what, amount: paid } => !is_native_asset(asset)
            && to@ == account && what@ == asset && paid == amount,
    }
}

/// The transfer that pays `amount` of `asset` to `account`.
pub fn route(account: &String, asset: &String, amount: u128) -> (t: Transfer)
    ensures
        pays(t, account@, asset@, amount as nat),
{
    if is_native(asset) {
        Transfer::Native { account: account.clone(), amount }
    } else {
        Transfer::Fungible { account: account.clone(), asset: asset.clone(), amount }
    }
}

/// The transfers that pay out `request`: one for each leg, in the order
/// of the legs, to the account that redeemed.
pub fn transfers(request: &RedemptionRequest) -> (plan: Vec<Transfer>)
    ensures
        plan@.len() == request@.legs.len(),
        forall|i: int|
            0 <= i < plan@.len() ==> pays(
                #[trigger] plan@[i],
                request@.account,
                request@.legs[i].asset,
                request@.legs[i].amount,
            ),
{
    let mut plan: Vec<Transfer> = Vec::new();
    let mut i: usize = 0;
    while i < request.legs.len()
        invariant
            i <= request.legs@.len(),
            plan@.len() == i,
            request@.legs.len() == request.legs@.len(),
            forall|j: int|
                0 <= j < i ==> pays(
                    #[trigger] plan@[j],
                    request@.account,
                    request@.legs[j].asset,
                    request@.legs[j].amount,
                ),
        decreases request.legs@.len() - i,
    {
        assert(request@.legs[i as int] == request.legs@[i as int]@);
        plan.push(route(&request.account, &request.legs[i].asset, request.legs[i].amount));
        i += 1;
    }
    plan
}

} // verus!
