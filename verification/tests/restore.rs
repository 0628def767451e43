use tkn_index::gateway::transfers;
use tkn_index::{
    LegStatus, RedemptionLeg, RedemptionRequest, RedemptionStatus, TknIndex, Transfer,
    TransferOutcome,
};

fn word(s: &str) -> String {
    s.to_string()
}

fn pending(id: u64, asset: &str, amount: u128) -> RedemptionRequest {
    RedemptionRequest {
        id,
        account: word("alice"),
        shares_burned: 1,
        legs: vec![RedemptionLeg::new(word(asset), amount)],
    }
}

#[test]
fn transfers_follow_the_legs() {
    let mut fund = TknIndex::new();
    fund.mint(word("alice"), vec![(word("near:"), 10), (word("usdc.near"), 6)]).unwrap();
    let request = fund.redeem(word("alice"), 8).unwrap();
    let plan = transfers(&request);
    assert_eq!(plan.len(), 2);
    assert_eq!(plan[0], Transfer::Native { account: word("alice"), amount: 5 });
    assert_eq!(
        plan[1],
        Transfer::Fungible { account: word("alice"), asset: word("usdc.near"), amount: 3 }
    );
    let done = RedemptionRequest { id: 0, account: word("bob"), shares_burned: 0, legs: vec![] };
    assert_eq!(transfers(&done).len(), 0);
}

#[test]
fn a_fund_comes_back_from_its_parts() {
    let mut fund = TknIndex::new();
    fund.update_asset_price(word("x"), 8);
    fund.update_asset_price(word("y"), 4);
    fund.mint(word("alice"), vec![(word("x"), 10), (word("y"), 5)]).unwrap();
    fund.mint(word("bob"), vec![(word("y"), 5)]).unwrap();
    let first = fund.redeem(word("alice"), 60).unwrap();
    fund.settle(first.id, 0, TransferOutcome::Succeeded).unwrap();
    let second = fund.redeem(word("bob"), 6).unwrap();
    assert_eq!(second.legs.len(), 1);
    assert_eq!(fund.balances(), vec![(word("alice"), 40), (word("bob"), 14)]);
    assert_eq!(fund.assets(), vec![(word("x"), 5), (word("y"), 10)]);
    assert_eq!(fund.asset_prices(), vec![(word("x"), 8), (word("y"), 4)]);
    assert_eq!(fund.next_request_id(), 2);
    assert_eq!(fund.requests().len(), 2);

    let mut back = TknIndex::restore(
        fund.total_supply(),
        &fund.balances(),
        &fund.assets(),
        &fund.asset_prices(),
        fund.requests(),
        fund.next_request_id(),
    )
    .unwrap();
    assert_eq!(back.total_supply(), 54);
    assert_eq!(back.balance_of(word("alice")), 40);
    assert_eq!(back.quantity_of(&word("y")), 10);
    assert_eq!(back.promised_of(&word("x")), fund.promised_of(&word("x")));
    assert_eq!(back.promised_of(&word("y")), fund.promised_of(&word("y")));
    assert_eq!(back.promised_of(&word("y")), 6);
    assert_eq!(back.get_asset_price(&word("x")), 8);
    assert_eq!(back.requests(), fund.requests());
    assert_eq!(back.request_at(0).legs[0].status, LegStatus::Confirmed);
    // the restored fund settles what the first one started
    assert_eq!(
        back.settle(first.id, 1, TransferOutcome::Failed),
        Ok(Some(RedemptionStatus::PartiallyFailed))
    );
    assert_eq!(back.balance_of(word("alice")), 40 + 4 * 5);
    assert_eq!(back.settle(second.id, 0, TransferOutcome::Succeeded), Ok(Some(RedemptionStatus::Completed)));
    assert_eq!(back.quantity_of(&word("y")), 9);
    assert_eq!(back.open_requests(), 0);
}

#[test]
fn restore_of_nothing_is_the_empty_fund() {
    let fund = TknIndex::restore(0, &vec![], &vec![], &vec![], vec![], 0).unwrap();
    assert_eq!(fund.total_supply(), 0);
    assert_eq!(fund.open_requests(), 0);
    assert_eq!(fund.next_request_id(), 0);
}

#[test]
fn restore_wants_the_supply_to_be_the_sum() {
    let balances = vec![(word("alice"), 3), (word("bob"), 4)];
    assert!(TknIndex::restore(7, &balances, &vec![], &vec![], vec![], 0).is_some());
    assert!(TknIndex::restore(8, &balances, &vec![], &vec![], vec![], 0).is_none());
    assert!(TknIndex::restore(6, &balances, &vec![], &vec![], vec![], 0).is_none());
    let huge = vec![(word("alice"), u128::MAX), (word("bob"), 1)];
    assert!(TknIndex::restore(0, &huge, &vec![], &vec![], vec![], 0).is_none());
    assert!(TknIndex::restore(u128::MAX, &huge, &vec![], &vec![], vec![], 0).is_none());
}

#[test]
fn restore_wants_every_name_once() {
    let twice = vec![(word("a"), 1), (word("b"), 1), (word("a"), 1)];
    let once = vec![(word("a"), 1), (word("b"), 2)];
    assert!(TknIndex::restore(3, &twice, &vec![], &vec![], vec![], 0).is_none());
    assert!(TknIndex::restore(3, &once, &twice, &vec![], vec![], 0).is_none());
    assert!(TknIndex::restore(3, &once, &once, &twice, vec![], 0).is_none());
    assert!(TknIndex::restore(3, &once, &once, &once, vec![], 0).is_some());
}

#[test]
fn restore_wants_pending_legs_covered() {
    let assets = vec![(word("x"), 10)];
    let ok = vec![pending(0, "x", 6), pending(1, "x", 4)];
    let fund = TknIndex::restore(0, &vec![], &assets, &vec![], ok, 2).unwrap();
    assert_eq!(fund.promised_of(&word("x")), 10);
    let over = vec![pending(0, "x", 6), pending(1, "x", 5)];
    assert!(TknIndex::restore(0, &vec![], &assets, &vec![], over, 2).is_none());
    let unknown = vec![pending(0, "y", 1)];
    assert!(TknIndex::restore(0, &vec![], &assets, &vec![], unknown, 1).is_none());
}

#[test]
fn restore_counts_only_pending_legs() {
    let assets = vec![(word("x"), 10)];
    let mut paid = RedemptionLeg::new(word("x"), 50);
    paid.status = LegStatus::Confirmed;
    let mut failed = RedemptionLeg::new(word("x"), 50);
    failed.status = LegStatus::Failed;
    let request = RedemptionRequest {
        id: 3,
        account: word("alice"),
        shares_burned: 9,
        legs: vec![paid, RedemptionLeg::new(word("x"), 7), failed],
    };
    let fund = TknIndex::restore(0, &vec![], &assets, &vec![], vec![request], 4).unwrap();
    assert_eq!(fund.promised_of(&word("x")), 7);
}

#[test]
fn restore_wants_requests_numbered_apart_and_open() {
    let assets = vec![(word("x"), 10)];
    let same = vec![pending(1, "x", 1), pending(1, "x", 1)];
    assert!(TknIndex::restore(0, &vec![], &assets, &vec![], same, 5).is_none());
    let late = vec![pending(5, "x", 1)];
    assert!(TknIndex::restore(0, &vec![], &assets, &vec![], late, 5).is_none());
    let mut settled = pending(0, "x", 1);
    settled.legs[0].status = LegStatus::Confirmed;
    assert!(TknIndex::restore(0, &vec![], &assets, &vec![], vec![settled], 5).is_none());
    let empty = RedemptionRequest { id: 0, account: word("a"), shares_burned: 0, legs: vec![] };
    assert!(TknIndex::restore(0, &vec![], &assets, &vec![], vec![empty], 5).is_none());
    let fine = vec![pending(4, "x", 1), pending(2, "x", 1)];
    assert!(TknIndex::restore(0, &vec![], &assets, &vec![], fine, 5).is_some());
}
