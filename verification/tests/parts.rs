use tkn_index::arith::{mul_div_floor, share_of};
use tkn_index::gateway::{is_native, route};
use tkn_index::{
    AccountLedger, AssetPool, Error, LegStatus, PriceOracleView, PriceQuote, RedemptionLeg,
    RedemptionRequest, RedemptionStatus, Table, Transfer,
};

fn text(s: &str) -> String {
    s.to_string()
}

#[test]
fn mul_div_floor_small_values() {
    assert_eq!(mul_div_floor(10, 50, 100), 5);
    assert_eq!(mul_div_floor(5, 50, 100), 2);
    assert_eq!(mul_div_floor(7, 3, 3), 7);
    assert_eq!(mul_div_floor(7, 0, 3), 0);
    assert_eq!(mul_div_floor(0, 2, 3), 0);
    assert_eq!(mul_div_floor(1, 1, 2), 0);
    assert_eq!(mul_div_floor(99, 1, 100), 0);
    assert_eq!(mul_div_floor(100, 1, 100), 1);
}

#[test]
fn mul_div_floor_where_the_product_does_not_fit() {
    assert_eq!(mul_div_floor(u128::MAX, u128::MAX, u128::MAX), u128::MAX);
    assert_eq!(mul_div_floor(u128::MAX, 1, 3), u128::MAX / 3);
    assert_eq!(mul_div_floor(u128::MAX, 2, 4), u128::MAX / 2);
    assert_eq!(mul_div_floor(u128::MAX - 1, u128::MAX - 1, u128::MAX), u128::MAX - 2);
    let big = 1u128 << 100;
    assert_eq!(mul_div_floor(big, big, big + 1), big - 1);
    assert_eq!(mul_div_floor(3 * big, big / 3, big), big - 1);
}

#[test]
fn share_of_without_supply_is_nothing() {
    assert_eq!(share_of(10, 0, 0), 0);
    assert_eq!(share_of(10, 50, 100), 5);
    assert_eq!(share_of(5, 50, 100), 2);
    assert_eq!(share_of(u128::MAX, 7, 7), u128::MAX);
}

#[test]
fn native_assets_are_told_by_their_prefix() {
    assert!(is_native(&text("near:")));
    assert!(is_native(&text("near:wrap")));
    assert!(!is_native(&text("near")));
    assert!(!is_native(&text("")));
    assert!(!is_native(&text("usdc.token.near")));
    assert!(!is_native(&text("Near:x")));
    assert!(!is_native(&text("near;x")));
    assert!(!is_native(&text("xnear:")));
    assert!(!is_native(&text("néar:")));
}

#[test]
fn route_picks_the_kind_of_transfer() {
    let native = route(&text("alice"), &text("near:"), 5);
    assert_eq!(native, Transfer::Native { account: text("alice"), amount: 5 });
    let token = route(&text("alice"), &text("usdc.near"), 2);
    assert_eq!(
        token,
        Transfer::Fungible { account: text("alice"), asset: text("usdc.near"), amount: 2 }
    );
}

#[test]
fn error_messages() {
    assert_eq!(Error::InsufficientBalance.message(), "Insufficient balance");
    assert_eq!(Error::InvalidDeposit.message(), "Invalid deposit");
    assert_eq!(Error::PoolContention.message(), "Pool contention");
    assert_eq!(Error::LegTransferFailed.message(), "Leg transfer failed");
    assert_eq!(Error::ArithmeticOverflow.message(), "Arithmetic overflow");
}

#[test]
fn table_keeps_order_of_first_insertion() {
    let mut t = Table::new();
    assert_eq!(t.len(), 0);
    t.set(&text("b"), 2);
    t.set(&text("a"), 1);
    t.set(&text("b"), 20);
    assert_eq!(t.len(), 2);
    assert_eq!(t.key_at(0), &text("b"));
    assert_eq!(t.value_at(0), 20);
    assert_eq!(t.key_at(1), &text("a"));
    assert_eq!(t.value_at(1), 1);
    assert_eq!(t.find(&text("a")), Some(1));
    assert_eq!(t.find(&text("c")), None);
    assert_eq!(t.get(&text("a")), Some(1));
    assert_eq!(t.get(&text("c")), None);
    assert_eq!(t.amount(&text("b")), 20);
    assert_eq!(t.amount(&text("c")), 0);
}

#[test]
fn table_clone_is_independent() {
    let mut t = Table::new();
    t.set(&text("a"), 1);
    let mut u = t.clone();
    u.set(&text("a"), 5);
    u.set(&text("b"), 6);
    assert_eq!(t.amount(&text("a")), 1);
    assert_eq!(t.len(), 1);
    assert_eq!(u.amount(&text("a")), 5);
    assert_eq!(u.len(), 2);
}

#[test]
fn oracle_tells_missing_prices_apart() {
    let mut oracle = PriceOracleView::new();
    assert_eq!(oracle.quote(&text("x")), PriceQuote::NoData);
    assert_eq!(oracle.price_of(&text("x")), 1);
    oracle.set_price(&text("x"), 1);
    assert_eq!(oracle.quote(&text("x")), PriceQuote::Listed(1));
    assert_eq!(oracle.price_of(&text("x")), 1);
    oracle.set_price(&text("x"), 9);
    assert_eq!(oracle.quote(&text("x")), PriceQuote::Listed(9));
    assert_eq!(oracle.len(), 1);
    assert_eq!(oracle.asset_at(0), &text("x"));
    assert_eq!(PriceQuote::NoData.value(), 1);
    assert_eq!(PriceQuote::Listed(0).value(), 0);
}

#[test]
fn ledger_credit_and_debit_move_supply_too() {
    let mut ledger = AccountLedger::new();
    assert_eq!(ledger.balance_of(&text("alice")), 0);
    assert_eq!(ledger.credit(&text("alice"), 10), Ok(()));
    assert_eq!(ledger.credit(&text("bob"), 5), Ok(()));
    assert_eq!(ledger.total_supply(), 15);
    assert_eq!(ledger.debit(&text("alice"), 4), Ok(()));
    assert_eq!(ledger.balance_of(&text("alice")), 6);
    assert_eq!(ledger.total_supply(), 11);
    assert_eq!(ledger.len(), 2);
    assert_eq!(ledger.account_at(1), &text("bob"));
}

#[test]
fn ledger_debit_needs_the_balance() {
    let mut ledger = AccountLedger::new();
    ledger.credit(&text("alice"), 10).unwrap();
    assert_eq!(ledger.debit(&text("alice"), 11), Err(Error::InsufficientBalance));
    assert_eq!(ledger.debit(&text("bob"), 1), Err(Error::InsufficientBalance));
    assert_eq!(ledger.balance_of(&text("alice")), 10);
    assert_eq!(ledger.total_supply(), 10);
    assert_eq!(ledger.debit(&text("alice"), 10), Ok(()));
    assert_eq!(ledger.total_supply(), 0);
}

#[test]
fn ledger_credit_checks_the_supply() {
    let mut ledger = AccountLedger::new();
    ledger.credit(&text("alice"), u128::MAX - 1).unwrap();
    assert_eq!(ledger.credit(&text("bob"), 2), Err(Error::ArithmeticOverflow));
    assert_eq!(ledger.balance_of(&text("bob")), 0);
    assert_eq!(ledger.total_supply(), u128::MAX - 1);
    assert_eq!(ledger.credit(&text("bob"), 1), Ok(()));
    assert_eq!(ledger.total_supply(), u128::MAX);
}

#[test]
fn pool_reserve_release_and_pay_out() {
    let mut pool = AssetPool::new();
    assert_eq!(pool.quantity_of(&text("x")), 0);
    assert_eq!(pool.deposit(&text("x"), 10), Ok(()));
    assert_eq!(pool.reserve(&text("x"), 6), Ok(()));
    assert_eq!(pool.quantity_of(&text("x")), 10);
    assert_eq!(pool.promised_of(&text("x")), 6);
    assert_eq!(pool.available_of(&text("x")), 4);
    assert_eq!(pool.reserve(&text("x"), 5), Err(Error::PoolContention));
    assert_eq!(pool.promised_of(&text("x")), 6);
    assert_eq!(pool.reserve(&text("x"), 4), Ok(()));
    assert_eq!(pool.available_of(&text("x")), 0);
    assert!(pool.release(&text("x"), 4));
    assert_eq!(pool.quantity_of(&text("x")), 10);
    assert_eq!(pool.available_of(&text("x")), 4);
    assert!(pool.pay_out(&text("x"), 6));
    assert_eq!(pool.quantity_of(&text("x")), 4);
    assert_eq!(pool.promised_of(&text("x")), 0);
    assert_eq!(pool.available_of(&text("x")), 4);
    assert_eq!(pool.len(), 1);
    assert_eq!(pool.asset_at(0), &text("x"));
    assert_eq!(pool.quantity_at(0), 4);
}

#[test]
fn pool_ends_only_reservations_that_exist() {
    let mut pool = AssetPool::new();
    pool.deposit(&text("x"), 10).unwrap();
    pool.reserve(&text("x"), 3).unwrap();
    assert!(!pool.release(&text("x"), 4));
    assert!(!pool.pay_out(&text("x"), 4));
    assert!(!pool.pay_out(&text("y"), 1));
    assert_eq!(pool.promised_of(&text("x")), 3);
    assert_eq!(pool.quantity_of(&text("x")), 10);
    assert_eq!(pool.reserve(&text("y"), 1), Err(Error::PoolContention));
}

#[test]
fn pool_deposit_checks_for_overflow() {
    let mut pool = AssetPool::new();
    pool.deposit(&text("x"), u128::MAX).unwrap();
    assert_eq!(pool.deposit(&text("x"), 1), Err(Error::ArithmeticOverflow));
    assert_eq!(pool.quantity_of(&text("x")), u128::MAX);
    assert_eq!(pool.deposit(&text("x"), 0), Ok(()));
}

#[test]
fn pool_clone_is_independent() {
    let mut pool = AssetPool::new();
    pool.deposit(&text("x"), 10).unwrap();
    let mut copy = pool.clone();
    copy.reserve(&text("x"), 10).unwrap();
    assert_eq!(pool.available_of(&text("x")), 10);
    assert_eq!(copy.available_of(&text("x")), 0);
}

fn request_with(statuses: &[LegStatus]) -> RedemptionRequest {
    let mut legs = Vec::new();
    for s in statuses {
        let mut leg = RedemptionLeg::new(text("x"), 1);
        leg.status = *s;
        legs.push(leg);
    }
    RedemptionRequest { id: 0, account: text("alice"), shares_burned: 1, legs }
}

#[test]
fn request_status_is_read_off_the_legs() {
    let (pending, confirmed, failed) = (LegStatus::Pending, LegStatus::Confirmed, LegStatus::Failed);
    assert_eq!(request_with(&[]).status(), RedemptionStatus::Completed);
    assert_eq!(request_with(&[pending]).status(), RedemptionStatus::InProgress);
    assert_eq!(request_with(&[confirmed, confirmed]).status(), RedemptionStatus::Completed);
    assert_eq!(request_with(&[confirmed, failed]).status(), RedemptionStatus::PartiallyFailed);
    assert_eq!(request_with(&[failed, pending]).status(), RedemptionStatus::InProgress);
    assert_eq!(request_with(&[failed, failed]).status(), RedemptionStatus::PartiallyFailed);
    assert_eq!(request_with(&[confirmed, pending, failed]).status(), RedemptionStatus::InProgress);
}

#[test]
fn legs_start_pending_and_clone_whole() {
    let leg = RedemptionLeg::new(text("x"), 5);
    assert_eq!(leg.status, LegStatus::Pending);
    assert!(!leg.is_terminal());
    let request = request_with(&[LegStatus::Confirmed, LegStatus::Failed]);
    assert!(request.legs[0].is_terminal());
    assert!(request.legs[1].is_terminal());
    let copy = request.clone();
    assert_eq!(copy, request);
}

#[test]
fn table_from_entries_and_back() {
    let list = vec![(text("b"), 2), (text("a"), 1)];
    let t = Table::from_entries(&list).unwrap();
    assert_eq!(t.entries(), list);
    assert_eq!(t.sum(), Some(3));
    assert!(Table::from_entries(&vec![(text("a"), 1), (text("a"), 1)]).is_none());
    let big = Table::from_entries(&vec![(text("a"), u128::MAX), (text("b"), 1)]).unwrap();
    assert_eq!(big.sum(), None);
    assert_eq!(Table::new().sum(), Some(0));
}

#[test]
fn parts_restore_on_their_own() {
    let list = vec![(text("a"), 3), (text("b"), 4)];
    let ledger = AccountLedger::restore(7, &list).unwrap();
    assert_eq!(ledger.total_supply(), 7);
    assert_eq!(ledger.entries(), list);
    assert!(AccountLedger::restore(8, &list).is_none());
    let pool = AssetPool::restore(&list).unwrap();
    assert_eq!(pool.quantity_of(&text("b")), 4);
    assert_eq!(pool.promised_of(&text("b")), 0);
    assert_eq!(pool.entries(), list);
    let oracle = PriceOracleView::restore(&list).unwrap();
    assert_eq!(oracle.price_of(&text("a")), 3);
    assert_eq!(oracle.entries(), list);
    let twice = vec![(text("a"), 3), (text("a"), 4)];
    assert!(AssetPool::restore(&twice).is_none());
    assert!(PriceOracleView::restore(&twice).is_none());
    assert!(AccountLedger::restore(7, &twice).is_none());
}
