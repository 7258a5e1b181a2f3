use cryptotax::SCALE;
use cryptotax::accounting::{AccountingMethod, LedgerError, Purchase, TransactionRecord};
use cryptotax::app::App;
use cryptotax::arith::{cost_of, mul_div_u64, slice_of};
use cryptotax::calculation::{CapitalGainsCalculation, calculate_capital_gains, required_price};

const DAY: i64 = 86_400;

fn calc() -> CapitalGainsCalculation {
    CapitalGainsCalculation::new(AccountingMethod::FIFO, "EUR".to_string(), 1)
}

fn trade(
    tx_id: u32,
    datetime: i64,
    out_asset: &str,
    out_amount: u64,
    in_asset: &str,
    in_amount: u64,
) -> TransactionRecord {
    TransactionRecord {
        tx_id,
        datetime,
        account: "main".to_string(),
        tx_type: "Trade".to_string(),
        out_asset: Some(out_asset.to_string()),
        out_amount: Some(out_amount),
        in_asset: in_asset.to_string(),
        in_amount,
        fee_asset: None,
        fee_amount: None,
    }
}

fn reward(tx_id: u32, datetime: i64, in_asset: &str, in_amount: u64) -> TransactionRecord {
    TransactionRecord {
        tx_id,
        datetime,
        account: "main".to_string(),
        tx_type: "Staking Reward".to_string(),
        out_asset: None,
        out_amount: None,
        in_asset: in_asset.to_string(),
        in_amount,
        fee_asset: None,
        fee_amount: None,
    }
}

fn seed_btc(c: &mut CapitalGainsCalculation, amount: u64, price: u64) {
    let p = Purchase {
        tx_id: 900,
        datetime: -DAY,
        amount,
        base_price: price,
        actual_costs: 0,
    };
    c.process_purchase(&"BTC".to_string(), p);
}

// A trade that moves an asset into itself yields zero ledger entries and
// leaves every inventory untouched.
#[test]
fn self_trade_yields_no_entries() {
    let mut c = calc();
    seed_btc(&mut c, SCALE, 20_000 * SCALE);
    let n = c.log.len();
    let r = c.process_record(&trade(1, 0, "BTC", SCALE, "BTC", SCALE), None);
    assert!(r.is_ok());
    assert_eq!(c.log.len(), n);
}

// Selling 1 BTC for 3000 EUR records a sale of 1 BTC with proceeds 3000;
// buying 1 ETH for 3000 EUR records a purchase of 1 ETH at unit cost 3000.
#[test]
fn simple_trades_against_base() {
    let mut c = calc();
    seed_btc(&mut c, SCALE, 3_000 * SCALE);
    let r = c.process_record(&trade(1, 0, "BTC", SCALE, "EUR", 3_000 * SCALE), None);
    assert!(r.is_ok());
    let sale_entry = &c.log[1];
    assert_eq!(sale_entry.asset, "BTC");
    assert_eq!(sale_entry.amount, -(SCALE as i128));
    assert_eq!(sale_entry.actual_proceeds, Some((3_000 * SCALE) as u128));

    let r = c.process_record(&trade(2, DAY, "EUR", 3_000 * SCALE, "ETH", SCALE), None);
    assert!(r.is_ok());
    let buy_entry = &c.log[2];
    assert_eq!(buy_entry.asset, "ETH");
    assert_eq!(buy_entry.amount, SCALE as i128);
    assert_eq!(buy_entry.base_price, 3_000 * SCALE);
    assert_eq!(buy_entry.actual_costs, (3_000 * SCALE) as u128);
    assert_eq!(buy_entry.actual_proceeds, None);
}

// 1 BTC (spot 20000 EUR) for 10 SOL, with no EUR leg, decomposes into a sale
// of 1 BTC with proceeds 20000 and a purchase of 10 SOL at unit cost 2000.
#[test]
fn foreign_to_foreign_decomposition() {
    let mut c = calc();
    seed_btc(&mut c, SCALE, 20_000 * SCALE);
    let rate = 20_000 * SCALE;
    let r = c.process_record(&trade(1, 0, "BTC", SCALE, "SOL", 10 * SCALE), Some(rate));
    assert!(r.is_ok());
    assert_eq!(c.log.len(), 3);
    let sale_entry = &c.log[1];
    assert_eq!(sale_entry.asset, "BTC");
    assert_eq!(sale_entry.amount, -(SCALE as i128));
    assert_eq!(sale_entry.actual_proceeds, Some((20_000 * SCALE) as u128));
    let buy_entry = &c.log[2];
    assert_eq!(buy_entry.asset, "SOL");
    assert_eq!(buy_entry.amount, (10 * SCALE) as i128);
    assert_eq!(buy_entry.base_price, 2_000 * SCALE);
    assert_eq!(buy_entry.actual_costs, (20_000 * SCALE) as u128);
}

// A staking reward of 5 XTZ at 2 EUR each is a purchase at unit cost 2 with
// no cash paid, whose whole market value of 10 is an immediate gain.
#[test]
fn staking_reward_realizes_market_value() {
    let mut c = calc();
    let r = c.process_record(&reward(1, 0, "XTZ", 5 * SCALE), Some(2 * SCALE));
    assert!(r.is_ok());
    let e = &c.log[0];
    assert_eq!(e.asset, "XTZ");
    assert_eq!(e.amount, (5 * SCALE) as i128);
    assert_eq!(e.base_price, 2 * SCALE);
    assert_eq!(e.actual_costs, 0);
    assert_eq!(e.gains_short_term, Some((10 * SCALE) as i128));
}

// A fee paid in the outgoing asset inflates the amount withdrawn.
#[test]
fn fee_in_outgoing_asset_inflates_sale() {
    let mut c = calc();
    seed_btc(&mut c, 2 * SCALE, 3_000 * SCALE);
    let mut rec = trade(1, 0, "BTC", SCALE, "EUR", 3_000 * SCALE);
    rec.fee_asset = Some("BTC".to_string());
    rec.fee_amount = Some(SCALE / 10);
    c.process_record(&rec, None).unwrap();
    let e = &c.log[1];
    assert_eq!(e.amount, -((SCALE + SCALE / 10) as i128));
}

// A fee paid in the incoming asset deflates the proceeds.
#[test]
fn fee_in_incoming_asset_deflates_proceeds() {
    let mut c = calc();
    seed_btc(&mut c, SCALE, 3_000 * SCALE);
    let mut rec = trade(1, 0, "BTC", SCALE, "EUR", 3_000 * SCALE);
    rec.fee_asset = Some("EUR".to_string());
    rec.fee_amount = Some(100 * SCALE);
    c.process_record(&rec, None).unwrap();
    let e = &c.log[1];
    assert_eq!(e.actual_proceeds, Some((2_900 * SCALE) as u128));
}

// A fee paid in a third asset is converted through a gain-neutral withdrawal
// and applied to the base-asset side.
#[test]
fn fee_in_third_asset_is_converted() {
    let mut c = calc();
    seed_btc(&mut c, SCALE, 3_000 * SCALE);
    let p = Purchase { tx_id: 901, datetime: -DAY, amount: SCALE, base_price: 50 * SCALE, actual_costs: 0 };
    c.process_purchase(&"ETH".to_string(), p);
    let mut rec = trade(1, 0, "BTC", SCALE, "EUR", 3_000 * SCALE);
    rec.fee_asset = Some("ETH".to_string());
    rec.fee_amount = Some(SCALE / 2);
    c.process_record(&rec, None).unwrap();
    // one gain-neutral fee disposal of 0.5 ETH worth 25 EUR, then the sale
    let fee_entry = &c.log[2];
    assert_eq!(fee_entry.asset, "ETH");
    assert_eq!(fee_entry.amount, -((SCALE / 2) as i128));
    assert_eq!(fee_entry.actual_proceeds, Some((25 * SCALE) as u128));
    let sale_entry = &c.log[3];
    assert_eq!(sale_entry.asset, "BTC");
    // proceeds deflated by the converted fee value
    assert_eq!(sale_entry.actual_proceeds, Some(((3_000 - 25) * SCALE) as u128));
}

// An unknown transaction type is fatal.
#[test]
fn unknown_type_is_malformed() {
    let mut c = calc();
    let mut rec = reward(7, 0, "XTZ", SCALE);
    rec.tx_type = "Airdrop".to_string();
    match c.process_record(&rec, None) {
        Err(LedgerError::MalformedInput { tx_id }) => assert_eq!(tx_id, 7),
        other => panic!("expected MalformedInput, got {:?}", other),
    }
}

// A trade without an outgoing side cannot be interpreted.
#[test]
fn trade_without_out_side_is_malformed() {
    let mut c = calc();
    let mut rec = trade(8, 0, "BTC", SCALE, "EUR", SCALE);
    rec.out_asset = None;
    assert!(matches!(
        c.process_record(&rec, None),
        Err(LedgerError::MalformedInput { tx_id: 8 })
    ));
}

// A record that needs a market rate fails without one.
#[test]
fn missing_rate_is_oracle_unavailable() {
    let mut c = calc();
    seed_btc(&mut c, SCALE, 20_000 * SCALE);
    assert!(matches!(
        c.process_record(&trade(9, 0, "BTC", SCALE, "SOL", 10 * SCALE), None),
        Err(LedgerError::OracleUnavailable { tx_id: 9 })
    ));
    assert!(matches!(
        c.process_record(&reward(10, 0, "XTZ", SCALE), None),
        Err(LedgerError::OracleUnavailable { tx_id: 10 })
    ));
}

// A unit cost that does not fit the fixed-point range is an overflow error.
#[test]
fn oversized_unit_cost_overflows() {
    let mut c = calc();
    assert!(matches!(
        c.process_record(&trade(11, 0, "EUR", u64::MAX, "ETH", 1), None),
        Err(LedgerError::Overflow { tx_id: 11 })
    ));
}

// required_price names the outgoing asset of a foreign-to-foreign trade and
// the rewarded asset of a staking reward, and nothing else.
#[test]
fn required_price_cases() {
    let base = "EUR".to_string();
    let t = trade(1, 5, "BTC", SCALE, "SOL", SCALE);
    assert_eq!(required_price(&t, &base), Some(("BTC".to_string(), 5)));
    let t = trade(2, 6, "BTC", SCALE, "EUR", SCALE);
    assert_eq!(required_price(&t, &base), None);
    let t = trade(3, 7, "EUR", SCALE, "SOL", SCALE);
    assert_eq!(required_price(&t, &base), None);
    let r = reward(4, 8, "XTZ", SCALE);
    assert_eq!(required_price(&r, &base), Some(("XTZ".to_string(), 8)));
    let mut bad = reward(5, 9, "XTZ", SCALE);
    bad.tx_type = "Airdrop".to_string();
    assert_eq!(required_price(&bad, &base), None);
}

// A whole run in source order: reward, then a conversion of the reward.
#[test]
fn calculate_runs_records_in_order() {
    let records = vec![
        reward(1, 0, "XTZ", 5 * SCALE),
        trade(2, 400 * DAY, "XTZ", 5 * SCALE, "EUR", 12 * SCALE),
    ];
    let rates = vec![Some(2 * SCALE), None];
    let log = calculate_capital_gains(&records, &rates, AccountingMethod::FIFO, "EUR".to_string(), 1)
        .unwrap();
    assert_eq!(log.len(), 2);
    assert_eq!(log[0].asset, "XTZ");
    assert_eq!(log[0].gains_short_term, Some((10 * SCALE) as i128));
    assert_eq!(log[1].asset, "XTZ");
    assert_eq!(log[1].amount, -((5 * SCALE) as i128));
    // basis 10, proceeds 12, held 400 days: a long-term gain of 2
    assert_eq!(log[1].gains_long_term, Some((2 * SCALE) as i128));
    assert_eq!(log[1].gains_short_term, None);
}

// The run stops at its first error and returns it instead of a partial
// ledger.
#[test]
fn calculate_stops_at_first_error() {
    let records = vec![
        reward(1, 0, "XTZ", 5 * SCALE),
        trade(2, DAY, "BTC", SCALE, "EUR", 3_000 * SCALE),
    ];
    let rates = vec![Some(2 * SCALE), None];
    let r = calculate_capital_gains(&records, &rates, AccountingMethod::FIFO, "EUR".to_string(), 1);
    assert!(matches!(r, Err(LedgerError::InsufficientInventory { .. })));
}

// Fixed-point helpers compute exact rounded-down quotients.
#[test]
fn arithmetic_helpers() {
    assert_eq!(mul_div_u64(7, 5, 2), Some(17));
    assert_eq!(mul_div_u64(u64::MAX, u64::MAX, 1), None);
    assert_eq!(cost_of(SCALE, 2 * SCALE), (2 * SCALE) as u128);
    assert_eq!(cost_of(SCALE / 2, 3_000 * SCALE), (1_500 * SCALE) as u128);
    assert_eq!(slice_of(1_000, 1, 3), 333);
}

// The app options carry their values through the getters.
#[test]
fn app_getters() {
    let app = App::new(
        "transactions.csv".to_string(),
        "cashflows.csv".to_string(),
        "config.yaml".to_string(),
        true,
    );
    assert_eq!(app.get_input_path(), "transactions.csv");
    assert_eq!(app.get_output_path(), "cashflows.csv");
    assert_eq!(app.get_config_path(), "config.yaml");
    assert!(app.get_clear_cache());
}

// A foreign-to-foreign fee in a third asset is split evenly: each synthetic
// leg converts its half through a gain-neutral withdrawal, and the fee
// asset's inventory is drained by the whole fee.
#[test]
fn foreign_to_foreign_third_asset_fee_splits() {
    let mut c = calc();
    seed_btc(&mut c, SCALE, 20_000 * SCALE);
    let p = Purchase { tx_id: 901, datetime: -DAY, amount: SCALE, base_price: 50 * SCALE, actual_costs: 0 };
    c.process_purchase(&"ETH".to_string(), p);
    let mut rec = trade(1, 0, "BTC", SCALE, "SOL", 10 * SCALE);
    rec.fee_asset = Some("ETH".to_string());
    rec.fee_amount = Some(SCALE);
    c.process_record(&rec, Some(20_000 * SCALE)).unwrap();
    // fee disposal of 0.5 ETH, the BTC sale, fee disposal of 0.5 ETH, the
    // SOL purchase
    assert_eq!(c.log.len(), 6);
    let fee1 = &c.log[2];
    assert_eq!(fee1.asset, "ETH");
    assert_eq!(fee1.amount, -((SCALE / 2) as i128));
    let sale_entry = &c.log[3];
    assert_eq!(sale_entry.asset, "BTC");
    // the sale's proceeds are deflated by the first half's value of 25 EUR
    assert_eq!(sale_entry.actual_proceeds, Some(((20_000 - 25) * SCALE) as u128));
    let fee2 = &c.log[4];
    assert_eq!(fee2.asset, "ETH");
    assert_eq!(fee2.amount, -((SCALE / 2) as i128));
    let buy_entry = &c.log[5];
    assert_eq!(buy_entry.asset, "SOL");
    // the purchase's costs are inflated by the second half's value
    assert_eq!(buy_entry.actual_costs, ((20_000 + 25) * SCALE) as u128);
}

// A fee in the outgoing asset that pushes the withdrawn amount past the
// fixed-point range is an overflow error and changes nothing.
#[test]
fn fee_inflation_overflow_is_rejected() {
    let mut c = calc();
    let mut rec = trade(12, 0, "BTC", u64::MAX - 1, "EUR", SCALE);
    rec.fee_asset = Some("BTC".to_string());
    rec.fee_amount = Some(5);
    match c.process_record(&rec, None) {
        Err(LedgerError::Overflow { tx_id }) => assert_eq!(tx_id, 12),
        other => panic!("expected Overflow, got {:?}", other),
    }
    assert_eq!(c.log.len(), 0);
}
