use cryptotax::SCALE;
use cryptotax::accounting::{AccountingMethod, LedgerError, Purchase, Sale, Withdrawal, is_long_term};
use cryptotax::calculation::CapitalGainsCalculation;

const DAY: i64 = 86_400;

fn calc() -> CapitalGainsCalculation {
    CapitalGainsCalculation::new(AccountingMethod::FIFO, "EUR".to_string(), 1)
}

fn purchase(tx_id: u32, datetime: i64, amount: u64, base_price: u64, actual_costs: u64) -> Purchase {
    Purchase { tx_id, datetime, amount, base_price, actual_costs }
}

// Exactly 365 whole days is short-term; 366 whole days is long-term.
#[test]
fn holding_period_boundary() {
    assert!(!is_long_term(0, 365 * DAY));
    assert!(is_long_term(0, 366 * DAY));
    assert!(!is_long_term(0, 365 * DAY + DAY - 1));
    let t0 = 1_600_000_000;
    assert!(!is_long_term(t0, t0 + 365 * DAY));
    assert!(is_long_term(t0, t0 + 366 * DAY));
}

// A purchase deposits one lot and emits one entry; a market value above the
// cash paid is reported as an immediate gain.
#[test]
fn purchase_reports_discount_gain() {
    let mut c = calc();
    c.process_purchase(&"BTC".to_string(), purchase(1, 0, SCALE, 20_000 * SCALE, 15_000 * SCALE));
    assert_eq!(c.log.len(), 1);
    let e = &c.log[0];
    assert_eq!(e.asset, "BTC");
    assert_eq!(e.amount, SCALE as i128);
    assert_eq!(e.actual_costs, (15_000 * SCALE) as u128);
    assert_eq!(e.gains_short_term, Some((5_000 * SCALE) as i128));
    assert_eq!(e.gains_long_term, None);
}

// A purchase at market value reports no gain at all, not a zero gain.
#[test]
fn purchase_at_market_value_reports_no_gain() {
    let mut c = calc();
    c.process_purchase(&"BTC".to_string(), purchase(1, 0, SCALE, 20_000 * SCALE, 20_000 * SCALE));
    assert_eq!(c.log[0].gains_short_term, None);
    assert_eq!(c.log[0].gains_long_term, None);
}

// The proceeds slices of a sale sum exactly to its proceeds, and the
// fragment amounts sum to the sale amount.
#[test]
fn sale_apportions_proceeds_exactly() {
    let mut c = calc();
    c.process_purchase(&"BTC".to_string(), purchase(1, 0, SCALE, 10_000 * SCALE, 10_000 * SCALE));
    c.process_purchase(&"BTC".to_string(), purchase(2, DAY, SCALE, 11_000 * SCALE, 11_000 * SCALE));
    c.process_purchase(&"BTC".to_string(), purchase(3, 2 * DAY, SCALE, 12_000 * SCALE, 12_000 * SCALE));
    let proceeds = 33_333 * SCALE + 41;
    let sale = Sale { tx_id: 4, datetime: 3 * DAY, amount: 3 * SCALE - 7, proceeds };
    c.process_sale(&"BTC".to_string(), sale).unwrap();
    let entries: Vec<_> = c.log.iter().skip(3).collect();
    assert_eq!(entries.len(), 3);
    let sliced: u128 = entries.iter().map(|e| e.actual_proceeds.unwrap()).sum();
    assert_eq!(sliced, proceeds as u128);
    let amount_sum: i128 = entries.iter().map(|e| -e.amount).sum();
    assert_eq!(amount_sum, (3 * SCALE - 7) as i128);
}

// Gains are classified by the holding period of each consumed lot: a lot
// held 366 days realizes a long-term gain, one held 365 days a short-term
// gain.
#[test]
fn sale_classifies_gains_by_lot_age() {
    let mut c = calc();
    c.process_purchase(&"BTC".to_string(), purchase(1, 0, SCALE, 10_000 * SCALE, 10_000 * SCALE));
    c.process_purchase(&"BTC".to_string(), purchase(2, DAY, SCALE, 10_000 * SCALE, 10_000 * SCALE));
    let sale = Sale { tx_id: 3, datetime: 366 * DAY, amount: 2 * SCALE, proceeds: 24_000 * SCALE };
    c.process_sale(&"BTC".to_string(), sale).unwrap();
    let first = &c.log[2];
    let second = &c.log[3];
    // the first lot was held 366 whole days, the second 365
    assert_eq!(first.gains_long_term, Some((2_000 * SCALE) as i128));
    assert_eq!(first.gains_short_term, None);
    assert_eq!(second.gains_short_term, Some((2_000 * SCALE) as i128));
    assert_eq!(second.gains_long_term, None);
}

// A sale beyond the holdings fails with the asset and the shortfall, and
// neither the ledger nor the inventory changes.
#[test]
fn sale_with_insufficient_inventory_fails() {
    let mut c = calc();
    c.process_purchase(&"BTC".to_string(), purchase(1, 0, SCALE, 10_000 * SCALE, 10_000 * SCALE));
    let sale = Sale { tx_id: 2, datetime: DAY, amount: 3 * SCALE, proceeds: 30_000 * SCALE };
    match c.process_sale(&"BTC".to_string(), sale) {
        Err(LedgerError::InsufficientInventory { asset, shortfall }) => {
            assert_eq!(asset, "BTC");
            assert_eq!(shortfall, 2 * SCALE);
        },
        other => panic!("expected InsufficientInventory, got {:?}", other),
    }
    assert_eq!(c.log.len(), 1);
}

// A sale whose amount lies below the precision threshold puts the whole
// proceeds on its single fragment instead of dividing by a near-zero amount.
#[test]
fn sub_epsilon_sale_keeps_whole_proceeds() {
    let mut c = CapitalGainsCalculation::new(AccountingMethod::FIFO, "EUR".to_string(), 10);
    c.process_purchase(&"BTC".to_string(), purchase(1, 0, 1_000, 10_000 * SCALE, 0));
    let sale = Sale { tx_id: 2, datetime: DAY, amount: 5, proceeds: 777 };
    c.process_sale(&"BTC".to_string(), sale).unwrap();
    let e = &c.log[1];
    assert_eq!(e.actual_proceeds, Some(777));
    assert_eq!(e.amount, -5);
}

// A gain-neutral withdrawal reports proceeds equal to costs on every
// fragment and returns the total cost basis it consumed.
#[test]
fn withdrawal_is_gain_neutral() {
    let mut c = calc();
    c.process_purchase(&"ETH".to_string(), purchase(1, 0, 2 * SCALE, 1_000 * SCALE, 2_000 * SCALE));
    let w = Withdrawal { tx_id: 2, datetime: DAY, amount: SCALE / 2 };
    let value = c.process_withdrawal(&"ETH".to_string(), w).unwrap();
    assert_eq!(value, (500 * SCALE) as u128);
    let e = &c.log[1];
    assert_eq!(e.actual_costs, (500 * SCALE) as u128);
    assert_eq!(e.actual_proceeds, Some((500 * SCALE) as u128));
    assert_eq!(e.gains_short_term, None);
    assert_eq!(e.gains_long_term, None);
}

// Under LIFO the most recent lot's basis is consumed first.
#[test]
fn lifo_sale_uses_newest_basis() {
    let mut c = CapitalGainsCalculation::new(AccountingMethod::LIFO, "EUR".to_string(), 1);
    c.process_purchase(&"BTC".to_string(), purchase(1, 0, SCALE, 10_000 * SCALE, 10_000 * SCALE));
    c.process_purchase(&"BTC".to_string(), purchase(2, DAY, SCALE, 20_000 * SCALE, 20_000 * SCALE));
    let sale = Sale { tx_id: 3, datetime: 2 * DAY, amount: SCALE / 2, proceeds: 11_000 * SCALE };
    c.process_sale(&"BTC".to_string(), sale).unwrap();
    let e = &c.log[2];
    assert_eq!(e.tx_in, 2);
    assert_eq!(e.base_price, 20_000 * SCALE);
    // proceeds 11000 against half of a 20000-basis lot: gain 1000
    assert_eq!(e.gains_short_term, Some((1_000 * SCALE) as i128));
}
