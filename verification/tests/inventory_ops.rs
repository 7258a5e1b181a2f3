use cryptotax::SCALE;
use cryptotax::accounting::AccountingMethod;
use cryptotax::accounting::InventoryChange;
use cryptotax::inventory::Inventory;

const DAY: i64 = 86_400;

fn lot(tx_id: u32, datetime: i64, amount: u64, base_price: u64) -> InventoryChange {
    InventoryChange { tx_id, datetime, amount, base_price }
}

// Remaining total equals deposited total minus withdrawn total at every step.
#[test]
fn conservation_through_deposits_and_withdrawals() {
    let mut inv = Inventory::new(AccountingMethod::FIFO, 1);
    assert_eq!(inv.total(), 0);
    inv.deposit(lot(1, 0, 3 * SCALE, 100 * SCALE));
    assert_eq!(inv.total(), (3 * SCALE) as u128);
    inv.deposit(lot(2, DAY, 2 * SCALE, 150 * SCALE));
    assert_eq!(inv.total(), (5 * SCALE) as u128);
    let frags = inv.withdraw(SCALE / 2).unwrap();
    let withdrawn: u64 = frags.iter().map(|f| f.amount).sum();
    assert_eq!(withdrawn, SCALE / 2);
    assert_eq!(inv.total(), (5 * SCALE - SCALE / 2) as u128);
    let frags = inv.withdraw(4 * SCALE).unwrap();
    let withdrawn: u64 = frags.iter().map(|f| f.amount).sum();
    assert_eq!(withdrawn, 4 * SCALE);
    assert_eq!(inv.total(), (SCALE / 2) as u128);
}

// FIFO drains the older lot completely before touching the newer one.
#[test]
fn fifo_drains_oldest_first() {
    let mut inv = Inventory::new(AccountingMethod::FIFO, 1);
    inv.deposit(lot(1, 0, SCALE, 100 * SCALE));
    inv.deposit(lot(2, DAY, SCALE, 200 * SCALE));
    let frags = inv.withdraw(SCALE + SCALE / 4).unwrap();
    assert_eq!(frags.len(), 2);
    assert_eq!(frags[0].tx_id, 1);
    assert_eq!(frags[0].amount, SCALE);
    assert_eq!(frags[1].tx_id, 2);
    assert_eq!(frags[1].amount, SCALE / 4);
}

// LIFO drains the newer lot first.
#[test]
fn lifo_drains_newest_first() {
    let mut inv = Inventory::new(AccountingMethod::LIFO, 1);
    inv.deposit(lot(1, 0, SCALE, 100 * SCALE));
    inv.deposit(lot(2, DAY, SCALE, 200 * SCALE));
    let frags = inv.withdraw(SCALE + SCALE / 4).unwrap();
    assert_eq!(frags.len(), 2);
    assert_eq!(frags[0].tx_id, 2);
    assert_eq!(frags[0].amount, SCALE);
    assert_eq!(frags[1].tx_id, 1);
    assert_eq!(frags[1].amount, SCALE / 4);
}

// Deposit 1 @ 100, deposit 1 @ 200 a day later, withdraw 1.5 under FIFO:
// the first lot is fully drained, the second loses half, and half remains.
#[test]
fn partial_consumption_example() {
    let mut inv = Inventory::new(AccountingMethod::FIFO, 1);
    inv.deposit(lot(1, 0, SCALE, 100 * SCALE));
    inv.deposit(lot(2, DAY, SCALE, 200 * SCALE));
    let frags = inv.withdraw(SCALE + SCALE / 2).unwrap();
    assert_eq!(frags.len(), 2);
    assert_eq!(frags[0].amount, SCALE);
    assert_eq!(frags[0].base_price, 100 * SCALE);
    assert_eq!(frags[1].amount, SCALE / 2);
    assert_eq!(frags[1].base_price, 200 * SCALE);
    assert_eq!(inv.layers.len(), 1);
    assert_eq!(inv.layers[0].tx_id, 2);
    assert_eq!(inv.layers[0].amount, SCALE / 2);
}

// A withdrawal beyond the remaining total fails with the shortfall and
// leaves the inventory untouched.
#[test]
fn overdraw_fails_with_shortfall() {
    let mut inv = Inventory::new(AccountingMethod::FIFO, 1);
    inv.deposit(lot(1, 0, SCALE, 100 * SCALE));
    let r = inv.withdraw(3 * SCALE);
    assert_eq!(r.unwrap_err(), 2 * SCALE);
    assert_eq!(inv.total(), SCALE as u128);
    assert_eq!(inv.layers.len(), 1);
}

// A lot remainder below the precision threshold is treated as zero and the
// lot is removed rather than kept as a micro-lot.
#[test]
fn sub_epsilon_remainder_is_dropped() {
    let mut inv = Inventory::new(AccountingMethod::FIFO, 10);
    inv.deposit(lot(1, 0, 1_000, 100 * SCALE));
    let frags = inv.withdraw(995).unwrap();
    assert_eq!(frags.len(), 1);
    assert_eq!(frags[0].amount, 995);
    // the residue of 5 lies below the precision of 10 and vanishes
    assert_eq!(inv.layers.len(), 0);
    assert_eq!(inv.total(), 0);
}

// A request exceeding the total by no more than the precision is forgiven.
#[test]
fn shortfall_within_epsilon_is_forgiven() {
    let mut inv = Inventory::new(AccountingMethod::FIFO, 10);
    inv.deposit(lot(1, 0, 1_000, 100 * SCALE));
    let frags = inv.withdraw(1_008).unwrap();
    assert_eq!(frags.len(), 1);
    assert_eq!(frags[0].amount, 1_000);
    assert_eq!(inv.layers.len(), 0);
}
