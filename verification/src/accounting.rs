use vstd::prelude::*;

verus! {

/// Consumption order of acquisition lots: FIFO drains the oldest surviving
/// lot first, LIFO the newest.
#[derive(Clone, Copy, Debug, PartialEq, Eq, Structural)]
pub enum AccountingMethod {
    FIFO,
    LIFO,
}

/// Number of seconds in a whole day.
pub const DAY_SECONDS: u64 = 86_400;

/// Largest number of whole days a lot can be held while its realized gain is
/// still classified as short-term.
pub const LONG_TERM_DAYS: u64 = 365;

/// A disposal is long-term exactly when the lot was held for strictly more
/// than `LONG_TERM_DAYS` whole days, that is for at least 366 full days.
/// Timestamps are in seconds since the Unix epoch, UTC.
pub open spec fn spec_is_long_term(acquired: i64, disposed: i64) -> bool {
    disposed - acquired >= (LONG_TERM_DAYS + 1) * DAY_SECONDS
}

/// Classifies the holding period of a lot acquired at `acquired` and disposed
/// of at `disposed` (both in seconds since the Unix epoch).
pub fn is_long_term(acquired: i64, disposed: i64) -> (r: bool)
    ensures
        r == spec_is_long_term(acquired, disposed),
{
    proof {
        assert((LONG_TERM_DAYS as int + 1) * (DAY_SECONDS as int) == 31_622_400)
            by (nonlinear_arith);
    }
    (disposed as i128) - (acquired as i128) >= ((LONG_TERM_DAYS as i128) + 1) * (DAY_SECONDS as i128)
}

/// Holding-period boundary: a lot held for exactly 365 whole days is still
/// short-term, while one held for exactly 366 whole days is long-term.
pub proof fn lemma_holding_period_boundary(acquired: i64, disposed: i64)
    ensures
        disposed - acquired == 365 * (DAY_SECONDS as int) ==> !spec_is_long_term(acquired, disposed),
        disposed - acquired == 366 * (DAY_SECONDS as int) ==> spec_is_long_term(acquired, disposed),
{
}

/// One row of the input ledger. Amounts are fixed-point integers scaled by
/// `crate::SCALE`; `datetime` is in seconds since the Unix epoch, UTC.
#[derive(Debug)]
pub struct TransactionRecord {
    pub tx_id: u32,
    pub datetime: i64,
    pub account: String,
    pub tx_type: String,
    pub out_asset: Option<String>,
    pub out_amount: Option<u64>,
    pub in_asset: String,
    pub in_amount: u64,
    pub fee_asset: Option<String>,
    pub fee_amount: Option<u64>,
}

/// One entry of the cashflow ledger. A negative `amount` records a disposal.
/// At most one of `gains_short_term` and `gains_long_term` is present.
#[derive(Debug)]
pub struct CashflowRecord {
    pub tx_out: Option<u32>,
    pub datetime_out: Option<i64>,
    pub tx_in: u32,
    pub datetime_in: i64,
    pub asset: String,
    pub amount: i128,
    pub base_price: u64,
    pub actual_costs: u128,
    pub actual_proceeds: Option<u128>,
    pub gains_short_term: Option<i128>,
    pub gains_long_term: Option<i128>,
}

/// An acquisition recorded against an inventory: `amount` units priced
/// `base_price` (base asset per unit, scaled), paid for with `actual_costs`
/// of the base asset.
#[derive(Clone, Copy, Debug, PartialEq, Eq, Structural)]
pub struct Purchase {
    pub tx_id: u32,
    pub datetime: i64,
    pub amount: u64,
    pub base_price: u64,
    pub actual_costs: u64,
}

/// A disposal of `amount` units against `proceeds` of the base asset.
#[derive(Clone, Copy, Debug, PartialEq, Eq, Structural)]
pub struct Sale {
    pub tx_id: u32,
    pub datetime: i64,
    pub amount: u64,
    pub proceeds: u64,
}

/// An acquisition lot, and equally a consumed fragment of one: `amount`
/// units acquired at `datetime` with unit cost `base_price`.
#[derive(Clone, Copy, Debug, PartialEq, Eq, Structural)]
pub struct InventoryChange {
    pub tx_id: u32,
    pub datetime: i64,
    pub amount: u64,
    pub base_price: u64,
}

/// A gain-neutral removal of `amount` units, used to pay fees.
#[derive(Clone, Copy, Debug, PartialEq, Eq, Structural)]
pub struct Withdrawal {
    pub tx_id: u32,
    pub datetime: i64,
    pub amount: u64,
}

/// Why a run cannot continue. The ledger is produced completely or not at
/// all, so every variant is fatal to the run that meets it.
#[derive(Debug)]
pub enum LedgerError {
    /// A row that cannot be interpreted: an unknown transaction type, a trade
    /// without an outgoing side, or a degenerate amount.
    MalformedInput { tx_id: u32 },
    /// A withdrawal asked for more of `asset` than all surviving lots hold;
    /// the input ledger is incomplete or out of order.
    InsufficientInventory { asset: String, shortfall: u64 },
    /// A market rate was needed for this row but none was supplied.
    OracleUnavailable { tx_id: u32 },
    /// A computed quantity does not fit the fixed-point range.
    Overflow { tx_id: u32 },
}

} // verus!
