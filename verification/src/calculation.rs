use vstd::prelude::*;
use vstd::arithmetic::div_mod::{
    lemma_div_by_multiple, lemma_div_is_ordered, lemma_div_nonincreasing, lemma_div_pos_is_pos,
};
use vstd::arithmetic::mul::{
    lemma_mul_inequality, lemma_mul_is_commutative, lemma_mul_is_distributive_add,
    lemma_mul_nonnegative,
};
use crate::accounting::{
    AccountingMethod, CashflowRecord, InventoryChange, LedgerError, Purchase, Sale,
    TransactionRecord, Withdrawal, is_long_term, spec_is_long_term,
};
use crate::arith::{cost_of, lemma_cost_bound, slice_of, spec_cost};
use crate::inventory::{
    Inventory, consume, consume_exec, lemma_consume_props, lemma_lot_total_elem,
    lemma_lot_total_nonneg, lemma_lot_total_push, lemma_lot_total_take_le,
    lemma_lot_total_take_succ, lot_total,
};

verus! {

/// One asset's inventory, keyed by its symbol.
pub struct AssetEntry {
    pub asset: String,
    pub inventory: Inventory,
}

/// The lots held for `asset`: those of the first entry carrying that symbol,
/// or none when no entry does.
pub open spec fn lots_of(assets: Seq<AssetEntry>, asset: Seq<char>) -> Seq<InventoryChange>
    decreases assets.len(),
{
    if assets.len() == 0 {
        Seq::empty()
    } else if assets[0].asset@ == asset {
        assets[0].inventory.layers@
    } else {
        lots_of(assets.drop_first(), asset)
    }
}

proof fn lemma_lots_of_at(assets: Seq<AssetEntry>, i: int)
    requires
        0 <= i < assets.len(),
        forall|j: int| 0 <= j < i ==> (#[trigger] assets[j]).asset@ != assets[i].asset@,
    ensures
        lots_of(assets, assets[i].asset@) == assets[i].inventory.layers@,
    decreases i,
{
    if i > 0 {
        assert(assets[0].asset@ != assets[i].asset@);
        assert(assets.drop_first()[i - 1] == assets[i]);
        assert forall|j: int| 0 <= j < i - 1 implies (#[trigger] assets.drop_first()[j]).asset@
            != assets.drop_first()[i - 1].asset@ by {
            assert(assets.drop_first()[j] == assets[j + 1]);
        }
        lemma_lots_of_at(assets.drop_first(), i - 1);
    }
}

proof fn lemma_lots_of_update(assets: Seq<AssetEntry>, i: int, e: AssetEntry)
    requires
        0 <= i < assets.len(),
        forall|j: int| 0 <= j < i ==> (#[trigger] assets[j]).asset@ != assets[i].asset@,
        e.asset@ == assets[i].asset@,
    ensures
        forall|b: Seq<char>| #[trigger]
            lots_of(assets.update(i, e), b) == if b == e.asset@ {
                e.inventory.layers@
            } else {
                lots_of(assets, b)
            },
    decreases i,
{
    let upd = assets.update(i, e);
    if i == 0 {
        assert forall|b: Seq<char>| #[trigger]
            lots_of(upd, b) == if b == e.asset@ {
                e.inventory.layers@
            } else {
                lots_of(assets, b)
            } by {
            assert(upd[0] == e);
            assert(upd.drop_first() =~= assets.drop_first());
            if b == e.asset@ {
                assert(lots_of(upd, b) == e.inventory.layers@);
            } else {
                assert(lots_of(upd, b) == lots_of(upd.drop_first(), b));
                assert(lots_of(assets, b) == lots_of(assets.drop_first(), b));
            }
        }
    } else {
        assert(assets[0].asset@ != assets[i].asset@);
        assert(assets.drop_first()[i - 1] == assets[i]);
        assert forall|j: int| 0 <= j < i - 1 implies (#[trigger] assets.drop_first()[j]).asset@
            != assets.drop_first()[i - 1].asset@ by {
            assert(assets.drop_first()[j] == assets[j + 1]);
        }
        lemma_lots_of_update(assets.drop_first(), i - 1, e);
        assert forall|b: Seq<char>| #[trigger]
            lots_of(upd, b) == if b == e.asset@ {
                e.inventory.layers@
            } else {
                lots_of(assets, b)
            } by {
            assert(upd[0] == assets[0]);
            assert(upd.drop_first() =~= assets.drop_first().update(i - 1, e));
            if b == assets[0].asset@ {
                assert(lots_of(upd, b) == assets[0].inventory.layers@);
                assert(lots_of(assets, b) == assets[0].inventory.layers@);
            } else {
                assert(lots_of(upd, b) == lots_of(assets.drop_first().update(i - 1, e), b));
                assert(lots_of(assets, b) == lots_of(assets.drop_first(), b));
            }
        }
    }
}

proof fn lemma_lots_of_push(assets: Seq<AssetEntry>, e: AssetEntry)
    requires
        forall|j: int| 0 <= j < assets.len() ==> (#[trigger] assets[j]).asset@ != e.asset@,
    ensures
        forall|b: Seq<char>| #[trigger]
            lots_of(assets.push(e), b) == if b == e.asset@ {
                e.inventory.layers@
            } else {
                lots_of(assets, b)
            },
    decreases assets.len(),
{
    if assets.len() == 0 {
        assert forall|b: Seq<char>| #[trigger]
            lots_of(assets.push(e), b) == if b == e.asset@ {
                e.inventory.layers@
            } else {
                lots_of(assets, b)
            } by {
            assert(assets.push(e)[0] == e);
            assert(assets.push(e).drop_first() =~= Seq::<AssetEntry>::empty());
            if b == e.asset@ {
                assert(lots_of(assets.push(e), b) == e.inventory.layers@);
            } else {
                assert(lots_of(assets.push(e), b) == lots_of(Seq::<AssetEntry>::empty(), b));
                assert(lots_of(Seq::<AssetEntry>::empty(), b) == Seq::<InventoryChange>::empty());
                assert(lots_of(assets, b) == Seq::<InventoryChange>::empty());
            }
        }
    } else {
        assert forall|j: int|
            0 <= j < assets.drop_first().len() implies (#[trigger] assets.drop_first()[j]).asset@
            != e.asset@ by {
            assert(assets.drop_first()[j] == assets[j + 1]);
        }
        lemma_lots_of_push(assets.drop_first(), e);
        assert forall|b: Seq<char>| #[trigger]
            lots_of(assets.push(e), b) == if b == e.asset@ {
                e.inventory.layers@
            } else {
                lots_of(assets, b)
            } by {
            assert(assets.push(e)[0] == assets[0]);
            assert(assets[0].asset@ != e.asset@);
            assert(assets.push(e).drop_first() =~= assets.drop_first().push(e));
            if b == assets[0].asset@ {
                assert(lots_of(assets.push(e), b) == assets[0].inventory.layers@);
                assert(lots_of(assets, b) == assets[0].inventory.layers@);
            } else {
                assert(lots_of(assets.push(e), b) == lots_of(assets.drop_first().push(e), b));
                assert(lots_of(assets, b) == lots_of(assets.drop_first(), b));
            }
        }
    }
}

proof fn lemma_lots_of_absent(assets: Seq<AssetEntry>, b: Seq<char>)
    requires
        forall|j: int| 0 <= j < assets.len() ==> (#[trigger] assets[j]).asset@ != b,
    ensures
        lots_of(assets, b) == Seq::<InventoryChange>::empty(),
    decreases assets.len(),
{
    if assets.len() > 0 {
        assert(assets[0].asset@ != b);
        assert forall|j: int|
            0 <= j < assets.drop_first().len() implies (#[trigger] assets.drop_first()[j]).asset@
            != b by {
            assert(assets.drop_first()[j] == assets[j + 1]);
        }
        lemma_lots_of_absent(assets.drop_first(), b);
    }
}

/// First entry carrying `asset`, if any.
fn find_asset(assets: &Vec<AssetEntry>, asset: &String) -> (r: Option<usize>)
    ensures
        match r {
            Some(i) => {
                &&& i < assets@.len()
                &&& assets@[i as int].asset@ == asset@
                &&& forall|j: int| 0 <= j < i ==> (#[trigger] assets@[j]).asset@ != asset@
            },
            None => forall|j: int|
                0 <= j < assets@.len() ==> (#[trigger] assets@[j]).asset@ != asset@,
        },
{
    let mut i: usize = 0;
    while i < assets.len()
        invariant
            i <= assets@.len(),
            forall|j: int| 0 <= j < i ==> (#[trigger] assets@[j]).asset@ != asset@,
        decreases assets@.len() - i,
    {
        if assets[i].asset.eq(asset) {
            return Some(i);
        }
        i += 1;
    }
    None
}

/// The lot deposited by a purchase.
pub open spec fn purchase_lot(p: Purchase) -> InventoryChange {
    InventoryChange { tx_id: p.tx_id, datetime: p.datetime, amount: p.amount, base_price: p.base_price }
}

/// Where a deposit lands: the back of the queue under FIFO, the front under
/// LIFO.
pub open spec fn deposit_spec(
    lots: Seq<InventoryChange>,
    lot: InventoryChange,
    method: AccountingMethod,
) -> Seq<InventoryChange> {
    if method == AccountingMethod::FIFO {
        lots.push(lot)
    } else {
        lots.insert(0, lot)
    }
}

/// The single ledger entry a purchase emits. Its gain, market value minus
/// cash paid, is reported only when it reaches the precision threshold;
/// otherwise it is absent, never reported as zero.
pub open spec fn purchase_entry(asset: String, p: Purchase, eps: int) -> CashflowRecord {
    let gains = spec_cost(p.amount, p.base_price) - p.actual_costs;
    CashflowRecord {
        tx_out: None,
        datetime_out: None,
        tx_in: p.tx_id,
        datetime_in: p.datetime,
        asset,
        amount: p.amount as i128,
        base_price: p.base_price,
        actual_costs: p.actual_costs as u128,
        actual_proceeds: None,
        gains_short_term: if gains >= eps {
            Some(gains as i128)
        } else {
            None
        },
        gains_long_term: None,
    }
}

/// The proportional share of `proceeds` owed to `frag_amount` units out of a
/// sale of `amount` units, rounded down.
pub open spec fn slice_floor(proceeds: int, amount: int, frag_amount: int) -> int {
    (proceeds * frag_amount) / amount
}

/// Sum of the rounded-down shares of the first `k` fragments.
pub open spec fn slice_sum(
    proceeds: int,
    amount: int,
    frags: Seq<InventoryChange>,
    k: int,
) -> int
    decreases k,
{
    if k <= 0 {
        0
    } else {
        slice_sum(proceeds, amount, frags, k - 1) + slice_floor(
            proceeds,
            amount,
            frags[k - 1].amount as int,
        )
    }
}

/// The proceeds slice owed to fragment `i`: its proportional share rounded
/// down, except that the final fragment absorbs the rounding remainder, so
/// the slices sum exactly to the proceeds. A sale of a single fragment (in
/// particular one whose amount lies below the precision threshold) puts the
/// whole proceeds on that fragment.
pub open spec fn slice_at(proceeds: int, amount: int, frags: Seq<InventoryChange>, i: int) -> int {
    if i == frags.len() - 1 {
        proceeds - slice_sum(proceeds, amount, frags, i)
    } else {
        slice_floor(proceeds, amount, frags[i].amount as int)
    }
}

/// Sum of the slices of the first `k` fragments.
pub open spec fn slices_total(
    proceeds: int,
    amount: int,
    frags: Seq<InventoryChange>,
    k: int,
) -> int
    decreases k,
{
    if k <= 0 {
        0
    } else {
        slices_total(proceeds, amount, frags, k - 1) + slice_at(proceeds, amount, frags, k - 1)
    }
}

proof fn lemma_slice_sum_bound(proceeds: int, amount: int, frags: Seq<InventoryChange>, k: int)
    requires
        0 <= proceeds,
        1 <= amount,
        0 <= k <= frags.len(),
        lot_total(frags) <= amount,
    ensures
        0 <= slice_sum(proceeds, amount, frags, k),
        slice_sum(proceeds, amount, frags, k) * amount <= proceeds * lot_total(frags.take(k)),
        slice_sum(proceeds, amount, frags, k) <= proceeds,
    decreases k,
{
    lemma_lot_total_nonneg(frags.take(k));
    lemma_lot_total_take_le(frags, k);
    if k == 0 {
        lemma_mul_nonnegative(proceeds, lot_total(frags.take(0)));
    } else {
        lemma_slice_sum_bound(proceeds, amount, frags, k - 1);
        let f = frags[k - 1].amount as int;
        let s1 = slice_sum(proceeds, amount, frags, k - 1);
        let fl = slice_floor(proceeds, amount, f);
        lemma_mul_nonnegative(proceeds, f);
        lemma_div_pos_is_pos(proceeds * f, amount);
        lemma_lot_total_take_succ(frags, k - 1);
        // fl * amount <= proceeds * f, by the meaning of floor division
        assert(fl * amount <= proceeds * f) by (nonlinear_arith)
            requires
                1 <= amount,
                0 <= proceeds * f,
                fl == (proceeds * f) / amount,
        ;
        assert((s1 + fl) * amount == s1 * amount + fl * amount) by (nonlinear_arith);
        lemma_mul_is_distributive_add(proceeds, lot_total(frags.take(k - 1)), f);
        // slice_sum(k) <= proceeds: from slice_sum(k)*amount <= proceeds*take(k) <= proceeds*amount
        lemma_mul_inequality(lot_total(frags.take(k)), amount, proceeds);
        lemma_mul_is_commutative(lot_total(frags.take(k)), proceeds);
        lemma_mul_is_commutative(amount, proceeds);
        assert(slice_sum(proceeds, amount, frags, k) <= proceeds) by (nonlinear_arith)
            requires
                1 <= amount,
                slice_sum(proceeds, amount, frags, k) * amount <= proceeds * amount,
        ;
    }
}

proof fn lemma_slices_total_eq(proceeds: int, amount: int, frags: Seq<InventoryChange>, k: int)
    requires
        0 <= k < frags.len(),
    ensures
        slices_total(proceeds, amount, frags, k) == slice_sum(proceeds, amount, frags, k),
    decreases k,
{
    if k > 0 {
        lemma_slices_total_eq(proceeds, amount, frags, k - 1);
    }
}

/// Apportionment of a sale's proceeds: the per-fragment slices sum exactly to
/// the whole proceeds, and each slice is a non-negative part of them.
pub proof fn lemma_sale_apportionment(proceeds: int, amount: int, frags: Seq<InventoryChange>)
    requires
        0 <= proceeds,
        1 <= amount,
        1 <= frags.len(),
        lot_total(frags) <= amount,
    ensures
        slices_total(proceeds, amount, frags, frags.len() as int) == proceeds,
        forall|i: int|
            0 <= i < frags.len() ==> 0 <= #[trigger] slice_at(proceeds, amount, frags, i)
                <= proceeds,
{
    let n = frags.len() as int;
    lemma_slices_total_eq(proceeds, amount, frags, n - 1);
    lemma_slice_sum_bound(proceeds, amount, frags, n - 1);
    assert(slices_total(proceeds, amount, frags, n) == slice_sum(proceeds, amount, frags, n - 1)
        + slice_at(proceeds, amount, frags, n - 1));
    assert forall|i: int|
        0 <= i < frags.len() implies 0 <= #[trigger] slice_at(proceeds, amount, frags, i)
        <= proceeds by {
        if i == n - 1 {
            lemma_slice_sum_bound(proceeds, amount, frags, i);
        } else {
            let f = frags[i].amount as int;
            lemma_mul_nonnegative(proceeds, f);
            lemma_div_pos_is_pos(proceeds * f, amount);
            lemma_lot_total_elem(frags, i);
            lemma_mul_inequality(f, amount, proceeds);
            lemma_mul_is_commutative(f, proceeds);
            lemma_mul_is_commutative(amount, proceeds);
            lemma_div_is_ordered(proceeds * f, proceeds * amount, amount);
            lemma_div_by_multiple(proceeds, amount);
            lemma_mul_is_commutative(proceeds, amount);
        }
    }
}

/// The ledger entry for one consumed fragment of a sale: a disposal of the
/// fragment's amount, its cost basis, its proceeds slice, and the realized
/// gain classified by holding period.
pub open spec fn sale_entry(
    asset: String,
    s: Sale,
    frags: Seq<InventoryChange>,
    i: int,
) -> CashflowRecord {
    let frag = frags[i];
    let costs = spec_cost(frag.amount, frag.base_price);
    let proceeds_slice = slice_at(s.proceeds as int, s.amount as int, frags, i);
    let gains = proceeds_slice - costs;
    let long = spec_is_long_term(frag.datetime, s.datetime);
    CashflowRecord {
        tx_out: Some(s.tx_id),
        datetime_out: Some(s.datetime),
        tx_in: frag.tx_id,
        datetime_in: frag.datetime,
        asset,
        amount: (-(frag.amount as int)) as i128,
        base_price: frag.base_price,
        actual_costs: costs as u128,
        actual_proceeds: Some(proceeds_slice as u128),
        gains_short_term: if long {
            None
        } else {
            Some(gains as i128)
        },
        gains_long_term: if long {
            Some(gains as i128)
        } else {
            None
        },
    }
}

/// One ledger entry per consumed fragment, in consumption order.
pub open spec fn sale_entries(asset: String, s: Sale, frags: Seq<InventoryChange>) -> Seq<
    CashflowRecord,
> {
    Seq::new(frags.len(), |i: int| sale_entry(asset, s, frags, i))
}

/// The ledger entry for one fragment of a gain-neutral withdrawal: a disposal
/// whose proceeds equal its costs, reporting no gain.
pub open spec fn withdrawal_entry(asset: String, w: Withdrawal, frag: InventoryChange) -> CashflowRecord {
    let costs = spec_cost(frag.amount, frag.base_price);
    CashflowRecord {
        tx_out: Some(w.tx_id),
        datetime_out: Some(w.datetime),
        tx_in: frag.tx_id,
        datetime_in: frag.datetime,
        asset,
        amount: (-(frag.amount as int)) as i128,
        base_price: frag.base_price,
        actual_costs: costs as u128,
        actual_proceeds: Some(costs as u128),
        gains_short_term: None,
        gains_long_term: None,
    }
}

pub open spec fn withdrawal_entries(asset: String, w: Withdrawal, frags: Seq<InventoryChange>) -> Seq<
    CashflowRecord,
> {
    Seq::new(frags.len(), |i: int| withdrawal_entry(asset, w, frags[i]))
}

/// Total cost basis of a sequence of fragments.
pub open spec fn costs_total(frags: Seq<InventoryChange>) -> int
    decreases frags.len(),
{
    if frags.len() == 0 {
        0
    } else {
        spec_cost(frags[0].amount, frags[0].base_price) + costs_total(frags.drop_first())
    }
}

proof fn lemma_costs_total_push(frags: Seq<InventoryChange>, f: InventoryChange)
    ensures
        costs_total(frags.push(f)) == costs_total(frags) + spec_cost(f.amount, f.base_price),
    decreases frags.len(),
{
    assert(frags.push(f)[0] == if frags.len() == 0 { f } else { frags[0] });
    if frags.len() == 0 {
        assert(frags.push(f).drop_first() =~= Seq::<InventoryChange>::empty());
        assert(costs_total(Seq::<InventoryChange>::empty()) == 0);
    } else {
        assert(frags.push(f).drop_first() =~= frags.drop_first().push(f));
        lemma_costs_total_push(frags.drop_first(), f);
    }
}

proof fn lemma_costs_total_bound(frags: Seq<InventoryChange>)
    ensures
        0 <= costs_total(frags),
        costs_total(frags) <= lot_total(frags) * (u64::MAX as int),
    decreases frags.len(),
{
    if frags.len() == 0 {
        lemma_lot_total_nonneg(frags);
        lemma_mul_nonnegative(lot_total(frags), u64::MAX as int);
    } else {
        lemma_costs_total_bound(frags.drop_first());
        let f = frags[0];
        let c = spec_cost(f.amount, f.base_price);
        lemma_cost_bound(f.amount, f.base_price);
        lemma_mul_nonnegative(f.amount as int, f.base_price as int);
        lemma_div_nonincreasing(f.amount as int * f.base_price as int, crate::SCALE as int);
        lemma_mul_inequality(f.base_price as int, u64::MAX as int, f.amount as int);
        lemma_mul_is_commutative(f.base_price as int, f.amount as int);
        lemma_mul_is_commutative(u64::MAX as int, f.amount as int);
        // c <= f.amount * u64::MAX, and adding the tail keeps the bound
        assert(lot_total(frags) * (u64::MAX as int) == f.amount as int * (u64::MAX as int)
            + lot_total(frags.drop_first()) * (u64::MAX as int)) by (nonlinear_arith)
            requires
                lot_total(frags) == f.amount as int + lot_total(frags.drop_first()),
        ;
    }
}

proof fn lemma_costs_total_take_succ(frags: Seq<InventoryChange>, k: int)
    requires
        0 <= k < frags.len(),
    ensures
        costs_total(frags.take(k + 1)) == costs_total(frags.take(k)) + spec_cost(
            frags[k].amount,
            frags[k].base_price,
        ),
{
    assert(frags.take(k + 1) =~= frags.take(k).push(frags[k]));
    lemma_costs_total_push(frags.take(k), frags[k]);
}

/// Total cost basis of the fragments in `frags`; always fits `u128` when the
/// fragment amounts sum to at most `u64::MAX`.
fn sum_costs(frags: &Vec<InventoryChange>) -> (t: u128)
    requires
        lot_total(frags@) <= u64::MAX,
    ensures
        t == costs_total(frags@),
{
    let mut t: u128 = 0;
    let mut k: usize = 0;
    while k < frags.len()
        invariant
            k <= frags@.len(),
            lot_total(frags@) <= u64::MAX,
            t == costs_total(frags@.take(k as int)),
        decreases frags@.len() - k,
    {
        let c = cost_of(frags[k].amount, frags[k].base_price);
        proof {
            lemma_costs_total_take_succ(frags@, k as int);
            lemma_costs_total_bound(frags@.take(k as int + 1));
            lemma_lot_total_take_le(frags@, k as int + 1);
            lemma_lot_total_nonneg(frags@.take(k as int + 1));
            lemma_mul_inequality(lot_total(frags@.take(k as int + 1)), u64::MAX as int, u64::MAX as int);
        }
        t = t + c;
        k += 1;
    }
    proof {
        assert(frags@.take(frags@.len() as int) =~= frags@);
    }
    t
}

/// The combined effect of one simple trade: the ledger entries it appends,
/// the surviving lots of its non-base side, and the surviving lots of a fee
/// asset (unchanged whenever no fee conversion took place).
pub struct TradeEffect {
    pub entries: Seq<CashflowRecord>,
    pub target_lots: Seq<InventoryChange>,
    pub fee_lots: Seq<InventoryChange>,
}

/// The fee attached to a record, if it names both an asset and a positive
/// amount. A zero fee needs no attribution and is ignored.
pub open spec fn fee_of(record: TransactionRecord) -> Option<(String, u64)> {
    match (record.fee_asset, record.fee_amount) {
        (Some(fa), Some(fm)) => if fm >= 1 {
            Some((fa, fm))
        } else {
            None
        },
        _ => None,
    }
}

/// The purchase or sale a simple trade comes down to, after fees have
/// adjusted its amounts: base-out buys the incoming asset at unit cost
/// out/in, base-in sells the outgoing asset against the incoming proceeds.
pub open spec fn main_trade_outcome(
    record: TransactionRecord,
    base: String,
    out1: int,
    in1: int,
    fee_entries: Seq<CashflowRecord>,
    fee_lots_after: Seq<InventoryChange>,
    target_lots: Seq<InventoryChange>,
    method: AccountingMethod,
    eps: int,
) -> Result<TradeEffect, LedgerError> {
    let oa = match record.out_asset {
        Some(a) => a,
        None => base,
    };
    if oa@ == base@ {
        if in1 < 1 {
            Err(LedgerError::MalformedInput { tx_id: record.tx_id })
        } else {
            let price = (out1 * crate::SCALE) / in1;
            if price > u64::MAX {
                Err(LedgerError::Overflow { tx_id: record.tx_id })
            } else {
                let p = Purchase {
                    tx_id: record.tx_id,
                    datetime: record.datetime,
                    amount: in1 as u64,
                    base_price: price as u64,
                    actual_costs: out1 as u64,
                };
                Ok(
                    TradeEffect {
                        entries: fee_entries + seq![purchase_entry(record.in_asset, p, eps)],
                        target_lots: deposit_spec(target_lots, purchase_lot(p), method),
                        fee_lots: fee_lots_after,
                    },
                )
            }
        }
    } else {
        if out1 < 1 {
            Err(LedgerError::MalformedInput { tx_id: record.tx_id })
        } else if out1 > lot_total(target_lots) + eps {
            Err(
                LedgerError::InsufficientInventory {
                    asset: oa,
                    shortfall: (out1 - lot_total(target_lots)) as u64,
                },
            )
        } else {
            let s = Sale {
                tx_id: record.tx_id,
                datetime: record.datetime,
                amount: out1 as u64,
                proceeds: in1 as u64,
            };
            let c = consume(target_lots, out1, eps);
            Ok(
                TradeEffect {
                    entries: fee_entries + sale_entries(oa, s, c.fragments),
                    target_lots: c.lots,
                    fee_lots: fee_lots_after,
                },
            )
        }
    }
}

/// What a simple trade (one side in the base asset) does, given the prior
/// lots of its non-base side and of its fee asset. Fees are attributed
/// first: a fee in the outgoing asset inflates the outgoing amount, one in
/// the incoming asset deflates the incoming amount, and one in a third asset
/// is converted to base value through a gain-neutral withdrawal and applied
/// to whichever side is denominated in the base asset.
pub open spec fn trade_simple_outcome(
    record: TransactionRecord,
    base: String,
    target_lots: Seq<InventoryChange>,
    fee_lots: Seq<InventoryChange>,
    method: AccountingMethod,
    eps: int,
) -> Result<TradeEffect, LedgerError> {
    let oa = match record.out_asset {
        Some(a) => a,
        None => base,
    };
    let out0 = match record.out_amount {
        Some(x) => x as int,
        None => 0,
    };
    let in0 = record.in_amount as int;
    let buy = oa@ == base@;
    match fee_of(record) {
        None => main_trade_outcome(
            record,
            base,
            out0,
            in0,
            Seq::empty(),
            fee_lots,
            target_lots,
            method,
            eps,
        ),
        Some((fa, fm)) => {
            if fa@ == oa@ {
                if out0 + fm > u64::MAX {
                    Err(LedgerError::Overflow { tx_id: record.tx_id })
                } else {
                    main_trade_outcome(
                        record,
                        base,
                        out0 + fm,
                        in0,
                        Seq::empty(),
                        fee_lots,
                        target_lots,
                        method,
                        eps,
                    )
                }
            } else if fa@ == record.in_asset@ {
                if in0 < fm {
                    Err(LedgerError::Overflow { tx_id: record.tx_id })
                } else {
                    main_trade_outcome(
                        record,
                        base,
                        out0,
                        in0 - fm,
                        Seq::empty(),
                        fee_lots,
                        target_lots,
                        method,
                        eps,
                    )
                }
            } else {
                if fm > lot_total(fee_lots) + eps {
                    Err(
                        LedgerError::InsufficientInventory {
                            asset: fa,
                            shortfall: (fm - lot_total(fee_lots)) as u64,
                        },
                    )
                } else {
                    let wc = consume(fee_lots, fm as int, eps);
                    let fee_value = costs_total(wc.fragments);
                    let w = Withdrawal {
                        tx_id: record.tx_id,
                        datetime: record.datetime,
                        amount: fm,
                    };
                    let fee_entries = withdrawal_entries(fa, w, wc.fragments);
                    if buy {
                        if out0 + fee_value > u64::MAX {
                            Err(LedgerError::Overflow { tx_id: record.tx_id })
                        } else {
                            main_trade_outcome(
                                record,
                                base,
                                out0 + fee_value,
                                in0,
                                fee_entries,
                                wc.lots,
                                target_lots,
                                method,
                                eps,
                            )
                        }
                    } else {
                        if in0 < fee_value {
                            Err(LedgerError::Overflow { tx_id: record.tx_id })
                        } else {
                            main_trade_outcome(
                                record,
                                base,
                                out0,
                                in0 - fee_value,
                                fee_entries,
                                wc.lots,
                                target_lots,
                                method,
                                eps,
                            )
                        }
                    }
                }
            }
        },
    }
}

/// Whether a trade record has its outgoing side present.
pub open spec fn trade_fields_ok(record: TransactionRecord) -> bool {
    record.out_asset is Some && record.out_amount is Some
}

/// Whether a trade moves an asset into itself, or fails to touch the base
/// asset on exactly one side: such a record is not a simple trade and the
/// simple-trade handler leaves it alone.
pub open spec fn simple_trade_skipped(record: TransactionRecord, base: Seq<char>) -> bool {
    let oa = match record.out_asset {
        Some(a) => a@,
        None => base,
    };
    oa == record.in_asset@ || ((oa == base) <==> (record.in_asset@ == base))
}

/// The non-base side of a simple trade: what the trade buys or sells.
pub open spec fn simple_trade_target(record: TransactionRecord, base: Seq<char>) -> Seq<char> {
    let oa = match record.out_asset {
        Some(a) => a@,
        None => base,
    };
    if oa == base {
        record.in_asset@
    } else {
        oa
    }
}

/// The lots a record's fee asset holds in `assets`, or none when the record
/// carries no fee.
pub open spec fn fee_lots_in(assets: Seq<AssetEntry>, record: TransactionRecord) -> Seq<
    InventoryChange,
> {
    match record.fee_asset {
        Some(fa) => lots_of(assets, fa@),
        None => Seq::empty(),
    }
}

/// The record's outgoing asset, with the base asset standing in when the
/// record has none (such a record is malformed and rejected elsewhere).
pub open spec fn out_or_base(record: TransactionRecord, base: String) -> String {
    match record.out_asset {
        Some(a) => a,
        None => base,
    }
}

/// How a foreign-to-foreign trade splits its fee over the two synthetic
/// legs: wholly to the leg that shares the fee asset, or evenly (to the
/// quantum) across both when it matches neither side.
pub open spec fn f2f_fee_split(record: TransactionRecord, base: String) -> (
    Option<u64>,
    Option<u64>,
) {
    let oa = out_or_base(record, base);
    match fee_of(record) {
        None => (None, None),
        Some(f) => {
            if f.0@ == oa@ {
                (Some(f.1), None)
            } else if f.0@ == record.in_asset@ {
                (None, Some(f.1))
            } else {
                (Some((f.1 - f.1 / 2) as u64), Some((f.1 / 2) as u64))
            }
        },
    }
}

/// The first synthetic leg of a foreign-to-foreign trade: sell the outgoing
/// asset for `obv` units of the base asset.
pub open spec fn f2f_leg1(record: TransactionRecord, base: String, obv: u64) -> TransactionRecord {
    TransactionRecord {
        tx_id: record.tx_id,
        datetime: record.datetime,
        account: record.account,
        tx_type: record.tx_type,
        out_asset: record.out_asset,
        out_amount: record.out_amount,
        in_asset: base,
        in_amount: obv,
        fee_asset: record.fee_asset,
        fee_amount: f2f_fee_split(record, base).0,
    }
}

/// The second synthetic leg: buy the incoming asset with those `obv` units.
pub open spec fn f2f_leg2(record: TransactionRecord, base: String, obv: u64) -> TransactionRecord {
    TransactionRecord {
        tx_id: record.tx_id,
        datetime: record.datetime,
        account: record.account,
        tx_type: record.tx_type,
        out_asset: Some(base),
        out_amount: Some(obv),
        in_asset: record.in_asset,
        in_amount: record.in_amount,
        fee_asset: record.fee_asset,
        fee_amount: f2f_fee_split(record, base).1,
    }
}

/// The purchase a staking reward comes down to: the rewarded amount at the
/// market rate, with no cash paid, so that the whole market value is an
/// immediate realized gain.
pub open spec fn reward_purchase(record: TransactionRecord, rate: u64) -> Purchase {
    Purchase {
        tx_id: record.tx_id,
        datetime: record.datetime,
        amount: record.in_amount,
        base_price: rate,
        actual_costs: 0,
    }
}

/// Copies an optional asset symbol.
fn clone_opt(o: &Option<String>) -> (r: Option<String>)
    ensures
        r == *o,
{
    match o {
        Some(s) => Some(s.clone()),
        None => None,
    }
}

/// One run's per-asset lots, as a total map from asset symbol to lots;
/// assets never referenced hold no lots.
pub open spec fn lots_map_of(assets: Seq<AssetEntry>) -> Map<Seq<char>, Seq<InventoryChange>> {
    Map::new(|k: Seq<char>| true, |k: Seq<char>| lots_of(assets, k))
}

/// What one record does to the per-asset lots and to the ledger: the updated
/// lots and the appended entries, or the error that aborts the run. Trades
/// move an asset for another; a trade into itself has no economic effect; a
/// trade with the base asset on exactly one side is a simple trade; one
/// between two foreign assets needs the market rate of its outgoing asset
/// and decomposes into two simple legs. Staking rewards need the market rate
/// of the rewarded asset. Every other transaction type is malformed.
pub open spec fn record_step(
    m: Map<Seq<char>, Seq<InventoryChange>>,
    record: TransactionRecord,
    rate: Option<u64>,
    base: String,
    method: AccountingMethod,
    eps: int,
) -> Result<(Map<Seq<char>, Seq<InventoryChange>>, Seq<CashflowRecord>), LedgerError> {
    if record.tx_type@ == "Trade"@ {
        if !trade_fields_ok(record) {
            Err(LedgerError::MalformedInput { tx_id: record.tx_id })
        } else {
            let oa = out_or_base(record, base);
            if oa@ == record.in_asset@ {
                Ok((m, Seq::empty()))
            } else if oa@ == base@ || record.in_asset@ == base@ {
                let target = simple_trade_target(record, base@);
                let flots = match record.fee_asset {
                    Some(fa) => m[fa@],
                    None => Seq::<InventoryChange>::empty(),
                };
                match trade_simple_outcome(record, base, m[target], flots, method, eps) {
                    Ok(e) => {
                        let m1 = match record.fee_asset {
                            Some(fa) => m.insert(fa@, e.fee_lots),
                            None => m,
                        };
                        Ok((m1.insert(target, e.target_lots), e.entries))
                    },
                    Err(er) => Err(er),
                }
            } else {
                match rate {
                    None => Err(LedgerError::OracleUnavailable { tx_id: record.tx_id }),
                    Some(rt) => {
                        let out0 = match record.out_amount {
                            Some(x) => x as int,
                            None => 0,
                        };
                        if (out0 * rt) / (crate::SCALE as int) > u64::MAX {
                            Err(LedgerError::Overflow { tx_id: record.tx_id })
                        } else {
                            let obv = ((out0 * rt) / (crate::SCALE as int)) as u64;
                            let rec1 = f2f_leg1(record, base, obv);
                            let flots1 = match record.fee_asset {
                                Some(fa) => m[fa@],
                                None => Seq::<InventoryChange>::empty(),
                            };
                            match trade_simple_outcome(rec1, base, m[oa@], flots1, method, eps) {
                                Err(e1) => Err(e1),
                                Ok(e1) => {
                                    let rec2 = f2f_leg2(record, base, obv);
                                    let fee_mid = match record.fee_asset {
                                        Some(fa) => if fa@ == oa@ {
                                            e1.target_lots
                                        } else if fee_of(rec1) is Some {
                                            e1.fee_lots
                                        } else {
                                            m[fa@]
                                        },
                                        None => Seq::<InventoryChange>::empty(),
                                    };
                                    match trade_simple_outcome(
                                        rec2,
                                        base,
                                        m[record.in_asset@],
                                        fee_mid,
                                        method,
                                        eps,
                                    ) {
                                        Err(e2) => Err(e2),
                                        Ok(e2) => {
                                            let m1 = match record.fee_asset {
                                                Some(fa) => m.insert(fa@, e2.fee_lots),
                                                None => m,
                                            };
                                            let m2 = m1.insert(record.in_asset@, e2.target_lots);
                                            Ok(
                                                (
                                                    m2.insert(oa@, e1.target_lots),
                                                    e1.entries + e2.entries,
                                                ),
                                            )
                                        },
                                    }
                                },
                            }
                        }
                    },
                }
            }
        }
    } else if record.tx_type@ == "Staking Reward"@ {
        match rate {
            None => Err(LedgerError::OracleUnavailable { tx_id: record.tx_id }),
            Some(rt) => {
                let p = reward_purchase(record, rt);
                Ok(
                    (
                        m.insert(
                            record.in_asset@,
                            deposit_spec(m[record.in_asset@], purchase_lot(p), method),
                        ),
                        seq![purchase_entry(record.in_asset, p, eps)],
                    ),
                )
            },
        }
    } else {
        Err(LedgerError::MalformedInput { tx_id: record.tx_id })
    }
}

/// The market rate a record needs before it can be processed: the outgoing
/// asset against the base asset for a trade between two foreign assets, the
/// rewarded asset against the base asset for a staking reward, and none
/// otherwise.
pub open spec fn spec_required_price(record: TransactionRecord, base: Seq<char>) -> Option<
    (Seq<char>, i64),
> {
    if record.tx_type@ == "Trade"@ {
        match (record.out_asset, record.out_amount) {
            (Some(oa), Some(x)) => if oa@ != record.in_asset@ && oa@ != base && record.in_asset@
                != base {
                Some((oa@, record.datetime))
            } else {
                None
            },
            _ => None,
        }
    } else if record.tx_type@ == "Staking Reward"@ {
        Some((record.in_asset@, record.datetime))
    } else {
        None
    }
}

/// The empty per-asset state: no asset holds any lots.
pub open spec fn empty_lots_map() -> Map<Seq<char>, Seq<InventoryChange>> {
    Map::new(|k: Seq<char>| true, |k: Seq<char>| Seq::<InventoryChange>::empty())
}

/// Folds `record_step` over a run's records in source order, against the
/// rates fetched for them, starting from position `i`; the run stops at its
/// first error, producing either the final per-asset lots with the complete
/// ledger, or that error.
pub open spec fn run_calc(
    records: Seq<TransactionRecord>,
    rates: Seq<Option<u64>>,
    i: int,
    m: Map<Seq<char>, Seq<InventoryChange>>,
    log: Seq<CashflowRecord>,
    base: String,
    method: AccountingMethod,
    eps: int,
) -> Result<(Map<Seq<char>, Seq<InventoryChange>>, Seq<CashflowRecord>), LedgerError>
    decreases records.len() - i,
{
    if i < 0 || i >= records.len() {
        Ok((m, log))
    } else {
        match record_step(m, records[i], rates[i], base, method, eps) {
            Ok(sl) => run_calc(records, rates, i + 1, sl.0, log + sl.1, base, method, eps),
            Err(e) => Err(e),
        }
    }
}

/// Processes a whole transaction stream in source order and returns the
/// cashflow ledger it produces, or the first fatal error. `rates[i]` is the
/// market rate that `records[i]` needs, where it needs one (see
/// `required_price`). No partial ledger is ever returned: the result is the
/// complete, internally consistent ledger or the error that stopped the run.
#[verifier::rlimit(100)]
pub fn calculate_capital_gains(
    records: &Vec<TransactionRecord>,
    rates: &Vec<Option<u64>>,
    accounting_method: AccountingMethod,
    base_asset: String,
    currency_precision: u64,
) -> (r: Result<Vec<CashflowRecord>, LedgerError>)
    requires
        1 <= currency_precision,
        rates@.len() == records@.len(),
    ensures
        ({
            match run_calc(
                records@,
                rates@,
                0,
                empty_lots_map(),
                Seq::empty(),
                base_asset,
                accounting_method,
                currency_precision as int,
            ) {
                Ok(sl) => r matches Ok(v) && v@ == sl.1,
                Err(e) => r == Err::<Vec<CashflowRecord>, LedgerError>(e),
            }
        }),
{
    let ghost base0 = base_asset;
    let ghost eps = currency_precision as int;
    let ghost goal = run_calc(
        records@,
        rates@,
        0,
        empty_lots_map(),
        Seq::empty(),
        base0,
        accounting_method,
        eps,
    );
    let mut calc = CapitalGainsCalculation::new(accounting_method, base_asset, currency_precision);
    let ghost mut m = empty_lots_map();
    proof {
        assert forall|b: Seq<char>| #[trigger] lots_of(calc.assets@, b) == m[b] by {
            assert(m.dom().contains(b));
        }
    }
    let n = records.len();
    let mut i: usize = 0;
    while i < n
        invariant
            i <= n,
            n == records@.len(),
            rates@.len() == records@.len(),
            1 <= currency_precision,
            calc.wf(),
            calc.accounting_method == accounting_method,
            calc.base_asset == base0,
            calc.currency_precision == currency_precision,
            eps == currency_precision as int,
            base0 == base_asset,
            goal == run_calc(
                records@,
                rates@,
                0,
                empty_lots_map(),
                Seq::empty(),
                base0,
                accounting_method,
                eps,
            ),
            forall|b: Seq<char>| #[trigger] m.dom().contains(b),
            forall|b: Seq<char>| #[trigger] lots_of(calc.assets@, b) == m[b],
            goal == run_calc(records@, rates@, i as int, m, calc.log@, base0, accounting_method, eps),
        decreases n - i,
    {
        let rec = &records[i];
        let rt = rates[i];
        let ghost m_pre = m;
        let ghost log_pre = calc.log@;
        proof {
            assert forall|b: Seq<char>| #[trigger]
                lots_map_of(calc.assets@).dom().contains(b) && lots_map_of(calc.assets@)[b]
                == m_pre[b] by {
                assert(lots_map_of(calc.assets@)[b] == lots_of(calc.assets@, b));
            }
            assert(lots_map_of(calc.assets@) =~= m_pre);
        }
        let res = calc.process_record(rec, rt);
        match res {
            Ok(_u) => {
                proof {
                    let sl = record_step(
                        m_pre,
                        records@[i as int],
                        rates@[i as int],
                        base0,
                        accounting_method,
                        eps,
                    )->Ok_0;
                    m = sl.0;
                }
            },
            Err(e) => {
                proof {
                    assert(run_calc(
                        records@,
                        rates@,
                        i as int,
                        m_pre,
                        log_pre,
                        base0,
                        accounting_method,
                        eps,
                    ) == Err::<(Map<Seq<char>, Seq<InventoryChange>>, Seq<CashflowRecord>), LedgerError>(e));
                }
                return Err(e);
            },
        }
        i += 1;
    }
    Ok(calc.log)
}
pub fn required_price(record: &TransactionRecord, base_asset: &String) -> (r: Option<(String, i64)>)
    ensures
        match r {
            Some(q) => spec_required_price(*record, base_asset@) == Some((q.0@, q.1)),
            None => spec_required_price(*record, base_asset@) is None,
        },
{
    let trade_label: String = "Trade".to_owned();
    let reward_label: String = "Staking Reward".to_owned();
    if record.tx_type.eq(&trade_label) {
        match (&record.out_asset, record.out_amount) {
            (Some(oa), Some(_x)) => {
                if !oa.eq(&record.in_asset) && !oa.eq(base_asset) && !record.in_asset.eq(
                    base_asset,
                ) {
                    Some((oa.clone(), record.datetime))
                } else {
                    None
                }
            },
            _ => None,
        }
    } else if record.tx_type.eq(&reward_label) {
        Some((record.in_asset.clone(), record.datetime))
    } else {
        None
    }
}

/// Interprets transaction records against per-asset inventories and an
/// append-only cashflow ledger. Inventories are created lazily, on the first
/// reference to their asset.
pub struct CapitalGainsCalculation {
    pub assets: Vec<AssetEntry>,
    pub log: Vec<CashflowRecord>,
    pub accounting_method: AccountingMethod,
    pub base_asset: String,
    pub currency_precision: u64,
}

impl CapitalGainsCalculation {
    /// Every inventory carries the calculation's own method and precision,
    /// and the precision is at least one quantum.
    pub open spec fn wf(&self) -> bool {
        &&& 1 <= self.currency_precision
        &&& forall|j: int|
            0 <= j < self.assets@.len() ==> {
                &&& (#[trigger] self.assets@[j]).inventory.accounting_method
                    == self.accounting_method
                &&& self.assets@[j].inventory.currency_precision == self.currency_precision
            }
    }

    /// `self` carries the same method, base asset and precision as `other`.
    pub open spec fn same_config(&self, other: &Self) -> bool {
        &&& self.accounting_method == other.accounting_method
        &&& self.base_asset == other.base_asset
        &&& self.currency_precision == other.currency_precision
    }

    pub fn new(
        accounting_method: AccountingMethod,
        base_asset: String,
        currency_precision: u64,
    ) -> (r: CapitalGainsCalculation)
        requires
            1 <= currency_precision,
        ensures
            r.wf(),
            r.assets@ == Seq::<AssetEntry>::empty(),
            r.log@ == Seq::<CashflowRecord>::empty(),
            r.accounting_method == accounting_method,
            r.base_asset == base_asset,
            r.currency_precision == currency_precision,
            forall|b: Seq<char>| #[trigger]
                lots_of(r.assets@, b) == Seq::<InventoryChange>::empty(),
    {
        let r = CapitalGainsCalculation {
            assets: Vec::new(),
            log: Vec::new(),
            accounting_method,
            base_asset,
            currency_precision,
        };
        proof {
            assert(r.assets@ =~= Seq::<AssetEntry>::empty());
            assert(r.log@ =~= Seq::<CashflowRecord>::empty());
        }
        r
    }

    /// Index of the entry for `asset`, creating an empty inventory for it if
    /// none exists yet. Leaves every asset's lots unchanged.
    fn ensure_asset(&mut self, asset: &String) -> (i: usize)
        requires
            old(self).wf(),
        ensures
            final(self).wf(),
            final(self).same_config(old(self)),
            final(self).log@ == old(self).log@,
            i < final(self).assets@.len(),
            final(self).assets@[i as int].asset@ == asset@,
            forall|j: int| 0 <= j < i ==> (#[trigger] final(self).assets@[j]).asset@ != asset@,
            final(self).assets@[i as int].inventory.layers@ == lots_of(old(self).assets@, asset@),
            final(self).assets@[i as int].inventory.accounting_method == old(
                self,
            ).accounting_method,
            final(self).assets@[i as int].inventory.currency_precision == old(
                self,
            ).currency_precision,
            forall|b: Seq<char>| #[trigger]
                lots_of(final(self).assets@, b) == lots_of(old(self).assets@, b),
    {
        match find_asset(&self.assets, asset) {
            Some(i) => {
                proof {
                    lemma_lots_of_at(self.assets@, i as int);
                }
                i
            },
            None => {
                let inv = Inventory::new(self.accounting_method, self.currency_precision);
                let entry = AssetEntry { asset: asset.clone(), inventory: inv };
                proof {
                    lemma_lots_of_push(self.assets@, entry);
                    lemma_lots_of_absent(self.assets@, asset@);
                }
                let i = self.assets.len();
                self.assets.push(entry);
                i
            },
        }
    }

    /// Deposits a lot of `asset` at `purchase.base_price` and appends the
    /// purchase's single ledger entry.
    pub fn process_purchase(&mut self, asset: &String, purchase: Purchase)
        requires
            old(self).wf(),
        ensures
            final(self).wf(),
            final(self).same_config(old(self)),
            final(self).log@ == old(self).log@.push(
                purchase_entry(*asset, purchase, old(self).currency_precision as int),
            ),
            forall|b: Seq<char>| #[trigger]
                lots_of(final(self).assets@, b) == if b == asset@ {
                    deposit_spec(
                        lots_of(old(self).assets@, asset@),
                        purchase_lot(purchase),
                        old(self).accounting_method,
                    )
                } else {
                    lots_of(old(self).assets@, b)
                },
    {
        let idx = self.ensure_asset(asset);
        let ghost mid = self.assets@;
        let mut entry = self.assets.remove(idx);
        entry.inventory.deposit(
            InventoryChange {
                tx_id: purchase.tx_id,
                datetime: purchase.datetime,
                amount: purchase.amount,
                base_price: purchase.base_price,
            },
        );
        self.assets.insert(idx, entry);
        proof {
            assert(self.assets@ =~= mid.update(idx as int, self.assets@[idx as int]));
            lemma_lots_of_update(mid, idx as int, self.assets@[idx as int]);
        }
        let value = cost_of(purchase.amount, purchase.base_price);
        proof {
            lemma_cost_bound(purchase.amount, purchase.base_price);
        }
        let gains_raw: i128 = (value as i128) - (purchase.actual_costs as i128);
        let gains: Option<i128> = if gains_raw >= (self.currency_precision as i128) {
            Some(gains_raw)
        } else {
            None
        };
        self.log.push(
            CashflowRecord {
                tx_out: None,
                datetime_out: None,
                tx_in: purchase.tx_id,
                datetime_in: purchase.datetime,
                asset: asset.clone(),
                amount: purchase.amount as i128,
                base_price: purchase.base_price,
                actual_costs: purchase.actual_costs as u128,
                actual_proceeds: None,
                gains_short_term: gains,
                gains_long_term: None,
            },
        );
    }

    /// Withdraws `sale.amount` of `asset` and appends one entry per consumed
    /// fragment, apportioning the proceeds across the fragments and
    /// classifying each realized gain by holding period. Fails, changing
    /// nothing, exactly when the inventory cannot cover the sale.
    pub fn process_sale(&mut self, asset: &String, sale: Sale) -> (r: Result<(), LedgerError>)
        requires
            old(self).wf(),
            1 <= sale.amount,
        ensures
            final(self).wf(),
            final(self).same_config(old(self)),
            ({
                let lots = lots_of(old(self).assets@, asset@);
                let eps = old(self).currency_precision as int;
                let c = consume(lots, sale.amount as int, eps);
                match r {
                    Ok(u) => {
                        &&& sale.amount <= lot_total(lots) + eps
                        &&& final(self).log@ == old(self).log@ + sale_entries(
                            *asset,
                            sale,
                            c.fragments,
                        )
                        &&& forall|b: Seq<char>| #[trigger]
                            lots_of(final(self).assets@, b) == if b == asset@ {
                                c.lots
                            } else {
                                lots_of(old(self).assets@, b)
                            }
                    },
                    Err(e) => {
                        &&& sale.amount > lot_total(lots) + eps
                        &&& e == (LedgerError::InsufficientInventory {
                            asset: *asset,
                            shortfall: (sale.amount - lot_total(lots)) as u64,
                        })
                        &&& final(self).log@ == old(self).log@
                        &&& forall|b: Seq<char>| #[trigger]
                            lots_of(final(self).assets@, b) == lots_of(old(self).assets@, b)
                    },
                }
            }),
    {
        let ghost lots0 = lots_of(old(self).assets@, asset@);
        let ghost eps = self.currency_precision as int;
        let idx = self.ensure_asset(asset);
        let ghost mid = self.assets@;
        let mut entry = self.assets.remove(idx);
        match entry.inventory.withdraw(sale.amount) {
            Err(shortfall) => {
                self.assets.insert(idx, entry);
                proof {
                    assert(self.assets@ =~= mid);
                }
                Err(LedgerError::InsufficientInventory { asset: asset.clone(), shortfall })
            },
            Ok(frags) => {
                self.assets.insert(idx, entry);
                proof {
                    assert(self.assets@ =~= mid.update(idx as int, self.assets@[idx as int]));
                    lemma_lots_of_update(mid, idx as int, self.assets@[idx as int]);
                    lemma_consume_props(lots0, sale.amount as int, eps);
                    lemma_lot_total_nonneg(consume(lots0, sale.amount as int, eps).fragments);
                }
                let ghost c = consume(lots0, sale.amount as int, eps);
                let ghost entries = sale_entries(*asset, sale, c.fragments);
                let ghost pre_log = self.log@;
                let ghost assets_mid = self.assets@;
                let ghost am0 = self.accounting_method;
                let ghost ba0 = self.base_asset;
                let ghost cp0 = self.currency_precision;
                let n = frags.len();
                let mut k: usize = 0;
                let mut acc: u64 = 0;
                while k < n
                    invariant
                        k <= n,
                        n == frags@.len(),
                        frags@ == c.fragments,
                        entries == sale_entries(*asset, sale, c.fragments),
                        1 <= sale.amount,
                        lot_total(frags@) <= sale.amount,
                        forall|i: int|
                            0 <= i < frags@.len() ==> #[trigger] frags@[i].amount <= sale.amount,
                        self.assets@ == assets_mid,
                        self.accounting_method == am0,
                        self.base_asset == ba0,
                        self.currency_precision == cp0,
                        self.wf(),
                        self.log@ == pre_log + entries.take(k as int),
                        acc == slices_total(sale.proceeds as int, sale.amount as int, frags@, k as int),
                        acc <= sale.proceeds,
                    decreases n - k,
                {
                    let frag = frags[k];
                    proof {
                        if n > 1 {
                            lemma_sale_apportionment(
                                sale.proceeds as int,
                                sale.amount as int,
                                frags@,
                            );
                            lemma_slices_total_eq(
                                sale.proceeds as int,
                                sale.amount as int,
                                frags@,
                                n - 1,
                            );
                        }
                        if k as int == n - 1 && n == 1 {
                            // a single fragment receives the whole proceeds
                            assert(slices_total(
                                sale.proceeds as int,
                                sale.amount as int,
                                frags@,
                                0,
                            ) == 0);
                        }
                    }
                    let slice: u64 = if k + 1 == n {
                        sale.proceeds - acc
                    } else {
                        slice_of(sale.proceeds, frag.amount, sale.amount)
                    };
                    let costs: u128 = cost_of(frag.amount, frag.base_price);
                    let long = is_long_term(frag.datetime, sale.datetime);
                    let gains: i128 = (slice as i128) - (costs as i128);
                    proof {
                        lemma_cost_bound(frag.amount, frag.base_price);
                    }
                    self.log.push(
                        CashflowRecord {
                            tx_out: Some(sale.tx_id),
                            datetime_out: Some(sale.datetime),
                            tx_in: frag.tx_id,
                            datetime_in: frag.datetime,
                            asset: asset.clone(),
                            amount: -(frag.amount as i128),
                            base_price: frag.base_price,
                            actual_costs: costs,
                            actual_proceeds: Some(slice as u128),
                            gains_short_term: if long {
                                None
                            } else {
                                Some(gains)
                            },
                            gains_long_term: if long {
                                Some(gains)
                            } else {
                                None
                            },
                        },
                    );
                    proof {
                        assert(slice as int == slice_at(
                            sale.proceeds as int,
                            sale.amount as int,
                            frags@,
                            k as int,
                        ));
                        assert(self.log@.last() == sale_entry(*asset, sale, c.fragments, k as int));
                        assert(self.log@ =~= pre_log + entries.take(k as int + 1));
                        if (k as int) < n - 1 {
                            lemma_slices_total_eq(
                                sale.proceeds as int,
                                sale.amount as int,
                                frags@,
                                k as int + 1,
                            );
                            lemma_slice_sum_bound(
                                sale.proceeds as int,
                                sale.amount as int,
                                frags@,
                                k as int + 1,
                            );
                        } else {
                            lemma_sale_apportionment(
                                sale.proceeds as int,
                                sale.amount as int,
                                frags@,
                            );
                        }
                    }
                    acc = acc + slice;
                    k += 1;
                }
                proof {
                    assert(entries.take(n as int) =~= entries);
                }
                Ok(())
            },
        }
    }

    /// Gain-neutral withdrawal of `asset`, used to pay fees: consumes
    /// inventory, appends one zero-gain disposal entry per fragment, and
    /// returns the total cost basis of what was consumed, in base units.
    pub fn process_withdrawal(&mut self, asset: &String, withdrawal: Withdrawal) -> (r: Result<
        u128,
        LedgerError,
    >)
        requires
            old(self).wf(),
            1 <= withdrawal.amount,
        ensures
            final(self).wf(),
            final(self).same_config(old(self)),
            ({
                let lots = lots_of(old(self).assets@, asset@);
                let eps = old(self).currency_precision as int;
                let c = consume(lots, withdrawal.amount as int, eps);
                match r {
                    Ok(total) => {
                        &&& withdrawal.amount <= lot_total(lots) + eps
                        &&& total == costs_total(c.fragments)
                        &&& final(self).log@ == old(self).log@ + withdrawal_entries(
                            *asset,
                            withdrawal,
                            c.fragments,
                        )
                        &&& forall|b: Seq<char>| #[trigger]
                            lots_of(final(self).assets@, b) == if b == asset@ {
                                c.lots
                            } else {
                                lots_of(old(self).assets@, b)
                            }
                    },
                    Err(e) => {
                        &&& withdrawal.amount > lot_total(lots) + eps
                        &&& e == (LedgerError::InsufficientInventory {
                            asset: *asset,
                            shortfall: (withdrawal.amount - lot_total(lots)) as u64,
                        })
                        &&& final(self).log@ == old(self).log@
                        &&& forall|b: Seq<char>| #[trigger]
                            lots_of(final(self).assets@, b) == lots_of(old(self).assets@, b)
                    },
                }
            }),
    {
        let ghost lots0 = lots_of(old(self).assets@, asset@);
        let ghost eps = self.currency_precision as int;
        let idx = self.ensure_asset(asset);
        let ghost mid = self.assets@;
        let mut entry = self.assets.remove(idx);
        match entry.inventory.withdraw(withdrawal.amount) {
            Err(shortfall) => {
                self.assets.insert(idx, entry);
                proof {
                    assert(self.assets@ =~= mid);
                }
                Err(LedgerError::InsufficientInventory { asset: asset.clone(), shortfall })
            },
            Ok(frags) => {
                self.assets.insert(idx, entry);
                proof {
                    assert(self.assets@ =~= mid.update(idx as int, self.assets@[idx as int]));
                    lemma_lots_of_update(mid, idx as int, self.assets@[idx as int]);
                    lemma_consume_props(lots0, withdrawal.amount as int, eps);
                }
                let ghost c = consume(lots0, withdrawal.amount as int, eps);
                let ghost entries = withdrawal_entries(*asset, withdrawal, c.fragments);
                let ghost pre_log = self.log@;
                let ghost assets_mid = self.assets@;
                let ghost am0 = self.accounting_method;
                let ghost ba0 = self.base_asset;
                let ghost cp0 = self.currency_precision;
                let n = frags.len();
                let mut k: usize = 0;
                let mut total: u128 = 0;
                while k < n
                    invariant
                        k <= n,
                        n == frags@.len(),
                        frags@ == c.fragments,
                        entries == withdrawal_entries(*asset, withdrawal, c.fragments),
                        lot_total(frags@) <= u64::MAX,
                        self.assets@ == assets_mid,
                        self.accounting_method == am0,
                        self.base_asset == ba0,
                        self.currency_precision == cp0,
                        self.wf(),
                        self.log@ == pre_log + entries.take(k as int),
                        total == costs_total(frags@.take(k as int)),
                    decreases n - k,
                {
                    let frag = frags[k];
                    let costs: u128 = cost_of(frag.amount, frag.base_price);
                    proof {
                        lemma_cost_bound(frag.amount, frag.base_price);
                        lemma_costs_total_take_succ(frags@, k as int);
                        lemma_costs_total_bound(frags@.take(k as int + 1));
                        lemma_lot_total_take_le(frags@, k as int + 1);
                        lemma_lot_total_nonneg(frags@.take(k as int + 1));
                        lemma_mul_inequality(
                            lot_total(frags@.take(k as int + 1)),
                            u64::MAX as int,
                            u64::MAX as int,
                        );
                    }
                    self.log.push(
                        CashflowRecord {
                            tx_out: Some(withdrawal.tx_id),
                            datetime_out: Some(withdrawal.datetime),
                            tx_in: frag.tx_id,
                            datetime_in: frag.datetime,
                            asset: asset.clone(),
                            amount: -(frag.amount as i128),
                            base_price: frag.base_price,
                            actual_costs: costs,
                            actual_proceeds: Some(costs),
                            gains_short_term: None,
                            gains_long_term: None,
                        },
                    );
                    proof {
                        assert(self.log@.last() == withdrawal_entry(
                            *asset,
                            withdrawal,
                            c.fragments[k as int],
                        ));
                        assert(self.log@ =~= pre_log + entries.take(k as int + 1));
                    }
                    total = total + costs;
                    k += 1;
                }
                proof {
                    assert(entries.take(n as int) =~= entries);
                    assert(frags@.take(n as int) =~= frags@);
                }
                Ok(total)
            },
        }
    }

    /// The base-asset value that a gain-neutral withdrawal of `amount` units
    /// of `asset` would return, without performing it; `Err` carries the
    /// shortfall when the inventory cannot cover it.
    fn preview_withdrawal_value(&self, asset: &String, amount: u64) -> (r: Result<u128, u64>)
        requires
            self.wf(),
            1 <= amount,
        ensures
            ({
                let lots = lots_of(self.assets@, asset@);
                let eps = self.currency_precision as int;
                match r {
                    Ok(total) => {
                        &&& amount <= lot_total(lots) + eps
                        &&& total == costs_total(consume(lots, amount as int, eps).fragments)
                    },
                    Err(shortfall) => {
                        &&& amount > lot_total(lots) + eps
                        &&& shortfall == amount - lot_total(lots)
                    },
                }
            }),
    {
        proof {
            lemma_consume_props(
                lots_of(self.assets@, asset@),
                amount as int,
                self.currency_precision as int,
            );
        }
        match find_asset(&self.assets, asset) {
            None => {
                proof {
                    lemma_lots_of_absent(self.assets@, asset@);
                }
                if amount <= self.currency_precision {
                    proof {
                        assert(consume(
                            Seq::<InventoryChange>::empty(),
                            amount as int,
                            self.currency_precision as int,
                        ).fragments =~= Seq::<InventoryChange>::empty());
                    }
                    Ok(0)
                } else {
                    Err(amount)
                }
            },
            Some(i) => {
                proof {
                    lemma_lots_of_at(self.assets@, i as int);
                }
                let inv = &self.assets[i].inventory;
                let avail: u128 = inv.total();
                let n = inv.layers.len();
                proof {
                    lemma_lot_total_nonneg(inv.layers@);
                    crate::inventory::lemma_lot_total_bound(inv.layers@);
                    lemma_mul_inequality(n as int, usize::MAX as int, u64::MAX as int);
                }
                if (amount as u128) > avail + (self.currency_precision as u128) {
                    Err(amount - (avail as u64))
                } else {
                    let (frags, _rest, _leftover) = consume_exec(
                        &inv.layers,
                        amount,
                        self.currency_precision,
                    );
                    let total = sum_costs(&frags);
                    Ok(total)
                }
            },
        }
    }

    /// Total units of `asset` across its surviving lots.
    fn asset_total(&self, asset: &String) -> (t: u128)
        ensures
            t == lot_total(lots_of(self.assets@, asset@)),
    {
        match find_asset(&self.assets, asset) {
            None => {
                proof {
                    lemma_lots_of_absent(self.assets@, asset@);
                }
                0
            },
            Some(i) => {
                proof {
                    lemma_lots_of_at(self.assets@, i as int);
                }
                self.assets[i].inventory.total()
            },
        }
    }

    /// Handles a trade with the base asset on exactly one side: base-out is a
    /// purchase of the incoming asset, base-in a sale of the outgoing asset,
    /// after fee attribution. A record without an outgoing side is malformed;
    /// one that trades an asset into itself, or that does not touch the base
    /// asset on exactly one side, is left to other handlers and has no
    /// effect. On any error nothing has changed.
    pub fn process_trade_simple(&mut self, record: &TransactionRecord) -> (r: Result<
        (),
        LedgerError,
    >)
        requires
            old(self).wf(),
        ensures
            final(self).wf(),
            final(self).same_config(old(self)),
            ({
                let base = old(self).base_asset;
                let eps = old(self).currency_precision as int;
                if !trade_fields_ok(*record) {
                    &&& r == Err::<(), LedgerError>(
                        LedgerError::MalformedInput { tx_id: record.tx_id },
                    )
                    &&& final(self).log@ == old(self).log@
                    &&& forall|b: Seq<char>| #[trigger]
                        lots_of(final(self).assets@, b) == lots_of(old(self).assets@, b)
                } else if simple_trade_skipped(*record, base@) {
                    &&& r is Ok
                    &&& final(self).log@ == old(self).log@
                    &&& forall|b: Seq<char>| #[trigger]
                        lots_of(final(self).assets@, b) == lots_of(old(self).assets@, b)
                } else {
                    let target = simple_trade_target(*record, base@);
                    match trade_simple_outcome(
                        *record,
                        base,
                        lots_of(old(self).assets@, target),
                        fee_lots_in(old(self).assets@, *record),
                        old(self).accounting_method,
                        eps,
                    ) {
                        Ok(e) => {
                            &&& r is Ok
                            &&& final(self).log@ == old(self).log@ + e.entries
                            &&& forall|b: Seq<char>| #[trigger]
                                lots_of(final(self).assets@, b) == if b == target {
                                    e.target_lots
                                } else if fee_of(*record) matches Some(f) && f.0@ == b {
                                    e.fee_lots
                                } else {
                                    lots_of(old(self).assets@, b)
                                }
                        },
                        Err(er) => {
                            &&& r == Err::<(), LedgerError>(er)
                            &&& final(self).log@ == old(self).log@
                            &&& forall|b: Seq<char>| #[trigger]
                                lots_of(final(self).assets@, b) == lots_of(old(self).assets@, b)
                        },
                    }
                }
            }),
    {
        let ghost pre = *old(self);
        let oa: &String = match &record.out_asset {
            Some(a) => a,
            None => {
                return Err(LedgerError::MalformedInput { tx_id: record.tx_id });
            },
        };
        let out_amt: u64 = match record.out_amount {
            Some(x) => x,
            None => {
                return Err(LedgerError::MalformedInput { tx_id: record.tx_id });
            },
        };
        if oa.eq(&record.in_asset) {
            return Ok(());
        }
        let out_is_base = oa.eq(&self.base_asset);
        let in_is_base = record.in_asset.eq(&self.base_asset);
        if out_is_base == in_is_base {
            return Ok(());
        }
        let ghost target = simple_trade_target(*record, pre.base_asset@);
        let ghost target_lots0 = lots_of(pre.assets@, target);
        let ghost fee_lots0 = fee_lots_in(pre.assets@, *record);
        let ghost outcome = trade_simple_outcome(
            *record,
            pre.base_asset,
            target_lots0,
            fee_lots0,
            pre.accounting_method,
            pre.currency_precision as int,
        );
        // Attribute the fee, validating every adjustment before anything is
        // changed.
        let out1: u64;
        let in1: u64;
        let mut fee_conversion: Option<u64> = None;
        let has_fee = match (&record.fee_asset, record.fee_amount) {
            (Some(_), Some(fm)) => fm >= 1,
            _ => false,
        };
        if has_fee {
            let fa: &String = match &record.fee_asset {
                Some(a) => a,
                None => {
                    return Err(LedgerError::MalformedInput { tx_id: record.tx_id });
                },
            };
            let fm: u64 = match record.fee_amount {
                Some(x) => x,
                None => {
                    return Err(LedgerError::MalformedInput { tx_id: record.tx_id });
                },
            };
            if fa.eq(oa) {
                if out_amt > u64::MAX - fm {
                    return Err(LedgerError::Overflow { tx_id: record.tx_id });
                }
                out1 = out_amt + fm;
                in1 = record.in_amount;
            } else if fa.eq(&record.in_asset) {
                if record.in_amount < fm {
                    return Err(LedgerError::Overflow { tx_id: record.tx_id });
                }
                out1 = out_amt;
                in1 = record.in_amount - fm;
            } else {
                match self.preview_withdrawal_value(fa, fm) {
                    Err(shortfall) => {
                        return Err(
                            LedgerError::InsufficientInventory { asset: fa.clone(), shortfall },
                        );
                    },
                    Ok(value) => {
                        proof {
                            lemma_costs_total_bound(
                                consume(
                                    fee_lots0,
                                    fm as int,
                                    pre.currency_precision as int,
                                ).fragments,
                            );
                            lemma_consume_props(fee_lots0, fm as int, pre.currency_precision as int);
                            lemma_mul_inequality(
                                lot_total(
                                    consume(
                                        fee_lots0,
                                        fm as int,
                                        pre.currency_precision as int,
                                    ).fragments,
                                ),
                                u64::MAX as int,
                                u64::MAX as int,
                            );
                        }
                        if out_is_base {
                            if (out_amt as u128) + value > (u64::MAX as u128) {
                                return Err(LedgerError::Overflow { tx_id: record.tx_id });
                            }
                            out1 = out_amt + (value as u64);
                            in1 = record.in_amount;
                        } else {
                            if (record.in_amount as u128) < value {
                                return Err(LedgerError::Overflow { tx_id: record.tx_id });
                            }
                            out1 = out_amt;
                            in1 = record.in_amount - (value as u64);
                        }
                        fee_conversion = Some(fm);
                    },
                }
            }
        } else {
            out1 = out_amt;
            in1 = record.in_amount;
        }
        // Validate the main operation before performing anything.
        let price: u64;
        if out_is_base {
            if in1 < 1 {
                return Err(LedgerError::MalformedInput { tx_id: record.tx_id });
            }
            match crate::arith::mul_div_u64(out1, crate::SCALE, in1) {
                None => {
                    return Err(LedgerError::Overflow { tx_id: record.tx_id });
                },
                Some(p) => {
                    price = p;
                },
            }
        } else {
            price = 0;
            if out1 < 1 {
                return Err(LedgerError::MalformedInput { tx_id: record.tx_id });
            }
            let avail = self.asset_total(oa);
            if (out1 as u128) > avail {
                let short128 = (out1 as u128) - avail;
                if short128 > (self.currency_precision as u128) {
                    proof {
                        lemma_lot_total_nonneg(target_lots0);
                    }
                    return Err(
                        LedgerError::InsufficientInventory {
                            asset: oa.clone(),
                            shortfall: short128 as u64,
                        },
                    );
                }
            }
        }
        // Perform: the fee conversion first, then the purchase or sale; the
        // checks above rule every failure out.
        if let Some(fm) = fee_conversion {
            let fa: &String = match &record.fee_asset {
                Some(a) => a,
                None => {
                    return Err(LedgerError::MalformedInput { tx_id: record.tx_id });
                },
            };
            let w = Withdrawal { tx_id: record.tx_id, datetime: record.datetime, amount: fm };
            match self.process_withdrawal(fa, w) {
                Ok(_v) => {},
                Err(e) => {
                    proof {
                        assert(false);
                    }
                    return Err(e);
                },
            }
        }
        if out_is_base {
            let p = Purchase {
                tx_id: record.tx_id,
                datetime: record.datetime,
                amount: in1,
                base_price: price,
                actual_costs: out1,
            };
            self.process_purchase(&record.in_asset, p);
            proof {
                assert(self.log@ =~= old(self).log@ + outcome->Ok_0.entries);
            }
            Ok(())
        } else {
            let s = Sale {
                tx_id: record.tx_id,
                datetime: record.datetime,
                amount: out1,
                proceeds: in1,
            };
            match self.process_sale(oa, s) {
                Ok(u) => {
                    proof {
                        assert(self.log@ =~= old(self).log@ + outcome->Ok_0.entries);
                    }
                    Ok(())
                },
                Err(e) => {
                    proof {
                        assert(false);
                    }
                    Err(e)
                },
            }
        }
    }

    /// Records a staking reward of `record.in_amount` units of the incoming
    /// asset at the market rate `rate`: a purchase with no cash paid, whose
    /// whole market value is an immediate realized gain.
    pub fn process_staking_reward(&mut self, record: &TransactionRecord, rate: u64)
        requires
            old(self).wf(),
        ensures
            final(self).wf(),
            final(self).same_config(old(self)),
            final(self).log@ == old(self).log@.push(
                purchase_entry(
                    record.in_asset,
                    reward_purchase(*record, rate),
                    old(self).currency_precision as int,
                ),
            ),
            forall|b: Seq<char>| #[trigger]
                lots_of(final(self).assets@, b) == if b == record.in_asset@ {
                    deposit_spec(
                        lots_of(old(self).assets@, record.in_asset@),
                        purchase_lot(reward_purchase(*record, rate)),
                        old(self).accounting_method,
                    )
                } else {
                    lots_of(old(self).assets@, b)
                },
    {
        let p = Purchase {
            tx_id: record.tx_id,
            datetime: record.datetime,
            amount: record.in_amount,
            base_price: rate,
            actual_costs: 0,
        };
        self.process_purchase(&record.in_asset, p);
    }

    /// Decomposes a trade between two foreign assets into two synthetic
    /// simple trades sharing its id and time: a sale of the outgoing asset
    /// for its base-asset market value (`out_amount` at `rate`), then a
    /// purchase of the incoming asset with that value. The fee goes wholly to
    /// the leg sharing its asset, or is split evenly across both. A record
    /// without an outgoing side is malformed; one that trades an asset into
    /// itself or that touches the base asset is left to other handlers and
    /// has no effect. When the first leg fails nothing has changed; when the
    /// second leg fails the first leg's effect stands, as the run aborts.
    pub fn process_trade_foreign_to_foreign(&mut self, record: &TransactionRecord, rate: u64) -> (r:
        Result<(), LedgerError>)
        requires
            old(self).wf(),
        ensures
            final(self).wf(),
            final(self).same_config(old(self)),
            ({
                let base = old(self).base_asset;
                let eps = old(self).currency_precision as int;
                let m = old(self).assets@;
                let oa = out_or_base(*record, base);
                let out0 = match record.out_amount {
                    Some(x) => x as int,
                    None => 0,
                };
                if !trade_fields_ok(*record) {
                    &&& r == Err::<(), LedgerError>(
                        LedgerError::MalformedInput { tx_id: record.tx_id },
                    )
                    &&& final(self).log@ == old(self).log@
                    &&& forall|b: Seq<char>| #[trigger]
                        lots_of(final(self).assets@, b) == lots_of(m, b)
                } else if oa@ == record.in_asset@ || oa@ == base@ || record.in_asset@ == base@ {
                    &&& r is Ok
                    &&& final(self).log@ == old(self).log@
                    &&& forall|b: Seq<char>| #[trigger]
                        lots_of(final(self).assets@, b) == lots_of(m, b)
                } else if (out0 * rate) / (crate::SCALE as int) > u64::MAX {
                    &&& r == Err::<(), LedgerError>(LedgerError::Overflow { tx_id: record.tx_id })
                    &&& final(self).log@ == old(self).log@
                    &&& forall|b: Seq<char>| #[trigger]
                        lots_of(final(self).assets@, b) == lots_of(m, b)
                } else {
                    let obv = ((out0 * rate) / (crate::SCALE as int)) as u64;
                    let rec1 = f2f_leg1(*record, base, obv);
                    match trade_simple_outcome(
                        rec1,
                        base,
                        lots_of(m, oa@),
                        fee_lots_in(m, rec1),
                        old(self).accounting_method,
                        eps,
                    ) {
                        Err(e1) => {
                            &&& r == Err::<(), LedgerError>(e1)
                            &&& final(self).log@ == old(self).log@
                            &&& forall|b: Seq<char>| #[trigger]
                                lots_of(final(self).assets@, b) == lots_of(m, b)
                        },
                        Ok(e1) => {
                            let rec2 = f2f_leg2(*record, base, obv);
                            let fee_mid = match record.fee_asset {
                                Some(fa) => if fa@ == oa@ {
                                    e1.target_lots
                                } else if fee_of(rec1) is Some {
                                    e1.fee_lots
                                } else {
                                    lots_of(m, fa@)
                                },
                                None => Seq::<InventoryChange>::empty(),
                            };
                            match trade_simple_outcome(
                                rec2,
                                base,
                                lots_of(m, record.in_asset@),
                                fee_mid,
                                old(self).accounting_method,
                                eps,
                            ) {
                                Err(e2) => {
                                    &&& r == Err::<(), LedgerError>(e2)
                                    &&& final(self).log@ == old(self).log@ + e1.entries
                                    &&& forall|b: Seq<char>| #[trigger]
                                        lots_of(final(self).assets@, b) == if b == oa@ {
                                            e1.target_lots
                                        } else if fee_of(rec1) matches Some(f) && f.0@ == b {
                                            e1.fee_lots
                                        } else {
                                            lots_of(m, b)
                                        }
                                },
                                Ok(e2) => {
                                    &&& r is Ok
                                    &&& final(self).log@ == old(self).log@ + e1.entries
                                        + e2.entries
                                    &&& forall|b: Seq<char>| #[trigger]
                                        lots_of(final(self).assets@, b) == if b == oa@ {
                                            e1.target_lots
                                        } else if b == record.in_asset@ {
                                            e2.target_lots
                                        } else if record.fee_asset matches Some(fa) && fa@ == b {
                                            e2.fee_lots
                                        } else {
                                            lots_of(m, b)
                                        }
                                },
                            }
                        },
                    }
                }
            }),
    {
        let ghost pre = *old(self);
        let oa: &String = match &record.out_asset {
            Some(a) => a,
            None => {
                return Err(LedgerError::MalformedInput { tx_id: record.tx_id });
            },
        };
        let out_amt: u64 = match record.out_amount {
            Some(x) => x,
            None => {
                return Err(LedgerError::MalformedInput { tx_id: record.tx_id });
            },
        };
        if oa.eq(&record.in_asset) {
            return Ok(());
        }
        if oa.eq(&self.base_asset) {
            return Ok(());
        }
        if record.in_asset.eq(&self.base_asset) {
            return Ok(());
        }
        let obv: u64 = match crate::arith::mul_div_u64(out_amt, rate, crate::SCALE) {
            None => {
                return Err(LedgerError::Overflow { tx_id: record.tx_id });
            },
            Some(v) => v,
        };
        let (fee1, fee2): (Option<u64>, Option<u64>) = match (&record.fee_asset, record.fee_amount) {
            (Some(fa), Some(fm)) => {
                if fm >= 1 {
                    if fa.eq(oa) {
                        (Some(fm), None)
                    } else if fa.eq(&record.in_asset) {
                        (None, Some(fm))
                    } else {
                        (Some(fm - fm / 2), Some(fm / 2))
                    }
                } else {
                    (None, None)
                }
            },
            _ => (None, None),
        };
        proof {
            assert((fee1, fee2) == f2f_fee_split(*record, pre.base_asset));
        }
        let rec1 = TransactionRecord {
            tx_id: record.tx_id,
            datetime: record.datetime,
            account: record.account.clone(),
            tx_type: record.tx_type.clone(),
            out_asset: clone_opt(&record.out_asset),
            out_amount: record.out_amount,
            in_asset: self.base_asset.clone(),
            in_amount: obv,
            fee_asset: clone_opt(&record.fee_asset),
            fee_amount: fee1,
        };
        proof {
            assert(rec1 == f2f_leg1(*record, pre.base_asset, obv));
        }
        match self.process_trade_simple(&rec1) {
            Err(e) => {
                return Err(e);
            },
            Ok(_u) => {},
        }
        let ghost e1 = trade_simple_outcome(
            rec1,
            pre.base_asset,
            lots_of(pre.assets@, out_or_base(*record, pre.base_asset)@),
            fee_lots_in(pre.assets@, rec1),
            pre.accounting_method,
            pre.currency_precision as int,
        )->Ok_0;
        let ghost mid = *self;
        let rec2 = TransactionRecord {
            tx_id: record.tx_id,
            datetime: record.datetime,
            account: record.account.clone(),
            tx_type: record.tx_type.clone(),
            out_asset: Some(self.base_asset.clone()),
            out_amount: Some(obv),
            in_asset: record.in_asset.clone(),
            in_amount: record.in_amount,
            fee_asset: clone_opt(&record.fee_asset),
            fee_amount: fee2,
        };
        proof {
            assert(rec2 == f2f_leg2(*record, pre.base_asset, obv));
            assert(simple_trade_target(rec2, pre.base_asset@) == record.in_asset@);
            assert(lots_of(mid.assets@, record.in_asset@) == lots_of(
                pre.assets@,
                record.in_asset@,
            ));
        }
        match self.process_trade_simple(&rec2) {
            Err(e) => {
                proof {
                    assert(self.log@ =~= old(self).log@ + e1.entries);
                }
                Err(e)
            },
            Ok(_u) => {
                let ghost e2 = trade_simple_outcome(
                    rec2,
                    pre.base_asset,
                    lots_of(pre.assets@, record.in_asset@),
                    fee_lots_in(mid.assets@, rec2),
                    pre.accounting_method,
                    pre.currency_precision as int,
                )->Ok_0;
                proof {
                    assert(self.log@ =~= old(self).log@ + e1.entries + e2.entries);
                }
                Ok(())
            },
        }
    }

    /// Interprets one transaction record, given the market rate it needs, if
    /// any (see `required_price`). A trade of an asset into itself yields no
    /// ledger entries and changes no inventory.
    #[verifier::rlimit(50)]
    pub fn process_record(&mut self, record: &TransactionRecord, rate: Option<u64>) -> (r: Result<
        (),
        LedgerError,
    >)
        requires
            old(self).wf(),
        ensures
            final(self).wf(),
            final(self).same_config(old(self)),
            (record.tx_type@ == "Trade"@ && trade_fields_ok(*record) && out_or_base(
                *record,
                old(self).base_asset,
            )@ == record.in_asset@) ==> {
                &&& r is Ok
                &&& final(self).log@ == old(self).log@
                &&& forall|b: Seq<char>| #[trigger]
                    lots_of(final(self).assets@, b) == lots_of(old(self).assets@, b)
            },
            ({
                match record_step(
                    lots_map_of(old(self).assets@),
                    *record,
                    rate,
                    old(self).base_asset,
                    old(self).accounting_method,
                    old(self).currency_precision as int,
                ) {
                    Ok(sl) => {
                        &&& r is Ok
                        &&& final(self).log@ == old(self).log@ + sl.1
                        &&& forall|b: Seq<char>| #[trigger]
                            lots_of(final(self).assets@, b) == sl.0[b]
                    },
                    Err(e) => r == Err::<(), LedgerError>(e),
                }
            }),
    {
        let ghost pre = *old(self);
        let ghost m0 = lots_map_of(pre.assets@);
        proof {
            assert forall|b: Seq<char>| #[trigger] m0[b] == lots_of(pre.assets@, b) by {
                assert(m0.dom().contains(b));
            }
        }
        let trade_label: String = "Trade".to_owned();
        let reward_label: String = "Staking Reward".to_owned();
        if record.tx_type.eq(&trade_label) {
            match (&record.out_asset, record.out_amount) {
                (Some(oa), Some(_x)) => {
                    if oa.eq(&record.in_asset) {
                        proof {
                            assert(self.log@ =~= pre.log@ + Seq::<CashflowRecord>::empty());
                        }
                        Ok(())
                    } else {
                        let out_is_base = oa.eq(&self.base_asset);
                        let in_is_base = record.in_asset.eq(&self.base_asset);
                        if out_is_base || in_is_base {
                            let ghost target = simple_trade_target(*record, pre.base_asset@);
                            let res = self.process_trade_simple(record);
                            proof {
                                assert(!simple_trade_skipped(*record, pre.base_asset@));
                                assert(m0[target] == lots_of(pre.assets@, target));
                                match &record.fee_asset {
                                    Some(fa) => {
                                        assert(m0[fa@] == lots_of(pre.assets@, fa@));
                                    },
                                    None => {},
                                }
                                match trade_simple_outcome(
                                    *record,
                                    pre.base_asset,
                                    lots_of(pre.assets@, target),
                                    fee_lots_in(pre.assets@, *record),
                                    pre.accounting_method,
                                    pre.currency_precision as int,
                                ) {
                                    Ok(e) => {
                                        let m1 = match &record.fee_asset {
                                            Some(fa) => m0.insert(fa@, e.fee_lots),
                                            None => m0,
                                        };
                                        let m2 = m1.insert(target, e.target_lots);
                                        assert forall|b: Seq<char>| #[trigger]
                                            lots_of(self.assets@, b) == m2[b] by {
                                            assert(m0[b] == lots_of(pre.assets@, b));
                                        }
                                    },
                                    Err(er) => {},
                                }
                            }
                            res
                        } else {
                            match rate {
                                None => Err(
                                    LedgerError::OracleUnavailable { tx_id: record.tx_id },
                                ),
                                Some(rt) => {
                                    let ghost oa_g = out_or_base(*record, pre.base_asset);
                                    let res = self.process_trade_foreign_to_foreign(record, rt);
                                    proof {
                                        let eps = pre.currency_precision as int;
                                        let out0 = match record.out_amount {
                                            Some(x) => x as int,
                                            None => 0,
                                        };
                                        if (out0 * rt) / (crate::SCALE as int) <= u64::MAX {
                                            let obv = ((out0 * rt) / (crate::SCALE as int)) as u64;
                                            let rec1 = f2f_leg1(*record, pre.base_asset, obv);
                                            assert(fee_lots_in(pre.assets@, rec1) == match record.fee_asset {
                                                Some(fa) => m0[fa@],
                                                None => Seq::<InventoryChange>::empty(),
                                            });
                                            match trade_simple_outcome(
                                                rec1,
                                                pre.base_asset,
                                                lots_of(pre.assets@, oa_g@),
                                                fee_lots_in(pre.assets@, rec1),
                                                pre.accounting_method,
                                                eps,
                                            ) {
                                                Err(e1) => {},
                                                Ok(e1) => {
                                                    let rec2 = f2f_leg2(
                                                        *record,
                                                        pre.base_asset,
                                                        obv,
                                                    );
                                                    let fee_mid = match &record.fee_asset {
                                                        Some(fa) => if fa@ == oa_g@ {
                                                            e1.target_lots
                                                        } else if fee_of(rec1) is Some {
                                                            e1.fee_lots
                                                        } else {
                                                            lots_of(pre.assets@, fa@)
                                                        },
                                                        None => Seq::<InventoryChange>::empty(),
                                                    };
                                                    match trade_simple_outcome(
                                                        rec2,
                                                        pre.base_asset,
                                                        lots_of(pre.assets@, record.in_asset@),
                                                        fee_mid,
                                                        pre.accounting_method,
                                                        eps,
                                                    ) {
                                                        Err(e2) => {},
                                                        Ok(e2) => {
                                                            let m1 = match &record.fee_asset {
                                                                Some(fa) => m0.insert(
                                                                    fa@,
                                                                    e2.fee_lots,
                                                                ),
                                                                None => m0,
                                                            };
                                                            let m2 = m1.insert(
                                                                record.in_asset@,
                                                                e2.target_lots,
                                                            );
                                                            let m3 = m2.insert(
                                                                oa_g@,
                                                                e1.target_lots,
                                                            );
                                                            assert forall|b: Seq<char>| #[trigger]
                                                                lots_of(self.assets@, b) == m3[b] by {
                                                                assert(m0[b] == lots_of(
                                                                    pre.assets@,
                                                                    b,
                                                                ));
                                                            }
                                                        },
                                                    }
                                                },
                                            }
                                        }
                                    }
                                    res
                                },
                            }
                        }
                    }
                },
                _ => Err(LedgerError::MalformedInput { tx_id: record.tx_id }),
            }
        } else if record.tx_type.eq(&reward_label) {
            match rate {
                None => Err(LedgerError::OracleUnavailable { tx_id: record.tx_id }),
                Some(rt) => {
                    self.process_staking_reward(record, rt);
                    proof {
                        let p = reward_purchase(*record, rt);
                        let m2 = m0.insert(
                            record.in_asset@,
                            deposit_spec(
                                m0[record.in_asset@],
                                purchase_lot(p),
                                pre.accounting_method,
                            ),
                        );
                        assert forall|b: Seq<char>| #[trigger] lots_of(self.assets@, b) == m2[b] by {
                            assert(m0[b] == lots_of(pre.assets@, b));
                        }
                        assert(self.log@ =~= pre.log@ + seq![
                            purchase_entry(record.in_asset, p, pre.currency_precision as int),
                        ]);
                    }
                    Ok(())
                },
            }
        } else {
            Err(LedgerError::MalformedInput { tx_id: record.tx_id })
        }
    }
}

} // verus!
