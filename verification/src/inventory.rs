use vstd::prelude::*;
use vstd::arithmetic::mul::{lemma_mul_inequality, lemma_mul_is_distributive_add_other_way};
use vstd::pervasive::VecAdditionalExecFns;
use crate::accounting::{AccountingMethod, InventoryChange};

verus! {

/// Total number of units remaining across a sequence of lots.
pub open spec fn lot_total(lots: Seq<InventoryChange>) -> int
    decreases lots.len(),
{
    if lots.len() == 0 {
        0
    } else {
        lots[0].amount + lot_total(lots.drop_first())
    }
}

pub proof fn lemma_lot_total_nonneg(lots: Seq<InventoryChange>)
    ensures
        0 <= lot_total(lots),
    decreases lots.len(),
{
    if lots.len() > 0 {
        lemma_lot_total_nonneg(lots.drop_first());
    }
}

pub proof fn lemma_lot_total_bound(lots: Seq<InventoryChange>)
    ensures
        lot_total(lots) <= lots.len() * (u64::MAX as int),
    decreases lots.len(),
{
    if lots.len() == 0 {
    } else {
        lemma_lot_total_bound(lots.drop_first());
        lemma_mul_is_distributive_add_other_way(u64::MAX as int, lots.len() - 1, 1);
    }
}

pub proof fn lemma_lot_total_push(lots: Seq<InventoryChange>, l: InventoryChange)
    ensures
        lot_total(lots.push(l)) == lot_total(lots) + l.amount,
    decreases lots.len(),
{
    assert(lots.push(l)[0] == if lots.len() == 0 { l } else { lots[0] });
    if lots.len() == 0 {
        assert(lots.push(l).drop_first() =~= Seq::<InventoryChange>::empty());
        assert(lot_total(Seq::<InventoryChange>::empty()) == 0);
    } else {
        assert(lots.push(l).drop_first() =~= lots.drop_first().push(l));
        lemma_lot_total_push(lots.drop_first(), l);
    }
}

pub proof fn lemma_lot_total_insert_front(lots: Seq<InventoryChange>, l: InventoryChange)
    ensures
        lot_total(lots.insert(0, l)) == l.amount + lot_total(lots),
{
    assert(lots.insert(0, l).drop_first() =~= lots);
    assert(lots.insert(0, l)[0] == l);
}

pub proof fn lemma_lot_total_take_succ(lots: Seq<InventoryChange>, k: int)
    requires
        0 <= k < lots.len(),
    ensures
        lot_total(lots.take(k + 1)) == lot_total(lots.take(k)) + lots[k].amount,
{
    assert(lots.take(k + 1) =~= lots.take(k).push(lots[k]));
    lemma_lot_total_push(lots.take(k), lots[k]);
}

pub proof fn lemma_lot_total_take_le(lots: Seq<InventoryChange>, k: int)
    requires
        0 <= k <= lots.len(),
    ensures
        lot_total(lots.take(k)) <= lot_total(lots),
    decreases lots.len() - k,
{
    if k == lots.len() {
        assert(lots.take(k) =~= lots);
    } else {
        lemma_lot_total_take_succ(lots, k);
        lemma_lot_total_take_le(lots, k + 1);
    }
}

pub proof fn lemma_lot_total_elem(lots: Seq<InventoryChange>, i: int)
    requires
        0 <= i < lots.len(),
    ensures
        lots[i].amount <= lot_total(lots),
{
    lemma_lot_total_take_succ(lots, i);
    lemma_lot_total_take_le(lots, i + 1);
    lemma_lot_total_nonneg(lots.take(i));
}

/// What consuming `amount` units leaves behind: the fragments taken (in
/// consumption order), the surviving lots, and the part of the request that
/// was not satisfied.
pub struct ConsumeResult {
    pub fragments: Seq<InventoryChange>,
    pub lots: Seq<InventoryChange>,
    pub leftover: int,
}

/// Greedy front-first consumption of `amount` units out of `lots`, with
/// precision `eps`: each step takes as much as the front lot offers, drops a
/// lot whose remainder sinks below `eps`, and stops once the unsatisfied
/// remainder sinks below `eps`. The consumption order itself is fixed by how
/// deposits arranged the lots (FIFO appends at the back, LIFO at the front).
pub open spec fn consume(lots: Seq<InventoryChange>, amount: int, eps: int) -> ConsumeResult
    decreases lots.len(),
{
    if lots.len() == 0 || eps < 1 {
        ConsumeResult { fragments: Seq::empty(), lots, leftover: amount }
    } else {
        let head = lots[0];
        let take = if amount <= head.amount { amount } else { head.amount as int };
        let frag = InventoryChange {
            tx_id: head.tx_id,
            datetime: head.datetime,
            amount: take as u64,
            base_price: head.base_price,
        };
        let residue = head.amount - take;
        let rest = if residue < eps {
            lots.drop_first()
        } else {
            lots.update(
                0,
                InventoryChange {
                    tx_id: head.tx_id,
                    datetime: head.datetime,
                    amount: residue as u64,
                    base_price: head.base_price,
                },
            )
        };
        let rem = amount - take;
        if rem < eps {
            ConsumeResult { fragments: seq![frag], lots: rest, leftover: rem }
        } else {
            let tail = consume(rest, rem, eps);
            ConsumeResult {
                fragments: seq![frag] + tail.fragments,
                lots: tail.lots,
                leftover: tail.leftover,
            }
        }
    }
}

/// The bookkeeping facts every consumption obeys: the fragments account for
/// exactly the satisfied part of the request; the surviving total never
/// exceeds what was there minus what was taken, and matches it exactly at the
/// smallest precision; the request is left unsatisfied beyond `eps` exactly
/// when it exceeds the available total by more than `eps`.
pub proof fn lemma_consume_props(lots: Seq<InventoryChange>, amount: int, eps: int)
    requires
        1 <= eps,
        0 <= amount <= u64::MAX,
    ensures
        ({
            let r = consume(lots, amount, eps);
            &&& 0 <= r.leftover <= amount
            &&& lot_total(r.fragments) == amount - r.leftover
            &&& 0 <= lot_total(r.lots) <= lot_total(lots) - lot_total(r.fragments)
            &&& eps == 1 ==> lot_total(r.lots) == lot_total(lots) - lot_total(r.fragments)
            &&& amount <= lot_total(lots) + eps ==> r.leftover <= eps
            &&& amount > lot_total(lots) + eps ==> r.leftover == amount - lot_total(lots)
            &&& forall|i: int|
                0 <= i < r.fragments.len() ==> #[trigger] r.fragments[i].amount <= amount
        }),
    decreases lots.len(),
{
    lemma_lot_total_nonneg(lots);
    if lots.len() == 0 {
        assert(lot_total(consume(lots, amount, eps).fragments) == 0);
    } else {
        let head = lots[0];
        let take = if amount <= head.amount { amount } else { head.amount as int };
        let frag = InventoryChange {
            tx_id: head.tx_id,
            datetime: head.datetime,
            amount: take as u64,
            base_price: head.base_price,
        };
        let residue = head.amount - take;
        let rest = if residue < eps {
            lots.drop_first()
        } else {
            lots.update(
                0,
                InventoryChange {
                    tx_id: head.tx_id,
                    datetime: head.datetime,
                    amount: residue as u64,
                    base_price: head.base_price,
                },
            )
        };
        let rem = amount - take;
        assert(0 <= take <= u64::MAX);
        assert(frag.amount == take);
        lemma_lot_total_nonneg(lots.drop_first());
        assert(lot_total(lots) == head.amount + lot_total(lots.drop_first()));
        if residue >= eps {
            assert(rest.drop_first() =~= lots.drop_first());
            assert(lot_total(rest) == residue + lot_total(lots.drop_first()));
        }
        lemma_lot_total_nonneg(rest);
        if rem < eps {
            assert(seq![frag][0] == frag);
            assert(seq![frag].drop_first() =~= Seq::<InventoryChange>::empty());
            assert(lot_total(Seq::<InventoryChange>::empty()) == 0);
            assert(lot_total(seq![frag]) == take);
        } else {
            let tail = consume(rest, rem, eps);
            lemma_consume_props(rest, rem, eps);
            assert((seq![frag] + tail.fragments)[0] == frag);
            assert((seq![frag] + tail.fragments).drop_first() =~= tail.fragments);
            assert(lot_total(seq![frag] + tail.fragments) == take + lot_total(tail.fragments));
            assert forall|i: int|
                0 <= i < (seq![frag] + tail.fragments).len() implies #[trigger] (seq![frag]
                + tail.fragments)[i].amount <= amount by {
                if i > 0 {
                    assert((seq![frag] + tail.fragments)[i] == tail.fragments[i - 1]);
                }
            }
        }
    }
}

/// Front-first consumption order: of two lots, fragments always come from the
/// first lot before the second, and the second lot is touched only once the
/// first is fully drained.
pub proof fn lemma_consume_order(l1: InventoryChange, l2: InventoryChange, amount: int, eps: int)
    requires
        1 <= eps,
        1 <= amount <= u64::MAX,
    ensures
        ({
            let r = consume(seq![l1, l2], amount, eps);
            &&& 1 <= r.fragments.len() <= 2
            &&& r.fragments[0].tx_id == l1.tx_id
            &&& r.fragments[0].datetime == l1.datetime
            &&& r.fragments[0].base_price == l1.base_price
            &&& r.fragments[0].amount <= l1.amount
            &&& r.fragments.len() == 2 ==> {
                &&& r.fragments[0].amount == l1.amount
                &&& r.fragments[1].tx_id == l2.tx_id
                &&& r.fragments[1].datetime == l2.datetime
                &&& r.fragments[1].base_price == l2.base_price
            }
        }),
{
    let lots = seq![l1, l2];
    assert(lots[0] == l1);
    let take = if amount <= l1.amount { amount } else { l1.amount as int };
    let frag = InventoryChange {
        tx_id: l1.tx_id,
        datetime: l1.datetime,
        amount: take as u64,
        base_price: l1.base_price,
    };
    let rem = amount - take;
    if rem < eps {
        assert(consume(lots, amount, eps).fragments == seq![frag]);
        assert(seq![frag][0] == frag);
    } else {
        // The first lot was fully drained and consumption moves to the second.
        assert(take == l1.amount);
        let rest = lots.drop_first();
        assert(rest =~= seq![l2]);
        let tail = consume(rest, rem, eps);
        assert(rest[0] == l2);
        let take2 = if rem <= l2.amount { rem } else { l2.amount as int };
        let frag2 = InventoryChange {
            tx_id: l2.tx_id,
            datetime: l2.datetime,
            amount: take2 as u64,
            base_price: l2.base_price,
        };
        let rem2 = rem - take2;
        if rem2 < eps {
            assert(tail.fragments == seq![frag2]);
        } else {
            assert(take2 == l2.amount);
            assert(rest.drop_first() =~= Seq::<InventoryChange>::empty());
            assert(consume(Seq::<InventoryChange>::empty(), rem2, eps).fragments
                == Seq::<InventoryChange>::empty());
            assert(tail.fragments == seq![frag2] + Seq::<InventoryChange>::empty());
            assert(tail.fragments =~= seq![frag2]);
        }
        assert(consume(lots, amount, eps).fragments == seq![frag] + seq![frag2]);
        assert((seq![frag] + seq![frag2])[0] == frag);
        assert((seq![frag] + seq![frag2])[1] == frag2);
        assert((seq![frag] + seq![frag2]).len() == 2);
    }
}

/// A per-asset store of acquisition lots. Lots are consumed from the front of
/// `layers`; `deposit` places new lots at the back under FIFO and at the
/// front under LIFO. `currency_precision` is the epsilon below which a
/// remainder counts as zero; it is at least one quantum.
pub struct Inventory {
    pub layers: Vec<InventoryChange>,
    pub accounting_method: AccountingMethod,
    pub currency_precision: u64,
}

/// Builds the suffix of `lots` that starts at `from`.
fn suffix_of(lots: &Vec<InventoryChange>, from: usize) -> (r: Vec<InventoryChange>)
    requires
        from <= lots.len(),
    ensures
        r@ == lots@.skip(from as int),
{
    let mut r: Vec<InventoryChange> = Vec::new();
    let mut j: usize = from;
    while j < lots.len()
        invariant
            from <= j <= lots.len(),
            r@ == lots@.subrange(from as int, j as int),
        decreases lots.len() - j,
    {
        r.push(lots[j]);
        proof {
            assert(lots@.subrange(from as int, j as int).push(lots@[j as int]) =~= lots@.subrange(
                from as int,
                j as int + 1,
            ));
        }
        j += 1;
    }
    proof {
        assert(lots@.subrange(from as int, lots@.len() as int) =~= lots@.skip(from as int));
    }
    r
}

/// Executes `consume` on a lot vector without changing it: returns the
/// fragments taken, the surviving lots, and the unsatisfied remainder.
pub(crate) fn consume_exec(lots: &Vec<InventoryChange>, amount: u64, eps: u64) -> (r: (
    Vec<InventoryChange>,
    Vec<InventoryChange>,
    u64,
))
    requires
        1 <= eps,
    ensures
        ({
            let c = consume(lots@, amount as int, eps as int);
            &&& r.0@ == c.fragments
            &&& r.1@ == c.lots
            &&& r.2 as int == c.leftover
        }),
{
    let ghost c = consume(lots@, amount as int, eps as int);
    let mut frags: Vec<InventoryChange> = Vec::new();
    let mut rem: u64 = amount;
    let mut i: usize = 0;
    proof {
        assert(lots@.skip(0) =~= lots@);
    }
    loop
        invariant
            1 <= eps,
            i <= lots.len(),
            rem <= amount,
            c == consume(lots@, amount as int, eps as int),
            c.fragments == frags@ + consume(lots@.skip(i as int), rem as int, eps as int).fragments,
            c.lots == consume(lots@.skip(i as int), rem as int, eps as int).lots,
            c.leftover == consume(lots@.skip(i as int), rem as int, eps as int).leftover,
        decreases lots.len() - i,
    {
        if i == lots.len() {
            let rest: Vec<InventoryChange> = Vec::new();
            proof {
                assert(lots@.skip(i as int) =~= Seq::<InventoryChange>::empty());
                let base = consume(Seq::<InventoryChange>::empty(), rem as int, eps as int);
                assert(base.fragments =~= Seq::<InventoryChange>::empty());
                assert(base.leftover == rem as int);
                assert(frags@ + Seq::<InventoryChange>::empty() =~= frags@);
                assert(c.fragments == frags@);
                assert(rest@ =~= Seq::<InventoryChange>::empty());
                assert(c.lots == rest@);
            }
            return (frags, rest, rem);
        }
        let ghost pos = lots@.skip(i as int);
        let ghost fs = frags@;
        proof {
            assert(pos[0] == lots@[i as int]);
        }
        let layer = lots[i];
        let take = if rem <= layer.amount {
            rem
        } else {
            layer.amount
        };
        let frag = InventoryChange {
            tx_id: layer.tx_id,
            datetime: layer.datetime,
            amount: take,
            base_price: layer.base_price,
        };
        frags.push(frag);
        proof {
            assert(frags@ =~= fs + seq![frag]);
        }
        let residue = layer.amount - take;
        let rem2 = rem - take;
        if residue >= eps {
            // The front lot was only reduced, which means the whole remaining
            // request fit inside it: the consumption is complete.
            assert(take == rem && rem2 == 0);
            let shrunk = InventoryChange {
                tx_id: layer.tx_id,
                datetime: layer.datetime,
                amount: residue,
                base_price: layer.base_price,
            };
            let mut rest = suffix_of(lots, i);
            rest.set(0, shrunk);
            proof {
                assert(rest@ =~= pos.update(0, shrunk));
                assert(consume(pos, rem as int, eps as int).fragments == seq![frag]);
                assert(consume(pos, rem as int, eps as int).leftover == rem2 as int);
                assert(c.fragments == fs + seq![frag]);
                assert(c.fragments == frags@);
                assert(c.lots == rest@);
                assert(c.leftover == rem2 as int);
            }
            return (frags, rest, rem2);
        } else {
            i += 1;
            proof {
                assert(pos.drop_first() =~= lots@.skip(i as int));
            }
            if rem2 < eps {
                let rest = suffix_of(lots, i);
                proof {
                    assert(consume(pos, rem as int, eps as int).fragments == seq![frag]);
                    assert(consume(pos, rem as int, eps as int).lots == lots@.skip(i as int));
                    assert(consume(pos, rem as int, eps as int).leftover == rem2 as int);
                    assert(c.fragments == fs + seq![frag]);
                    assert(c.fragments == frags@);
                    assert(c.lots == rest@);
                    assert(c.leftover == rem2 as int);
                }
                return (frags, rest, rem2);
            }
            rem = rem2;
            proof {
                let tail = consume(lots@.skip(i as int), rem as int, eps as int);
                assert(consume(pos, rem2 + take, eps as int).fragments == seq![frag]
                    + tail.fragments);
                assert(fs + (seq![frag] + tail.fragments) =~= (fs + seq![frag]) + tail.fragments);
                assert(c.fragments == frags@ + tail.fragments);
            }
        }
    }
}

impl Inventory {
    /// Precision must be at least one quantum of the fixed-point scale.
    pub open spec fn wf(&self) -> bool {
        1 <= self.currency_precision
    }

    pub fn new(accounting_method: AccountingMethod, currency_precision: u64) -> (r: Inventory)
        requires
            1 <= currency_precision,
        ensures
            r.wf(),
            r.layers@ == Seq::<InventoryChange>::empty(),
            r.accounting_method == accounting_method,
            r.currency_precision == currency_precision,
    {
        Inventory { layers: Vec::new(), accounting_method, currency_precision }
    }

    /// Total number of units remaining across all lots.
    pub fn total(&self) -> (t: u128)
        ensures
            t == lot_total(self.layers@),
    {
        let mut t: u128 = 0;
        let mut i: usize = 0;
        while i < self.layers.len()
            invariant
                i <= self.layers.len(),
                t == lot_total(self.layers@.take(i as int)),
                t <= i * (u64::MAX as int),
            decreases self.layers.len() - i,
        {
            proof {
                assert(self.layers@.take(i as int).push(self.layers@[i as int]) =~= self.layers@
                    .take(i as int + 1));
                lemma_lot_total_push(self.layers@.take(i as int), self.layers@[i as int]);
                lemma_mul_is_distributive_add_other_way(u64::MAX as int, i as int, 1);
                lemma_mul_inequality(i as int + 1, usize::MAX as int, u64::MAX as int);
            }
            t = t + (self.layers[i].amount as u128);
            i += 1;
        }
        proof {
            assert(self.layers@.take(self.layers@.len() as int) =~= self.layers@);
        }
        t
    }

    /// Adds a lot at the consumption-order end: the back for FIFO, the front
    /// for LIFO. The remaining total grows by exactly the deposited amount.
    pub fn deposit(&mut self, inflow: InventoryChange)
        ensures
            final(self).accounting_method == old(self).accounting_method,
            final(self).currency_precision == old(self).currency_precision,
            old(self).accounting_method == AccountingMethod::FIFO ==> final(self).layers@ == old(
                self,
            ).layers@.push(inflow),
            old(self).accounting_method == AccountingMethod::LIFO ==> final(self).layers@ == old(
                self,
            ).layers@.insert(0, inflow),
            lot_total(final(self).layers@) == lot_total(old(self).layers@) + inflow.amount,
    {
        proof {
            lemma_lot_total_push(self.layers@, inflow);
            lemma_lot_total_insert_front(self.layers@, inflow);
        }
        match self.accounting_method {
            AccountingMethod::FIFO => self.layers.push(inflow),
            AccountingMethod::LIFO => self.layers.insert(0, inflow),
        }
    }

    /// Removes `amount` units across one or more lots in consumption order
    /// and returns the consumed fragments. Fails, changing nothing, exactly
    /// when the request exceeds the remaining total by more than the
    /// precision; the error carries the shortfall.
    pub fn withdraw(&mut self, amount: u64) -> (r: Result<Vec<InventoryChange>, u64>)
        requires
            old(self).wf(),
            1 <= amount,
        ensures
            final(self).accounting_method == old(self).accounting_method,
            final(self).currency_precision == old(self).currency_precision,
            match r {
                Ok(frags) => {
                    let c = consume(
                        old(self).layers@,
                        amount as int,
                        old(self).currency_precision as int,
                    );
                    &&& amount <= lot_total(old(self).layers@) + old(self).currency_precision
                    &&& frags@ == c.fragments
                    &&& final(self).layers@ == c.lots
                    &&& lot_total(frags@) == amount - c.leftover
                    &&& 0 <= c.leftover <= old(self).currency_precision
                    &&& lot_total(final(self).layers@) <= lot_total(old(self).layers@) - lot_total(
                        frags@,
                    )
                    &&& old(self).currency_precision == 1 ==> lot_total(final(self).layers@)
                        == lot_total(old(self).layers@) - lot_total(frags@)
                    &&& forall|i: int|
                        0 <= i < frags@.len() ==> #[trigger] frags@[i].amount <= amount
                },
                Err(shortfall) => {
                    &&& amount > lot_total(old(self).layers@) + old(self).currency_precision
                    &&& shortfall == amount - lot_total(old(self).layers@)
                    &&& *final(self) == *old(self)
                },
            },
    {
        let avail: u128 = self.total();
        let n = self.layers.len();
        proof {
            lemma_lot_total_nonneg(self.layers@);
            lemma_lot_total_bound(self.layers@);
            lemma_mul_inequality(n as int, usize::MAX as int, u64::MAX as int);
        }
        if (amount as u128) > avail + (self.currency_precision as u128) {
            return Err(amount - (avail as u64));
        }
        let (frags, rest, _leftover) = consume_exec(&self.layers, amount, self.currency_precision);
        proof {
            lemma_consume_props(self.layers@, amount as int, self.currency_precision as int);
        }
        self.layers = rest;
        Ok(frags)
    }
}

/// Conservation of inventory at the smallest representable precision: what a
/// withdrawal leaves behind is exactly what was there minus the withdrawn
/// fragments, and the fragments account for exactly the satisfied request.
pub proof fn lemma_withdraw_conserves_total(lots: Seq<InventoryChange>, amount: int)
    requires
        0 <= amount <= u64::MAX,
    ensures
        ({
            let r = consume(lots, amount, 1);
            &&& lot_total(r.lots) == lot_total(lots) - lot_total(r.fragments)
            &&& lot_total(r.fragments) == amount - r.leftover
            &&& amount <= lot_total(lots) + 1 ==> r.leftover <= 1
        }),
{
    lemma_consume_props(lots, amount, 1);
}

} // verus!
