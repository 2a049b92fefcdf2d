//! The matching engine: an ordered two-sided book, engine-global ordinal
//! sequencing, self-match suppression, partial fills with split-and-requeue,
//! and the receipts it issues.

use vstd::arithmetic::mul::lemma_mul_inequality;
use vstd::prelude::*;

use crate::book::{
    book_insert, consumed_match, entries_cost_at_most, entries_ordinals_at_most, entry_wf,
    lemma_book_insert, lemma_match_levels, level_wf, match_book, match_entries, match_levels,
    price_eligible, side_cost_at_most, side_ordinals_at_most, side_wf, split_keep, split_match,
    sum_amounts, sum_traded, BookSide, LevelModel,
};
use crate::errors::AccountError;
use crate::types::{Order, OrderModel, PartialOrder, PartialOrderModel, Receipt, ReceiptModel, Side};

verus! {

/// The engine: the two book sides, the last ordinal issued, and every
/// receipt ever produced, for audit.
pub struct MatchingEngine {
    /// The last sequence number issued
    pub ordinal: u64,
    /// The "Bid" or "Buy" side of the order book
    pub bids: BookSide,
    /// The "Ask" or "Sell" side of the order book
    pub asks: BookSide,
    /// Previous receipts, for record keeping
    pub history: Vec<Receipt>,
}

/// The mathematical value of a [`MatchingEngine`].
pub struct EngineModel {
    pub ordinal: int,
    pub bids: Seq<LevelModel>,
    pub asks: Seq<LevelModel>,
    pub history: Seq<ReceiptModel>,
}

/// The views of every element of a sequence of receipts.
pub open spec fn receipt_views(s: Seq<Receipt>) -> Seq<ReceiptModel> {
    s.map_values(|r: Receipt| r@)
}

impl View for MatchingEngine {
    type V = EngineModel;

    open spec fn view(&self) -> EngineModel {
        EngineModel {
            ordinal: self.ordinal as int,
            bids: self.bids@,
            asks: self.asks@,
            history: receipt_views(self.history@),
        }
    }
}

/// A well-formed engine: both sides well-formed, no ordinal in the book or
/// the history above the counter, and the history holding, in order, the
/// receipt of every ordinal ever issued.
pub open spec fn engine_wf(e: EngineModel) -> bool {
    &&& side_wf(e.bids, Side::Buy)
    &&& side_wf(e.asks, Side::Sell)
    &&& side_ordinals_at_most(e.bids, e.ordinal)
    &&& side_ordinals_at_most(e.asks, e.ordinal)
    &&& 0 <= e.ordinal <= u64::MAX
    &&& e.history.len() == e.ordinal
    &&& forall|i: int| 0 <= i < e.history.len() ==> (#[trigger] e.history[i]).ordinal == i + 1
}

/// The residual of an incoming order, as it comes to rest in the book.
pub open spec fn resting_model(o: OrderModel, ordinal: int, rem: int) -> PartialOrderModel {
    PartialOrderModel {
        price: o.price,
        amount: rem,
        remaining: rem,
        side: o.side,
        signer: o.signer,
        ordinal,
    }
}

/// The functional model of [`MatchingEngine::process`]: the next engine
/// state and the receipt issued.
///
/// The incoming order takes the next ordinal and is matched against the
/// opposite side: a buy against the asks priced up to its limit, a sell
/// against the bids priced at its limit and above, walking the levels in
/// ascending price order either way (the cross-level order for sells keeps
/// the ascending walk of the price map rather than preferring the highest
/// bid). Any unmatched residual comes to rest on the order's own side.
pub open spec fn process_spec(e: EngineModel, o: OrderModel) -> (EngineModel, ReceiptModel) {
    let ord = e.ordinal + 1;
    if o.side == Side::Buy {
        let t = match_levels(o.signer, o.amount, e.asks, Side::Buy, o.price);
        let bids2 = if t.2 > 0 {
            book_insert(e.bids, resting_model(o, ord, t.2))
        } else {
            e.bids
        };
        let rcpt = ReceiptModel { ordinal: ord, matches: t.0 };
        (EngineModel { ordinal: ord, bids: bids2, asks: t.1, history: e.history.push(rcpt) }, rcpt)
    } else {
        let t = match_levels(o.signer, o.amount, e.bids, Side::Sell, o.price);
        let asks2 = if t.2 > 0 {
            book_insert(e.asks, resting_model(o, ord, t.2))
        } else {
            e.asks
        };
        let rcpt = ReceiptModel { ordinal: ord, matches: t.0 };
        (EngineModel { ordinal: ord, bids: t.1, asks: asks2, history: e.history.push(rcpt) }, rcpt)
    }
}

proof fn lemma_receipt_views_push(s: Seq<Receipt>, x: Receipt)
    ensures
        receipt_views(s.push(x)) == receipt_views(s).push(x@),
{
    assert(receipt_views(s.push(x)) =~= receipt_views(s).push(x@));
}

/// Every book side bounded by `u64` prices and amounts has all its products
/// `amount * price` at most `u64::MAX * u64::MAX`.
proof fn lemma_side_cost_bound(ls: Seq<LevelModel>, side: Side)
    requires
        side_wf(ls, side),
    ensures
        side_cost_at_most(ls, u64::MAX * u64::MAX),
{
    assert forall|i: int| 0 <= i < ls.len() implies entries_cost_at_most(
        (#[trigger] ls[i]).entries,
        u64::MAX * u64::MAX,
    ) by {
        assert(level_wf(ls[i], side));
        assert forall|k: int| 0 <= k < ls[i].entries.len() implies (#[trigger] ls[i].entries[k]).amount
            * ls[i].entries[k].price <= u64::MAX * u64::MAX by {
            let e = ls[i].entries[k];
            assert(entry_wf(e, ls[i].price, side));
            lemma_mul_inequality(e.amount, u64::MAX as int, e.price);
            lemma_mul_inequality(e.price, u64::MAX as int, u64::MAX as int);
        }
    }
}

/// Weakening the ordinal bound of a book side.
proof fn lemma_side_ordinals_relax(ls: Seq<LevelModel>, b1: int, b2: int)
    requires
        side_ordinals_at_most(ls, b1),
        b1 <= b2,
    ensures
        side_ordinals_at_most(ls, b2),
{
    assert forall|i: int| 0 <= i < ls.len() implies entries_ordinals_at_most(
        (#[trigger] ls[i]).entries,
        b2,
    ) by {
        assert(entries_ordinals_at_most(ls[i].entries, b1));
        assert forall|k: int| 0 <= k < ls[i].entries.len() implies (#[trigger] ls[i].entries[k]).ordinal
            <= b2 by {
            assert(ls[i].entries[k].ordinal <= b1);
        }
    }
}

impl MatchingEngine {
    /// The engine's invariant, kept by every operation.
    pub open spec fn wf(&self) -> bool {
        engine_wf(self@)
    }

    /// Creates a new [`MatchingEngine`] with an ordinal of 0 and empty books.
    pub fn new() -> (r: Self)
        ensures
            r.wf(),
            r@ == (EngineModel {
                ordinal: 0,
                bids: Seq::<LevelModel>::empty(),
                asks: Seq::<LevelModel>::empty(),
                history: Seq::<ReceiptModel>::empty(),
            }),
    {
        let r = MatchingEngine {
            ordinal: 0,
            bids: BookSide::new(),
            asks: BookSide::new(),
            history: Vec::new(),
        };
        proof {
            assert(receipt_views(r.history@) =~= Seq::<ReceiptModel>::empty());
        }
        r
    }

    /// Processes an [`Order`] and returns the [`Receipt`] for it: the order
    /// is matched against the current books and any residual is added to the
    /// book for future matching.
    ///
    /// Matching never fails: the result is always `Ok`. The engine state and
    /// the receipt are exactly what [`process_spec`] says; in particular no
    /// receipt record ever carries the submitting signer, and the traded
    /// quantity never exceeds what the order asked for.
    pub fn process(&mut self, order: Order) -> (r: Result<Receipt, AccountError>)
        requires
            old(self).wf(),
            old(self).ordinal < u64::MAX,
            order.amount > 0,
        ensures
            final(self).wf(),
            final(self)@ == process_spec(old(self)@, order@).0,
            r matches Ok(rcpt) && rcpt@ == process_spec(old(self)@, order@).1,
            r matches Ok(rcpt) && rcpt@.ordinal == old(self)@.ordinal + 1,
            r matches Ok(rcpt) && sum_traded(rcpt@.matches) <= order@.amount,
            r matches Ok(rcpt) && (forall|k: int|
                0 <= k < rcpt@.matches.len() ==> (#[trigger] rcpt@.matches[k]).signer
                    != order@.signer),
    {
        let ghost e0 = self@;
        let ghost ov = order@;
        let amt = order.amount;
        self.ordinal = self.ordinal + 1;
        let ordinal = self.ordinal;
        let partial = order.into_partial_order(ordinal, amt);
        match partial.side {
            Side::Buy => {
                let ghost t = match_levels(ov.signer, ov.amount, e0.asks, Side::Buy, ov.price);
                proof {
                    lemma_side_cost_bound(e0.asks, Side::Sell);
                    lemma_match_levels(
                        ov.signer,
                        ov.amount,
                        e0.asks,
                        Side::Buy,
                        ov.price,
                        Side::Sell,
                        e0.ordinal,
                        u64::MAX * u64::MAX,
                    );
                }
                let (matched, kept, rem) = match_book(
                    &partial.signer,
                    amt,
                    &self.asks,
                    Side::Buy,
                    partial.price,
                );
                self.asks = BookSide { levels: kept };
                if rem > 0 {
                    let resid = PartialOrder {
                        price: partial.price,
                        amount: rem,
                        remaining: rem,
                        side: Side::Buy,
                        signer: partial.signer,
                        ordinal,
                    };
                    proof {
                        assert(resid@ == resting_model(ov, e0.ordinal + 1, t.2));
                        lemma_side_cost_bound(e0.bids, Side::Buy);
                        lemma_mul_inequality(resid@.amount, u64::MAX as int, resid@.price);
                        lemma_mul_inequality(resid@.price, u64::MAX as int, u64::MAX as int);
                        lemma_book_insert(
                            e0.bids,
                            resid@,
                            Side::Buy,
                            e0.ordinal + 1,
                            u64::MAX * u64::MAX,
                        );
                    }
                    self.bids.insert(resid);
                }
                let receipt = Receipt { ordinal, matches: matched };
                let ghost h0 = self.history@;
                self.history.push(receipt.clone());
                proof {
                    lemma_receipt_views_push(h0, self.history@.last());
                    let m = process_spec(e0, ov);
                    assert(receipt@ == m.1);
                    assert(self@.history == m.0.history);
                    assert(self@ == m.0);
                    lemma_side_ordinals_relax(self@.asks, e0.ordinal, e0.ordinal + 1);
                    if t.2 <= 0 {
                        lemma_side_ordinals_relax(self@.bids, e0.ordinal, e0.ordinal + 1);
                    }
                    assert forall|i: int| 0 <= i < self@.history.len() implies (#[trigger] self@.history[i]).ordinal
                        == i + 1 by {
                        if i < h0.len() {
                            assert(self@.history[i] == e0.history[i]);
                        }
                    }
                    assert(engine_wf(self@));
                }
                Ok(receipt)
            },
            Side::Sell => {
                let ghost t = match_levels(ov.signer, ov.amount, e0.bids, Side::Sell, ov.price);
                proof {
                    lemma_side_cost_bound(e0.bids, Side::Buy);
                    lemma_match_levels(
                        ov.signer,
                        ov.amount,
                        e0.bids,
                        Side::Sell,
                        ov.price,
                        Side::Buy,
                        e0.ordinal,
                        u64::MAX * u64::MAX,
                    );
                }
                let (matched, kept, rem) = match_book(
                    &partial.signer,
                    amt,
                    &self.bids,
                    Side::Sell,
                    partial.price,
                );
                self.bids = BookSide { levels: kept };
                if rem > 0 {
                    let resid = PartialOrder {
                        price: partial.price,
                        amount: rem,
                        remaining: rem,
                        side: Side::Sell,
                        signer: partial.signer,
                        ordinal,
                    };
                    proof {
                        assert(resid@ == resting_model(ov, e0.ordinal + 1, t.2));
                        lemma_side_cost_bound(e0.asks, Side::Sell);
                        lemma_mul_inequality(resid@.amount, u64::MAX as int, resid@.price);
                        lemma_mul_inequality(resid@.price, u64::MAX as int, u64::MAX as int);
                        lemma_book_insert(
                            e0.asks,
                            resid@,
                            Side::Sell,
                            e0.ordinal + 1,
                            u64::MAX * u64::MAX,
                        );
                    }
                    self.asks.insert(resid);
                }
                let receipt = Receipt { ordinal, matches: matched };
                let ghost h0 = self.history@;
                self.history.push(receipt.clone());
                proof {
                    lemma_receipt_views_push(h0, self.history@.last());
                    let m = process_spec(e0, ov);
                    assert(receipt@ == m.1);
                    assert(self@.history == m.0.history);
                    assert(self@ == m.0);
                    lemma_side_ordinals_relax(self@.bids, e0.ordinal, e0.ordinal + 1);
                    if t.2 <= 0 {
                        lemma_side_ordinals_relax(self@.asks, e0.ordinal, e0.ordinal + 1);
                    }
                    assert forall|i: int| 0 <= i < self@.history.len() implies (#[trigger] self@.history[i]).ordinal
                        == i + 1 by {
                        if i < h0.len() {
                            assert(self@.history[i] == e0.history[i]);
                        }
                    }
                    assert(engine_wf(self@));
                }
                Ok(receipt)
            },
        }
    }
}

/// The book side of an engine an order of side `s` would come to rest on.
pub open spec fn side_of(e: EngineModel, s: Side) -> Seq<LevelModel> {
    if s == Side::Buy {
        e.bids
    } else {
        e.asks
    }
}

/// Every issued ordinal is unique and strictly increasing: the history
/// holds, in order, one receipt per ordinal 1, 2, ... up to the counter.
pub proof fn lemma_ordinals_strictly_increasing(e: MatchingEngine)
    requires
        e.wf(),
    ensures
        forall|i: int, j: int|
            0 <= i < j < e@.history.len() ==> e@.history[i].ordinal < e@.history[j].ordinal,
{
    assert forall|i: int, j: int| 0 <= i < j < e@.history.len() implies e@.history[i].ordinal
        < e@.history[j].ordinal by {
        assert(e@.history[i].ordinal == i + 1);
        assert(e@.history[j].ordinal == j + 1);
    }
}

/// Every resting order carries the price of the level it rests under, and a
/// strictly positive residual.
pub proof fn lemma_resting_orders_wf(e: MatchingEngine)
    requires
        e.wf(),
    ensures
        forall|i: int, k: int|
            0 <= i < e@.bids.len() && 0 <= k < e@.bids[i].entries.len() ==> {
                &&& (#[trigger] e@.bids[i].entries[k]).price == e@.bids[i].price
                &&& e@.bids[i].entries[k].amount > 0
                &&& e@.bids[i].entries[k].amount == e@.bids[i].entries[k].remaining
            },
        forall|i: int, k: int|
            0 <= i < e@.asks.len() && 0 <= k < e@.asks[i].entries.len() ==> {
                &&& (#[trigger] e@.asks[i].entries[k]).price == e@.asks[i].price
                &&& e@.asks[i].entries[k].amount > 0
                &&& e@.asks[i].entries[k].amount == e@.asks[i].entries[k].remaining
            },
{
    assert forall|i: int, k: int|
        0 <= i < e@.bids.len() && 0 <= k < e@.bids[i].entries.len() implies {
        &&& (#[trigger] e@.bids[i].entries[k]).price == e@.bids[i].price
        &&& e@.bids[i].entries[k].amount > 0
        &&& e@.bids[i].entries[k].amount == e@.bids[i].entries[k].remaining
    } by {
        assert(level_wf(e@.bids[i], Side::Buy));
        assert(entry_wf(e@.bids[i].entries[k], e@.bids[i].price, Side::Buy));
    }
    assert forall|i: int, k: int|
        0 <= i < e@.asks.len() && 0 <= k < e@.asks[i].entries.len() implies {
        &&& (#[trigger] e@.asks[i].entries[k]).price == e@.asks[i].price
        &&& e@.asks[i].entries[k].amount > 0
        &&& e@.asks[i].entries[k].amount == e@.asks[i].entries[k].remaining
    } by {
        assert(level_wf(e@.asks[i], Side::Sell));
        assert(entry_wf(e@.asks[i].entries[k], e@.asks[i].price, Side::Sell));
    }
}

/// When every record of a receipt reports its counterparty exhausted
/// (`remaining == 0`), the receipt's `amount` fields sum to no more than
/// what the order asked for. A record of a partially consumed counterparty
/// reports the counterparty's pre-trade amount, which can exceed what the
/// submitter traded, so receipts with such a record are left out here.
pub proof fn lemma_receipt_amounts_bounded(e: EngineModel, o: OrderModel)
    requires
        engine_wf(e),
        0 < o.amount,
        forall|k: int|
            0 <= k < process_spec(e, o).1.matches.len() ==> (#[trigger] process_spec(
                e,
                o,
            ).1.matches[k]).remaining == 0,
    ensures
        sum_amounts(process_spec(e, o).1.matches) <= o.amount,
{
    let ms = process_spec(e, o).1.matches;
    if o.side == Side::Buy {
        lemma_side_cost_bound(e.asks, Side::Sell);
        lemma_match_levels(
            o.signer,
            o.amount,
            e.asks,
            Side::Buy,
            o.price,
            Side::Sell,
            e.ordinal,
            u64::MAX * u64::MAX,
        );
    } else {
        lemma_side_cost_bound(e.bids, Side::Buy);
        lemma_match_levels(
            o.signer,
            o.amount,
            e.bids,
            Side::Sell,
            o.price,
            Side::Buy,
            e.ordinal,
            u64::MAX * u64::MAX,
        );
    }
    lemma_sum_amounts_eq_sum_traded(ms);
}

/// Round trip: starting from empty books, a first order of amount `a` comes
/// to rest, and a later opposite order of amount `b` at the same price from
/// a different signer trades exactly `min(a, b)` units against it. The book
/// then retains `a - b` units on the first order's side if `a > b`, `b - a`
/// units on the second order's side if `b > a`, and nothing if they are
/// equal.
pub proof fn lemma_round_trip(e: EngineModel, o1: OrderModel, o2: OrderModel)
    requires
        engine_wf(e),
        e.bids.len() == 0,
        e.asks.len() == 0,
        e.ordinal + 2 <= u64::MAX,
        o1.signer != o2.signer,
        o1.side != o2.side,
        o1.price == o2.price,
        0 <= o1.price <= u64::MAX,
        0 < o1.amount <= u64::MAX,
        0 < o2.amount <= u64::MAX,
    ensures
        ({
            let s1 = process_spec(e, o1);
            let s2 = process_spec(s1.0, o2);
            &&& sum_traded(s2.1.matches) == (if o1.amount <= o2.amount {
                o1.amount
            } else {
                o2.amount
            })
            &&& (o1.amount == o2.amount ==> s2.0.bids.len() == 0 && s2.0.asks.len() == 0)
            &&& (o1.amount > o2.amount ==> {
                let keep = side_of(s2.0, o1.side);
                &&& side_of(s2.0, o2.side).len() == 0
                &&& keep.len() == 1
                &&& keep[0].price == o1.price
                &&& keep[0].entries.len() == 1
                &&& keep[0].entries[0].remaining == o1.amount - o2.amount
                &&& keep[0].entries[0].ordinal == e.ordinal + 1
                &&& keep[0].entries[0].signer == o1.signer
            })
            &&& (o1.amount < o2.amount ==> {
                let keep = side_of(s2.0, o2.side);
                &&& side_of(s2.0, o1.side).len() == 0
                &&& keep.len() == 1
                &&& keep[0].price == o1.price
                &&& keep[0].entries.len() == 1
                &&& keep[0].entries[0].remaining == o2.amount - o1.amount
                &&& keep[0].entries[0].ordinal == e.ordinal + 2
                &&& keep[0].entries[0].signer == o2.signer
            })
        }),
{
    let s1 = process_spec(e, o1);
    let s2 = process_spec(s1.0, o2);
    let po1 = resting_model(o1, e.ordinal + 1, o1.amount);
    let l1 = LevelModel { price: o1.price, entries: seq![po1] };
    assert(e.bids =~= Seq::<LevelModel>::empty());
    assert(e.asks =~= Seq::<LevelModel>::empty());

    // The first order rests alone: no eligible level, so the whole amount
    // is inserted into the empty own side.
    let t1 = if o1.side == Side::Buy {
        match_levels(o1.signer, o1.amount, e.asks, Side::Buy, o1.price)
    } else {
        match_levels(o1.signer, o1.amount, e.bids, Side::Sell, o1.price)
    };
    assert(t1.0 =~= Seq::<PartialOrderModel>::empty());
    assert(t1.2 == o1.amount);
    assert(book_insert(Seq::<LevelModel>::empty(), po1) =~= seq![l1]);
    assert(side_of(s1.0, o1.side) == seq![l1]);
    assert(side_of(s1.0, o2.side) =~= Seq::<LevelModel>::empty());
    assert(s1.0.ordinal == e.ordinal + 1);

    // The second order walks the single resting level.
    let book1 = seq![l1];
    let t2 = match_levels(o2.signer, o2.amount, book1, o2.side, o2.price);
    assert(book1.first() == l1);
    assert(book1.drop_first() =~= Seq::<LevelModel>::empty());
    assert(price_eligible(o2.side, o2.price, l1.price));
    let u = match_entries(o2.signer, o2.amount, l1.entries);
    assert(l1.entries.first() == po1);
    assert(l1.entries.drop_first() =~= Seq::<PartialOrderModel>::empty());
    assert(po1.signer == o1.signer && po1.signer != o2.signer);
    assert(po1.remaining == o1.amount && po1.amount == o1.amount);

    if o2.amount >= o1.amount {
        // The resting order is fully consumed.
        let cm = consumed_match(po1);
        assert(match_entries(o2.signer, o2.amount - o1.amount, l1.entries.drop_first())
            == (Seq::<PartialOrderModel>::empty(), Seq::<PartialOrderModel>::empty(),
        o2.amount - o1.amount));
        assert(u.0 =~= seq![cm]);
        assert(u.1 =~= Seq::<PartialOrderModel>::empty());
        assert(u.2 == o2.amount - o1.amount);
        assert(match_levels(o2.signer, u.2, book1.drop_first(), o2.side, o2.price)
            == (Seq::<PartialOrderModel>::empty(), Seq::<LevelModel>::empty(), u.2));
        assert(t2.0 =~= seq![cm]);
        assert(t2.1 =~= Seq::<LevelModel>::empty());
        assert(t2.2 == o2.amount - o1.amount);
        assert(seq![cm].drop_first() =~= Seq::<PartialOrderModel>::empty());
        assert(seq![cm].first() == cm);
        assert(sum_traded(Seq::<PartialOrderModel>::empty()) == 0);
        assert(sum_traded(seq![cm]) == cm.amount - cm.remaining);
        assert(sum_traded(t2.0) == o1.amount);
        assert(s2.1.matches == t2.0);
        if o2.amount == o1.amount {
            assert(side_of(s2.0, o2.side) =~= Seq::<LevelModel>::empty());
            assert(s2.0.bids.len() == 0 && s2.0.asks.len() == 0);
        } else {
            let po2 = resting_model(o2, e.ordinal + 2, o2.amount - o1.amount);
            let l2 = LevelModel { price: o2.price, entries: seq![po2] };
            assert(book_insert(Seq::<LevelModel>::empty(), po2) =~= seq![l2]);
            assert(side_of(s2.0, o2.side) == seq![l2]);
            assert(side_of(s2.0, o1.side).len() == 0);
            assert(side_of(s2.0, o2.side)[0].entries[0] == po2);
        }
    } else {
        // The resting order is split: `b` units trade, the rest stays.
        let sm = split_match(po1, o2.amount);
        let sk = split_keep(po1, o2.amount);
        assert(match_entries(o2.signer, 0, l1.entries.drop_first()) == (Seq::<
            PartialOrderModel,
        >::empty(), Seq::<PartialOrderModel>::empty(), 0int));
        assert(u.0 =~= seq![sm]);
        assert(u.1 =~= seq![sk]);
        assert(u.2 == 0);
        assert(match_levels(o2.signer, 0, book1.drop_first(), o2.side, o2.price) == (Seq::<
            PartialOrderModel,
        >::empty(), Seq::<LevelModel>::empty(), 0int));
        let kl = LevelModel { price: l1.price, entries: u.1 };
        assert(t2.1 =~= seq![kl]);
        assert(t2.0 =~= seq![sm]);
        assert(t2.2 == 0);
        assert(seq![sm].drop_first() =~= Seq::<PartialOrderModel>::empty());
        assert(seq![sm].first() == sm);
        assert(sum_traded(Seq::<PartialOrderModel>::empty()) == 0);
        assert(sum_traded(seq![sm]) == sm.amount - sm.remaining);
        assert(sum_traded(t2.0) == o2.amount);
        assert(s2.1.matches == t2.0);
        assert(side_of(s2.0, o1.side) == seq![kl]);
        assert(side_of(s2.0, o2.side).len() == 0);
        assert(side_of(s2.0, o1.side)[0].entries[0] == sk);
        assert(sk.remaining == o1.amount - o2.amount);
        assert(sk.ordinal == e.ordinal + 1);
    }
}

proof fn lemma_sum_amounts_eq_sum_traded(ms: Seq<PartialOrderModel>)
    requires
        forall|k: int| 0 <= k < ms.len() ==> (#[trigger] ms[k]).remaining == 0,
    ensures
        sum_amounts(ms) == sum_traded(ms),
    decreases ms.len(),
{
    if ms.len() > 0 {
        assert(ms[0].remaining == 0);
        assert forall|k: int| 0 <= k < ms.drop_first().len() implies (#[trigger] ms.drop_first()[k]).remaining
            == 0 by {
            assert(ms.drop_first()[k] == ms[k + 1]);
        }
        lemma_sum_amounts_eq_sum_traded(ms.drop_first());
    }
}

} // verus!
