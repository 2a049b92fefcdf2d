//! One side of the order book: price levels in ascending price order, each
//! holding its resting orders in ascending ordinal (time-priority) order,
//! together with the functional model of matching an incoming order
//! against such a side.

use vstd::arithmetic::mul::lemma_mul_inequality;
use vstd::prelude::*;

use crate::types::{order_views, PartialOrder, PartialOrderModel, Side};

verus! {

/// All resting orders at one price.
pub struct PriceLevel {
    /// The price shared by every order of the level
    pub price: u64,
    /// The resting orders, oldest ordinal first
    pub entries: Vec<PartialOrder>,
}

/// The mathematical value of a [`PriceLevel`].
pub struct LevelModel {
    pub price: int,
    pub entries: Seq<PartialOrderModel>,
}

impl View for PriceLevel {
    type V = LevelModel;

    open spec fn view(&self) -> LevelModel {
        LevelModel { price: self.price as int, entries: order_views(self.entries@) }
    }
}

/// The views of every element of a sequence of price levels.
pub open spec fn level_views(s: Seq<PriceLevel>) -> Seq<LevelModel> {
    s.map_values(|l: PriceLevel| l@)
}

/// One side of the book: price levels in strictly ascending price order.
pub struct BookSide {
    pub levels: Vec<PriceLevel>,
}

impl View for BookSide {
    type V = Seq<LevelModel>;

    open spec fn view(&self) -> Seq<LevelModel> {
        level_views(self.levels@)
    }
}

impl BookSide {
    /// An empty book side.
    pub fn new() -> (r: Self)
        ensures
            r@ == Seq::<LevelModel>::empty(),
    {
        let r = BookSide { levels: Vec::new() };
        assert(r@ =~= Seq::<LevelModel>::empty());
        r
    }

    /// The number of price levels currently resting on this side.
    pub fn len(&self) -> (r: usize)
        ensures
            r == self@.len(),
    {
        self.levels.len()
    }

    /// Whether no order at all rests on this side.
    pub fn is_empty(&self) -> (r: bool)
        ensures
            r == (self@.len() == 0),
    {
        self.levels.is_empty()
    }
}

/// What it means for one resting order to be well-formed at a price level:
/// it carries the level's price and the side of its book, its residual is
/// positive, and `amount` equals the residual.
pub open spec fn entry_wf(e: PartialOrderModel, price: int, side: Side) -> bool {
    &&& e.price == price
    &&& 0 <= e.price <= u64::MAX
    &&& e.side == side
    &&& e.amount == e.remaining
    &&& 0 < e.amount <= u64::MAX
    &&& 1 <= e.ordinal <= u64::MAX
}

/// A well-formed price level: non-empty, all entries well-formed at its
/// price, in strictly ascending ordinal order.
pub open spec fn level_wf(l: LevelModel, side: Side) -> bool {
    &&& 0 <= l.price <= u64::MAX
    &&& l.entries.len() > 0
    &&& forall|i: int| 0 <= i < l.entries.len() ==> entry_wf(#[trigger] l.entries[i], l.price, side)
    &&& forall|i: int, j: int|
        0 <= i < j < l.entries.len() ==> l.entries[i].ordinal < l.entries[j].ordinal
}

/// A well-formed book side: well-formed levels in strictly ascending price
/// order.
pub open spec fn side_wf(ls: Seq<LevelModel>, side: Side) -> bool {
    &&& forall|i: int| 0 <= i < ls.len() ==> level_wf(#[trigger] ls[i], side)
    &&& forall|i: int, j: int| 0 <= i < j < ls.len() ==> ls[i].price < ls[j].price
}

/// Every ordinal in the entries is at most `bound`.
pub open spec fn entries_ordinals_at_most(es: Seq<PartialOrderModel>, bound: int) -> bool {
    forall|i: int| 0 <= i < es.len() ==> (#[trigger] es[i]).ordinal <= bound
}

/// Every ordinal on the book side is at most `bound`.
pub open spec fn side_ordinals_at_most(ls: Seq<LevelModel>, bound: int) -> bool {
    forall|i: int| 0 <= i < ls.len() ==> entries_ordinals_at_most((#[trigger] ls[i]).entries, bound)
}

/// Every entry's `amount * price` is at most `bound`.
pub open spec fn entries_cost_at_most(es: Seq<PartialOrderModel>, bound: int) -> bool {
    forall|i: int| 0 <= i < es.len() ==> (#[trigger] es[i]).amount * es[i].price <= bound
}

/// Every entry's `amount * price` on the book side is at most `bound`.
pub open spec fn side_cost_at_most(ls: Seq<LevelModel>, bound: int) -> bool {
    forall|i: int| 0 <= i < ls.len() ==> entries_cost_at_most((#[trigger] ls[i]).entries, bound)
}

/// A receipt record for a fully consumed resting order: nothing remains.
pub open spec fn consumed_match(e: PartialOrderModel) -> PartialOrderModel {
    PartialOrderModel { remaining: 0, ..e }
}

/// A receipt record for a partially consumed resting order: `take` units
/// trade, the record keeps the pre-trade `amount` and reports the residual.
pub open spec fn split_match(e: PartialOrderModel, take: int) -> PartialOrderModel {
    PartialOrderModel { remaining: e.remaining - take, ..e }
}

/// The piece of a partially consumed resting order that stays in the book.
pub open spec fn split_keep(e: PartialOrderModel, take: int) -> PartialOrderModel {
    PartialOrderModel { amount: e.remaining - take, remaining: e.remaining - take, ..e }
}

/// Match an incoming order with `rem` units left against the entries of one
/// price level, oldest first. Returns the receipt records produced, the
/// entries remaining in the level, and the units still unmatched.
///
/// An entry from the submitting signer never trades and stays in place; once
/// `rem` reaches zero the rest of the level stays in place.
pub open spec fn match_entries(
    signer: Seq<char>,
    rem: int,
    entries: Seq<PartialOrderModel>,
) -> (Seq<PartialOrderModel>, Seq<PartialOrderModel>, int)
    decreases entries.len(),
{
    if entries.len() == 0 {
        (Seq::<PartialOrderModel>::empty(), Seq::<PartialOrderModel>::empty(), rem)
    } else {
        let e = entries.first();
        let rest = entries.drop_first();
        if e.signer == signer || rem <= 0 {
            let t = match_entries(signer, rem, rest);
            (t.0, seq![e] + t.1, t.2)
        } else if rem >= e.remaining {
            let t = match_entries(signer, rem - e.remaining, rest);
            (seq![consumed_match(e)] + t.0, t.1, t.2)
        } else {
            let t = match_entries(signer, 0, rest);
            (seq![split_match(e, rem)] + t.0, seq![split_keep(e, rem)] + t.1, t.2)
        }
    }
}

/// Whether a level at `price` is eligible for an incoming order of side
/// `side` with limit price `limit`: a buyer accepts prices up to the limit,
/// a seller prices from the limit up.
pub open spec fn price_eligible(side: Side, limit: int, price: int) -> bool {
    match side {
        Side::Buy => price <= limit,
        Side::Sell => price >= limit,
    }
}

/// Match an incoming order against a whole book side, walking the levels in
/// ascending price order. Ineligible levels, and all levels once `rem` is
/// exhausted, stay in place; levels left empty are pruned.
pub open spec fn match_levels(
    signer: Seq<char>,
    rem: int,
    levels: Seq<LevelModel>,
    side: Side,
    limit: int,
) -> (Seq<PartialOrderModel>, Seq<LevelModel>, int)
    decreases levels.len(),
{
    if levels.len() == 0 {
        (Seq::<PartialOrderModel>::empty(), Seq::<LevelModel>::empty(), rem)
    } else {
        let l = levels.first();
        let rest = levels.drop_first();
        if rem <= 0 || !price_eligible(side, limit, l.price) {
            let t = match_levels(signer, rem, rest, side, limit);
            (t.0, seq![l] + t.1, t.2)
        } else {
            let u = match_entries(signer, rem, l.entries);
            let t = match_levels(signer, u.2, rest, side, limit);
            let kept = if u.1.len() == 0 {
                t.1
            } else {
                seq![LevelModel { price: l.price, entries: u.1 }] + t.1
            };
            (u.0 + t.0, kept, t.2)
        }
    }
}

/// Insert a resting order into a book side, keeping the levels sorted by
/// price: it joins its price level if one exists, else it opens one.
pub open spec fn book_insert(levels: Seq<LevelModel>, po: PartialOrderModel) -> Seq<LevelModel>
    decreases levels.len(),
{
    if levels.len() == 0 {
        seq![LevelModel { price: po.price, entries: seq![po] }]
    } else if po.price < levels.first().price {
        seq![LevelModel { price: po.price, entries: seq![po] }] + levels
    } else if po.price == levels.first().price {
        seq![
            LevelModel { price: levels.first().price, entries: levels.first().entries.push(po) },
        ] + levels.drop_first()
    } else {
        seq![levels.first()] + book_insert(levels.drop_first(), po)
    }
}

/// The quantity a sequence of receipt records actually traded: for each
/// record, the counterparty's pre-trade residual minus what remains.
pub open spec fn sum_traded(ms: Seq<PartialOrderModel>) -> int
    decreases ms.len(),
{
    if ms.len() == 0 {
        0
    } else {
        (ms.first().amount - ms.first().remaining) + sum_traded(ms.drop_first())
    }
}

/// The sum of the `amount` fields of a sequence of receipt records.
pub open spec fn sum_amounts(ms: Seq<PartialOrderModel>) -> int
    decreases ms.len(),
{
    if ms.len() == 0 {
        0
    } else {
        ms.first().amount + sum_amounts(ms.drop_first())
    }
}

/// What every receipt record of a match against well-formed entries
/// satisfies.
pub open spec fn matched_wf(
    m: PartialOrderModel,
    price: int,
    side: Side,
    signer: Seq<char>,
    ob: int,
    pb: int,
) -> bool {
    &&& m.signer != signer
    &&& m.price == price
    &&& m.side == side
    &&& 0 <= m.remaining < m.amount <= u64::MAX
    &&& 1 <= m.ordinal <= ob
    &&& m.amount * m.price <= pb
}

/// Shape of one level's match: the receipt records are counterparties of the
/// submitting signer and account exactly for the quantity taken off `rem`;
/// the kept entries are still well-formed, in ordinal order, with ordinals
/// drawn from the input entries.
proof fn lemma_match_entries(
    signer: Seq<char>,
    rem: int,
    entries: Seq<PartialOrderModel>,
    price: int,
    side: Side,
    ob: int,
    pb: int,
)
    requires
        0 <= rem,
        0 <= price,
        forall|i: int| 0 <= i < entries.len() ==> entry_wf(#[trigger] entries[i], price, side),
        forall|i: int, j: int|
            0 <= i < j < entries.len() ==> entries[i].ordinal < entries[j].ordinal,
        entries_ordinals_at_most(entries, ob),
        entries_cost_at_most(entries, pb),
    ensures
        ({
            let t = match_entries(signer, rem, entries);
            &&& 0 <= t.2 <= rem
            &&& sum_traded(t.0) == rem - t.2
            &&& forall|k: int|
                0 <= k < t.0.len() ==> matched_wf(#[trigger] t.0[k], price, side, signer, ob, pb)
            &&& forall|k: int| 0 <= k < t.1.len() ==> entry_wf(#[trigger] t.1[k], price, side)
            &&& entries_ordinals_at_most(t.1, ob)
            &&& entries_cost_at_most(t.1, pb)
            &&& forall|x: int, y: int|
                0 <= x < y < t.1.len() ==> t.1[x].ordinal < t.1[y].ordinal
            &&& forall|k: int|
                0 <= k < t.1.len() ==> exists|j: int|
                    0 <= j < entries.len() && (#[trigger] t.1[k]).ordinal == entries[j].ordinal
        }),
    decreases entries.len(),
{
    if entries.len() == 0 {
    } else {
        let e = entries.first();
        let rest = entries.drop_first();
        let t = match_entries(signer, rem, entries);
        assert(entry_wf(e, price, side));
        assert forall|i: int| 0 <= i < rest.len() implies entry_wf(#[trigger] rest[i], price, side)
            && rest[i].ordinal <= ob && rest[i].amount * rest[i].price <= pb by {
            assert(rest[i] == entries[i + 1]);
        }
        assert forall|i: int, j: int| 0 <= i < j < rest.len() implies rest[i].ordinal
            < rest[j].ordinal by {
            assert(rest[i] == entries[i + 1] && rest[j] == entries[j + 1]);
        }
        assert forall|j: int| 0 <= j < rest.len() implies e.ordinal < (#[trigger] rest[j]).ordinal by {
            assert(rest[j] == entries[j + 1]);
        }
        if e.signer == signer || rem <= 0 {
            lemma_match_entries(signer, rem, rest, price, side, ob, pb);
            let tr = match_entries(signer, rem, rest);
            assert(t.1 == seq![e] + tr.1);
            assert forall|k: int| 0 <= k < t.1.len() implies entry_wf(
                #[trigger] t.1[k],
                price,
                side,
            ) && t.1[k].ordinal <= ob && t.1[k].amount * t.1[k].price <= pb && (exists|j: int|
                0 <= j < entries.len() && t.1[k].ordinal == entries[j].ordinal) by {
                if k == 0 {
                    assert(t.1[k] == e);
                    assert(t.1[k].ordinal == entries[0].ordinal);
                } else {
                    assert(t.1[k] == tr.1[k - 1]);
                    let j = choose|j: int|
                        0 <= j < rest.len() && tr.1[k - 1].ordinal == rest[j].ordinal;
                    assert(t.1[k].ordinal == entries[j + 1].ordinal);
                }
            }
            assert forall|x: int, y: int| 0 <= x < y < t.1.len() implies t.1[x].ordinal
                < t.1[y].ordinal by {
                if x == 0 {
                    let j = choose|j: int|
                        0 <= j < rest.len() && tr.1[y - 1].ordinal == rest[j].ordinal;
                    assert(t.1[y] == tr.1[y - 1]);
                    assert(e.ordinal < rest[j].ordinal);
                } else {
                    assert(t.1[x] == tr.1[x - 1] && t.1[y] == tr.1[y - 1]);
                }
            }
        } else if rem >= e.remaining {
            lemma_match_entries(signer, rem - e.remaining, rest, price, side, ob, pb);
            let tr = match_entries(signer, rem - e.remaining, rest);
            assert(t.0 == seq![consumed_match(e)] + tr.0);
            assert(sum_traded(t.0) == (consumed_match(e).amount - 0) + sum_traded(tr.0)) by {
                assert(t.0.first() == consumed_match(e));
                assert(t.0.drop_first() =~= tr.0);
            }
            assert(matched_wf(consumed_match(e), price, side, signer, ob, pb));
            assert forall|k: int| 0 <= k < t.0.len() implies matched_wf(
                #[trigger] t.0[k],
                price,
                side,
                signer,
                ob,
                pb,
            ) by {
                if k > 0 {
                    assert(t.0[k] == tr.0[k - 1]);
                }
            }
        } else {
            lemma_match_entries(signer, 0, rest, price, side, ob, pb);
            let tr = match_entries(signer, 0, rest);
            assert(t.0 == seq![split_match(e, rem)] + tr.0);
            assert(t.1 == seq![split_keep(e, rem)] + tr.1);
            assert(t.2 == tr.2 && tr.2 == 0);
            assert(sum_traded(t.0) == (split_match(e, rem).amount - split_match(
                e,
                rem,
            ).remaining) + sum_traded(tr.0)) by {
                assert(t.0.first() == split_match(e, rem));
                assert(t.0.drop_first() =~= tr.0);
            }
            assert(matched_wf(split_match(e, rem), price, side, signer, ob, pb));
            assert forall|k: int| 0 <= k < t.0.len() implies matched_wf(
                #[trigger] t.0[k],
                price,
                side,
                signer,
                ob,
                pb,
            ) by {
                if k > 0 {
                    assert(t.0[k] == tr.0[k - 1]);
                }
            }
            let sk = split_keep(e, rem);
            assert(sk.amount * sk.price <= pb) by {
                lemma_mul_inequality(sk.amount, e.amount, price);
            }
            assert(entry_wf(sk, price, side));
            assert forall|k: int| 0 <= k < t.1.len() implies entry_wf(
                #[trigger] t.1[k],
                price,
                side,
            ) && t.1[k].ordinal <= ob && t.1[k].amount * t.1[k].price <= pb && (exists|j: int|
                0 <= j < entries.len() && t.1[k].ordinal == entries[j].ordinal) by {
                if k == 0 {
                    assert(t.1[k] == sk);
                    assert(t.1[k].ordinal == entries[0].ordinal);
                } else {
                    assert(t.1[k] == tr.1[k - 1]);
                    let j = choose|j: int|
                        0 <= j < rest.len() && tr.1[k - 1].ordinal == rest[j].ordinal;
                    assert(t.1[k].ordinal == entries[j + 1].ordinal);
                }
            }
            assert forall|x: int, y: int| 0 <= x < y < t.1.len() implies t.1[x].ordinal
                < t.1[y].ordinal by {
                if x == 0 {
                    let j = choose|j: int|
                        0 <= j < rest.len() && tr.1[y - 1].ordinal == rest[j].ordinal;
                    assert(t.1[y] == tr.1[y - 1]);
                    assert(e.ordinal < rest[j].ordinal);
                } else {
                    assert(t.1[x] == tr.1[x - 1] && t.1[y] == tr.1[y - 1]);
                }
            }
        }
    }
}

/// What every receipt record of a match against a whole book side satisfies.
pub open spec fn matched_any_wf(
    m: PartialOrderModel,
    side: Side,
    signer: Seq<char>,
    ob: int,
    pb: int,
) -> bool {
    &&& m.signer != signer
    &&& m.side == side
    &&& 0 <= m.price <= u64::MAX
    &&& 0 <= m.remaining < m.amount <= u64::MAX
    &&& 1 <= m.ordinal <= ob
    &&& m.amount * m.price <= pb
}

/// Traded quantities add up across concatenation.
proof fn lemma_sum_traded_concat(a: Seq<PartialOrderModel>, b: Seq<PartialOrderModel>)
    ensures
        sum_traded(a + b) == sum_traded(a) + sum_traded(b),
    decreases a.len(),
{
    if a.len() == 0 {
        assert(a + b =~= b);
    } else {
        assert((a + b).drop_first() =~= a.drop_first() + b);
        lemma_sum_traded_concat(a.drop_first(), b);
    }
}

/// Shape of a whole side's match: receipt records are counterparties and
/// account exactly for the quantity taken off `rem`; the side kept is still
/// well-formed, with prices drawn from the input side.
pub proof fn lemma_match_levels(
    signer: Seq<char>,
    rem: int,
    levels: Seq<LevelModel>,
    side: Side,
    limit: int,
    bside: Side,
    ob: int,
    pb: int,
)
    requires
        0 <= rem,
        side_wf(levels, bside),
        side_ordinals_at_most(levels, ob),
        side_cost_at_most(levels, pb),
    ensures
        ({
            let t = match_levels(signer, rem, levels, side, limit);
            &&& 0 <= t.2 <= rem
            &&& sum_traded(t.0) == rem - t.2
            &&& forall|k: int|
                0 <= k < t.0.len() ==> matched_any_wf(#[trigger] t.0[k], bside, signer, ob, pb)
            &&& side_wf(t.1, bside)
            &&& side_ordinals_at_most(t.1, ob)
            &&& side_cost_at_most(t.1, pb)
            &&& forall|k: int|
                0 <= k < t.1.len() ==> exists|j: int|
                    0 <= j < levels.len() && (#[trigger] t.1[k]).price == levels[j].price
        }),
    decreases levels.len(),
{
    if levels.len() == 0 {
    } else {
        let l = levels.first();
        let rest = levels.drop_first();
        let t = match_levels(signer, rem, levels, side, limit);
        assert(level_wf(l, bside) && entries_ordinals_at_most(l.entries, ob)
            && entries_cost_at_most(l.entries, pb));
        assert forall|i: int| 0 <= i < rest.len() implies level_wf(#[trigger] rest[i], bside)
            && entries_ordinals_at_most(rest[i].entries, ob) && entries_cost_at_most(
            rest[i].entries,
            pb,
        ) by {
            assert(rest[i] == levels[i + 1]);
        }
        assert forall|i: int, j: int| 0 <= i < j < rest.len() implies rest[i].price
            < rest[j].price by {
            assert(rest[i] == levels[i + 1] && rest[j] == levels[j + 1]);
        }
        assert forall|j: int| 0 <= j < rest.len() implies l.price < (#[trigger] rest[j]).price by {
            assert(rest[j] == levels[j + 1]);
        }
        if rem <= 0 || !price_eligible(side, limit, l.price) {
            lemma_match_levels(signer, rem, rest, side, limit, bside, ob, pb);
            let tr = match_levels(signer, rem, rest, side, limit);
            assert(t.1 == seq![l] + tr.1);
            assert forall|k: int| 0 <= k < t.1.len() implies level_wf(#[trigger] t.1[k], bside)
                && entries_ordinals_at_most(t.1[k].entries, ob) && entries_cost_at_most(
                t.1[k].entries,
                pb,
            ) && (exists|j: int| 0 <= j < levels.len() && t.1[k].price == levels[j].price) by {
                if k == 0 {
                    assert(t.1[k] == l);
                    assert(t.1[k].price == levels[0].price);
                } else {
                    assert(t.1[k] == tr.1[k - 1]);
                    let j = choose|j: int|
                        0 <= j < rest.len() && tr.1[k - 1].price == rest[j].price;
                    assert(t.1[k].price == levels[j + 1].price);
                }
            }
            assert forall|x: int, y: int| 0 <= x < y < t.1.len() implies t.1[x].price
                < t.1[y].price by {
                if x == 0 {
                    let j = choose|j: int|
                        0 <= j < rest.len() && tr.1[y - 1].price == rest[j].price;
                    assert(t.1[y] == tr.1[y - 1]);
                    assert(l.price < rest[j].price);
                } else {
                    assert(t.1[x] == tr.1[x - 1] && t.1[y] == tr.1[y - 1]);
                }
            }
        } else {
            lemma_match_entries(signer, rem, l.entries, l.price, bside, ob, pb);
            let u = match_entries(signer, rem, l.entries);
            lemma_match_levels(signer, u.2, rest, side, limit, bside, ob, pb);
            let tr = match_levels(signer, u.2, rest, side, limit);
            assert(t.0 == u.0 + tr.0);
            lemma_sum_traded_concat(u.0, tr.0);
            assert forall|k: int| 0 <= k < t.0.len() implies matched_any_wf(
                #[trigger] t.0[k],
                bside,
                signer,
                ob,
                pb,
            ) by {
                if k < u.0.len() {
                    assert(t.0[k] == u.0[k]);
                    assert(matched_wf(u.0[k], l.price, bside, signer, ob, pb));
                } else {
                    assert(t.0[k] == tr.0[k - u.0.len()]);
                }
            }
            if u.1.len() == 0 {
                assert(t.1 == tr.1);
                assert forall|k: int| 0 <= k < t.1.len() implies exists|j: int|
                    0 <= j < levels.len() && (#[trigger] t.1[k]).price == levels[j].price by {
                    let j = choose|j: int| 0 <= j < rest.len() && tr.1[k].price == rest[j].price;
                    assert(t.1[k].price == levels[j + 1].price);
                }
            } else {
                let nl = LevelModel { price: l.price, entries: u.1 };
                assert(t.1 == seq![nl] + tr.1);
                assert(level_wf(nl, bside));
                assert forall|k: int| 0 <= k < t.1.len() implies level_wf(#[trigger] t.1[k], bside)
                    && entries_ordinals_at_most(t.1[k].entries, ob) && entries_cost_at_most(
                    t.1[k].entries,
                    pb,
                ) && (exists|j: int| 0 <= j < levels.len() && t.1[k].price == levels[j].price) by {
                    if k == 0 {
                        assert(t.1[k] == nl);
                        assert(t.1[k].price == levels[0].price);
                    } else {
                        assert(t.1[k] == tr.1[k - 1]);
                        let j = choose|j: int|
                            0 <= j < rest.len() && tr.1[k - 1].price == rest[j].price;
                        assert(t.1[k].price == levels[j + 1].price);
                    }
                }
                assert forall|x: int, y: int| 0 <= x < y < t.1.len() implies t.1[x].price
                    < t.1[y].price by {
                    if x == 0 {
                        let j = choose|j: int|
                            0 <= j < rest.len() && tr.1[y - 1].price == rest[j].price;
                        assert(t.1[y] == tr.1[y - 1]);
                        assert(l.price < rest[j].price);
                    } else {
                        assert(t.1[x] == tr.1[x - 1] && t.1[y] == tr.1[y - 1]);
                    }
                }
            }
        }
    }
}

/// Inserting a fresh resting order keeps the side well-formed, provided its
/// ordinal is newer than everything already in the book.
pub proof fn lemma_book_insert(
    levels: Seq<LevelModel>,
    po: PartialOrderModel,
    side: Side,
    ob: int,
    pb: int,
)
    requires
        side_wf(levels, side),
        entry_wf(po, po.price, side),
        side_ordinals_at_most(levels, po.ordinal - 1),
        po.ordinal <= ob,
        side_cost_at_most(levels, pb),
        po.amount * po.price <= pb,
        side_ordinals_at_most(levels, ob),
    ensures
        ({
            let r = book_insert(levels, po);
            &&& side_wf(r, side)
            &&& side_ordinals_at_most(r, ob)
            &&& side_cost_at_most(r, pb)
            &&& forall|k: int|
                0 <= k < r.len() ==> ((#[trigger] r[k]).price == po.price || exists|j: int|
                    0 <= j < levels.len() && r[k].price == levels[j].price)
        }),
    decreases levels.len(),
{
    let r = book_insert(levels, po);
    let npo = LevelModel { price: po.price, entries: seq![po] };
    assert(level_wf(npo, side));
    if levels.len() == 0 {
        assert(r == seq![npo]);
        assert(r[0] == npo);
    } else {
        let l = levels.first();
        let rest = levels.drop_first();
        assert forall|i: int| 0 <= i < rest.len() implies level_wf(#[trigger] rest[i], side)
            && entries_ordinals_at_most(rest[i].entries, ob) && entries_ordinals_at_most(
            rest[i].entries,
            po.ordinal - 1,
        ) && entries_cost_at_most(rest[i].entries, pb) by {
            assert(rest[i] == levels[i + 1]);
        }
        assert forall|i: int, j: int| 0 <= i < j < rest.len() implies rest[i].price
            < rest[j].price by {
            assert(rest[i] == levels[i + 1] && rest[j] == levels[j + 1]);
        }
        assert forall|j: int| 0 <= j < rest.len() implies l.price < (#[trigger] rest[j]).price by {
            assert(rest[j] == levels[j + 1]);
        }
        if po.price < l.price {
            assert(r == seq![npo] + levels);
            assert forall|k: int| 0 <= k < r.len() implies level_wf(#[trigger] r[k], side)
                && entries_ordinals_at_most(r[k].entries, ob) && entries_cost_at_most(
                r[k].entries,
                pb,
            ) by {
                if k == 0 {
                    assert(r[k] == npo);
                } else {
                    assert(r[k] == levels[k - 1]);
                }
            }
            assert forall|x: int, y: int| 0 <= x < y < r.len() implies r[x].price < r[y].price by {
                if x == 0 {
                    assert(r[y] == levels[y - 1]);
                } else {
                    assert(r[x] == levels[x - 1] && r[y] == levels[y - 1]);
                }
            }
            assert forall|k: int| 0 <= k < r.len() implies ((#[trigger] r[k]).price == po.price
                || exists|j: int| 0 <= j < levels.len() && r[k].price == levels[j].price) by {
                if k > 0 {
                    assert(r[k].price == levels[k - 1].price);
                }
            }
        } else if po.price == l.price {
            let nl = LevelModel { price: l.price, entries: l.entries.push(po) };
            assert(r == seq![nl] + rest);
            assert(level_wf(nl, side)) by {
                assert forall|i: int| 0 <= i < nl.entries.len() implies entry_wf(
                    #[trigger] nl.entries[i],
                    nl.price,
                    side,
                ) by {
                    if i < l.entries.len() {
                        assert(nl.entries[i] == l.entries[i]);
                    } else {
                        assert(nl.entries[i] == po);
                    }
                }
                assert forall|i: int, j: int| 0 <= i < j < nl.entries.len() implies
                    nl.entries[i].ordinal < nl.entries[j].ordinal by {
                    if j < l.entries.len() {
                        assert(nl.entries[i] == l.entries[i] && nl.entries[j] == l.entries[j]);
                    } else {
                        assert(nl.entries[i] == l.entries[i] && nl.entries[j] == po);
                        assert(l.entries[i].ordinal <= po.ordinal - 1);
                    }
                }
            }
            assert(entries_ordinals_at_most(nl.entries, ob)) by {
                assert forall|i: int| 0 <= i < nl.entries.len() implies (#[trigger] nl.entries[i]).ordinal
                    <= ob by {
                    if i < l.entries.len() {
                        assert(nl.entries[i] == l.entries[i]);
                    } else {
                        assert(nl.entries[i] == po);
                    }
                }
            }
            assert(entries_cost_at_most(nl.entries, pb)) by {
                assert forall|i: int| 0 <= i < nl.entries.len() implies (#[trigger] nl.entries[i]).amount
                    * nl.entries[i].price <= pb by {
                    if i < l.entries.len() {
                        assert(nl.entries[i] == l.entries[i]);
                    } else {
                        assert(nl.entries[i] == po);
                    }
                }
            }
            assert forall|k: int| 0 <= k < r.len() implies level_wf(#[trigger] r[k], side)
                && entries_ordinals_at_most(r[k].entries, ob) && entries_cost_at_most(
                r[k].entries,
                pb,
            ) && (r[k].price == po.price || exists|j: int|
                0 <= j < levels.len() && r[k].price == levels[j].price) by {
                if k == 0 {
                    assert(r[k] == nl);
                } else {
                    assert(r[k] == rest[k - 1] && rest[k - 1] == levels[k]);
                }
            }
            assert forall|x: int, y: int| 0 <= x < y < r.len() implies r[x].price < r[y].price by {
                if x == 0 {
                    assert(r[y] == rest[y - 1]);
                } else {
                    assert(r[x] == rest[x - 1] && r[y] == rest[y - 1]);
                }
            }
        } else {
            lemma_book_insert(rest, po, side, ob, pb);
            let rr = book_insert(rest, po);
            assert(r == seq![l] + rr);
            assert forall|k: int| 0 <= k < r.len() implies level_wf(#[trigger] r[k], side)
                && entries_ordinals_at_most(r[k].entries, ob) && entries_cost_at_most(
                r[k].entries,
                pb,
            ) && (r[k].price == po.price || exists|j: int|
                0 <= j < levels.len() && r[k].price == levels[j].price) by {
                if k == 0 {
                    assert(r[k] == l);
                    assert(r[k].price == levels[0].price);
                } else {
                    assert(r[k] == rr[k - 1]);
                    if rr[k - 1].price != po.price {
                        let j = choose|j: int|
                            0 <= j < rest.len() && rr[k - 1].price == rest[j].price;
                        assert(r[k].price == levels[j + 1].price);
                    }
                }
            }
            assert forall|x: int, y: int| 0 <= x < y < r.len() implies r[x].price < r[y].price by {
                if x == 0 {
                    assert(r[y] == rr[y - 1]);
                    if rr[y - 1].price == po.price {
                        assert(l.price < po.price);
                    } else {
                        let j = choose|j: int|
                            0 <= j < rest.len() && rr[y - 1].price == rest[j].price;
                        assert(l.price < rest[j].price);
                    }
                } else {
                    assert(r[x] == rr[x - 1] && r[y] == rr[y - 1]);
                }
            }
        }
    }
}

/// All resting orders of a side, flattened in walk order: ascending price,
/// and within one level ascending ordinal.
pub open spec fn side_flat(ls: Seq<LevelModel>) -> Seq<PartialOrderModel>
    decreases ls.len(),
{
    if ls.len() == 0 {
        Seq::<PartialOrderModel>::empty()
    } else {
        ls.first().entries + side_flat(ls.drop_first())
    }
}

proof fn lemma_order_views_push(s: Seq<PartialOrder>, x: PartialOrder)
    ensures
        order_views(s.push(x)) == order_views(s).push(x@),
{
    assert(order_views(s.push(x)) =~= order_views(s).push(x@));
}

proof fn lemma_order_views_concat(a: Seq<PartialOrder>, b: Seq<PartialOrder>)
    ensures
        order_views(a + b) == order_views(a) + order_views(b),
{
    assert(order_views(a + b) =~= order_views(a) + order_views(b));
}

proof fn lemma_level_views_push(s: Seq<PriceLevel>, x: PriceLevel)
    ensures
        level_views(s.push(x)) == level_views(s).push(x@),
{
    assert(level_views(s.push(x)) =~= level_views(s).push(x@));
}

/// Clone the orders of one level, value for value.
fn clone_entries(v: &Vec<PartialOrder>) -> (r: Vec<PartialOrder>)
    ensures
        order_views(r@) == order_views(v@),
{
    let mut r: Vec<PartialOrder> = Vec::new();
    let mut i: usize = 0;
    while i < v.len()
        invariant
            i <= v.len(),
            r@.len() == i as int,
            forall|k: int| 0 <= k < i as int ==> r@[k]@ == v@[k]@,
        decreases v.len() - i,
    {
        r.push(v[i].clone());
        i = i + 1;
    }
    assert(order_views(r@) =~= order_views(v@));
    r
}

/// Match an incoming order against one price level, oldest entry first.
/// Returns the receipt records, the entries the level keeps, and the
/// still-unmatched quantity.
fn match_level(signer: &String, rem0: u64, level: &PriceLevel) -> (result: (
    Vec<PartialOrder>,
    Vec<PartialOrder>,
    u64,
))
    ensures
        ({
            let t = match_entries(signer@, rem0 as int, level@.entries);
            &&& order_views(result.0@) == t.0
            &&& order_views(result.1@) == t.1
            &&& result.2 as int == t.2
        }),
{
    let ghost full = level@.entries;
    let mut matched: Vec<PartialOrder> = Vec::new();
    let mut kept: Vec<PartialOrder> = Vec::new();
    let mut rem: u64 = rem0;
    let mut i: usize = 0;
    proof {
        assert(full.skip(0) =~= full);
        assert(order_views(matched@) + match_entries(signer@, rem0 as int, full).0
            =~= match_entries(signer@, rem0 as int, full).0);
        assert(order_views(kept@) + match_entries(signer@, rem0 as int, full).1
            =~= match_entries(signer@, rem0 as int, full).1);
    }
    while i < level.entries.len()
        invariant
            i <= level.entries.len(),
            full == level@.entries,
            level.entries@.len() == full.len(),
            ({
                let t = match_entries(signer@, rem0 as int, full);
                let s = match_entries(signer@, rem as int, full.skip(i as int));
                &&& t.0 == order_views(matched@) + s.0
                &&& t.1 == order_views(kept@) + s.1
                &&& t.2 == s.2
            }),
        decreases level.entries.len() - i,
    {
        let ghost m0 = matched@;
        let ghost k0 = kept@;
        let ghost suffix = full.skip(i as int);
        proof {
            assert(suffix.first() == full[i as int]);
            assert(suffix.drop_first() =~= full.skip(i as int + 1));
            assert(full[i as int] == level.entries@[i as int]@);
        }
        let e = &level.entries[i];
        if e.signer == *signer || rem == 0 {
            kept.push(e.clone());
            proof {
                let s2 = match_entries(signer@, rem as int, full.skip(i as int + 1));
                lemma_order_views_push(k0, level.entries@[i as int]);
                assert(order_views(k0) + (seq![full[i as int]] + s2.1) =~= order_views(kept@)
                    + s2.1);
            }
        } else if rem >= e.remaining {
            let m = PartialOrder {
                price: e.price,
                amount: e.amount,
                remaining: 0,
                side: e.side,
                signer: e.signer.clone(),
                ordinal: e.ordinal,
            };
            rem = rem - e.remaining;
            matched.push(m);
            proof {
                let s2 = match_entries(signer@, rem as int, full.skip(i as int + 1));
                assert(matched@.last()@ == consumed_match(full[i as int]));
                lemma_order_views_push(m0, matched@.last());
                assert(order_views(m0) + (seq![consumed_match(full[i as int])] + s2.0)
                    =~= order_views(matched@) + s2.0);
            }
        } else {
            let left = e.remaining - rem;
            let m = PartialOrder {
                price: e.price,
                amount: e.amount,
                remaining: left,
                side: e.side,
                signer: e.signer.clone(),
                ordinal: e.ordinal,
            };
            let keep = PartialOrder {
                price: e.price,
                amount: left,
                remaining: left,
                side: e.side,
                signer: e.signer.clone(),
                ordinal: e.ordinal,
            };
            let ghost take = rem as int;
            rem = 0;
            matched.push(m);
            kept.push(keep);
            proof {
                let s2 = match_entries(signer@, 0, full.skip(i as int + 1));
                assert(matched@.last()@ == split_match(full[i as int], take));
                assert(kept@.last()@ == split_keep(full[i as int], take));
                lemma_order_views_push(m0, matched@.last());
                lemma_order_views_push(k0, kept@.last());
                assert(order_views(m0) + (seq![split_match(full[i as int], take)] + s2.0)
                    =~= order_views(matched@) + s2.0);
                assert(order_views(k0) + (seq![split_keep(full[i as int], take)] + s2.1)
                    =~= order_views(kept@) + s2.1);
            }
        }
        i = i + 1;
    }
    proof {
        assert(full.skip(i as int) =~= Seq::<PartialOrderModel>::empty());
        let t = match_entries(signer@, rem0 as int, full);
        assert(order_views(matched@) + Seq::<PartialOrderModel>::empty() =~= order_views(
            matched@,
        ));
        assert(order_views(kept@) + Seq::<PartialOrderModel>::empty() =~= order_views(kept@));
        assert(t.0 == order_views(matched@) && t.1 == order_views(kept@) && t.2 == rem as int);
    }
    (matched, kept, rem)
}

/// Match an incoming order against a whole book side, walking the levels in
/// ascending price order. Returns the receipt records, the levels the side
/// keeps (emptied levels pruned), and the still-unmatched quantity.
pub(crate) fn match_book(signer: &String, rem0: u64, book: &BookSide, side: Side, limit: u64) -> (result: (
    Vec<PartialOrder>,
    Vec<PriceLevel>,
    u64,
))
    ensures
        ({
            let t = match_levels(signer@, rem0 as int, book@, side, limit as int);
            &&& order_views(result.0@) == t.0
            &&& level_views(result.1@) == t.1
            &&& result.2 as int == t.2
        }),
{
    let ghost full = book@;
    let mut matched: Vec<PartialOrder> = Vec::new();
    let mut kept: Vec<PriceLevel> = Vec::new();
    let mut rem: u64 = rem0;
    let mut i: usize = 0;
    proof {
        assert(full.skip(0) =~= full);
        assert(order_views(matched@) + match_levels(signer@, rem0 as int, full, side, limit as int).0
            =~= match_levels(signer@, rem0 as int, full, side, limit as int).0);
        assert(level_views(kept@) + match_levels(signer@, rem0 as int, full, side, limit as int).1
            =~= match_levels(signer@, rem0 as int, full, side, limit as int).1);
    }
    while i < book.levels.len()
        invariant
            i <= book.levels.len(),
            full == book@,
            book.levels@.len() == full.len(),
            ({
                let t = match_levels(signer@, rem0 as int, full, side, limit as int);
                let s = match_levels(signer@, rem as int, full.skip(i as int), side, limit as int);
                &&& t.0 == order_views(matched@) + s.0
                &&& t.1 == level_views(kept@) + s.1
                &&& t.2 == s.2
            }),
        decreases book.levels.len() - i,
    {
        let ghost m0 = matched@;
        let ghost k0 = kept@;
        proof {
            let suffix = full.skip(i as int);
            assert(suffix.first() == full[i as int]);
            assert(suffix.drop_first() =~= full.skip(i as int + 1));
            assert(full[i as int] == book.levels@[i as int]@);
        }
        let ghost rem_in = rem as int;
        let lv = &book.levels[i];
        let elig = match side {
            Side::Buy => lv.price <= limit,
            Side::Sell => lv.price >= limit,
        };
        if rem > 0 && elig {
            let ghost u = match_entries(signer@, rem_in, full[i as int].entries);
            let ghost s2 = match_levels(
                signer@,
                u.2,
                full.skip(i as int + 1),
                side,
                limit as int,
            );
            let (mut lm, lk, r2) = match_level(signer, rem, lv);
            let ghost lmv = lm@;
            rem = r2;
            matched.append(&mut lm);
            proof {
                lemma_order_views_concat(m0, lmv);
                assert((order_views(m0) + (u.0 + s2.0)) =~= (order_views(matched@) + s2.0));
            }
            if lk.len() > 0 {
                let nl = PriceLevel { price: lv.price, entries: lk };
                proof {
                    assert(nl@ == (LevelModel { price: full[i as int].price, entries: u.1 }));
                }
                kept.push(nl);
                proof {
                    lemma_level_views_push(k0, kept@.last());
                    assert((level_views(k0) + (seq![
                        LevelModel { price: full[i as int].price, entries: u.1 },
                    ] + s2.1)) =~= (level_views(kept@) + s2.1));
                }
            } else {
                proof {
                    assert(u.1.len() == 0);
                }
            }
        } else {
            let nl = PriceLevel { price: lv.price, entries: clone_entries(&lv.entries) };
            proof {
                assert(nl@ == full[i as int]);
            }
            kept.push(nl);
            proof {
                let s2 = match_levels(
                    signer@,
                    rem as int,
                    full.skip(i as int + 1),
                    side,
                    limit as int,
                );
                lemma_level_views_push(k0, kept@.last());
                assert((level_views(k0) + (seq![full[i as int]] + s2.1)) =~= (level_views(kept@)
                    + s2.1));
            }
        }
        i = i + 1;
    }
    proof {
        assert(full.skip(i as int) =~= Seq::<LevelModel>::empty());
        let t = match_levels(signer@, rem0 as int, full, side, limit as int);
        assert(order_views(matched@) + Seq::<PartialOrderModel>::empty() =~= order_views(
            matched@,
        ));
        assert(level_views(kept@) + Seq::<LevelModel>::empty() =~= level_views(kept@));
        assert(t.0 == order_views(matched@) && t.1 == level_views(kept@) && t.2 == rem as int);
    }
    (matched, kept, rem)
}

proof fn lemma_level_views_update(s: Seq<PriceLevel>, i: int, x: PriceLevel)
    requires
        0 <= i < s.len(),
    ensures
        level_views(s.update(i, x)) == level_views(s).update(i, x@),
{
    assert(level_views(s.update(i, x)) =~= level_views(s).update(i, x@));
}

proof fn lemma_level_views_insert(s: Seq<PriceLevel>, i: int, x: PriceLevel)
    requires
        0 <= i <= s.len(),
    ensures
        level_views(s.insert(i, x)) == level_views(s).insert(i, x@),
{
    assert(level_views(s.insert(i, x)) =~= level_views(s).insert(i, x@));
}

/// Where `book_insert` lands: at the first level whose price is not below
/// the new order's price — joining it on equality, opening a level before it
/// otherwise.
proof fn lemma_book_insert_at(levels: Seq<LevelModel>, po: PartialOrderModel, idx: int)
    requires
        0 <= idx <= levels.len(),
        forall|k: int| 0 <= k < idx ==> levels[k].price < po.price,
        idx < levels.len() ==> levels[idx].price >= po.price,
    ensures
        book_insert(levels, po) == (if idx < levels.len() && levels[idx].price == po.price {
            levels.update(
                idx,
                LevelModel { price: levels[idx].price, entries: levels[idx].entries.push(po) },
            )
        } else {
            levels.insert(idx, LevelModel { price: po.price, entries: seq![po] })
        }),
    decreases levels.len(),
{
    let npo = LevelModel { price: po.price, entries: seq![po] };
    if levels.len() == 0 {
        assert(book_insert(levels, po) =~= levels.insert(0, npo));
    } else if idx == 0 {
        if levels[0].price == po.price {
            let nl = LevelModel {
                price: levels[0].price,
                entries: levels[0].entries.push(po),
            };
            assert(book_insert(levels, po) == seq![nl] + levels.drop_first());
            assert(seq![nl] + levels.drop_first() =~= levels.update(0, nl));
        } else {
            assert(po.price < levels[0].price);
            assert(seq![npo] + levels =~= levels.insert(0, npo));
        }
    } else {
        let rest = levels.drop_first();
        assert(levels[0].price < po.price);
        assert forall|k: int| 0 <= k < idx - 1 implies (#[trigger] rest[k]).price < po.price by {
            assert(rest[k] == levels[k + 1]);
        }
        assert(idx - 1 < rest.len() ==> rest[idx - 1].price >= po.price);
        lemma_book_insert_at(rest, po, idx - 1);
        if idx < levels.len() && levels[idx].price == po.price {
            let nl = LevelModel {
                price: levels[idx].price,
                entries: levels[idx].entries.push(po),
            };
            assert(rest[idx - 1] == levels[idx]);
            assert(book_insert(levels, po) == seq![levels.first()] + rest.update(idx - 1, nl));
            assert(seq![levels.first()] + rest.update(idx - 1, nl) =~= levels.update(idx, nl));
        } else {
            assert(book_insert(levels, po) == seq![levels.first()] + rest.insert(idx - 1, npo));
            assert(seq![levels.first()] + rest.insert(idx - 1, npo) =~= levels.insert(idx, npo));
        }
    }
}

impl BookSide {
    /// Insert a resting order, keeping the levels sorted by price: the order
    /// joins its price level if one exists, else a new level opens for it.
    pub fn insert(&mut self, po: PartialOrder)
        ensures
            final(self)@ == book_insert(old(self)@, po@),
    {
        let mut idx: usize = 0;
        while idx < self.levels.len() && self.levels[idx].price < po.price
            invariant
                idx <= self.levels@.len(),
                forall|k: int| 0 <= k < idx as int ==> self.levels@[k]@.price < po@.price,
                self == old(self),
            decreases self.levels@.len() - idx,
        {
            idx = idx + 1;
        }
        proof {
            lemma_book_insert_at(old(self)@, po@, idx as int);
        }
        if idx < self.levels.len() && self.levels[idx].price == po.price {
            let ghost pov = po@;
            let ghost l0 = self.levels@;
            self.levels[idx].entries.push(po);
            proof {
                assert(self.levels@ == l0.update(idx as int, self.levels@[idx as int]));
                assert(self.levels@[idx as int]@ == (LevelModel {
                    price: l0[idx as int]@.price,
                    entries: l0[idx as int]@.entries.push(pov),
                })) by {
                    assert(order_views(l0[idx as int].entries@.push(po))
                        =~= order_views(l0[idx as int].entries@).push(pov));
                }
                lemma_level_views_update(l0, idx as int, self.levels@[idx as int]);
            }
        } else {
            let ghost l0 = self.levels@;
            let ghost pov = po@;
            let price = po.price;
            let mut entries: Vec<PartialOrder> = Vec::new();
            entries.push(po);
            let nl = PriceLevel { price, entries };
            proof {
                assert(order_views(nl.entries@) =~= seq![pov]);
                assert(nl@ == (LevelModel { price: pov.price, entries: seq![pov] }));
            }
            self.levels.insert(idx, nl);
            proof {
                lemma_level_views_insert(l0, idx as int, self.levels@[idx as int]);
                assert(self.levels@[idx as int] == nl);
            }
        }
    }

    /// Append every resting order of this side to `out`, in walk order.
    pub fn collect_orders(&self, out: &mut Vec<PartialOrder>)
        ensures
            order_views(final(out)@) == order_views(old(out)@) + side_flat(self@),
    {
        let ghost full = self@;
        let ghost base = old(out)@;
        let mut i: usize = 0;
        proof {
            assert(full.skip(0) =~= full);
        }
        while i < self.levels.len()
            invariant
                i <= self.levels@.len(),
                full == self@,
                self.levels@.len() == full.len(),
                order_views(base) + side_flat(full) == order_views(out@) + side_flat(
                    full.skip(i as int),
                ),
            decreases self.levels@.len() - i,
        {
            let ghost o0 = out@;
            proof {
                let suffix = full.skip(i as int);
                assert(suffix.first() == full[i as int]);
                assert(suffix.drop_first() =~= full.skip(i as int + 1));
                assert(full[i as int] == self.levels@[i as int]@);
            }
            let lv = &self.levels[i];
            let mut j: usize = 0;
            while j < lv.entries.len()
                invariant
                    j <= lv.entries@.len(),
                    order_views(out@) == order_views(o0) + order_views(lv.entries@).take(j as int),
                decreases lv.entries@.len() - j,
            {
                let ghost ob = out@;
                out.push(lv.entries[j].clone());
                proof {
                    lemma_order_views_push(ob, out@.last());
                    assert(order_views(out@) =~= order_views(o0) + order_views(lv.entries@).take(
                        j as int + 1,
                    ));
                }
                j = j + 1;
            }
            proof {
                assert(order_views(lv.entries@).take(j as int) =~= order_views(lv.entries@));
                assert((order_views(o0) + order_views(lv.entries@)) + side_flat(
                    full.skip(i as int + 1),
                ) =~= order_views(o0) + (order_views(lv.entries@) + side_flat(
                    full.skip(i as int + 1),
                )));
            }
            i = i + 1;
        }
        proof {
            assert(full.skip(i as int) =~= Seq::<LevelModel>::empty());
            assert(order_views(out@) + Seq::<PartialOrderModel>::empty() =~= order_views(out@));
        }
    }
}

} // verus!
