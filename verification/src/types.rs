//! Orders, resting orders, receipts, and the argument shapes used at the
//! service boundary, together with their mathematical views.

use vstd::prelude::*;

verus! {

/// Side of the order book a position or order belongs to.
#[derive(Clone, Copy, PartialEq, Eq, Structural, Debug)]
pub enum Side {
    /// Want to buy
    Buy,
    /// Want to sell
    Sell,
}

/// An incoming limit order: buy or sell `amount` units at up to / at least
/// `price` per unit. Identity (an ordinal) is conferred on acceptance.
#[derive(Clone, PartialEq, Eq, Debug)]
pub struct Order {
    /// Max/min price (depending on the side)
    pub price: u64,
    /// Number of units to trade; strictly positive
    pub amount: u64,
    /// The side of the order book (buy or sell)
    pub side: Side,
    /// The account signer
    pub signer: String,
}

/// The mathematical value of an [`Order`].
pub struct OrderModel {
    pub price: int,
    pub amount: int,
    pub side: Side,
    pub signer: Seq<char>,
}

impl View for Order {
    type V = OrderModel;

    open spec fn view(&self) -> OrderModel {
        OrderModel {
            price: self.price as int,
            amount: self.amount as int,
            side: self.side,
            signer: self.signer@,
        }
    }
}

/// An order resident in the book, or one record of a receipt's match list.
///
/// Resident in the book, `amount` and `remaining` are both the residual
/// not-yet-matched quantity. In a receipt record, `remaining` reports how much
/// of the counterparty's resting order is left after the trade, while `amount`
/// keeps the counterparty's pre-trade residual.
#[derive(PartialEq, Eq, Debug)]
pub struct PartialOrder {
    /// Price per unit
    pub price: u64,
    /// Number of units in the order (see above)
    pub amount: u64,
    /// Remaining number of units after potential matches
    pub remaining: u64,
    /// Buy or sell side of the book
    pub side: Side,
    /// Signer of the order
    pub signer: String,
    /// Sequence number for order prioritisation
    pub ordinal: u64,
}

/// The mathematical value of a [`PartialOrder`].
pub struct PartialOrderModel {
    pub price: int,
    pub amount: int,
    pub remaining: int,
    pub side: Side,
    pub signer: Seq<char>,
    pub ordinal: int,
}

impl View for PartialOrder {
    type V = PartialOrderModel;

    open spec fn view(&self) -> PartialOrderModel {
        PartialOrderModel {
            price: self.price as int,
            amount: self.amount as int,
            remaining: self.remaining as int,
            side: self.side,
            signer: self.signer@,
            ordinal: self.ordinal as int,
        }
    }
}

impl Clone for PartialOrder {
    fn clone(&self) -> (r: Self)
        ensures
            r@ == self@,
    {
        PartialOrder {
            price: self.price,
            amount: self.amount,
            remaining: self.remaining,
            side: self.side,
            signer: self.signer.clone(),
            ordinal: self.ordinal,
        }
    }
}

impl Order {
    /// Promote an [`Order`] to a [`PartialOrder`] with the given ordinal and
    /// residual quantity.
    pub fn into_partial_order(self, ordinal: u64, remaining: u64) -> (r: PartialOrder)
        ensures
            r@.price == self@.price,
            r@.amount == self@.amount,
            r@.remaining == remaining as int,
            r@.side == self@.side,
            r@.signer == self@.signer,
            r@.ordinal == ordinal as int,
    {
        let Order { price, amount, side, signer } = self;
        PartialOrder { price, amount, remaining, side, signer, ordinal }
    }
}

impl PartialOrder {
    /// Split a [`PartialOrder`] in two by taking a `take` amount away from it.
    /// The piece returned carries the taken quantity; `pos` keeps the rest.
    pub fn take_from(pos: &mut PartialOrder, take: u64) -> (r: PartialOrder)
        requires
            take as int <= old(pos)@.remaining,
        ensures
            final(pos)@ == (PartialOrderModel { remaining: old(pos)@.remaining - take as int, ..old(pos)@ }),
            r@ == (PartialOrderModel {
                amount: take as int,
                remaining: old(pos)@.remaining - take as int,
                ..old(pos)@
            }),
    {
        pos.remaining = pos.remaining - take;
        PartialOrder {
            price: pos.price,
            amount: take,
            remaining: pos.remaining,
            side: pos.side,
            signer: pos.signer.clone(),
            ordinal: pos.ordinal,
        }
    }
}

/// A receipt issued to the caller for accepting an [`Order`].
#[derive(PartialEq, Eq, Debug)]
pub struct Receipt {
    /// Sequence number assigned to the submitted order
    pub ordinal: u64,
    /// Matches that happened immediately, in the order they were produced
    pub matches: Vec<PartialOrder>,
}

/// The views of every element of a sequence of partial orders.
pub open spec fn order_views(s: Seq<PartialOrder>) -> Seq<PartialOrderModel> {
    s.map_values(|p: PartialOrder| p@)
}

/// The mathematical value of a [`Receipt`].
pub struct ReceiptModel {
    pub ordinal: int,
    pub matches: Seq<PartialOrderModel>,
}

impl View for Receipt {
    type V = ReceiptModel;

    open spec fn view(&self) -> ReceiptModel {
        ReceiptModel { ordinal: self.ordinal as int, matches: order_views(self.matches@) }
    }
}

impl Clone for Receipt {
    fn clone(&self) -> (r: Self)
        ensures
            r@ == self@,
    {
        let mut matched: Vec<PartialOrder> = Vec::new();
        let mut i: usize = 0;
        while i < self.matches.len()
            invariant
                i <= self.matches.len(),
                matched@.len() == i as int,
                forall|k: int| 0 <= k < i as int ==> matched@[k]@ == self.matches@[k]@,
            decreases self.matches.len() - i,
        {
            matched.push(self.matches[i].clone());
            i = i + 1;
        }
        let r = Receipt { ordinal: self.ordinal, matches: matched };
        assert(r@.matches =~= self@.matches);
        r
    }
}

/// Argument shape for a balance query.
pub struct AccountArgs {
    pub signer: String,
}

/// Argument shape for a deposit.
pub struct DepositArgs {
    pub signer: String,
    pub amount: u64,
}

/// Argument shape for a withdrawal.
pub struct WithdrawArgs {
    pub signer: String,
    pub amount: u64,
}

/// Argument shape for a transfer.
pub struct SendArgs {
    pub signer: String,
    pub recipient: String,
    pub amount: u64,
}

/// Argument shape for submitting an order.
pub struct OrderArgs {
    pub signer: String,
    pub side: Side,
    pub amount: u64,
    pub price: u64,
}

/// Argument shape for a stateless matching probe: an order together with the
/// asks and bids it should be matched against.
pub struct MatchArgs {
    pub order: Order,
    pub asks: Vec<Order>,
    pub bids: Vec<Order>,
}

} // verus!
