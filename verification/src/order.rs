//! Orders: a side and a remaining size.

use vstd::prelude::*;

verus! {

/// The side of the book an order belongs to.
#[derive(Clone, Copy, Debug, PartialEq, Eq, Structural)]
pub enum BidOrAsk {
    Bid,
    Ask,
}

/// A bid or ask instruction with a remaining size, counted in indivisible units.
#[derive(Debug)]
pub struct Order {
    size: u64,
    bid_or_ask: BidOrAsk,
}

/// The mathematical content of an [`Order`].
pub struct OrderView {
    pub side: BidOrAsk,
    pub size: nat,
}

impl View for Order {
    type V = OrderView;

    closed spec fn view(&self) -> OrderView {
        OrderView { side: self.bid_or_ask, size: self.size as nat }
    }
}

impl Order {
    /// Creates an order on the given side with `size` units remaining.
    pub fn new(bid_or_ask: BidOrAsk, size: u64) -> (order: Order)
        ensures
            order@.side == bid_or_ask,
            order@.size == size,
    {
        Order { size, bid_or_ask }
    }

    /// The side this order was placed on.
    pub fn side(&self) -> (side: BidOrAsk)
        ensures
            side == self@.side,
    {
        self.bid_or_ask
    }

    /// The size still to be matched.
    pub fn size(&self) -> (size: u64)
        ensures
            size == self@.size,
    {
        self.size
    }

    /// An order is filled exactly when nothing of it remains.
    pub fn is_filled(&self) -> (filled: bool)
        ensures
            filled <==> self@.size == 0,
    {
        self.size == 0
    }

    /// Matches this incoming order against one resting order: the smaller of the
    /// two remaining sizes moves out of both.
    pub fn fill_against(&mut self, resting: &mut Order)
        ensures
            final(self)@.side == old(self)@.side,
            final(resting)@.side == old(resting)@.side,
            final(self)@.size == old(self)@.size - matched(old(self)@.size, old(resting)@.size),
            final(resting)@.size == old(resting)@.size - matched(
                old(self)@.size,
                old(resting)@.size,
            ),
    {
        if self.size >= resting.size {
            self.size -= resting.size;
            resting.size = 0;
        } else {
            resting.size -= self.size;
            self.size = 0;
        }
    }
}

/// The quantity that changes hands when `incoming` units meet `resting` units.
pub open spec fn matched(incoming: nat, resting: nat) -> nat {
    if incoming <= resting {
        incoming
    } else {
        resting
    }
}

} // verus!
