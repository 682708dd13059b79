//! Price levels: the orders resting at one price, matched first in, first out.

use crate::order::{matched, Order, OrderView};
use crate::price::{Price, PriceView};
use vstd::prelude::*;

verus! {

/// The mathematical content of a [`Limit`]: its price and its queue, head first.
pub struct LimitView {
    pub price: PriceView,
    pub orders: Seq<OrderView>,
}

/// The total size resting in a queue.
pub open spec fn volume(orders: Seq<OrderView>) -> nat
    decreases orders.len(),
{
    if orders.len() == 0 {
        0
    } else {
        volume(orders.drop_last()) + orders.last().size
    }
}

/// The size that an incoming quantity takes from the order at position `i`: what
/// is left of the quantity once every order ahead of `i` has been served, up to
/// the size of that order.
pub open spec fn taken(orders: Seq<OrderView>, incoming: nat, i: int) -> nat {
    let ahead = volume(orders.take(i));
    if incoming <= ahead {
        0
    } else {
        matched((incoming - ahead) as nat, orders[i].size)
    }
}

/// The queue after an incoming quantity was matched against it: every order
/// stays in its place and on its side, reduced by what was taken from it.
pub open spec fn after_fill(orders: Seq<OrderView>, incoming: nat) -> Seq<OrderView> {
    Seq::new(
        orders.len(),
        |i: int|
            OrderView {
                side: orders[i].side,
                size: (orders[i].size - taken(orders, incoming, i)) as nat,
            },
    )
}

/// What is left of an incoming quantity after it met the whole queue.
pub open spec fn unfilled(orders: Seq<OrderView>, incoming: nat) -> nat {
    if incoming <= volume(orders) {
        0
    } else {
        (incoming - volume(orders)) as nat
    }
}

/// The volume of a prefix grows by the size of the order that joins it.
pub proof fn lemma_volume_take_next(orders: Seq<OrderView>, i: int)
    requires
        0 <= i < orders.len(),
    ensures
        volume(orders.take(i + 1)) == volume(orders.take(i)) + orders[i].size,
        volume(orders.take(orders.len() as int)) == volume(orders),
{
    assert(orders.take(i + 1).drop_last() =~= orders.take(i));
    assert(orders.take(orders.len() as int) =~= orders);
}

/// A longer prefix holds at least the volume of a shorter one.
pub proof fn lemma_volume_take_monotone(orders: Seq<OrderView>, i: int, j: int)
    requires
        0 <= i <= j <= orders.len(),
    ensures
        volume(orders.take(i)) <= volume(orders.take(j)),
    decreases j - i,
{
    if i < j {
        lemma_volume_take_monotone(orders, i, j - 1);
        lemma_volume_take_next(orders, j - 1);
    }
}

/// What a fill leaves in the first `k` places, in total.
proof fn lemma_after_fill_prefix(orders: Seq<OrderView>, incoming: nat, k: int)
    requires
        0 <= k <= orders.len(),
    ensures
        volume(after_fill(orders, incoming).take(k)) == volume(orders.take(k)) - matched(
            incoming,
            volume(orders.take(k)),
        ),
    decreases k,
{
    let filled = after_fill(orders, incoming);
    if k == 0 {
        assert(filled.take(0) =~= Seq::<OrderView>::empty());
        assert(orders.take(0) =~= Seq::<OrderView>::empty());
    } else {
        lemma_after_fill_prefix(orders, incoming, k - 1);
        lemma_volume_take_next(orders, k - 1);
        lemma_volume_take_next(filled, k - 1);
    }
}

/// Conservation: a fill moves size and neither makes nor loses any. What the
/// incoming quantity gives up is what the queue gives up: the smaller of the
/// incoming quantity and the resting volume.
pub proof fn lemma_fill_conserves(orders: Seq<OrderView>, incoming: nat)
    ensures
        incoming - unfilled(orders, incoming) == matched(incoming, volume(orders)),
        volume(orders) - volume(after_fill(orders, incoming)) == matched(
            incoming,
            volume(orders),
        ),
{
    let n = orders.len() as int;
    let filled = after_fill(orders, incoming);
    lemma_after_fill_prefix(orders, incoming, n);
    assert(orders.take(n) == orders);
    assert(filled.take(n) == filled);
}

/// Where nothing can be matched, because the incoming quantity is zero or the
/// queue holds no volume, a fill leaves the sum of the incoming quantity and the
/// resting volume as it was.
pub proof fn lemma_fill_without_match_keeps_sum(orders: Seq<OrderView>, incoming: nat)
    requires
        incoming == 0 || volume(orders) == 0,
    ensures
        incoming + volume(orders) == unfilled(orders, incoming) + volume(
            after_fill(orders, incoming),
        ),
{
    lemma_fill_conserves(orders, incoming);
}

/// First in, first out: an order gives up size only once every order ahead of it
/// has been filled completely, so a partial fill lands on the earliest order that
/// still had size. And when part of the incoming quantity is left over, the whole
/// queue has been filled.
pub proof fn lemma_fill_is_fifo(orders: Seq<OrderView>, incoming: nat, i: int, j: int)
    requires
        0 <= i < j < orders.len(),
    ensures
        taken(orders, incoming, j) > 0 ==> after_fill(orders, incoming)[i].size == 0,
        taken(orders, incoming, i) < orders[i].size ==> after_fill(orders, incoming)[j]
            == orders[j],
        unfilled(orders, incoming) > 0 ==> after_fill(orders, incoming)[i].size == 0
            && after_fill(orders, incoming)[j].size == 0,
{
    lemma_volume_take_next(orders, i);
    lemma_volume_take_next(orders, j);
    lemma_volume_take_monotone(orders, i + 1, j);
    lemma_volume_take_monotone(orders, j + 1, orders.len() as int);
}

/// A price level: one price and the orders resting at it, oldest first.
#[derive(Debug)]
pub struct Limit {
    price: Price,
    orders: Vec<Order>,
}

impl View for Limit {
    type V = LimitView;

    closed spec fn view(&self) -> LimitView {
        LimitView {
            price: self.price@,
            orders: Seq::new(self.orders@.len(), |i: int| self.orders@[i]@),
        }
    }
}

impl Limit {
    /// An empty level at `price`.
    pub fn new(price: Price) -> (limit: Limit)
        ensures
            limit@.price == price@,
            limit@.orders == Seq::<OrderView>::empty(),
    {
        let limit = Limit { price, orders: Vec::new() };
        assert(limit@.orders =~= Seq::<OrderView>::empty());
        limit
    }

    /// The price of this level.
    pub fn price(&self) -> (price: Price)
        ensures
            price@ == self@.price,
    {
        self.price
    }

    /// The queue of this level, oldest order first.
    pub fn orders(&self) -> (orders: &Vec<Order>)
        ensures
            orders@.len() == self@.orders.len(),
            forall|i: int| 0 <= i < orders@.len() ==> (#[trigger] orders@[i])@ == self@.orders[i],
    {
        &self.orders
    }

    /// Appends `order` to the tail of the queue.
    pub fn add_order(&mut self, order: Order)
        ensures
            final(self)@.price == old(self)@.price,
            final(self)@.orders == old(self)@.orders.push(order@),
    {
        self.orders.push(order);
        assert(self@.orders =~= old(self)@.orders.push(order@));
    }

    /// Matches `market_order` against the queue from its head.
    ///
    /// Each resting order gives up what is left of the incoming size once the
    /// orders ahead of it were served, up to its own size; the incoming order
    /// keeps what the whole queue could not serve. Orders stay in the queue, also
    /// when nothing is left of them.
    pub fn fill_order(&mut self, market_order: &mut Order)
        ensures
            final(self)@.price == old(self)@.price,
            final(self)@.orders == after_fill(old(self)@.orders, old(market_order)@.size),
            final(market_order)@.side == old(market_order)@.side,
            final(market_order)@.size == unfilled(old(self)@.orders, old(market_order)@.size),
            old(market_order)@.size - final(market_order)@.size == volume(old(self)@.orders)
                - volume(final(self)@.orders),
    {
        let ghost before = self@.orders;
        let ghost incoming = market_order@.size;
        let n = self.orders.len();
        let mut i: usize = 0;
        proof {
            assert(before.take(0) =~= Seq::<OrderView>::empty());
        }
        while i < n && !market_order.is_filled()
            invariant
                i <= n,
                n == self.orders.len(),
                n == before.len(),
                self.price == old(self).price,
                market_order@.side == old(market_order)@.side,
                market_order@.size == unfilled(before.take(i as int), incoming),
                forall|j: int|
                    0 <= j < i ==> (#[trigger] self.orders@[j])@ == after_fill(before, incoming)[j],
                forall|j: int| i <= j < n ==> (#[trigger] self.orders@[j])@ == before[j],
            decreases n - i,
        {
            proof {
                lemma_volume_take_next(before, i as int);
            }
            market_order.fill_against(&mut self.orders[i]);
            i += 1;
        }
        proof {
            assert forall|j: int| i <= j < n implies (#[trigger] self.orders@[j])@ == after_fill(
                before,
                incoming,
            )[j] by {
                lemma_volume_take_monotone(before, i as int, j);
            }
            lemma_volume_take_monotone(before, i as int, n as int);
            assert(before.take(n as int) =~= before);
            assert(self@.orders =~= after_fill(before, incoming));
            lemma_fill_conserves(before, incoming);
        }
    }

    /// The total size resting at this level; zero for an empty level.
    pub fn total_volume(&self) -> (total: u128)
        ensures
            total == volume(self@.orders),
    {
        let n = self.orders.len();
        let mut total: u128 = 0;
        let mut i: usize = 0;
        proof {
            assert(self@.orders.take(0) =~= Seq::<OrderView>::empty());
        }
        while i < n
            invariant
                i <= n,
                n == self.orders.len(),
                total == volume(self@.orders.take(i as int)),
                total <= i * u64::MAX,
            decreases n - i,
        {
            proof {
                lemma_volume_take_next(self@.orders, i as int);
            }
            total = total + self.orders[i].size() as u128;
            i += 1;
        }
        proof {
            assert(self@.orders.take(n as int) =~= self@.orders);
        }
        total
    }
}

} // verus!
