//! The two-sided order book.
//!
//! Each side is a map from price to price level. It is held as a vector of
//! levels in matching priority (asks cheapest first, bids most expensive first),
//! so a market order walks the vector from its head and nothing is sorted on
//! reading.

use crate::limit::lemma_fill_conserves;
use crate::limit::{after_fill, volume, Limit, LimitView};
use crate::order::{matched, BidOrAsk, Order, OrderView};
use crate::price::{fixed_point, Price, PriceView};
use crate::price::{lemma_below_is_strict_total_order, lemma_view_injective};
use vstd::prelude::*;

verus! {

/// Whether price `a` is matched before price `b` on a side: the smaller one
/// first where the side is ascending, the larger one first where it descends.
pub open spec fn precedes(a: PriceView, b: PriceView, descending: bool) -> bool {
    if descending {
        b.below(a)
    } else {
        a.below(b)
    }
}

/// The levels stand in strict matching priority, each with a well-formed price.
/// No price then occurs twice.
pub open spec fn in_priority_order(levels: Seq<LimitView>, descending: bool) -> bool {
    &&& forall|i: int| 0 <= i < levels.len() ==> (#[trigger] levels[i]).price.wf()
    &&& forall|i: int, j: int|
        0 <= i < j < levels.len() ==> precedes(
            (#[trigger] levels[i]).price,
            (#[trigger] levels[j]).price,
            descending,
        )
}

/// No level is cheaper than the one before it.
pub open spec fn non_decreasing(levels: Seq<LimitView>) -> bool {
    forall|i: int, j: int|
        0 <= i <= j < levels.len() ==> !(#[trigger] levels[j]).price.below(
            (#[trigger] levels[i]).price,
        )
}

/// No level is more expensive than the one before it.
pub open spec fn non_increasing(levels: Seq<LimitView>) -> bool {
    forall|i: int, j: int|
        0 <= i <= j < levels.len() ==> !(#[trigger] levels[i]).price.below(
            (#[trigger] levels[j]).price,
        )
}

/// Some level of the side has this price.
pub open spec fn has_level(levels: Seq<LimitView>, price: PriceView) -> bool {
    exists|i: int| 0 <= i < levels.len() && (#[trigger] levels[i]).price == price
}

/// The position of a level with this price, where the side has one.
pub open spec fn level_index(levels: Seq<LimitView>, price: PriceView) -> int {
    choose|i: int| 0 <= i < levels.len() && (#[trigger] levels[i]).price == price
}

/// The queue resting at a price: empty where the side has no such level.
pub open spec fn resting(levels: Seq<LimitView>, price: PriceView) -> Seq<OrderView> {
    if has_level(levels, price) {
        levels[level_index(levels, price)].orders
    } else {
        Seq::empty()
    }
}

/// A side as the map it is: from each price that has a level to its queue.
pub open spec fn as_map(levels: Seq<LimitView>) -> Map<PriceView, Seq<OrderView>> {
    Map::new(|price: PriceView| has_level(levels, price), |price: PriceView| resting(levels, price))
}

/// The mathematical content of an [`Orderbook`]: each side in matching priority.
pub struct OrderbookView {
    pub asks: Seq<LimitView>,
    pub bids: Seq<LimitView>,
}

impl OrderbookView {
    /// Asks ascend and bids descend strictly by price.
    pub open spec fn wf(self) -> bool {
        &&& in_priority_order(self.asks, false)
        &&& in_priority_order(self.bids, true)
    }

    /// The book without any level.
    pub open spec fn empty() -> OrderbookView {
        OrderbookView { asks: Seq::empty(), bids: Seq::empty() }
    }

    /// `after` is this book with `order` placed at `price`: on the side of the
    /// order the queue at that price has the order appended, a queue that did not
    /// exist starting empty; every other queue and the other side are as before.
    pub open spec fn placed(
        self,
        after: OrderbookView,
        price: PriceView,
        order: OrderView,
    ) -> bool {
        &&& after.wf()
        &&& match order.side {
            BidOrAsk::Bid => {
                &&& after.asks == self.asks
                &&& as_map(after.bids) == as_map(self.bids).insert(
                    price,
                    resting(self.bids, price).push(order),
                )
            },
            BidOrAsk::Ask => {
                &&& after.bids == self.bids
                &&& as_map(after.asks) == as_map(self.asks).insert(
                    price,
                    resting(self.asks, price).push(order),
                )
            },
        }
    }
}

/// In a side in priority order a price finds its own level, and no other.
pub proof fn lemma_level_found(levels: Seq<LimitView>, descending: bool, i: int)
    requires
        in_priority_order(levels, descending),
        0 <= i < levels.len(),
    ensures
        has_level(levels, levels[i].price),
        level_index(levels, levels[i].price) == i,
        resting(levels, levels[i].price) == levels[i].orders,
{
    let found = level_index(levels, levels[i].price);
    assert(0 <= found < levels.len() && levels[found].price == levels[i].price);
    lemma_below_is_strict_total_order(levels[i].price, levels[found].price, levels[i].price);
    if found < i {
        assert(precedes(levels[found].price, levels[i].price, descending));
    } else if i < found {
        assert(precedes(levels[i].price, levels[found].price, descending));
    }
}

/// Priority order is monotone: an ascending side never steps down in price, a
/// descending side never steps up.
pub proof fn lemma_priority_order_is_monotone(levels: Seq<LimitView>, descending: bool)
    requires
        in_priority_order(levels, descending),
    ensures
        !descending ==> non_decreasing(levels),
        descending ==> non_increasing(levels),
{
    assert forall|i: int, j: int| 0 <= i <= j < levels.len() implies !precedes(
        (#[trigger] levels[j]).price,
        (#[trigger] levels[i]).price,
        descending,
    ) by {
        lemma_below_is_strict_total_order(levels[i].price, levels[j].price, levels[i].price);
        if i < j {
            assert(precedes(levels[i].price, levels[j].price, descending));
        }
    }
}

/// Dropping the last level of a side drops its price from the map and leaves
/// every other queue as it was.
proof fn lemma_drop_last_as_map(levels: Seq<LimitView>, descending: bool)
    requires
        in_priority_order(levels, descending),
        levels.len() > 0,
    ensures
        in_priority_order(levels.drop_last(), descending),
        as_map(levels.drop_last()) == as_map(levels).remove(levels.last().price),
{
    let rest = levels.drop_last();
    let last = levels.len() - 1;
    assert forall|i: int, j: int| 0 <= i < j < rest.len() implies precedes(
        (#[trigger] rest[i]).price,
        (#[trigger] rest[j]).price,
        descending,
    ) by {
        assert(precedes(levels[i].price, levels[j].price, descending));
    }
    assert forall|i: int| 0 <= i < rest.len() implies (#[trigger] rest[i]).price.wf() by {
        assert(levels[i].price.wf());
    }
    assert forall|p: PriceView| has_level(rest, p) == (has_level(levels, p) && p
        != levels.last().price) by {
        if has_level(rest, p) {
            let found = level_index(rest, p);
            assert(levels[found].price == p);
            lemma_level_found(levels, descending, found);
            lemma_level_found(levels, descending, last);
        }
        if has_level(levels, p) && p != levels.last().price {
            assert(rest[level_index(levels, p)].price == p);
        }
    }
    assert forall|p: PriceView| has_level(rest, p) implies resting(rest, p) == resting(
        levels,
        p,
    ) by {
        let found = level_index(rest, p);
        lemma_level_found(rest, descending, found);
        lemma_level_found(levels, descending, found);
    }
    assert(as_map(rest) =~= as_map(levels).remove(levels.last().price));
}

/// A side is determined by the map it is: two sides in the same priority order
/// that hold the same queues at the same prices are the same sequence of levels.
pub proof fn lemma_side_determined_by_map(a: Seq<LimitView>, b: Seq<LimitView>, descending: bool)
    requires
        in_priority_order(a, descending),
        in_priority_order(b, descending),
        as_map(a) == as_map(b),
    ensures
        a == b,
    decreases a.len(),
{
    if a.len() == 0 || b.len() == 0 {
        if a.len() > 0 {
            lemma_level_found(a, descending, 0);
            assert(as_map(a).contains_key(a[0].price));
            assert(has_level(b, a[0].price));
        }
        if b.len() > 0 {
            lemma_level_found(b, descending, 0);
            assert(as_map(b).contains_key(b[0].price));
            assert(has_level(a, b[0].price));
        }
        assert(a =~= b);
    } else {
        let end_a = a.len() - 1;
        let end_b = b.len() - 1;
        lemma_level_found(a, descending, end_a);
        lemma_level_found(b, descending, end_b);
        assert(as_map(a).contains_key(a[end_a].price));
        assert(as_map(b).contains_key(b[end_b].price));
        let in_b = level_index(b, a[end_a].price);
        let in_a = level_index(a, b[end_b].price);
        assert(has_level(b, a[end_a].price) && has_level(a, b[end_b].price));
        lemma_below_is_strict_total_order(a[end_a].price, b[end_b].price, a[end_a].price);
        if in_b < end_b {
            assert(precedes(b[in_b].price, b[end_b].price, descending));
            if in_a < end_a {
                assert(precedes(a[in_a].price, a[end_a].price, descending));
            }
        }
        assert(a[end_a].price == b[end_b].price);
        assert(as_map(a)[a[end_a].price] == as_map(b)[a[end_a].price]);
        assert(a[end_a] == b[end_b]);
        lemma_drop_last_as_map(a, descending);
        lemma_drop_last_as_map(b, descending);
        lemma_side_determined_by_map(a.drop_last(), b.drop_last(), descending);
        assert(a =~= a.drop_last().push(a[end_a]));
        assert(b =~= b.drop_last().push(b[end_b]));
    }
}

/// The total size resting on a side.
pub open spec fn book_volume(levels: Seq<LimitView>) -> nat
    decreases levels.len(),
{
    if levels.len() == 0 {
        0
    } else {
        book_volume(levels.drop_last()) + volume(levels.last().orders)
    }
}

/// The part of an incoming quantity that reaches the level at position `k`: what
/// the levels ahead of it could not serve.
pub open spec fn reaching(levels: Seq<LimitView>, incoming: nat, k: int) -> nat {
    let ahead = book_volume(levels.take(k));
    if incoming <= ahead {
        0
    } else {
        (incoming - ahead) as nat
    }
}

/// A side after an incoming quantity walked it in priority order: every level
/// keeps its place and price, and its queue was filled with what reached it.
pub open spec fn after_market_fill(levels: Seq<LimitView>, incoming: nat) -> Seq<LimitView> {
    Seq::new(
        levels.len(),
        |k: int|
            LimitView {
                price: levels[k].price,
                orders: after_fill(levels[k].orders, reaching(levels, incoming, k)),
            },
    )
}

/// What is left of an incoming quantity after it met the whole side.
pub open spec fn unmatched(levels: Seq<LimitView>, incoming: nat) -> nat {
    reaching(levels, incoming, levels.len() as int)
}

/// The volume of a prefix of a side grows by the volume of the level that joins
/// it, and is never more than the volume of a longer prefix.
pub proof fn lemma_book_volume_take(levels: Seq<LimitView>, i: int, j: int)
    requires
        0 <= i <= j <= levels.len(),
    ensures
        i < levels.len() ==> book_volume(levels.take(i + 1)) == book_volume(levels.take(i))
            + volume(levels[i].orders),
        book_volume(levels.take(i)) <= book_volume(levels.take(j)),
        book_volume(levels.take(levels.len() as int)) == book_volume(levels),
    decreases j - i,
{
    if i < levels.len() {
        assert(levels.take(i + 1).drop_last() =~= levels.take(i));
    }
    assert(levels.take(levels.len() as int) =~= levels);
    if i < j {
        lemma_book_volume_take(levels, i + 1, j);
    }
}

/// A fill with nothing incoming changes nothing.
pub proof fn lemma_fill_nothing(orders: Seq<OrderView>)
    ensures
        after_fill(orders, 0) == orders,
{
    assert(after_fill(orders, 0) =~= orders);
}

/// What a market fill leaves in the first `k` levels, in total.
proof fn lemma_after_market_fill_prefix(levels: Seq<LimitView>, incoming: nat, k: int)
    requires
        0 <= k <= levels.len(),
    ensures
        book_volume(after_market_fill(levels, incoming).take(k)) == book_volume(levels.take(k))
            - matched(incoming, book_volume(levels.take(k))),
    decreases k,
{
    let filled = after_market_fill(levels, incoming);
    if k == 0 {
        assert(filled.take(0) =~= Seq::<LimitView>::empty());
        assert(levels.take(0) =~= Seq::<LimitView>::empty());
    } else {
        lemma_after_market_fill_prefix(levels, incoming, k - 1);
        lemma_book_volume_take(levels, k - 1, k);
        lemma_book_volume_take(filled, k - 1, k);
        lemma_fill_conserves(levels[k - 1].orders, reaching(levels, incoming, k - 1));
    }
}

/// Conservation across a side: what the incoming quantity gives up is what the
/// side gives up, the smaller of the incoming quantity and the side's volume.
pub proof fn lemma_market_fill_conserves(levels: Seq<LimitView>, incoming: nat)
    ensures
        incoming - unmatched(levels, incoming) == matched(incoming, book_volume(levels)),
        book_volume(levels) - book_volume(after_market_fill(levels, incoming)) == matched(
            incoming,
            book_volume(levels),
        ),
{
    let n = levels.len() as int;
    let filled = after_market_fill(levels, incoming);
    lemma_after_market_fill_prefix(levels, incoming, n);
    assert(levels.take(n) == levels);
    assert(filled.take(n) == filled);
}

/// Price priority: a level is reached only once every level ahead of it has been
/// emptied, and where part of the incoming quantity is left over, every level of
/// the side has been emptied.
pub proof fn lemma_market_fill_by_priority(levels: Seq<LimitView>, incoming: nat, i: int, j: int)
    requires
        0 <= i < j < levels.len(),
    ensures
        reaching(levels, incoming, j) > 0 ==> volume(after_market_fill(levels, incoming)[i].orders)
            == 0,
        reaching(levels, incoming, j) == 0 ==> after_market_fill(levels, incoming)[j]
            == levels[j],
        unmatched(levels, incoming) > 0 ==> volume(after_market_fill(levels, incoming)[i].orders)
            == 0 && volume(after_market_fill(levels, incoming)[j].orders) == 0,
{
    lemma_book_volume_take(levels, i, j);
    lemma_book_volume_take(levels, i + 1, j);
    lemma_book_volume_take(levels, j, levels.len() as int);
    lemma_book_volume_take(levels, j + 1, levels.len() as int);
    lemma_fill_conserves(levels[i].orders, reaching(levels, incoming, i));
    lemma_fill_conserves(levels[j].orders, reaching(levels, incoming, j));
    lemma_fill_nothing(levels[j].orders);
}

/// The views of a vector of levels, in the vector's order.
pub open spec fn level_views(levels: Seq<Limit>) -> Seq<LimitView> {
    Seq::new(levels.len(), |i: int| levels[i]@)
}

/// Whether `a` is matched before `b` on a side of the given direction.
fn goes_before(a: &Price, b: &Price, descending: bool) -> (before: bool)
    ensures
        before == precedes(a@, b@, descending),
{
    if descending {
        *b < *a
    } else {
        *a < *b
    }
}

/// Places `order` at `price` on one side: at the tail of the level with that
/// price, or in a new level at the place that keeps the side in priority order.
fn place_order(levels: &mut Vec<Limit>, price: Price, order: Order, descending: bool)
    requires
        in_priority_order(level_views(old(levels)@), descending),
    ensures
        in_priority_order(level_views(final(levels)@), descending),
        as_map(level_views(final(levels)@)) == as_map(level_views(old(levels)@)).insert(
            price@,
            resting(level_views(old(levels)@), price@).push(order@),
        ),
{
    proof {
        use_type_invariant(&price);
    }
    let ghost before = level_views(levels@);
    let n = levels.len();
    let mut k: usize = 0;
    while k < n && goes_before(&levels[k].price(), &price, descending)
        invariant
            k <= n,
            n == levels.len(),
            levels@ == old(levels)@,
            before == level_views(levels@),
            forall|i: int| 0 <= i < k ==> precedes((#[trigger] before[i]).price, price@, descending),
        decreases n - k,
    {
        k += 1;
    }
    let found = if k < n {
        let at_k = levels[k].price();
        proof {
            lemma_view_injective(at_k, price);
        }
        at_k == price
    } else {
        false
    };
    if found {
        levels[k].add_order(order);
        proof {
            let after = level_views(levels@);
            let queue = before[k as int].orders.push(order@);
            assert(after =~= before.update(k as int, LimitView { price: price@, orders: queue }));
            lemma_level_found(before, descending, k as int);
            assert forall|p: PriceView| has_level(after, p) == has_level(before, p) by {
                if has_level(before, p) {
                    assert(after[level_index(before, p)].price == p);
                }
                if has_level(after, p) {
                    assert(before[level_index(after, p)].price == p);
                }
            }
            assert forall|p: PriceView| has_level(after, p) implies resting(after, p) == (if p
                == price@ {
                queue
            } else {
                resting(before, p)
            }) by {
                let found = level_index(after, p);
                lemma_level_found(after, descending, found);
                lemma_level_found(before, descending, found);
            }
            assert(as_map(after) =~= as_map(before).insert(price@, queue));
        }
    } else {
        let mut limit = Limit::new(price);
        limit.add_order(order);
        let ghost level = limit@;
        levels.insert(k, limit);
        proof {
            let after = level_views(levels@);
            assert(after =~= before.insert(k as int, level));
            assert(level.orders =~= seq![order@]);
            assert forall|j: int| k <= j < n implies precedes(
                price@,
                (#[trigger] before[j]).price,
                descending,
            ) by {
                lemma_below_is_strict_total_order(price@, before[k as int].price, before[j].price);
                lemma_below_is_strict_total_order(before[j].price, before[k as int].price, price@);
                if k < j {
                    assert(precedes(before[k as int].price, before[j].price, descending));
                }
            }
            assert forall|i: int, j: int| 0 <= i < j < after.len() implies precedes(
                (#[trigger] after[i]).price,
                (#[trigger] after[j]).price,
                descending,
            ) by {
                if j < k {
                    assert(precedes(before[i].price, before[j].price, descending));
                } else if j == k {
                    assert(precedes(before[i].price, price@, descending));
                } else if i < k {
                    assert(precedes(before[i].price, before[j - 1].price, descending));
                } else if i == k {
                    assert(precedes(price@, before[j - 1].price, descending));
                } else {
                    assert(precedes(before[i - 1].price, before[j - 1].price, descending));
                }
            }
            assert(!has_level(before, price@)) by {
                if has_level(before, price@) {
                    let found = level_index(before, price@);
                    lemma_below_is_strict_total_order(price@, price@, price@);
                    if found < k {
                        assert(precedes(before[found].price, price@, descending));
                    } else {
                        assert(precedes(price@, before[found].price, descending));
                    }
                }
            }
            assert(resting(before, price@).push(order@) =~= level.orders);
            assert forall|p: PriceView| has_level(after, p) == (has_level(before, p) || p
                == price@) by {
                if has_level(before, p) {
                    let found = level_index(before, p);
                    if found < k {
                        assert(after[found].price == p);
                    } else {
                        assert(after[found + 1].price == p);
                    }
                }
                if p == price@ {
                    assert(after[k as int].price == p);
                }
                if has_level(after, p) {
                    let found = level_index(after, p);
                    if found < k {
                        assert(before[found].price == p);
                    } else if found > k {
                        assert(before[found - 1].price == p);
                    }
                }
            }
            assert forall|p: PriceView| has_level(after, p) implies resting(after, p) == (if p
                == price@ {
                level.orders
            } else {
                resting(before, p)
            }) by {
                let found = level_index(after, p);
                lemma_level_found(after, descending, found);
                if found < k {
                    lemma_level_found(before, descending, found);
                } else if found > k {
                    lemma_level_found(before, descending, found - 1);
                }
            }
            assert(as_map(after) =~= as_map(before).insert(price@, level.orders));
        }
    }
}

/// The order book of one market: ask levels and bid levels, each keyed by price.
#[derive(Debug)]
pub struct Orderbook {
    asks: Vec<Limit>,
    bids: Vec<Limit>,
}

impl View for Orderbook {
    type V = OrderbookView;

    closed spec fn view(&self) -> OrderbookView {
        OrderbookView { asks: level_views(self.asks@), bids: level_views(self.bids@) }
    }
}

impl Orderbook {
    /// Every book holds its sides in priority order.
    #[verifier::type_invariant]
    pub open spec fn inv(&self) -> bool {
        self@.wf()
    }

    /// A book without any level.
    pub fn new() -> (book: Orderbook)
        ensures
            book@ == OrderbookView::empty(),
            book@.wf(),
    {
        let book = Orderbook { asks: Vec::new(), bids: Vec::new() };
        assert(book@.asks =~= Seq::<LimitView>::empty());
        assert(book@.bids =~= Seq::<LimitView>::empty());
        book
    }

    /// Rests `order` at `price` on the side the order names: at the tail of the
    /// level at that price, which is created when the side has none.
    pub fn add_limit_order(&mut self, price: Price, order: Order)
        ensures
            old(self)@.placed(final(self)@, price@, order@),
    {
        proof {
            use_type_invariant(&*self);
        }
        let mut side: Vec<Limit> = Vec::new();
        match order.side() {
            BidOrAsk::Bid => {
                std::mem::swap(&mut self.bids, &mut side);
                place_order(&mut side, price, order, true);
                self.bids = side;
            },
            BidOrAsk::Ask => {
                std::mem::swap(&mut self.asks, &mut side);
                place_order(&mut side, price, order, false);
                self.asks = side;
            },
        }
    }

    /// Rests `order` at the price of `integral` wholes and `fractional` parts, a
    /// million to the whole, as [`Orderbook::add_limit_order`] does.
    pub fn add_orderd(&mut self, integral: u64, fractional: u64, order: Order)
        ensures
            old(self)@.placed(final(self)@, fixed_point(integral, fractional), order@),
    {
        self.add_limit_order(Price::from_parts(integral, fractional), order)
    }

    /// Matches `market_order` against the ask levels in priority order, cheapest
    /// first, whichever side the incoming order names.
    ///
    /// Each level is filled with what the levels ahead of it left of the incoming
    /// size; the order keeps what the whole side could not serve. The bid levels
    /// are not touched, and no level is removed.
    pub fn fill_market_order(&mut self, market_order: &mut Order)
        ensures
            final(self)@.wf(),
            final(self)@.bids == old(self)@.bids,
            final(self)@.asks == after_market_fill(old(self)@.asks, old(market_order)@.size),
            final(market_order)@.side == old(market_order)@.side,
            final(market_order)@.size == unmatched(old(self)@.asks, old(market_order)@.size),
            old(market_order)@.size - final(market_order)@.size == book_volume(old(self)@.asks)
                - book_volume(final(self)@.asks),
    {
        proof {
            use_type_invariant(&*self);
        }
        let ghost before = self@.asks;
        let ghost incoming = market_order@.size;
        let mut levels: Vec<Limit> = Vec::new();
        std::mem::swap(&mut self.asks, &mut levels);
        let n = levels.len();
        let mut k: usize = 0;
        proof {
            assert(before.take(0) =~= Seq::<LimitView>::empty());
        }
        while k < n && !market_order.is_filled()
            invariant
                k <= n,
                n == levels.len(),
                n == before.len(),
                in_priority_order(before, false),
                market_order@.side == old(market_order)@.side,
                market_order@.size == reaching(before, incoming, k as int),
                forall|j: int|
                    0 <= j < k ==> (#[trigger] levels@[j])@ == after_market_fill(before, incoming)[j],
                forall|j: int| k <= j < n ==> (#[trigger] levels@[j])@ == before[j],
            decreases n - k,
        {
            proof {
                lemma_book_volume_take(before, k as int, k as int);
            }
            levels[k].fill_order(market_order);
            k += 1;
        }
        proof {
            let after = level_views(levels@);
            assert forall|j: int| k <= j < n implies (#[trigger] levels@[j])@ == after_market_fill(
                before,
                incoming,
            )[j] by {
                lemma_book_volume_take(before, k as int, j);
                lemma_fill_nothing(before[j].orders);
            }
            lemma_book_volume_take(before, k as int, n as int);
            assert(after =~= after_market_fill(before, incoming));
            lemma_market_fill_conserves(before, incoming);
        }
        self.asks = levels;
    }

    /// The ask levels, cheapest first.
    pub fn ask_limits(&self) -> (limits: Vec<&Limit>)
        ensures
            limits@.len() == self@.asks.len(),
            forall|i: int| 0 <= i < limits@.len() ==> (#[trigger] limits@[i])@ == self@.asks[i],
            in_priority_order(self@.asks, false),
            non_decreasing(self@.asks),
    {
        proof {
            use_type_invariant(self);
            lemma_priority_order_is_monotone(self@.asks, false);
        }
        let n = self.asks.len();
        let mut limits: Vec<&Limit> = Vec::new();
        let mut i: usize = 0;
        while i < n
            invariant
                i <= n,
                n == self.asks.len(),
                limits@.len() == i,
                forall|j: int| 0 <= j < i ==> (#[trigger] limits@[j])@ == self@.asks[j],
            decreases n - i,
        {
            limits.push(&self.asks[i]);
            i += 1;
        }
        limits
    }

    /// The bid levels, most expensive first.
    pub fn bid_limits(&self) -> (limits: Vec<&Limit>)
        ensures
            limits@.len() == self@.bids.len(),
            forall|i: int| 0 <= i < limits@.len() ==> (#[trigger] limits@[i])@ == self@.bids[i],
            in_priority_order(self@.bids, true),
            non_increasing(self@.bids),
    {
        proof {
            use_type_invariant(self);
            lemma_priority_order_is_monotone(self@.bids, true);
        }
        let n = self.bids.len();
        let mut limits: Vec<&Limit> = Vec::new();
        let mut i: usize = 0;
        while i < n
            invariant
                i <= n,
                n == self.bids.len(),
                limits@.len() == i,
                forall|j: int| 0 <= j < i ==> (#[trigger] limits@[j])@ == self@.bids[j],
            decreases n - i,
        {
            limits.push(&self.bids[i]);
            i += 1;
        }
        limits
    }
}

} // verus!
