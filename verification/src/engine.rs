//! The registry of markets: one order book per trading pair.

use crate::order::Order;
use crate::orderbook::{Orderbook, OrderbookView};
use crate::price::Price;
use vstd::prelude::*;
use vstd::string::*;

verus! {

/// The mathematical content of a [`TradingPair`]: its two symbols.
pub struct TradingPairView {
    pub base: Seq<char>,
    pub quote: Seq<char>,
}

impl TradingPairView {
    /// The display name of the pair: base, a slash, quote.
    pub open spec fn display(self) -> Seq<char> {
        self.base + seq!['/'] + self.quote
    }
}

/// The identifier of a market: in BTC/USD, BTC is the base and USD the quote.
#[derive(Debug, Eq, PartialEq, Hash, Clone)]
pub struct TradingPair {
    base: String,
    quote: String,
}

impl View for TradingPair {
    type V = TradingPairView;

    closed spec fn view(&self) -> TradingPairView {
        TradingPairView { base: self.base@, quote: self.quote@ }
    }
}

impl TradingPair {
    /// The pair of `base` and `quote`.
    pub fn new(base: String, quote: String) -> (pair: TradingPair)
        ensures
            pair@.base == base@,
            pair@.quote == quote@,
    {
        TradingPair { base, quote }
    }

    /// The display name of the pair, such as `BTC/USD`.
    pub fn to_string(self) -> (name: String)
        ensures
            name@ == self@.display(),
    {
        let mut name = self.base;
        name.append("/");
        name.append(self.quote.as_str());
        proof {
            reveal_strlit("/");
            assert("/"@ =~= seq!['/']);
        }
        name
    }

    /// Whether both pairs name the same market.
    pub fn same_market(&self, other: &TradingPair) -> (same: bool)
        ensures
            same == (self@ == other@),
    {
        self.base == other.base && self.quote == other.quote
    }
}

/// The one failure of the engine: no order book is registered for a pair.
#[derive(Debug, Eq, PartialEq, Clone)]
pub struct MarketNotFound {
    /// The display name of the pair that was asked for.
    pub market: String,
}

/// One registered market.
#[derive(Debug)]
struct Market {
    pair: TradingPair,
    book: Orderbook,
}

/// Some registered market has this pair.
spec fn listed(markets: Seq<Market>, pair: TradingPairView) -> bool {
    exists|i: int| 0 <= i < markets.len() && (#[trigger] markets[i]).pair@ == pair
}

/// The position of the market with this pair, where one is registered.
spec fn index_of(markets: Seq<Market>, pair: TradingPairView) -> int {
    choose|i: int| 0 <= i < markets.len() && (#[trigger] markets[i]).pair@ == pair
}

/// No pair is registered twice.
spec fn distinct(markets: Seq<Market>) -> bool {
    forall|i: int, j: int|
        0 <= i < j < markets.len() ==> (#[trigger] markets[i]).pair@ != (#[trigger] markets[j]).pair@
}

/// The registered markets as a map from pair to book.
spec fn registry(markets: Seq<Market>) -> Map<TradingPairView, OrderbookView> {
    Map::new(
        |pair: TradingPairView| listed(markets, pair),
        |pair: TradingPairView| markets[index_of(markets, pair)].book@,
    )
}

/// Among distinct markets a pair finds its own market, and no other.
proof fn lemma_listed_at(markets: Seq<Market>, i: int)
    requires
        distinct(markets),
        0 <= i < markets.len(),
    ensures
        listed(markets, markets[i].pair@),
        index_of(markets, markets[i].pair@) == i,
{
    let found = index_of(markets, markets[i].pair@);
    assert(0 <= found < markets.len() && markets[found].pair@ == markets[i].pair@);
}

/// The position of the market registered for `pair`, if there is one.
fn find_market(markets: &Vec<Market>, pair: &TradingPair) -> (found: Option<usize>)
    requires
        distinct(markets@),
    ensures
        found is Some <==> listed(markets@, pair@),
        found matches Some(i) ==> i < markets.len() && i == index_of(markets@, pair@),
{
    let n = markets.len();
    let mut i: usize = 0;
    while i < n
        invariant
            i <= n,
            n == markets.len(),
            distinct(markets@),
            forall|j: int| 0 <= j < i ==> (#[trigger] markets@[j]).pair@ != pair@,
        decreases n - i,
    {
        if markets[i].pair.same_market(pair) {
            proof {
                lemma_listed_at(markets@, i as int);
            }
            return Some(i);
        }
        i += 1;
    }
    None
}

/// A registry of markets that routes each order to the book of its pair.
#[derive(Debug)]
pub struct MatchingEngine {
    markets: Vec<Market>,
}

impl View for MatchingEngine {
    type V = Map<TradingPairView, OrderbookView>;

    closed spec fn view(&self) -> Map<TradingPairView, OrderbookView> {
        registry(self.markets@)
    }
}

impl MatchingEngine {
    /// No pair is registered twice.
    #[verifier::type_invariant]
    spec fn inv(&self) -> bool {
        distinct(self.markets@)
    }

    /// An engine without any market.
    pub fn new() -> (engine: MatchingEngine)
        ensures
            engine@ == Map::<TradingPairView, OrderbookView>::empty(),
    {
        let engine = MatchingEngine { markets: Vec::new() };
        assert(engine@ =~= Map::<TradingPairView, OrderbookView>::empty());
        engine
    }

    /// Opens an empty book for `pair`. A book already registered for the pair is
    /// replaced by the empty one, without notice.
    pub fn add_new_market(&mut self, pair: TradingPair)
        ensures
            final(self)@ == old(self)@.insert(pair@, OrderbookView::empty()),
    {
        proof {
            use_type_invariant(&*self);
        }
        let mut markets: Vec<Market> = Vec::new();
        std::mem::swap(&mut self.markets, &mut markets);
        let ghost before = markets@;
        match find_market(&markets, &pair) {
            Some(i) => {
                markets[i].book = Orderbook::new();
                proof {
                    let after = markets@;
                    assert forall|p: TradingPairView| listed(after, p) == listed(before, p) by {
                        if listed(before, p) {
                            assert(after[index_of(before, p)].pair@ == p);
                        }
                        if listed(after, p) {
                            assert(before[index_of(after, p)].pair@ == p);
                        }
                    }
                    assert forall|p: TradingPairView| listed(after, p) implies registry(after)[p]
                        == (if p == pair@ {
                        OrderbookView::empty()
                    } else {
                        registry(before)[p]
                    }) by {
                        let found = index_of(after, p);
                        lemma_listed_at(after, found);
                        lemma_listed_at(before, found);
                    }
                    assert(registry(after) =~= registry(before).insert(
                        pair@,
                        OrderbookView::empty(),
                    ));
                }
            },
            None => {
                markets.push(Market { pair, book: Orderbook::new() });
                proof {
                    let after = markets@;
                    let last = before.len() as int;
                    assert forall|p: TradingPairView| listed(after, p) == (listed(before, p) || p
                        == pair@) by {
                        if listed(before, p) {
                            assert(after[index_of(before, p)].pair@ == p);
                        }
                        if p == pair@ {
                            assert(after[last].pair@ == p);
                        }
                        if listed(after, p) && p != pair@ {
                            assert(before[index_of(after, p)].pair@ == p);
                        }
                    }
                    assert forall|p: TradingPairView| listed(after, p) implies registry(after)[p]
                        == (if p == pair@ {
                        OrderbookView::empty()
                    } else {
                        registry(before)[p]
                    }) by {
                        let found = index_of(after, p);
                        lemma_listed_at(after, found);
                        if found < last {
                            lemma_listed_at(before, found);
                        }
                    }
                    assert(registry(after) =~= registry(before).insert(
                        pair@,
                        OrderbookView::empty(),
                    ));
                }
            },
        }
        self.markets = markets;
    }

    /// The book registered for `pair`, if there is one.
    pub fn orderbook(&self, pair: &TradingPair) -> (book: Option<&Orderbook>)
        ensures
            book is Some <==> self@.contains_key(pair@),
            book matches Some(b) ==> b@ == self@[pair@],
    {
        proof {
            use_type_invariant(self);
        }
        match find_market(&self.markets, pair) {
            Some(i) => Some(&self.markets[i].book),
            None => None,
        }
    }

    /// Rests `order` at `price` in the book of `pair`.
    ///
    /// Fails, and changes nothing, exactly when no book is registered for the
    /// pair; the error carries the pair's display name.
    pub fn place_limit_order(&mut self, pair: TradingPair, price: Price, order: Order) -> (placed:
        Result<(), MarketNotFound>)
        ensures
            placed is Ok <==> old(self)@.contains_key(pair@),
            placed is Ok ==> {
                &&& final(self)@ == old(self)@.insert(pair@, final(self)@[pair@])
                &&& old(self)@[pair@].placed(final(self)@[pair@], price@, order@)
            },
            placed matches Err(e) ==> {
                &&& final(self)@ == old(self)@
                &&& e.market@ == pair@.display()
            },
    {
        proof {
            use_type_invariant(&*self);
        }
        match find_market(&self.markets, &pair) {
            Some(i) => {
                let mut markets: Vec<Market> = Vec::new();
                std::mem::swap(&mut self.markets, &mut markets);
                let ghost before = markets@;
                markets[i].book.add_limit_order(price, order);
                proof {
                    let after = markets@;
                    assert forall|p: TradingPairView| listed(after, p) == listed(before, p) by {
                        if listed(before, p) {
                            assert(after[index_of(before, p)].pair@ == p);
                        }
                        if listed(after, p) {
                            assert(before[index_of(after, p)].pair@ == p);
                        }
                    }
                    lemma_listed_at(after, i as int);
                    assert forall|p: TradingPairView| listed(after, p) && p != pair@ implies registry(
                        after,
                    )[p] == registry(before)[p] by {
                        let found = index_of(after, p);
                        lemma_listed_at(after, found);
                        lemma_listed_at(before, found);
                    }
                    assert(registry(after) =~= registry(before).insert(
                        pair@,
                        registry(after)[pair@],
                    ));
                }
                self.markets = markets;
                Ok(())
            },
            None => Err(MarketNotFound { market: pair.to_string() }),
        }
    }
}

} // verus!
