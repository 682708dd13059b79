use matching_engine::{BidOrAsk, Limit, MarketNotFound, MatchingEngine, Order, Orderbook, Price};
use matching_engine::TradingPair;

fn price(mantissa: i128, scale: u32) -> Price {
    Price::new(mantissa, scale).unwrap()
}

fn level(limit: &Limit) -> (i128, u32, Vec<u64>) {
    let sizes = limit.orders().iter().map(|order| order.size()).collect();
    (limit.price().mantissa(), limit.price().scale(), sizes)
}

fn asks(book: &Orderbook) -> Vec<(i128, u32, Vec<u64>)> {
    book.ask_limits().into_iter().map(level).collect()
}

fn bids(book: &Orderbook) -> Vec<(i128, u32, Vec<u64>)> {
    book.bid_limits().into_iter().map(level).collect()
}

fn pair(base: &str, quote: &str) -> TradingPair {
    TradingPair::new(base.to_string(), quote.to_string())
}

#[test]
fn new_book_has_no_levels() {
    let book = Orderbook::new();
    assert_eq!(book.ask_limits().len(), 0);
    assert_eq!(book.bid_limits().len(), 0);
}

#[test]
fn ask_limits_ascend_by_price() {
    let mut book = Orderbook::new();
    for (mantissa, scale) in [(500, 0), (100, 0), (2005, 1), (400, 0), (-3, 0), (1, 2)] {
        book.add_limit_order(price(mantissa, scale), Order::new(BidOrAsk::Ask, 10));
    }
    let levels = book.ask_limits();
    let prices: Vec<(i128, u32)> = levels
        .iter()
        .map(|limit| (limit.price().mantissa(), limit.price().scale()))
        .collect();
    assert_eq!(
        prices,
        vec![(-3, 0), (1, 2), (100, 0), (2005, 1), (400, 0), (500, 0)]
    );
    for window in levels.windows(2) {
        assert!(window[0].price() < window[1].price());
    }
    assert_eq!(book.bid_limits().len(), 0);
}

#[test]
fn bid_limits_descend_by_price() {
    let mut book = Orderbook::new();
    for (mantissa, scale) in [(500, 0), (100, 0), (2005, 1), (400, 0), (-3, 0), (1, 2)] {
        book.add_limit_order(price(mantissa, scale), Order::new(BidOrAsk::Bid, 10));
    }
    let levels = book.bid_limits();
    let prices: Vec<(i128, u32)> = levels
        .iter()
        .map(|limit| (limit.price().mantissa(), limit.price().scale()))
        .collect();
    assert_eq!(
        prices,
        vec![(500, 0), (400, 0), (2005, 1), (100, 0), (1, 2), (-3, 0)]
    );
    for window in levels.windows(2) {
        assert!(window[0].price() > window[1].price());
    }
    assert_eq!(book.ask_limits().len(), 0);
}

#[test]
fn orders_at_one_price_share_a_level() {
    let mut book = Orderbook::new();
    book.add_limit_order(price(100, 0), Order::new(BidOrAsk::Ask, 1));
    book.add_limit_order(price(200, 0), Order::new(BidOrAsk::Ask, 2));
    book.add_limit_order(price(1000, 1), Order::new(BidOrAsk::Ask, 3));
    book.add_limit_order(price(100_000_000, 6), Order::new(BidOrAsk::Ask, 4));
    assert_eq!(
        asks(&book),
        vec![(100, 0, vec![1, 3, 4]), (200, 0, vec![2])]
    );
}

#[test]
fn the_two_sides_are_kept_apart() {
    let mut book = Orderbook::new();
    book.add_limit_order(price(100, 0), Order::new(BidOrAsk::Ask, 1));
    book.add_limit_order(price(100, 0), Order::new(BidOrAsk::Bid, 2));
    book.add_limit_order(price(90, 0), Order::new(BidOrAsk::Bid, 3));
    assert_eq!(asks(&book), vec![(100, 0, vec![1])]);
    assert_eq!(bids(&book), vec![(100, 0, vec![2]), (90, 0, vec![3])]);
}

#[test]
fn add_orderd_places_at_wholes_and_millionths() {
    let mut book = Orderbook::new();
    book.add_orderd(4, 300_000, Order::new(BidOrAsk::Bid, 5));
    book.add_orderd(4, 300_000, Order::new(BidOrAsk::Bid, 2));
    book.add_orderd(20, 0, Order::new(BidOrAsk::Ask, 6));
    book.add_limit_order(price(43, 1), Order::new(BidOrAsk::Bid, 1));
    assert_eq!(bids(&book), vec![(43, 1, vec![5, 2, 1])]);
    assert_eq!(asks(&book), vec![(20, 0, vec![6])]);
}

#[test]
fn market_order_walks_the_asks_cheapest_first() {
    let mut book = Orderbook::new();
    book.add_limit_order(price(400, 0), Order::new(BidOrAsk::Ask, 10));
    book.add_limit_order(price(100, 0), Order::new(BidOrAsk::Ask, 10));
    book.add_limit_order(price(200, 0), Order::new(BidOrAsk::Ask, 4));
    book.add_limit_order(price(200, 0), Order::new(BidOrAsk::Ask, 6));
    book.add_limit_order(price(50, 0), Order::new(BidOrAsk::Bid, 8));

    let mut market = Order::new(BidOrAsk::Bid, 25);
    book.fill_market_order(&mut market);

    assert_eq!(market.size(), 0);
    assert_eq!(market.side(), BidOrAsk::Bid);
    assert_eq!(
        asks(&book),
        vec![
            (100, 0, vec![0]),
            (200, 0, vec![0, 0]),
            (400, 0, vec![5]),
        ]
    );
    assert_eq!(bids(&book), vec![(50, 0, vec![8])]);
}

#[test]
fn market_order_keeps_what_the_side_cannot_serve() {
    let mut book = Orderbook::new();
    book.add_limit_order(price(100, 0), Order::new(BidOrAsk::Ask, 10));
    book.add_limit_order(price(200, 0), Order::new(BidOrAsk::Ask, 10));

    let mut market = Order::new(BidOrAsk::Bid, 27);
    book.fill_market_order(&mut market);

    assert_eq!(market.size(), 7);
    assert_eq!(asks(&book), vec![(100, 0, vec![0]), (200, 0, vec![0])]);
}

#[test]
fn market_order_on_an_empty_book_is_left_whole() {
    let mut book = Orderbook::new();
    let mut market = Order::new(BidOrAsk::Bid, 27);
    book.fill_market_order(&mut market);
    assert_eq!(market.size(), 27);
    assert_eq!(book.ask_limits().len(), 0);
}

#[test]
fn market_ask_is_matched_against_the_asks_too() {
    let mut book = Orderbook::new();
    book.add_limit_order(price(100, 0), Order::new(BidOrAsk::Ask, 10));
    book.add_limit_order(price(90, 0), Order::new(BidOrAsk::Bid, 10));

    let mut market = Order::new(BidOrAsk::Ask, 4);
    book.fill_market_order(&mut market);

    assert_eq!(market.size(), 0);
    assert_eq!(market.side(), BidOrAsk::Ask);
    assert_eq!(asks(&book), vec![(100, 0, vec![6])]);
    assert_eq!(bids(&book), vec![(90, 0, vec![10])]);
}

#[test]
fn market_fill_takes_the_same_from_both_sides() {
    let mut book = Orderbook::new();
    book.add_limit_order(price(100, 0), Order::new(BidOrAsk::Ask, 10));
    book.add_limit_order(price(200, 0), Order::new(BidOrAsk::Ask, 10));
    book.add_limit_order(price(300, 0), Order::new(BidOrAsk::Ask, 10));
    let resting_before: u128 = book.ask_limits().iter().map(|l| l.total_volume()).sum();

    let mut market = Order::new(BidOrAsk::Bid, 13);
    book.fill_market_order(&mut market);

    let resting_after: u128 = book.ask_limits().iter().map(|l| l.total_volume()).sum();
    assert_eq!(resting_before, 30);
    assert_eq!(resting_after, 17);
    assert_eq!(resting_before - resting_after, u128::from(13 - market.size()));
}

#[test]
fn trading_pair_displays_base_slash_quote() {
    assert_eq!(pair("BTC", "USD").to_string(), "BTC/USD");
    assert_eq!(pair("", "").to_string(), "/");
    assert_eq!(pair("a/b", "c").to_string(), "a/b/c");
}

#[test]
fn trading_pair_is_equal_by_both_symbols() {
    assert!(pair("BTC", "USD").same_market(&pair("BTC", "USD")));
    assert!(!pair("BTC", "USD").same_market(&pair("BTC", "EUR")));
    assert!(!pair("BTC", "USD").same_market(&pair("ETH", "USD")));
    assert!(!pair("BTC", "USD").same_market(&pair("USD", "BTC")));
    assert_eq!(pair("BTC", "USD"), pair("BTC", "USD"));
    assert_ne!(pair("BTC", "USD"), pair("BT", "CUSD"));
    assert_eq!(pair("BTC", "USD").clone(), pair("BTC", "USD"));
}

#[test]
fn new_engine_has_no_market() {
    let engine = MatchingEngine::new();
    assert!(engine.orderbook(&pair("BTC", "USD")).is_none());
}

#[test]
fn place_limit_order_reaches_the_book_of_its_pair() {
    let mut engine = MatchingEngine::new();
    engine.add_new_market(pair("BTC", "USD"));
    engine.add_new_market(pair("ETH", "USD"));

    let placed = engine.place_limit_order(
        pair("BTC", "USD"),
        price(10000, 0),
        Order::new(BidOrAsk::Bid, 6),
    );
    assert_eq!(placed, Ok(()));
    let placed = engine.place_limit_order(
        pair("BTC", "USD"),
        price(10001, 0),
        Order::new(BidOrAsk::Ask, 7),
    );
    assert_eq!(placed, Ok(()));

    let btc = engine.orderbook(&pair("BTC", "USD")).unwrap();
    assert_eq!(bids(btc), vec![(10000, 0, vec![6])]);
    assert_eq!(asks(btc), vec![(10001, 0, vec![7])]);
    let eth = engine.orderbook(&pair("ETH", "USD")).unwrap();
    assert_eq!(bids(eth).len(), 0);
    assert_eq!(asks(eth).len(), 0);
}

#[test]
fn place_limit_order_without_a_market_fails_and_changes_nothing() {
    let mut engine = MatchingEngine::new();
    engine.add_new_market(pair("BTC", "USD"));
    engine
        .place_limit_order(pair("BTC", "USD"), price(10000, 0), Order::new(BidOrAsk::Bid, 6))
        .unwrap();

    let placed = engine.place_limit_order(
        pair("ETH", "USD"),
        price(10000, 0),
        Order::new(BidOrAsk::Bid, 6),
    );

    assert_eq!(
        placed,
        Err(MarketNotFound {
            market: "ETH/USD".to_string()
        })
    );
    assert!(engine.orderbook(&pair("ETH", "USD")).is_none());
    let btc = engine.orderbook(&pair("BTC", "USD")).unwrap();
    assert_eq!(bids(btc), vec![(10000, 0, vec![6])]);
    assert_eq!(asks(btc).len(), 0);
}

#[test]
fn place_limit_order_on_an_engine_without_markets_fails() {
    let mut engine = MatchingEngine::new();
    let placed = engine.place_limit_order(
        pair("BTC", "USD"),
        price(1, 0),
        Order::new(BidOrAsk::Ask, 1),
    );
    assert_eq!(placed.unwrap_err().market, "BTC/USD");
}

#[test]
fn add_new_market_again_opens_an_empty_book() {
    let mut engine = MatchingEngine::new();
    engine.add_new_market(pair("BTC", "USD"));
    engine.add_new_market(pair("ETH", "USD"));
    engine
        .place_limit_order(pair("BTC", "USD"), price(10000, 0), Order::new(BidOrAsk::Bid, 6))
        .unwrap();
    engine
        .place_limit_order(pair("ETH", "USD"), price(300, 0), Order::new(BidOrAsk::Ask, 2))
        .unwrap();

    engine.add_new_market(pair("BTC", "USD"));

    let btc = engine.orderbook(&pair("BTC", "USD")).unwrap();
    assert_eq!(bids(btc).len(), 0);
    assert_eq!(asks(btc).len(), 0);
    let eth = engine.orderbook(&pair("ETH", "USD")).unwrap();
    assert_eq!(asks(eth), vec![(300, 0, vec![2])]);
}
