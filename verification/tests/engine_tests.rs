use matching_engine::engine::MatchingEngine;
use matching_engine::engine::TradingPair;
use matching_engine::orderbook::BidOrAsk;
use matching_engine::orderbook::Order;

#[test]
fn trading_pair_canonical_string() {
    let pair = TradingPair::new(String::from("BTC"), String::from("USDT"));
    assert_eq!(pair.to_string(), "BTC-USDT");
}

#[test]
fn unknown_market_is_reported_and_nothing_is_created() {
    let mut engine = MatchingEngine::new();
    let pair = TradingPair::new(String::from("ETH"), String::from("USDT"));
    let expected = "The orderbook for the given trading pair (ETH-USDT) doesn't exist!";

    let r = engine.place_limit_order(&pair, 100, Order::new(BidOrAsk::Bid, 1));
    assert_eq!(r.unwrap_err(), expected);

    let mut taker = Order::new(BidOrAsk::Bid, 1);
    let r = engine.place_market_order(&pair, &mut taker);
    assert_eq!(r.unwrap_err(), expected);
    assert_eq!(taker.size, 1);

    let r = engine.cancel_limited_order(&pair, taker.id);
    assert_eq!(r.unwrap_err(), expected);

    // no orderbook was created as a side effect of any failed command
    let r = engine.display_orderbook(&pair);
    assert_eq!(r.unwrap_err(), expected);
}

#[test]
fn routed_orders_reach_the_right_book() {
    let mut engine = MatchingEngine::new();
    let btc = TradingPair::new(String::from("BTC"), String::from("USDT"));
    let eth = TradingPair::new(String::from("ETH"), String::from("USDT"));
    engine.add_new_market(&btc);
    engine.add_new_market(&eth);

    engine.place_limit_order(&btc, 100, Order::new(BidOrAsk::Ask, 5)).unwrap();
    engine.place_limit_order(&eth, 200, Order::new(BidOrAsk::Ask, 7)).unwrap();

    let mut taker = Order::new(BidOrAsk::Bid, 5);
    engine.place_market_order(&btc, &mut taker).unwrap();
    assert!(taker.is_filled());

    let (btc_asks, btc_bids) = engine.display_orderbook(&btc).unwrap();
    assert!(btc_asks.is_empty());
    assert!(btc_bids.is_empty());

    let (eth_asks, _) = engine.display_orderbook(&eth).unwrap();
    assert_eq!(eth_asks.len(), 1);
    assert_eq!(eth_asks[0].price, 200);
    assert_eq!(eth_asks[0].total_volume(), 7);
}

#[test]
fn cancel_through_engine_reports_presence() {
    let mut engine = MatchingEngine::new();
    let btc = TradingPair::new(String::from("BTC"), String::from("USDT"));
    engine.add_new_market(&btc);

    let order = Order::new(BidOrAsk::Bid, 3);
    let id = order.id;
    engine.place_limit_order(&btc, 42, order).unwrap();

    assert_eq!(engine.cancel_limited_order(&btc, id).unwrap(), true);
    assert_eq!(engine.cancel_limited_order(&btc, id).unwrap(), false);
}

#[test]
fn reopening_a_market_resets_its_book() {
    let mut engine = MatchingEngine::new();
    let btc = TradingPair::new(String::from("BTC"), String::from("USDT"));
    engine.add_new_market(&btc);
    engine.place_limit_order(&btc, 10, Order::new(BidOrAsk::Bid, 1)).unwrap();

    engine.add_new_market(&btc);
    let (asks, bids) = engine.display_orderbook(&btc).unwrap();
    assert!(asks.is_empty());
    assert!(bids.is_empty());
}
