use matching_engine::orderbook::BidOrAsk;
use matching_engine::orderbook::Limit;
use matching_engine::orderbook::Order;
use matching_engine::orderbook::Orderbook;

#[test]
fn cancel_order() {
    let mut orderbook = Orderbook::new();
    let buy_order_a = Order::new(BidOrAsk::Bid, 10);
    let buy_order_b = Order::new(BidOrAsk::Bid, 10);
    let cancelled_order = buy_order_a.clone();

    let sell_order = Order::new(BidOrAsk::Ask, 10);

    orderbook.add_limit_order(99, buy_order_a);
    orderbook.add_limit_order(99, buy_order_b);
    orderbook.add_limit_order(101, sell_order);

    let found = orderbook.cancel_limited_order(cancelled_order.id);
    assert!(found);

    let bids = orderbook.bid_limits();
    let level = bids.iter().find(|l| l.price == 99).unwrap();
    assert_eq!(level.total_volume(), 10);
}

#[test]
fn orderbook_fill_market_order_ask() {
    let mut orderbook = Orderbook::new();
    orderbook.add_limit_order(500, Order::new(BidOrAsk::Ask, 10));
    orderbook.add_limit_order(100, Order::new(BidOrAsk::Ask, 10));
    orderbook.add_limit_order(200, Order::new(BidOrAsk::Ask, 10));
    orderbook.add_limit_order(300, Order::new(BidOrAsk::Ask, 10));

    let mut market_order = Order::new(BidOrAsk::Bid, 10);
    orderbook.fill_market_order(&mut market_order);

    // The drained level at 100 leaves the book: the best remaining ask is 200.
    let ask_limits = orderbook.ask_limits();
    let matched_limit = ask_limits.get(0).unwrap();
    assert_eq!(matched_limit.price, 200);
    assert_eq!(market_order.is_filled(), true);
    assert!(ask_limits.iter().all(|l| l.price != 100));
}

#[test]
fn limit_total_volume() {
    let price = 10000;
    let mut limit = Limit::new(price);
    let buy_limit_order_a = Order::new(BidOrAsk::Bid, 100);
    let buy_limit_order_b = Order::new(BidOrAsk::Bid, 100);

    limit.add_order(buy_limit_order_a);
    limit.add_order(buy_limit_order_b);
    assert_eq!(limit.total_volume(), 200);
}

#[test]
fn limit_order_multi_fill() {
    let price = 10000;
    let mut limit = Limit::new(price);
    let buy_limit_order_a = Order::new(BidOrAsk::Bid, 100);
    let buy_limit_order_b = Order::new(BidOrAsk::Bid, 100);
    limit.add_order(buy_limit_order_a);
    limit.add_order(buy_limit_order_b);

    let mut market_order_sell = Order::new(BidOrAsk::Ask, 199);
    limit.fill_order(&mut market_order_sell);

    assert_eq!(market_order_sell.is_filled(), true);
    assert_eq!(limit.orders.get(0).unwrap().is_filled(), true);
    assert_eq!(limit.orders.get(1).unwrap().is_filled(), false);
    assert_eq!(limit.orders.get(1).unwrap().size, 1);
}

#[test]
fn limit_order_single_fill() {
    let price = 10000;
    let mut limit = Limit::new(price);

    let buy_limit_order = Order::new(BidOrAsk::Bid, 100);
    limit.add_order(buy_limit_order);

    let mut market_order_sell = Order::new(BidOrAsk::Ask, 99);
    limit.fill_order(&mut market_order_sell);

    assert_eq!(market_order_sell.is_filled(), true);
    assert_eq!(limit.orders.get(0).unwrap().size, 1);
}

#[test]
fn fifo_fairness_two_orders() {
    // Two resting bids of sizes 5 then 7; an ask of exactly 5 fills the
    // first in full and leaves the second untouched.
    let mut limit = Limit::new(50);
    let first = Order::new(BidOrAsk::Bid, 5);
    let second = Order::new(BidOrAsk::Bid, 7);
    limit.add_order(first);
    limit.add_order(second);

    let mut taker = Order::new(BidOrAsk::Ask, 5);
    limit.fill_order(&mut taker);

    assert!(taker.is_filled());
    assert_eq!(limit.orders[0].size, 0);
    assert_eq!(limit.orders[1].size, 7);
}

#[test]
fn partial_fill_conservation() {
    // Whatever the incoming order absorbs is exactly what the book loses.
    let mut orderbook = Orderbook::new();
    orderbook.add_limit_order(10, Order::new(BidOrAsk::Bid, 8));
    orderbook.add_limit_order(20, Order::new(BidOrAsk::Bid, 4));

    let before: u128 = orderbook.bid_limits().iter().map(|l| l.total_volume()).sum();
    assert_eq!(before, 12);

    let mut taker = Order::new(BidOrAsk::Ask, 5);
    orderbook.fill_market_order(&mut taker);
    assert_eq!(taker.size, 0);

    let after: u128 = orderbook.bid_limits().iter().map(|l| l.total_volume()).sum();
    assert_eq!(before - after, 5);
}

#[test]
fn market_order_exhausts_liquidity() {
    // A market order bigger than the whole side keeps its remainder and the
    // caller learns of the partial fill through is_filled.
    let mut orderbook = Orderbook::new();
    orderbook.add_limit_order(10, Order::new(BidOrAsk::Ask, 3));

    let mut taker = Order::new(BidOrAsk::Bid, 9);
    orderbook.fill_market_order(&mut taker);

    assert!(!taker.is_filled());
    assert_eq!(taker.size, 6);
    assert!(orderbook.ask_limits().is_empty());
}

#[test]
fn price_priority_bid_walks_asks_upward() {
    // A market bid consumes the cheapest asks first.
    let mut orderbook = Orderbook::new();
    orderbook.add_limit_order(30, Order::new(BidOrAsk::Ask, 1));
    orderbook.add_limit_order(10, Order::new(BidOrAsk::Ask, 1));
    orderbook.add_limit_order(20, Order::new(BidOrAsk::Ask, 1));

    let mut taker = Order::new(BidOrAsk::Bid, 2);
    orderbook.fill_market_order(&mut taker);

    let asks = orderbook.ask_limits();
    assert_eq!(asks.len(), 1);
    assert_eq!(asks[0].price, 30);
}

#[test]
fn price_priority_ask_walks_bids_downward() {
    // A market ask consumes the highest bids first.
    let mut orderbook = Orderbook::new();
    orderbook.add_limit_order(30, Order::new(BidOrAsk::Bid, 1));
    orderbook.add_limit_order(10, Order::new(BidOrAsk::Bid, 1));
    orderbook.add_limit_order(20, Order::new(BidOrAsk::Bid, 1));

    let mut taker = Order::new(BidOrAsk::Ask, 2);
    orderbook.fill_market_order(&mut taker);

    let bids = orderbook.bid_limits();
    assert_eq!(bids.len(), 1);
    assert_eq!(bids[0].price, 10);
}

#[test]
fn cancel_unknown_id_changes_nothing() {
    let mut orderbook = Orderbook::new();
    let resting = Order::new(BidOrAsk::Bid, 10);
    let resting_id = resting.id;
    orderbook.add_limit_order(99, resting);

    let mut unknown = resting_id;
    unknown = unknown.wrapping_add(1);
    let found = orderbook.cancel_limited_order(unknown);

    assert!(!found);
    let bids = orderbook.bid_limits();
    assert_eq!(bids.len(), 1);
    assert_eq!(bids[0].price, 99);
    assert_eq!(bids[0].total_volume(), 10);
}

#[test]
fn cancel_last_order_removes_level() {
    let mut orderbook = Orderbook::new();
    let resting = Order::new(BidOrAsk::Ask, 4);
    let id = resting.id;
    orderbook.add_limit_order(70, resting);

    assert!(orderbook.cancel_limited_order(id));
    assert!(orderbook.ask_limits().is_empty());
    // cancelling again reports not-found
    assert!(!orderbook.cancel_limited_order(id));
}

#[test]
fn fresh_orders_get_distinct_ids() {
    let a = Order::new(BidOrAsk::Bid, 1);
    let b = Order::new(BidOrAsk::Bid, 1);
    assert_ne!(a.id, b.id);
}

#[test]
fn order_is_filled_exactly_at_zero() {
    let o = Order::new(BidOrAsk::Ask, 0);
    assert!(o.is_filled());
    let p = Order::new(BidOrAsk::Ask, 1);
    assert!(!p.is_filled());
}
