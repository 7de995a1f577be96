use matching_engine::book_side::BookSide;
use matching_engine::order::{BidorAsk, Order};
use matching_engine::orderbook::Orderbook;
use matching_engine::price::Price;

fn at(units: i64) -> Price {
    Price::new(units, 0).unwrap()
}

fn resting(trader: &str, units: i64, side: BidorAsk, size: u64) -> Order {
    Order::new(trader.to_string(), at(units), side, size).unwrap()
}

fn sizes_at(book: &Orderbook, units: i64, side: BidorAsk) -> Vec<u64> {
    match book.get_price_level(at(units), side) {
        None => Vec::new(),
        Some(level) => level.snapshot().into_iter().map(|entry| entry.1).collect(),
    }
}

#[test]
fn book_new_is_empty() {
    let book = Orderbook::new();
    assert!(book.best_price(BidorAsk::Bid).is_none());
    assert!(book.best_price(BidorAsk::Ask).is_none());
    assert!(book.prices(BidorAsk::Bid).is_empty());
    assert!(book.prices(BidorAsk::Ask).is_empty());
    assert!(book.get_price_level(at(100), BidorAsk::Ask).is_none());
}

#[test]
fn book_asks_are_kept_cheapest_first() {
    let mut book = Orderbook::new();
    book.add_order(resting("a", 101, BidorAsk::Ask, 10));
    book.add_order(resting("b", 99, BidorAsk::Ask, 20));
    book.add_order(resting("c", 100, BidorAsk::Ask, 30));
    assert_eq!(book.prices(BidorAsk::Ask), vec![at(99), at(100), at(101)]);
    assert_eq!(book.best_price(BidorAsk::Ask), Some(at(99)));
    assert!(book.prices(BidorAsk::Bid).is_empty());
}

#[test]
fn book_bids_are_kept_highest_first() {
    let mut book = Orderbook::new();
    book.add_order(resting("a", 99, BidorAsk::Bid, 10));
    book.add_order(resting("b", 101, BidorAsk::Bid, 20));
    book.add_order(resting("c", 100, BidorAsk::Bid, 30));
    assert_eq!(book.prices(BidorAsk::Bid), vec![at(101), at(100), at(99)]);
    assert_eq!(book.best_price(BidorAsk::Bid), Some(at(101)));
    assert!(book.prices(BidorAsk::Ask).is_empty());
}

#[test]
fn book_same_price_shares_one_level() {
    let mut book = Orderbook::new();
    book.add_order(resting("a", 100, BidorAsk::Ask, 10));
    book.add_order(resting("b", 100, BidorAsk::Ask, 20));
    book.add_order(resting("c", 100, BidorAsk::Bid, 30));
    assert_eq!(book.prices(BidorAsk::Ask), vec![at(100)]);
    assert_eq!(book.prices(BidorAsk::Bid), vec![at(100)]);
    assert_eq!(sizes_at(&book, 100, BidorAsk::Ask), vec![10, 20]);
    assert_eq!(sizes_at(&book, 100, BidorAsk::Bid), vec![30]);
}

#[test]
fn book_buy_market_order_visits_asks_upwards() {
    let mut book = Orderbook::new();
    book.add_order(resting("a", 101, BidorAsk::Ask, 10));
    book.add_order(resting("b", 99, BidorAsk::Ask, 20));
    book.add_order(resting("c", 100, BidorAsk::Ask, 30));

    let mut first = resting("m", 0, BidorAsk::Bid, 15);
    book.fill_market_order(&mut first);
    assert!(first.is_filled());
    assert_eq!(sizes_at(&book, 99, BidorAsk::Ask), vec![5]);
    assert_eq!(sizes_at(&book, 100, BidorAsk::Ask), vec![30]);
    assert_eq!(sizes_at(&book, 101, BidorAsk::Ask), vec![10]);

    let mut second = resting("m", 0, BidorAsk::Bid, 25);
    book.fill_market_order(&mut second);
    assert!(second.is_filled());
    assert_eq!(book.prices(BidorAsk::Ask), vec![at(100), at(101)]);
    assert_eq!(sizes_at(&book, 100, BidorAsk::Ask), vec![10]);
    assert_eq!(sizes_at(&book, 101, BidorAsk::Ask), vec![10]);

    let mut third = resting("m", 0, BidorAsk::Bid, 12);
    book.fill_market_order(&mut third);
    assert!(third.is_filled());
    assert_eq!(book.prices(BidorAsk::Ask), vec![at(101)]);
    assert_eq!(sizes_at(&book, 101, BidorAsk::Ask), vec![8]);
}

#[test]
fn book_sell_market_order_visits_bids_downwards() {
    let mut book = Orderbook::new();
    book.add_order(resting("a", 99, BidorAsk::Bid, 10));
    book.add_order(resting("b", 101, BidorAsk::Bid, 20));
    book.add_order(resting("c", 100, BidorAsk::Bid, 30));

    let mut first = resting("m", 0, BidorAsk::Ask, 15);
    book.fill_market_order(&mut first);
    assert!(first.is_filled());
    assert_eq!(sizes_at(&book, 101, BidorAsk::Bid), vec![5]);
    assert_eq!(sizes_at(&book, 100, BidorAsk::Bid), vec![30]);
    assert_eq!(sizes_at(&book, 99, BidorAsk::Bid), vec![10]);

    let mut second = resting("m", 0, BidorAsk::Ask, 25);
    book.fill_market_order(&mut second);
    assert!(second.is_filled());
    assert_eq!(book.prices(BidorAsk::Bid), vec![at(100), at(99)]);
    assert_eq!(sizes_at(&book, 100, BidorAsk::Bid), vec![10]);

    let mut third = resting("m", 0, BidorAsk::Ask, 12);
    book.fill_market_order(&mut third);
    assert!(third.is_filled());
    assert_eq!(book.prices(BidorAsk::Bid), vec![at(99)]);
    assert_eq!(sizes_at(&book, 99, BidorAsk::Bid), vec![8]);
}

#[test]
fn book_market_order_larger_than_the_side_is_not_rested() {
    let mut book = Orderbook::new();
    book.add_order(resting("a", 100, BidorAsk::Ask, 10));
    book.add_order(resting("b", 101, BidorAsk::Ask, 20));
    let mut incoming = resting("m", 0, BidorAsk::Bid, 50);
    book.fill_market_order(&mut incoming);
    assert_eq!(incoming.get_size(), 20);
    assert!(book.prices(BidorAsk::Ask).is_empty());
    assert!(book.prices(BidorAsk::Bid).is_empty());
    assert!(book.best_price(BidorAsk::Ask).is_none());
}

#[test]
fn book_market_order_on_an_empty_side_changes_nothing() {
    let mut book = Orderbook::new();
    book.add_order(resting("a", 100, BidorAsk::Bid, 10));
    let mut incoming = resting("m", 0, BidorAsk::Bid, 50);
    book.fill_market_order(&mut incoming);
    assert_eq!(incoming.get_size(), 50);
    assert_eq!(sizes_at(&book, 100, BidorAsk::Bid), vec![10]);
}

#[test]
fn book_partial_fill_leaves_the_rest_in_the_book() {
    let mut book = Orderbook::new();
    book.add_order(resting("a", 100, BidorAsk::Bid, 100));
    let mut incoming = resting("b", 100, BidorAsk::Ask, 80);
    book.fill_limit_order(&mut incoming);
    assert!(incoming.is_filled());
    assert_eq!(incoming.get_size(), 0);
    assert_eq!(sizes_at(&book, 100, BidorAsk::Bid), vec![20]);
    assert!(book.prices(BidorAsk::Ask).is_empty());
}

#[test]
fn book_fill_runs_through_orders_of_one_price_in_turn() {
    let mut book = Orderbook::new();
    book.add_order(resting("a", 100, BidorAsk::Bid, 100));
    book.add_order(resting("b", 100, BidorAsk::Bid, 100));
    let mut incoming = resting("c", 100, BidorAsk::Ask, 180);
    book.fill_limit_order(&mut incoming);
    assert!(incoming.is_filled());
    let level = book.get_price_level(at(100), BidorAsk::Bid).unwrap();
    assert_eq!(level.len(), 1);
    assert_eq!(level.get_order(0).unwrap().get_trader_id(), "b");
    assert_eq!(level.get_order(0).unwrap().get_size(), 20);
}

#[test]
fn book_limit_order_rests_what_is_left() {
    let mut book = Orderbook::new();
    book.add_order(resting("a", 100, BidorAsk::Ask, 30));
    let mut incoming = resting("b", 100, BidorAsk::Bid, 50);
    book.fill_limit_order(&mut incoming);
    assert_eq!(incoming.get_size(), 20);
    assert!(book.prices(BidorAsk::Ask).is_empty());
    assert!(book.get_price_level(at(100), BidorAsk::Ask).is_none());
    assert_eq!(book.prices(BidorAsk::Bid), vec![at(100)]);
    let level = book.get_price_level(at(100), BidorAsk::Bid).unwrap();
    assert_eq!(level.get_order(0).unwrap().get_trader_id(), "b");
    assert_eq!(level.get_order(0).unwrap().get_size(), 20);
}

#[test]
fn book_limit_order_matches_its_own_price_only() {
    let mut book = Orderbook::new();
    book.add_order(resting("a", 100, BidorAsk::Ask, 30));
    let mut incoming = resting("b", 101, BidorAsk::Bid, 50);
    book.fill_limit_order(&mut incoming);
    assert_eq!(incoming.get_size(), 50);
    assert_eq!(sizes_at(&book, 100, BidorAsk::Ask), vec![30]);
    assert_eq!(sizes_at(&book, 101, BidorAsk::Bid), vec![50]);
}

#[test]
fn book_limit_order_with_nothing_across_rests_whole() {
    let mut book = Orderbook::new();
    let mut incoming = resting("b", 101, BidorAsk::Ask, 50);
    book.fill_limit_order(&mut incoming);
    assert_eq!(incoming.get_size(), 50);
    assert_eq!(book.prices(BidorAsk::Ask), vec![at(101)]);
    assert_eq!(sizes_at(&book, 101, BidorAsk::Ask), vec![50]);
}

#[test]
fn book_filled_level_is_gone_from_map_and_list() {
    let mut book = Orderbook::new();
    book.add_order(resting("a", 100, BidorAsk::Ask, 30));
    book.add_order(resting("b", 102, BidorAsk::Ask, 30));
    let mut incoming = resting("c", 100, BidorAsk::Bid, 30);
    book.fill_limit_order(&mut incoming);
    assert!(incoming.is_filled());
    assert!(book.get_price_level(at(100), BidorAsk::Ask).is_none());
    assert_eq!(book.prices(BidorAsk::Ask), vec![at(102)]);
    assert_eq!(book.best_price(BidorAsk::Ask), Some(at(102)));
    assert!(book.prices(BidorAsk::Bid).is_empty());

    let mut sweep = resting("d", 0, BidorAsk::Bid, 30);
    book.fill_market_order(&mut sweep);
    assert!(sweep.is_filled());
    assert!(book.get_price_level(at(102), BidorAsk::Ask).is_none());
    assert!(book.prices(BidorAsk::Ask).is_empty());
    assert!(book.best_price(BidorAsk::Ask).is_none());
}

#[test]
fn book_remove_price_level_takes_the_whole_level() {
    let mut book = Orderbook::new();
    book.add_order(resting("a", 100, BidorAsk::Ask, 30));
    book.add_order(resting("b", 100, BidorAsk::Ask, 40));
    book.add_order(resting("c", 101, BidorAsk::Ask, 50));
    book.add_order(resting("d", 100, BidorAsk::Bid, 60));
    let removed = book.remove_price_level(at(100), BidorAsk::Ask).unwrap();
    assert_eq!(removed.get_price(), at(100));
    assert_eq!(removed.total_volume(), 70);
    assert_eq!(book.prices(BidorAsk::Ask), vec![at(101)]);
    assert!(book.get_price_level(at(100), BidorAsk::Ask).is_none());
    assert_eq!(sizes_at(&book, 100, BidorAsk::Bid), vec![60]);
    assert!(book.remove_price_level(at(100), BidorAsk::Ask).is_none());
    assert_eq!(book.prices(BidorAsk::Ask), vec![at(101)]);
}

#[test]
fn book_cancel_order_takes_the_oldest_of_the_trader() {
    let mut book = Orderbook::new();
    book.add_order(resting("a", 100, BidorAsk::Ask, 30));
    book.add_order(resting("b", 100, BidorAsk::Ask, 40));
    book.add_order(resting("b", 100, BidorAsk::Ask, 50));
    let cancelled = book.cancel_order(at(100), BidorAsk::Ask, &"b".to_string()).unwrap();
    assert_eq!(cancelled.get_size(), 40);
    assert_eq!(cancelled.get_trader_id(), "b");
    assert_eq!(sizes_at(&book, 100, BidorAsk::Ask), vec![30, 50]);
}

#[test]
fn book_cancel_of_an_unknown_order_changes_nothing() {
    let mut book = Orderbook::new();
    book.add_order(resting("a", 100, BidorAsk::Ask, 30));
    assert!(book.cancel_order(at(100), BidorAsk::Ask, &"b".to_string()).is_none());
    assert!(book.cancel_order(at(101), BidorAsk::Ask, &"a".to_string()).is_none());
    assert!(book.cancel_order(at(100), BidorAsk::Bid, &"a".to_string()).is_none());
    assert_eq!(sizes_at(&book, 100, BidorAsk::Ask), vec![30]);
}

#[test]
fn book_cancel_of_the_last_order_drops_the_level() {
    let mut book = Orderbook::new();
    book.add_order(resting("a", 100, BidorAsk::Bid, 30));
    book.add_order(resting("b", 99, BidorAsk::Bid, 30));
    let cancelled = book.cancel_order(at(100), BidorAsk::Bid, &"a".to_string());
    assert!(cancelled.is_some());
    assert!(book.get_price_level(at(100), BidorAsk::Bid).is_none());
    assert_eq!(book.prices(BidorAsk::Bid), vec![at(99)]);
}

#[test]
fn book_prices_finer_than_a_unit_are_told_apart() {
    let mut book = Orderbook::new();
    let low = Price::new(5499, 3).unwrap();
    let high = Price::new(55, 1).unwrap();
    book.add_order(Order::new("a".to_string(), high, BidorAsk::Ask, 1).unwrap());
    book.add_order(Order::new("b".to_string(), low, BidorAsk::Ask, 2).unwrap());
    book.add_order(Order::new("c".to_string(), Price::new(5500, 3).unwrap(), BidorAsk::Ask, 3).unwrap());
    assert_eq!(book.prices(BidorAsk::Ask), vec![low, high]);
    assert_eq!(book.get_price_level(high, BidorAsk::Ask).unwrap().total_volume(), 4);
}

#[test]
fn side_market_order_conserves_volume() {
    let mut side = BookSide::new(BidorAsk::Ask);
    side.add_order(resting("a", 101, BidorAsk::Ask, 10));
    side.add_order(resting("b", 99, BidorAsk::Ask, 20));
    side.add_order(resting("c", 100, BidorAsk::Ask, 30));
    side.add_order(resting("d", 100, BidorAsk::Ask, 5));
    assert_eq!(side.depth(), 3);
    let mut incoming = resting("m", 0, BidorAsk::Bid, 52);
    side.fill_market_order(&mut incoming);
    assert!(incoming.is_filled());
    assert_eq!(side.depth(), 2);
    assert_eq!(side.best_price(), Some(at(100)));
    let level = side.get_price_level(at(100)).unwrap();
    assert_eq!(level.len(), 1);
    assert_eq!(level.get_order(0).unwrap().get_trader_id(), "d");
    assert_eq!(level.total_volume(), 3);
    assert_eq!(side.get_price_level(at(101)).unwrap().total_volume(), 10);
}

#[test]
fn side_fill_at_one_price_leaves_the_others() {
    let mut side = BookSide::new(BidorAsk::Bid);
    side.add_order(resting("a", 101, BidorAsk::Bid, 10));
    side.add_order(resting("b", 100, BidorAsk::Bid, 20));
    let mut incoming = resting("m", 100, BidorAsk::Ask, 25);
    side.fill_order_at(at(100), &mut incoming);
    assert_eq!(incoming.get_size(), 5);
    assert_eq!(side.prices(), vec![at(101)]);
    assert_eq!(side.get_price_level(at(101)).unwrap().total_volume(), 10);
    let mut other = resting("m", 99, BidorAsk::Ask, 25);
    side.fill_order_at(at(99), &mut other);
    assert_eq!(other.get_size(), 25);
    assert_eq!(side.prices(), vec![at(101)]);
}
