use matching_engine::fill::Fill;
use matching_engine::limit::Limit;
use matching_engine::order::{BidorAsk, Order};
use matching_engine::price::Price;

fn order(trader: &str, side: BidorAsk, size: u64) -> Order {
    Order::new(trader.to_string(), Price::new(55, 1).unwrap(), side, size).unwrap()
}

#[test]
fn limit_total_volume() {
    let price = Price::new(10000, 0).unwrap();
    let mut limit = Limit::new(price);
    let buy_limit_order_a =
        Order::new("Trader a".to_string(), Price::new(55, 1).unwrap(), BidorAsk::Bid, 100).unwrap();
    let buy_limit_order_b =
        Order::new("Trader b".to_string(), Price::new(55, 1).unwrap(), BidorAsk::Bid, 99).unwrap();
    limit.add_order(buy_limit_order_a);
    limit.add_order(buy_limit_order_b);

    assert_eq!(limit.total_volume(), 199);
}

#[test]
fn limit_order_single_fill() {
    let price = Price::new(100000, 0).unwrap();
    let mut limit = Limit::new(price);

    let buy_limit_order =
        Order::new("Trader a".to_string(), Price::new(55, 1).unwrap(), BidorAsk::Bid, 100).unwrap();
    limit.add_order(buy_limit_order);

    let mut market_order =
        Order::new("Trader a".to_string(), Price::new(55, 1).unwrap(), BidorAsk::Ask, 80).unwrap();
    limit.fill_order(&mut market_order);

    assert_eq!(market_order.is_filled(), true);
    assert_eq!(limit.get_order(0).unwrap().get_size(), 20);
}

#[test]
fn limit_order_multi_fill() {
    let price = Price::new(100000, 0).unwrap();
    let mut limit = Limit::new(price);

    let buy_limit_order_a =
        Order::new("Trader a".to_string(), Price::new(55, 1).unwrap(), BidorAsk::Bid, 100).unwrap();
    limit.add_order(buy_limit_order_a);
    let buy_limit_order_b =
        Order::new("Trader a".to_string(), Price::new(55, 1).unwrap(), BidorAsk::Bid, 100).unwrap();
    limit.add_order(buy_limit_order_b);

    let mut market_order =
        Order::new("Trader a".to_string(), Price::new(55, 1).unwrap(), BidorAsk::Ask, 180).unwrap();
    limit.fill_order(&mut market_order);

    assert_eq!(market_order.is_filled(), true);
    assert_eq!(market_order.get_size(), 0);
    assert_eq!(limit.len(), 1);
    assert_eq!(limit.get_order(0).unwrap().is_filled(), false);
    assert_eq!(limit.get_order(0).unwrap().get_size(), 20);
    assert!(limit.get_order(1).is_none());
}

#[test]
fn limit_new_is_empty_with_no_volume() {
    let price = Price::new(10000, 0).unwrap();
    let limit = Limit::new(price);
    assert!(limit.is_empty());
    assert_eq!(limit.len(), 0);
    assert_eq!(limit.total_volume(), 0);
    assert_eq!(limit.get_price(), price);
    assert!(limit.get_order(0).is_none());
}

#[test]
fn limit_total_volume_beyond_one_word() {
    let mut limit = Limit::new(Price::new(55, 1).unwrap());
    limit.add_order(order("Trader a", BidorAsk::Bid, u64::MAX));
    limit.add_order(order("Trader b", BidorAsk::Bid, u64::MAX));
    limit.add_order(order("Trader c", BidorAsk::Bid, 2));
    assert_eq!(limit.total_volume(), 2 * (u64::MAX as u128) + 2);
}

#[test]
fn limit_fill_conserves_volume() {
    let mut limit = Limit::new(Price::new(55, 1).unwrap());
    limit.add_order(order("Trader a", BidorAsk::Bid, 70));
    limit.add_order(order("Trader b", BidorAsk::Bid, 50));
    limit.add_order(order("Trader c", BidorAsk::Bid, 30));
    let mut resting = limit.total_volume();
    for size in [10u64, 65, 1, 100, 40] {
        let mut incoming = order("Trader d", BidorAsk::Ask, size);
        limit.fill_order(&mut incoming);
        let taken = (size - incoming.get_size()) as u128;
        assert_eq!(resting, limit.total_volume() + taken);
        resting = limit.total_volume();
    }
    assert_eq!(resting, 0);
    assert!(limit.is_empty());
}

#[test]
fn limit_fill_is_first_in_first_out() {
    let mut limit = Limit::new(Price::new(55, 1).unwrap());
    limit.add_order(order("Trader a", BidorAsk::Bid, 100));
    limit.add_order(order("Trader b", BidorAsk::Bid, 60));
    let mut incoming = order("Trader c", BidorAsk::Ask, 40);
    limit.fill_order(&mut incoming);
    assert!(incoming.is_filled());
    assert_eq!(limit.len(), 2);
    assert_eq!(limit.get_order(0).unwrap().get_trader_id(), "Trader a");
    assert_eq!(limit.get_order(0).unwrap().get_size(), 60);
    assert_eq!(limit.get_order(1).unwrap().get_trader_id(), "Trader b");
    assert_eq!(limit.get_order(1).unwrap().get_size(), 60);
}

#[test]
fn limit_fill_of_exactly_the_first_order() {
    let mut limit = Limit::new(Price::new(55, 1).unwrap());
    limit.add_order(order("Trader a", BidorAsk::Bid, 100));
    limit.add_order(order("Trader b", BidorAsk::Bid, 60));
    let mut incoming = order("Trader c", BidorAsk::Ask, 100);
    limit.fill_order(&mut incoming);
    assert!(incoming.is_filled());
    assert_eq!(limit.len(), 1);
    assert_eq!(limit.get_order(0).unwrap().get_trader_id(), "Trader b");
    assert_eq!(limit.get_order(0).unwrap().get_size(), 60);
}

#[test]
fn limit_fill_larger_than_the_level() {
    let mut limit = Limit::new(Price::new(55, 1).unwrap());
    limit.add_order(order("Trader a", BidorAsk::Bid, 100));
    limit.add_order(order("Trader b", BidorAsk::Bid, 60));
    let mut incoming = order("Trader c", BidorAsk::Ask, 200);
    limit.fill_order(&mut incoming);
    assert_eq!(incoming.get_size(), 40);
    assert!(limit.is_empty());
    assert_eq!(limit.total_volume(), 0);
}

#[test]
fn limit_fill_of_an_empty_level() {
    let mut limit = Limit::new(Price::new(55, 1).unwrap());
    let mut incoming = order("Trader c", BidorAsk::Ask, 200);
    limit.fill_order(&mut incoming);
    assert_eq!(incoming.get_size(), 200);
    assert!(limit.is_empty());
}

#[test]
fn limit_remove_order_by_position() {
    let mut limit = Limit::new(Price::new(55, 1).unwrap());
    limit.add_order(order("Trader a", BidorAsk::Bid, 100));
    limit.add_order(order("Trader b", BidorAsk::Bid, 60));
    limit.add_order(order("Trader c", BidorAsk::Bid, 30));
    let removed = limit.remove_order(1).unwrap();
    assert_eq!(removed.get_trader_id(), "Trader b");
    assert_eq!(removed.get_size(), 60);
    assert_eq!(limit.len(), 2);
    assert_eq!(limit.get_order(0).unwrap().get_trader_id(), "Trader a");
    assert_eq!(limit.get_order(1).unwrap().get_trader_id(), "Trader c");
    assert!(limit.remove_order(2).is_none());
    assert_eq!(limit.len(), 2);
}

#[test]
fn limit_position_of_finds_the_oldest() {
    let mut limit = Limit::new(Price::new(55, 1).unwrap());
    limit.add_order(order("Trader a", BidorAsk::Bid, 100));
    limit.add_order(order("Trader b", BidorAsk::Bid, 60));
    limit.add_order(order("Trader b", BidorAsk::Bid, 30));
    assert_eq!(limit.position_of(&"Trader a".to_string()), 0);
    assert_eq!(limit.position_of(&"Trader b".to_string()), 1);
    assert_eq!(limit.position_of(&"Trader c".to_string()), 3);
}

#[test]
fn limit_fill_reports_makers_in_arrival_order() {
    let price = Price::new(55, 1).unwrap();
    let mut limit = Limit::new(price);
    limit.add_order(order("Trader a", BidorAsk::Bid, 100));
    limit.add_order(order("Trader b", BidorAsk::Bid, 60));
    limit.add_order(order("Trader c", BidorAsk::Bid, 30));
    let mut incoming = order("Trader d", BidorAsk::Ask, 130);
    let fills = limit.fill_order(&mut incoming);
    assert_eq!(
        fills,
        vec![
            Fill::new("Trader a".to_string(), "Trader d".to_string(), price, 100),
            Fill::new("Trader b".to_string(), "Trader d".to_string(), price, 30),
        ]
    );
    assert_eq!(fills[0].get_maker(), "Trader a");
    assert_eq!(fills[0].get_taker(), "Trader d");
    assert_eq!(fills[0].get_price(), price);
    assert_eq!(fills[1].get_quantity(), 30);
    assert_eq!(fills[1].clone(), fills[1]);
}

#[test]
fn limit_fill_of_nothing_reports_nothing() {
    let mut limit = Limit::new(Price::new(55, 1).unwrap());
    let mut incoming = order("Trader d", BidorAsk::Ask, 130);
    assert!(limit.fill_order(&mut incoming).is_empty());
    limit.add_order(order("Trader a", BidorAsk::Bid, 100));
    incoming.update_size(0);
    assert!(limit.fill_order(&mut incoming).is_empty());
    assert_eq!(limit.total_volume(), 100);
}

#[test]
fn limit_snapshot_lists_traders_and_sizes() {
    let mut limit = Limit::new(Price::new(55, 1).unwrap());
    assert!(limit.snapshot().is_empty());
    limit.add_order(order("Trader a", BidorAsk::Bid, 100));
    limit.add_order(order("Trader b", BidorAsk::Bid, 60));
    assert_eq!(limit.snapshot(), vec![("Trader a".to_string(), 100), ("Trader b".to_string(), 60)]);
}
