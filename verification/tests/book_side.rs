use orderbook::book_side::BookSide;
use orderbook::order::Order;
use orderbook::order::Side;

#[test]
fn book_side_test_new() {
    let book_side = BookSide::new();

    assert_eq!(book_side.len(), 0);
}

#[test]
fn test_append_empty() {
    let mut side = BookSide::new();
    let price = 1;
    let order = Order::new(1, 1, Side::Ask, price, 1);

    side.append(order);

    let first_pl = side.get_level(price).unwrap();
    assert_eq!(*first_pl.front().unwrap(), order, "Order not appended");

    let second_pl = side.get_level(price).unwrap();
    assert_eq!(*first_pl, *second_pl, "Data inconsistency");
}

#[test]
fn test_append_not_empty() {
    let mut side = BookSide::new();
    let price = 1;
    let first_order = Order::new(1, 1, Side::Ask, price, 1);
    let second_order = Order::new(1, 1, Side::Ask, price, 2);

    side.append(first_order);
    side.append(second_order);

    let first_pl = side.get_level(price).unwrap();
    assert_eq!(
        *first_pl.front().unwrap(),
        first_order,
        "Order not appended"
    );

    let second_pl = side.get_level(price).unwrap();
    assert_eq!(*first_pl, *second_pl, "Data inconsistency");
}

#[test]
fn test_append_new_price_level() {
    let mut side = BookSide::new();
    let first_order = Order::new(1, 1, Side::Ask, 1, 1);
    let second_order = Order::new(1, 1, Side::Ask, 2, 2);

    side.append(first_order);
    side.append(second_order);

    assert_eq!(side.len(), 2);
}

#[test]
fn test_min_max() {
    let mut side = BookSide::new();
    let first_order = Order::new(1, 1, Side::Ask, 1, 1);
    let second_order = Order::new(1, 1, Side::Ask, 2, 2);
    let third_order = Order::new(1, 1, Side::Ask, 3, 3);

    side.append(first_order);
    side.append(second_order);
    side.append(third_order);

    assert_eq!(side.min().unwrap().price, 1);
    assert_eq!(side.max().unwrap().price, 3);
}

#[test]
fn book_side_test_remove() {
    let mut side = BookSide::new();
    let first_order = Order::new(1, 1, Side::Ask, 1, 1);
    let second_order = Order::new(1, 1, Side::Ask, 2, 2);

    side.append(first_order);
    side.append(second_order);

    side.remove(second_order);

    assert_eq!(side.len(), 1);
}

#[test]
fn test_remove_last() {
    let mut side = BookSide::new();
    let order = Order::new(1, 1, Side::Ask, 1, 1);

    side.append(order);
    side.remove(order);

    assert_eq!(side.len(), 0);
}

#[test]
fn book_side_test_trade() {
    let mut side = BookSide::new();
    let order = Order::new(1, 1, Side::Ask, 1, 1);

    side.append(order);
    let outcome = side.trade(1, 1);

    assert_eq!(side.get_level(1), None);
    assert_eq!(side.len(), 0);
    assert_eq!(outcome.unwrap(), order);
}

#[test]
fn test_empty_level_removed() {
    let mut side = BookSide::new();
    let order = Order::new(1, 1, Side::Ask, 7, 3);

    side.append(order);
    assert_eq!(side.get_price_volume(7), Some(3));

    side.remove(order);

    assert_eq!(side.get_price_volume(7), None);
    assert!(side.min().is_none());
    assert!(side.max().is_none());
    assert_eq!(side.len(), 0);
}

#[test]
fn test_get_price_volume_aggregates() {
    let mut side = BookSide::new();

    side.append(Order::new(1, 1, Side::Bid, 4, 10));
    side.append(Order::new(2, 1, Side::Bid, 4, 20));
    side.append(Order::new(3, 1, Side::Bid, 6, 5));

    assert_eq!(side.get_price_volume(4), Some(30));
    assert_eq!(side.get_price_volume(6), Some(5));
    assert_eq!(side.get_price_volume(5), None);
}
