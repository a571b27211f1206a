use orderbook::order::Order;
use orderbook::order::Side;
use orderbook::price_level::PriceLevel;

#[test]
fn price_level_test_new() {
    let price = 1;
    let price_level = PriceLevel::new(price);

    assert_eq!(price_level.volume, 0);
    assert_eq!(price_level.price, price);
    assert_eq!(price_level.len(), 0);
}

#[test]
fn test_append() {
    let price = 1;
    let quantity = 1;
    let mut price_level = PriceLevel::new(price);
    let order = Order::new(1, 1, Side::Ask, price, quantity);

    price_level.append(order);

    assert_eq!(price_level.volume, order.quantity);
    assert_eq!(*price_level.front().unwrap(), order);
}

#[test]
fn price_level_test_remove() {
    let price = 1;
    let mut price_level = PriceLevel::new(price);
    let first_order = Order::new(1, 1, Side::Ask, price, 1);
    let second_order = Order::new(2, 1, Side::Ask, price, 2);

    price_level.append(first_order);
    price_level.append(second_order);
    price_level.remove(first_order);

    assert_eq!(price_level.volume, second_order.quantity);
    assert_eq!(*price_level.front().unwrap(), second_order);
}

#[test]
fn test_len() {
    let price = 1;
    let mut price_level = PriceLevel::new(price);
    let first_order = Order::new(1, 1, Side::Ask, price, 1);
    let second_order = Order::new(2, 1, Side::Ask, price, 2);

    price_level.append(first_order);
    price_level.append(second_order);

    assert_eq!(price_level.len(), 2);

    price_level.remove(first_order);
    price_level.remove(second_order);

    assert_eq!(price_level.len(), 0);
}

#[test]
fn test_front() {
    let price = 1;
    let mut price_level = PriceLevel::new(price);
    let first_order = Order::new(1, 1, Side::Ask, price, 1);
    let second_order = Order::new(2, 1, Side::Ask, price, 2);

    price_level.append(first_order);
    price_level.append(second_order);

    assert_eq!(*price_level.front().unwrap(), first_order);
}

#[test]
fn price_level_test_trade() {
    let price = 1;
    let mut price_level = PriceLevel::new(price);

    let order = Order::new(1, 1, Side::Ask, price, 1);
    price_level.append(order);

    let outcome = price_level.trade(1);

    assert_eq!(outcome.unwrap(), order);
}

#[test]
fn test_trade_preserves_order() {
    let price = 1;
    let mut price_level = PriceLevel::new(price);

    let first_order = Order::new(1, 1, Side::Ask, price, 1);
    let second_order = Order::new(2, 1, Side::Ask, price, 1);

    price_level.append(first_order);
    price_level.append(second_order);

    let outcome = price_level.trade(1);

    assert_eq!(outcome.unwrap(), first_order);
    assert_eq!(price_level.len(), 1);
}
