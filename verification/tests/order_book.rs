use orderbook::order::Order;
use orderbook::order::Side;
use orderbook::OrderBook;
use orderbook::OrderOutcome;

#[test]
fn test_get_best_ask_bid_prices() {
    let mut order_book = OrderBook::new();

    let low_bid_price = 1;
    let high_bid_price = 1;
    let low_ask_price = 2;
    let high_ask_price = 2;

    order_book.append(Order::new(1, 1, Side::Bid, low_bid_price, 1));
    order_book.append(Order::new(2, 1, Side::Bid, high_bid_price, 1));
    order_book.append(Order::new(3, 1, Side::Ask, low_ask_price, 1));
    order_book.append(Order::new(4, 1, Side::Ask, high_ask_price, 1));

    assert_eq!(order_book.best_bid_price().unwrap(), high_bid_price);
    assert_eq!(order_book.best_ask_price().unwrap(), low_ask_price);
}

#[test]
fn test_append_remove() {
    let mut order_book = OrderBook::new();
    let bid_order = Order::new(1, 1, Side::Bid, 1, 1);
    let ask_order = Order::new(2, 1, Side::Ask, 1, 1);

    order_book.append(bid_order);
    order_book.append(ask_order);

    order_book.remove(bid_order);
    order_book.remove(ask_order);

    assert_eq!(order_book.get_order(ask_order.user_id), None);
    assert_eq!(order_book.get_order(bid_order.user_id), None);
    assert_eq!(order_book.best_bid_price(), None);
    assert_eq!(order_book.best_ask_price(), None);
}

#[test]
fn test_submit_order_created_and_top() {
    let mut order_book = OrderBook::new();

    let bid_price = 2;
    let ask_price = 3;

    let bid_outcome = order_book.submit_order(Side::Bid, bid_price, 1, 1, 1);
    let ask_outcome = order_book.submit_order(Side::Ask, ask_price, 2, 1, 101);

    assert_eq!(
        bid_outcome,
        OrderOutcome::TopOfBook {
            user_id: 1,
            order_id: 1,
            side: Side::Bid,
            top_price: Some(bid_price),
            volume: Some(1)
        }
    );
    assert_eq!(
        ask_outcome,
        OrderOutcome::TopOfBook {
            user_id: 1,
            order_id: 101,
            side: Side::Ask,
            top_price: Some(ask_price),
            volume: Some(2)
        }
    );

    assert_eq!(order_book.best_bid_price().unwrap(), bid_price);
    assert_eq!(order_book.best_ask_price().unwrap(), ask_price);

    let bid_outcome = order_book.submit_order(Side::Bid, 1, 1, 1, 2);
    let ask_outcome = order_book.submit_order(Side::Ask, 4, 2, 1, 102);

    assert_eq!(
        bid_outcome,
        OrderOutcome::Created { user_id: 1, order_id: 2 }
    );
    assert_eq!(
        ask_outcome,
        OrderOutcome::Created { user_id: 1, order_id: 102 }
    );

    assert_eq!(order_book.best_bid_price().unwrap(), bid_price);
    assert_eq!(order_book.best_ask_price().unwrap(), ask_price);
}

#[test]
fn test_submit_order_rejected() {
    let mut order_book = OrderBook::new();

    let bid_outcome = order_book.submit_order(Side::Bid, 2, 2, 1, 101);
    let ask_outcome = order_book.submit_order(Side::Ask, 1, 1, 1, 1);

    assert_eq!(
        bid_outcome,
        OrderOutcome::TopOfBook {
            user_id: 1,
            order_id: 101,
            side: Side::Bid,
            top_price: Some(2),
            volume: Some(2)
        }
    );
    assert_eq!(
        ask_outcome,
        OrderOutcome::Rejected { user_id: 1, order_id: 1 }
    );
}

#[test]
fn test_submit_order_traded() {
    let mut order_book = OrderBook::new();

    order_book.submit_order(Side::Bid, 3, 2, 1, 101);
    order_book.submit_order(Side::Bid, 2, 1, 1, 102);
    let outcome = order_book.submit_order(Side::Ask, 2, 1, 2, 1);

    assert_eq!(
        outcome,
        OrderOutcome::Traded {
            user_id: 2,
            order_id: 1,
            user_id_buy: 1,
            order_id_buy: 102,
            user_id_sell: 2,
            order_id_sell: 1,
            price: 2,
            quantity: 1,
            side: None,
            top_price: None,
            volume: None
        }
    );
    assert_eq!(order_book.get_order(1), None);
}
