use orderbook::order::Order;
use orderbook::order::Side;
use orderbook::side_codec::parse_side_from_csv;
use orderbook::side_codec::parse_side_to_csv;
use orderbook::OrderBook;
use orderbook::OrderOutcome;

#[test]
fn test_first_ask_tops_empty_book() {
    let mut book = OrderBook::new();

    let outcome = book.submit_order(Side::Ask, 10, 100, 1, 1);

    assert_eq!(
        outcome,
        OrderOutcome::TopOfBook {
            user_id: 1,
            order_id: 1,
            side: Side::Ask,
            top_price: Some(10),
            volume: Some(100)
        }
    );
}

#[test]
fn test_first_bid_tops_its_side() {
    let mut book = OrderBook::new();
    book.submit_order(Side::Ask, 10, 100, 1, 1);

    let outcome = book.submit_order(Side::Bid, 5, 50, 2, 2);

    assert_eq!(
        outcome,
        OrderOutcome::TopOfBook {
            user_id: 2,
            order_id: 2,
            side: Side::Bid,
            top_price: Some(5),
            volume: Some(50)
        }
    );
}

#[test]
fn test_exact_match_trades_and_empties_side() {
    let mut book = OrderBook::new();
    book.submit_order(Side::Ask, 10, 100, 1, 1);
    book.submit_order(Side::Bid, 5, 50, 2, 2);

    let outcome = book.submit_order(Side::Ask, 5, 50, 3, 3);

    assert_eq!(
        outcome,
        OrderOutcome::Traded {
            user_id: 3,
            order_id: 3,
            user_id_buy: 2,
            order_id_buy: 2,
            user_id_sell: 3,
            order_id_sell: 3,
            price: 5,
            quantity: 50,
            side: Some(Side::Bid),
            top_price: None,
            volume: None
        }
    );
    assert_eq!(book.best_bid_price(), None);
}

#[test]
fn test_crossing_without_exact_match_rejected() {
    let mut book = OrderBook::new();
    book.submit_order(Side::Bid, 5, 50, 2, 2);

    let outcome = book.submit_order(Side::Ask, 4, 10, 4, 4);

    assert_eq!(
        outcome,
        OrderOutcome::Rejected { user_id: 4, order_id: 4 }
    );
    assert_eq!(book.best_bid_price(), Some(5));
    assert_eq!(book.best_ask_price(), None);
}

#[test]
fn test_cancel_only_order_clears_top() {
    let mut book = OrderBook::new();
    book.submit_order(Side::Ask, 10, 100, 1, 1);

    let outcome = book.cancel_order(1);

    assert_eq!(
        outcome,
        OrderOutcome::TopOfBook {
            user_id: 1,
            order_id: 1,
            side: Side::Ask,
            top_price: None,
            volume: None
        }
    );
    assert_eq!(book.best_ask_price(), None);
}

#[test]
fn test_fifo_tie_break() {
    let mut book = OrderBook::new();
    book.submit_order(Side::Ask, 10, 50, 1, 1);
    book.submit_order(Side::Ask, 10, 50, 2, 2);

    let outcome = book.submit_order(Side::Bid, 10, 50, 3, 3);

    assert_eq!(
        outcome,
        OrderOutcome::Traded {
            user_id: 3,
            order_id: 3,
            user_id_buy: 3,
            order_id_buy: 3,
            user_id_sell: 1,
            order_id_sell: 1,
            price: 10,
            quantity: 50,
            side: Some(Side::Ask),
            top_price: Some(10),
            volume: Some(50)
        }
    );
}

#[test]
fn test_no_crossing_survives_submissions() {
    let mut book = OrderBook::new();
    book.submit_order(Side::Ask, 10, 100, 1, 1);
    book.submit_order(Side::Bid, 5, 50, 2, 2);
    book.submit_order(Side::Bid, 12, 70, 3, 3);

    assert_eq!(book.best_bid_price(), Some(5));
    assert_eq!(book.best_ask_price(), Some(10));
    assert!(book.best_bid_price().unwrap() < book.best_ask_price().unwrap());
}

#[test]
fn test_index_follows_book() {
    let mut book = OrderBook::new();
    book.submit_order(Side::Ask, 10, 100, 1, 1);

    assert_eq!(
        book.get_order(1).copied(),
        Some(Order::new(1, 1, Side::Ask, 10, 100))
    );

    book.submit_order(Side::Bid, 10, 100, 2, 2);

    assert_eq!(book.get_order(1), None);
    assert_eq!(book.get_order(2), None);
}

#[test]
fn test_cancel_non_top_acknowledges() {
    let mut book = OrderBook::new();
    book.submit_order(Side::Bid, 5, 50, 1, 1);
    book.submit_order(Side::Bid, 4, 40, 2, 2);

    let outcome = book.cancel_order(2);

    assert_eq!(outcome, OrderOutcome::Created { user_id: 2, order_id: 2 });
    assert_eq!(book.best_bid_price(), Some(5));
}

#[test]
fn test_cancel_top_reveals_next_level() {
    let mut book = OrderBook::new();
    book.submit_order(Side::Ask, 10, 100, 1, 1);
    book.submit_order(Side::Ask, 12, 30, 2, 2);

    let outcome = book.cancel_order(1);

    assert_eq!(
        outcome,
        OrderOutcome::TopOfBook {
            user_id: 1,
            order_id: 1,
            side: Side::Ask,
            top_price: Some(12),
            volume: Some(30)
        }
    );
}

#[test]
fn test_volume_tracks_sum_of_quantities() {
    let mut level = orderbook::price_level::PriceLevel::new(4);
    let first = Order::new(1, 1, Side::Bid, 4, 10);
    let second = Order::new(2, 1, Side::Bid, 4, 20);
    let third = Order::new(3, 1, Side::Bid, 4, 20);

    level.append(first);
    level.append(second);
    level.append(third);
    assert_eq!(level.volume, 50);

    level.remove(second);
    assert_eq!(level.volume, 30);

    let traded = level.trade(20);
    assert_eq!(traded, Some(third));
    assert_eq!(level.volume, 10);
}

#[test]
fn test_parse_side_symbols() {
    assert_eq!(parse_side_from_csv("B"), Side::Bid);
    assert_eq!(parse_side_from_csv("S"), Side::Ask);
    assert_eq!(parse_side_from_csv(""), Side::Ask);
    assert_eq!(parse_side_from_csv("BB"), Side::Ask);
    assert_eq!(parse_side_to_csv(Side::Bid), "B");
    assert_eq!(parse_side_to_csv(Side::Ask), "S");
}
