use orderbook::book::{BookError, ExecutionReport, Order, OrderBook, OrderStatus, Side};
use orderbook::fixtures::{empty_ob, full_ob, taker_buy_order};

fn bid(id: u64, price: u32, qty: u32) -> Order {
    Order { id, side: Side::Bid, price, qty }
}

fn ask(id: u64, price: u32, qty: u32) -> Order {
    Order { id, side: Side::Ask, price, qty }
}

fn resting(ob: &OrderBook) -> usize {
    ob.bid_book.orders.len() + ob.ask_book.orders.len()
}

fn assert_index_consistent(ob: &OrderBook) {
    for o in ob.bid_book.orders.iter().chain(ob.ask_book.orders.iter()) {
        assert_eq!(ob.get_order(o.id), Some(*o));
        assert_eq!(ob.order_loc.get(&o.id), Some(&(o.side, o.price)));
    }
    assert_eq!(ob.order_loc.len(), resting(ob));
}

#[test]
fn scenario_basic_match() {
    let mut ob = OrderBook::new();
    let r = ob.add_limit_order(ask(1, 100, 10));
    assert_eq!(r.status, OrderStatus::Created);
    let r = ob.add_limit_order(bid(2, 100, 10));
    assert_eq!(r.own_id, 2);
    assert_eq!(r.filled_orders, vec![(1, 10, 100)]);
    assert_eq!(r.remaining_qty, 0);
    assert_eq!(r.status, OrderStatus::Filled);
    assert_eq!(resting(&ob), 0);
    assert_eq!(ob.get_bbo(), Err(BookError::BothSidesEmpty));
    assert_index_consistent(&ob);
}

#[test]
fn scenario_partial_fill_and_rest() {
    let mut ob = OrderBook::new();
    ob.add_limit_order(ask(1, 100, 10));
    let r = ob.add_limit_order(bid(2, 100, 15));
    assert_eq!(r.filled_orders, vec![(1, 10, 100)]);
    assert_eq!(r.remaining_qty, 5);
    assert_eq!(r.status, OrderStatus::PartiallyFilled);
    assert_eq!(ob.bid_book.orders, vec![bid(2, 100, 5)]);
    assert_eq!(ob.ask_book.orders, vec![]);
    assert_eq!(ob.best_bid_price, Some(100));
    assert_eq!(ob.get_bbo(), Err(BookError::AskSideEmpty));
    assert_eq!(ob.get_bbo().unwrap_err().message(), "Offer HalfBook is empty");
    assert_index_consistent(&ob);
}

#[test]
fn scenario_price_time_priority() {
    let mut ob = OrderBook::new();
    ob.add_limit_order(bid(1, 99, 5));
    ob.add_limit_order(bid(2, 99, 5));
    let r = ob.add_limit_order(ask(3, 99, 7));
    assert_eq!(r.filled_orders, vec![(1, 5, 99), (2, 2, 99)]);
    assert_eq!(r.status, OrderStatus::Filled);
    assert_eq!(ob.bid_book.orders, vec![bid(2, 99, 3)]);
    assert_eq!(ob.get_order(2), Some(bid(2, 99, 3)));
    assert_eq!(ob.get_order(1), None);
    assert_index_consistent(&ob);
}

#[test]
fn later_order_at_same_price_is_filled_after_earlier_ones() {
    let mut ob = OrderBook::new();
    ob.add_limit_order(ask(10, 50, 4));
    ob.add_limit_order(ask(11, 49, 1));
    ob.add_limit_order(ask(12, 50, 4));
    ob.add_limit_order(ask(13, 50, 4));
    let r = ob.add_limit_order(bid(20, 50, 7));
    assert_eq!(r.filled_orders, vec![(11, 1, 49), (10, 4, 50), (12, 2, 50)]);
    assert_eq!(ob.ask_book.orders, vec![ask(12, 50, 2), ask(13, 50, 4)]);
}

#[test]
fn add_limit_order_test() {
    let mut ob = full_ob();
    assert_eq!(
        ob.add_limit_order(bid(222, 100, 20)),
        ExecutionReport {
            filled_orders: vec![],
            own_id: 222,
            own_side: Side::Bid,
            remaining_qty: 20,
            status: OrderStatus::Created,
        }
    );
    let mut ob = full_ob();
    assert_eq!(
        ob.add_limit_order(bid(222, 101, 10)),
        ExecutionReport {
            filled_orders: vec![(999, 10, 101)],
            own_id: 222,
            own_side: Side::Bid,
            remaining_qty: 0,
            status: OrderStatus::Filled,
        }
    );
    let mut ob = full_ob();
    assert_eq!(
        ob.add_limit_order(bid(222, 101, 15)),
        ExecutionReport {
            filled_orders: vec![(999, 10, 101)],
            own_id: 222,
            own_side: Side::Bid,
            remaining_qty: 5,
            status: OrderStatus::PartiallyFilled,
        }
    );
}

#[test]
fn get_order_test() {
    let ob = empty_ob();
    assert_eq!(ob.get_order(666), None);
    let ob = full_ob();
    assert_eq!(ob.get_order(666), Some(bid(666, 99, 10)));
}

#[test]
fn taker_sweeps_levels_and_bbo_moves() {
    let mut ob = full_ob();
    let r = ob.add_limit_order(taker_buy_order());
    assert_eq!(r.filled_orders, vec![(999, 10, 101), (1000, 10, 102)]);
    assert_eq!(r.remaining_qty, 0);
    assert_eq!(ob.get_bbo(), Ok((99, 103, 4)));
    let mut ob = empty_ob();
    let r = ob.add_limit_order(taker_buy_order());
    assert_eq!(r.status, OrderStatus::Created);
    assert_eq!(ob.get_bbo().map_err(|e| e.message()), Err("Offer HalfBook is empty"));
}

#[test]
fn bbo_errors_name_the_empty_side() {
    let mut ob = OrderBook::new();
    assert_eq!(ob.get_bbo(), Err(BookError::BothSidesEmpty));
    assert_eq!(BookError::BothSidesEmpty.message(), "Both bid and offer HalfBooks are empty");
    ob.add_limit_order(ask(1, 10, 1));
    assert_eq!(ob.get_bbo(), Err(BookError::BidSideEmpty));
    assert_eq!(BookError::BidSideEmpty.message(), "Bid HalfBook is empty");
    ob.add_limit_order(bid(2, 7, 1));
    assert_eq!(ob.get_bbo(), Ok((7, 10, 3)));
}

#[test]
fn conservation_over_a_sweep() {
    let mut ob = full_ob();
    let r = ob.add_limit_order(bid(7, 102, 25));
    let filled: u32 = r.filled_orders.iter().map(|f| f.1).sum();
    assert_eq!(filled + r.remaining_qty, 25);
    assert_eq!(r.filled_orders, vec![(999, 10, 101), (1000, 10, 102)]);
    assert_eq!(r.remaining_qty, 5);
    assert_eq!(ob.bid_book.orders[0], bid(7, 102, 5));
    assert_eq!(ob.get_bbo(), Ok((102, 103, 1)));
}

#[test]
fn no_resting_cross_after_operations() {
    let mut ob = full_ob();
    let ops = [bid(1, 101, 3), ask(2, 98, 30), bid(3, 104, 50), ask(4, 90, 5)];
    for o in ops {
        ob.add_limit_order(o);
        if let (Some(b), Some(a)) = (ob.best_bid_price, ob.best_offer_price) {
            assert!(b < a);
        }
        assert_index_consistent(&ob);
    }
    ob.cancel_order(3).unwrap();
    if let (Some(b), Some(a)) = (ob.best_bid_price, ob.best_offer_price) {
        assert!(b < a);
    }
    assert_index_consistent(&ob);
}

#[test]
fn cancel_removes_by_id_and_rescans_best() {
    let mut ob = full_ob();
    ob.add_limit_order(ask(5, 101, 3));
    let r = ob.cancel_order(999).unwrap();
    assert_eq!(r.status, OrderStatus::Cancelled);
    assert_eq!(r.own_id, 999);
    assert!(r.filled_orders.is_empty());
    assert_eq!(ob.best_offer_price, Some(101));
    ob.cancel_order(5).unwrap();
    assert_eq!(ob.best_offer_price, Some(102));
    assert_eq!(ob.get_order(5), None);
    assert_index_consistent(&ob);
}

#[test]
fn cancel_missing_id_is_not_found_and_changes_nothing() {
    let mut ob = full_ob();
    let bids = ob.bid_book.orders.clone();
    let asks = ob.ask_book.orders.clone();
    assert_eq!(ob.cancel_order(12345), Err(BookError::NotFound));
    assert_eq!(BookError::NotFound.message(), "No such order id");
    assert_eq!(ob.bid_book.orders, bids);
    assert_eq!(ob.ask_book.orders, asks);
    assert_eq!(ob.get_bbo(), Ok((99, 101, 2)));
    assert_eq!(ob.order_loc.len(), 6);
}

#[test]
fn amend_loses_queue_priority() {
    let mut ob = OrderBook::new();
    ob.add_limit_order(bid(1, 99, 5));
    ob.add_limit_order(bid(2, 99, 5));
    let r = ob.amend_limit_order(1, bid(1, 99, 4)).unwrap();
    assert_eq!(r.status, OrderStatus::Created);
    assert_eq!(ob.bid_book.orders, vec![bid(2, 99, 5), bid(1, 99, 4)]);
    let r = ob.add_limit_order(ask(3, 99, 6));
    assert_eq!(r.filled_orders, vec![(2, 5, 99), (1, 1, 99)]);
    assert_eq!(ob.amend_limit_order(77, bid(77, 99, 1)), Err(BookError::NotFound));
}

#[test]
fn total_qty_at_price() {
    let mut ob = OrderBook::new();
    ob.add_limit_order(bid(1, 99, 5));
    ob.add_limit_order(bid(2, 98, 7));
    ob.add_limit_order(bid(3, 99, 6));
    assert_eq!(ob.bid_book.get_total_qty(99), 11);
    assert_eq!(ob.bid_book.get_total_qty(98), 7);
    assert_eq!(ob.bid_book.get_total_qty(97), 0);
    ob.add_limit_order(bid(4, 99, u32::MAX));
    assert_eq!(ob.bid_book.get_total_qty(99), u32::MAX);
}

#[test]
fn bids_kept_best_first() {
    let mut ob = OrderBook::new();
    ob.add_limit_order(bid(1, 97, 1));
    ob.add_limit_order(bid(2, 99, 1));
    ob.add_limit_order(bid(3, 98, 1));
    let prices: Vec<u32> = ob.bid_book.orders.iter().map(|o| o.price).collect();
    assert_eq!(prices, vec![99, 98, 97]);
    assert_eq!(ob.best_bid_price, Some(99));
}
