use orderbook::book::{BookError, Order, OrderBook, OrderStatus, Side};
use orderbook::snap::{
    is_synthetic, next_snap, next_snap_with, place_body, place_head_tail, place_head_tail_with,
    side_from_code, split_queue,
    split_queue_with, LimitOrder, QueueOffset, Snap, SplitPolicy, SYNTHETIC_ID_BASE,
};

fn row(side: Side, price: u32, qty: u32) -> LimitOrder {
    LimitOrder { side, price, qty }
}

fn own_offset(ahead: u32, own: u32, behind: u32) -> QueueOffset {
    QueueOffset { side: Side::Bid, price: 100, qty_ahead: ahead, own_qty: own, qty_behind: behind, own_id: 7 }
}

#[test]
fn scenario_shrink_from_tail() {
    let o = own_offset(20, 10, 15);
    assert_eq!(split_queue(&o, 40), (20, 10));
}

#[test]
fn scenario_shrink_exhausts_tail() {
    let o = own_offset(20, 10, 15);
    assert_eq!(split_queue(&o, 25), (15, 0));
}

#[test]
fn split_growth_goes_behind_and_vanished_level_empties() {
    let o = own_offset(20, 10, 15);
    assert_eq!(split_queue(&o, 45), (20, 15));
    assert_eq!(split_queue(&o, 60), (20, 30));
    assert_eq!(split_queue(&o, 0), (0, 0));
    assert_eq!(split_queue(&o, 10), (0, 0));
}

fn book_with_own_bid() -> OrderBook {
    let mut ob = OrderBook::new();
    ob.add_limit_order(Order { id: 1, side: Side::Bid, price: 100, qty: 20 });
    ob.add_limit_order(Order { id: 7, side: Side::Bid, price: 100, qty: 10 });
    ob.add_limit_order(Order { id: 2, side: Side::Bid, price: 100, qty: 15 });
    ob.add_limit_order(Order { id: 3, side: Side::Bid, price: 99, qty: 30 });
    ob.add_limit_order(Order { id: 4, side: Side::Ask, price: 102, qty: 30 });
    ob
}

#[test]
fn get_offset_reads_queue_position() {
    let ob = book_with_own_bid();
    assert_eq!(ob.get_offset(7), Ok(own_offset(20, 10, 15)));
    assert_eq!(ob.get_offset(70), Err(BookError::NotFound));
}

#[test]
fn offset_round_trip_with_unchanged_level() {
    let ob = book_with_own_bid();
    let offset = ob.get_offset(7).unwrap();
    let snap = Snap {
        exch_epoch: 5,
        vec: vec![row(Side::Bid, 100, 45), row(Side::Bid, 99, 30), row(Side::Ask, 102, 30)],
    };
    for allow_fill in [false, true] {
        let snap = Snap { exch_epoch: snap.exch_epoch, vec: snap.vec.clone() };
        let (nb, rep_bid, rep_ask) = next_snap(snap, (Some(offset), None), allow_fill);
        assert_eq!(nb.get_offset(7), Ok(offset));
        assert_eq!(nb.get_bbo(), Ok((100, 102, 2)));
        let rep = rep_bid.unwrap();
        assert_eq!(rep.own_id, 7);
        assert_eq!(rep.status, OrderStatus::Created);
        assert!(rep_ask.is_none());
    }
}

#[test]
fn reconcile_rebuilds_level_after_shrink() {
    let ob = book_with_own_bid();
    let offset = ob.get_offset(7).unwrap();
    let snap = Snap { exch_epoch: 6, vec: vec![row(Side::Bid, 100, 25)] };
    let (nb, _, _) = next_snap(snap, (Some(offset), None), false);
    assert_eq!(nb.get_offset(7), Ok(own_offset(15, 10, 0)));
    let prices: Vec<(u32, u32)> = nb.bid_book.orders.iter().map(|o| (o.price, o.qty)).collect();
    assert_eq!(prices, vec![(100, 15), (100, 10)]);
    assert!(is_synthetic(nb.bid_book.orders[0].id));
    assert!(!is_synthetic(7));
}

#[test]
fn snap_test_orders_from_snapshot() {
    let snap = Snap { exch_epoch: 0, vec: vec![row(Side::Bid, 99, 1), row(Side::Ask, 101, 1)] };
    let ob = OrderBook::new();
    let (ob, rep_bid, rep_ask) = ob.process(snap, None, None, false);
    assert_eq!(ob.get_bbo().unwrap(), (99, 101, 2));
    assert!(rep_bid.is_none() && rep_ask.is_none());
}

#[test]
fn exec_report_test() {
    let trader_order_id = 333;
    let snap = Snap {
        exch_epoch: 0,
        vec: vec![row(Side::Ask, 99, 100), row(Side::Ask, 100, 10), row(Side::Ask, 101, 10)],
    };
    let ob = OrderBook::new();
    let (mut ob, _, _) = ob.process(snap, None, None, false);
    let own = Order { side: Side::Ask, price: 99, qty: 10, id: trader_order_id };
    let _ = ob.add_limit_order(own);
    let snap = Snap {
        exch_epoch: 0,
        vec: vec![row(Side::Ask, 99, 150), row(Side::Ask, 100, 10), row(Side::Ask, 101, 5)],
    };
    let (mut ob, _, rep_ask) = ob.process(snap, None, Some(trader_order_id), false);
    assert_eq!(rep_ask.unwrap().status, OrderStatus::Created);
    let exec_report = ob.add_limit_order(Order { side: Side::Bid, price: 99, qty: 135, id: 1010 });
    // synthetic fillers take the ids after the snapshot's rows: ahead, then behind
    let ahead = SYNTHETIC_ID_BASE + 3 + 2;
    let behind = SYNTHETIC_ID_BASE + 3 + 3;
    let filled_orders = vec![(ahead, 100, 99), (333, 10, 99), (behind, 25, 99)];
    assert_eq!(exec_report.filled_orders, filled_orders);
}

#[test]
fn passive_policy_leaves_out_a_crossing_own_order() {
    let mut ob = OrderBook::new();
    ob.add_limit_order(Order { id: 1, side: Side::Ask, price: 100, qty: 5 });
    let r = place_body(&mut ob, Order { id: 9, side: Side::Bid, price: 100, qty: 3 }, false);
    assert_eq!(r.status, OrderStatus::Uninitialized);
    assert_eq!(r.own_id, 0);
    assert_eq!(r.own_side, Side::Bid);
    assert_eq!(r.remaining_qty, 0);
    assert!(r.filled_orders.is_empty());
    let r = place_body(&mut ob, Order { id: 9, side: Side::Ask, price: 95, qty: 3 }, false);
    assert_eq!(r.status, OrderStatus::Created);
    assert_eq!(r.own_id, 9);
    ob.cancel_order(9).unwrap();
    assert_eq!(ob.get_order(9), None);
    assert_eq!(ob.ask_book.orders[0].qty, 5);
    let r = place_body(&mut ob, Order { id: 9, side: Side::Bid, price: 99, qty: 3 }, false);
    assert_eq!(r.status, OrderStatus::Created);
    let r = place_body(&mut ob, Order { id: 8, side: Side::Bid, price: 100, qty: 3 }, true);
    assert_eq!(r.filled_orders, vec![(1, 3, 100)]);
    assert_eq!(r.status, OrderStatus::Filled);
}

#[test]
fn own_order_crossed_by_snapshot_reports_filled() {
    let offset = QueueOffset { side: Side::Bid, price: 100, qty_ahead: 0, own_qty: 4, qty_behind: 0, own_id: 7 };
    let snap = Snap { exch_epoch: 1, vec: vec![row(Side::Ask, 99, 10), row(Side::Bid, 98, 3)] };
    let (ob, rep_bid, _) = next_snap(snap, (Some(offset), None), false);
    let rep = rep_bid.unwrap();
    assert_eq!(rep.status, OrderStatus::Filled);
    assert_eq!(rep.own_id, 7);
    assert_eq!(rep.own_side, Side::Bid);
    assert_eq!(rep.remaining_qty, 0);
    assert!(rep.filled_orders.is_empty());
    assert_eq!(ob.get_order(7), None);

    let snap = Snap { exch_epoch: 1, vec: vec![row(Side::Ask, 99, 10), row(Side::Bid, 98, 3)] };
    let (ob, rep_bid, _) = next_snap(snap, (Some(offset), None), true);
    let rep = rep_bid.unwrap();
    assert_eq!(rep.status, OrderStatus::Filled);
    assert_eq!(rep.filled_orders.len(), 1);
    assert_eq!(rep.filled_orders[0].1, 4);
    assert_eq!(rep.filled_orders[0].2, 99);
    assert_eq!(ob.ask_book.orders[0].qty, 6);
}

#[test]
fn both_sides_tracked_in_one_pass() {
    let bid_off = QueueOffset { side: Side::Bid, price: 98, qty_ahead: 2, own_qty: 1, qty_behind: 0, own_id: 10 };
    let ask_off = QueueOffset { side: Side::Ask, price: 102, qty_ahead: 0, own_qty: 1, qty_behind: 4, own_id: 11 };
    let snap = Snap {
        exch_epoch: 2,
        vec: vec![row(Side::Bid, 98, 3), row(Side::Bid, 97, 8), row(Side::Ask, 102, 5), row(Side::Ask, 103, 0)],
    };
    let (ob, rb, ra) = next_snap(snap, (Some(bid_off), Some(ask_off)), false);
    assert_eq!(ob.get_offset(10), Ok(bid_off));
    assert_eq!(ob.get_offset(11), Ok(ask_off));
    assert_eq!(rb.unwrap().status, OrderStatus::Created);
    assert_eq!(ra.unwrap().status, OrderStatus::Created);
    assert_eq!(ob.ask_book.orders.len(), 2);
    assert_eq!(ob.get_bbo(), Ok((98, 102, 4)));
}

#[test]
fn snapshot_levels_and_side_codes() {
    let s = Snap::from_levels(17, &vec![(10, 51), (9, 52)], &vec![(11, 61)]);
    assert_eq!(s.exch_epoch, 17);
    assert_eq!(s.vec, vec![row(Side::Bid, 10, 51), row(Side::Bid, 9, 52), row(Side::Ask, 11, 61)]);
    assert!(s.levels_distinct());
    let mut d = Snap::new();
    d.push(row(Side::Bid, 10, 1));
    d.push(row(Side::Ask, 10, 1));
    assert!(d.levels_distinct());
    d.push(row(Side::Bid, 10, 2));
    assert!(!d.levels_distinct());
    assert_eq!(side_from_code(0), Some(Side::Ask));
    assert_eq!(side_from_code(1), Some(Side::Bid));
    assert_eq!(side_from_code(2), None);
}

#[test]
fn reconcile_rebuilds_level_after_small_shrink() {
    let ob = book_with_own_bid();
    let offset = ob.get_offset(7).unwrap();
    let snap = Snap { exch_epoch: 6, vec: vec![row(Side::Bid, 100, 40)] };
    let (nb, _, _) = next_snap(snap, (Some(offset), None), false);
    assert_eq!(nb.get_offset(7), Ok(own_offset(20, 10, 10)));
}

#[test]
fn process_uses_the_current_queue_position() {
    let ob = book_with_own_bid();
    let snap = Snap { exch_epoch: 8, vec: vec![row(Side::Bid, 100, 30), row(Side::Ask, 101, 2)] };
    let (nb, rep_bid, rep_ask) = ob.process(snap, Some(7), Some(4), false);
    assert_eq!(nb.get_offset(7), Ok(own_offset(20, 10, 0)));
    assert_eq!(rep_bid.unwrap().status, OrderStatus::Created);
    // order 4 was an ask at 102; the snapshot no longer lists that level
    let rep_ask = rep_ask.unwrap();
    assert_eq!(rep_ask.own_id, 4);
    assert_eq!(nb.get_offset(4).unwrap().qty_ahead, 0);
    assert_eq!(nb.get_bbo(), Ok((100, 101, 1)));
    let snap = Snap { exch_epoch: 9, vec: vec![row(Side::Bid, 100, 30)] };
    let (_, rep_bid, rep_ask) = ob.process(snap, Some(4), None, false);
    assert!(rep_bid.is_none() && rep_ask.is_none());
}

#[test]
fn split_policies_differ_only_on_shrink() {
    let o = own_offset(20, 10, 15);
    assert_eq!(split_queue_with(&o, 40, SplitPolicy::BehindFirst), (20, 10));
    assert_eq!(split_queue_with(&o, 40, SplitPolicy::AheadFirst), (15, 15));
    assert_eq!(split_queue_with(&o, 25, SplitPolicy::BehindFirst), (15, 0));
    assert_eq!(split_queue_with(&o, 25, SplitPolicy::AheadFirst), (0, 15));
    assert_eq!(split_queue_with(&o, 15, SplitPolicy::AheadFirst), (0, 5));
    assert_eq!(split_queue_with(&o, 60, SplitPolicy::AheadFirst), (20, 30));
    assert_eq!(split_queue_with(&o, 60, SplitPolicy::BehindFirst), (20, 30));
}

#[test]
fn taker_placement_reports_the_add() {
    let mut ob = OrderBook::new();
    ob.add_limit_order(Order { id: 1, side: Side::Ask, price: 100, qty: 2 });
    ob.add_limit_order(Order { id: 2, side: Side::Ask, price: 101, qty: 2 });
    let r = place_body(&mut ob, Order { id: 9, side: Side::Bid, price: 101, qty: 5 }, true);
    assert_eq!(r.filled_orders, vec![(1, 2, 100), (2, 2, 101)]);
    assert_eq!(r.remaining_qty, 1);
    assert_eq!(r.status, OrderStatus::PartiallyFilled);
    assert_eq!(ob.get_order(9), Some(Order { id: 9, side: Side::Bid, price: 101, qty: 1 }));
}

#[test]
fn head_tail_report_is_the_own_placement() {
    let mut ob = OrderBook::new();
    ob.add_limit_order(Order { id: 1, side: Side::Ask, price: 100, qty: 3 });
    let o = QueueOffset { side: Side::Bid, price: 100, qty_ahead: 2, own_qty: 4, qty_behind: 1, own_id: 7 };
    let r = place_head_tail(&mut ob, o, 7, true, SYNTHETIC_ID_BASE, SYNTHETIC_ID_BASE + 1);
    // the filler ahead takes 2 of the 3 at 100; the own order takes the last one
    assert_eq!(r.own_id, 7);
    assert_eq!(r.filled_orders, vec![(1, 1, 100)]);
    assert_eq!(r.remaining_qty, 3);
    assert_eq!(r.status, OrderStatus::PartiallyFilled);
    assert_eq!(ob.get_offset(7), Ok(QueueOffset { qty_ahead: 0, own_qty: 3, ..o }));
}

#[test]
fn vanished_own_order_reports_filled_with_its_fills() {
    let offset = QueueOffset { side: Side::Ask, price: 100, qty_ahead: 0, own_qty: 4, qty_behind: 0, own_id: 7 };
    let snap = Snap { exch_epoch: 3, vec: vec![row(Side::Bid, 101, 10)] };
    let (ob, _, rep_ask) = next_snap(snap, (None, Some(offset)), true);
    let rep = rep_ask.unwrap();
    assert_eq!(rep.status, OrderStatus::Filled);
    assert_eq!(rep.filled_orders, vec![(SYNTHETIC_ID_BASE, 4, 101)]);
    assert_eq!(rep.remaining_qty, 0);
    assert_eq!(ob.get_order(7), None);
}

#[test]
fn raw_quote_leaves_out_own_orders() {
    let ob = book_with_own_bid();
    assert_eq!(ob.get_raw_bbo(None, None), Ok((100, 102, 2)));
    assert_eq!(ob.get_raw_bbo(Some(7), None), Ok((100, 102, 2)));
    let mut ob = OrderBook::new();
    ob.add_limit_order(Order { id: 5, side: Side::Bid, price: 100, qty: 1 });
    ob.add_limit_order(Order { id: 6, side: Side::Bid, price: 98, qty: 1 });
    ob.add_limit_order(Order { id: 8, side: Side::Ask, price: 103, qty: 1 });
    assert_eq!(ob.get_raw_bbo(Some(5), Some(99)), Ok((98, 103, 5)));
    assert_eq!(ob.get_raw_bbo(Some(8), None), Err(BookError::AskSideEmpty));
    assert_eq!(ob.get_bbo(), Ok((100, 103, 3)));
}

#[test]
fn rebuild_under_each_split_policy() {
    let ob = book_with_own_bid();
    let offset = ob.get_offset(7).unwrap();
    let rows = vec![row(Side::Bid, 100, 40), row(Side::Ask, 102, 30)];
    let snap = Snap { exch_epoch: 4, vec: rows.clone() };
    let (nb, rep, _) = next_snap_with(snap, (Some(offset), None), false, SplitPolicy::BehindFirst);
    assert_eq!(nb.get_offset(7), Ok(own_offset(20, 10, 10)));
    assert_eq!(rep.unwrap().status, OrderStatus::Created);
    let snap = Snap { exch_epoch: 4, vec: rows };
    let (nb, rep, _) = next_snap_with(snap, (Some(offset), None), false, SplitPolicy::AheadFirst);
    assert_eq!(nb.get_offset(7), Ok(own_offset(15, 10, 15)));
    assert_eq!(rep.unwrap().own_id, 7);
}

#[test]
fn head_tail_under_ahead_first_split() {
    let mut ob = OrderBook::new();
    let o = own_offset(20, 10, 15);
    let r = place_head_tail_with(&mut ob, o, 25, false, SYNTHETIC_ID_BASE, SYNTHETIC_ID_BASE + 1, SplitPolicy::AheadFirst);
    assert_eq!(r.own_id, 7);
    assert_eq!(r.status, OrderStatus::Created);
    assert_eq!(ob.get_offset(7), Ok(own_offset(0, 10, 15)));
}
