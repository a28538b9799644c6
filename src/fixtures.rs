//! Ready-made books and orders for exercising the engine.
use crate::book::{Order, OrderBook, Side};
use vstd::prelude::*;

verus! {

pub fn empty_ob() -> (ob: OrderBook)
    ensures
        ob.wf(),
        ob.bids().len() == 0,
        ob.asks().len() == 0,
{
    OrderBook::new()
}

/// A book with bids of 10 at 99, 98 and 97 (ids 666, 555, 444) and asks of
/// 10 at 101, 102 and 103 (ids 999, 1000, 1001).
pub fn full_ob() -> (ob: OrderBook)
    ensures
        ob.wf(),
        ob.bids() == seq![
            Order { id: 666, side: Side::Bid, price: 99, qty: 10 },
            Order { id: 555, side: Side::Bid, price: 98, qty: 10 },
            Order { id: 444, side: Side::Bid, price: 97, qty: 10 },
        ],
        ob.asks() == seq![
            Order { id: 999, side: Side::Ask, price: 101, qty: 10 },
            Order { id: 1000, side: Side::Ask, price: 102, qty: 10 },
            Order { id: 1001, side: Side::Ask, price: 103, qty: 10 },
        ],
{
    let mut ob = OrderBook::new();
    let orders = [
        Order { id: 444, side: Side::Bid, price: 97, qty: 10 },
        Order { id: 555, side: Side::Bid, price: 98, qty: 10 },
        Order { id: 666, side: Side::Bid, price: 99, qty: 10 },
        Order { id: 999, side: Side::Ask, price: 101, qty: 10 },
        Order { id: 1000, side: Side::Ask, price: 102, qty: 10 },
        Order { id: 1001, side: Side::Ask, price: 103, qty: 10 },
    ];
    proof {
        reveal_with_fuel(crate::book::insert_pos, 4);
    }
    let _ = ob.add_limit_order(orders[0]);
    let _ = ob.add_limit_order(orders[1]);
    let _ = ob.add_limit_order(orders[2]);
    let _ = ob.add_limit_order(orders[3]);
    let _ = ob.add_limit_order(orders[4]);
    let _ = ob.add_limit_order(orders[5]);
    proof {
        assert(ob.asks() =~= seq![orders[3], orders[4], orders[5]]);
    }
    ob
}

/// A bid for 20 at 9999, which crosses any ask.
pub fn taker_buy_order() -> (o: Order)
    ensures
        o == (Order { id: 1, side: Side::Bid, price: 9999, qty: 20 }),
{
    Order { id: 1, side: Side::Bid, price: 9999, qty: 20 }
}

} // verus!
