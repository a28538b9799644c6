//! Laws of the book and of the reconciliation, proved over the
//! specifications that the operations' contracts use.
use crate::book::{
    at_price, better, crosses, fill_total, fills_of, has_id, insert_pos, queue_wf, rest_in,
    sel, total_qty, unfilled, Order, OrderBook, Side,
};
use crate::snap::{offset_at, reconciled, split_queue_spec, LimitOrder, QueueOffset};
use vstd::prelude::*;

verus! {

/// Matching never creates or loses quantity: the filled quantities and the
/// quantity left add up to the incoming quantity.
pub proof fn lemma_conservation(q: Seq<Order>, side: Side, limit: u32, qty: u32)
    ensures
        fill_total(fills_of(q, side, limit, qty)) + unfilled(q, side, limit, qty) == qty,
    decreases q.len(),
{
    if q.len() == 0 || qty == 0 || !crosses(side, limit, q[0].price) {
    } else if q[0].qty < qty {
        let f = fills_of(q, side, limit, qty);
        let rest = fills_of(q.drop_first(), side, limit, (qty - q[0].qty) as u32);
        lemma_conservation(q.drop_first(), side, limit, (qty - q[0].qty) as u32);
        assert(f.drop_first() =~= rest);
        assert(fill_total(f) == q[0].qty + fill_total(rest));
    } else {
        let f = fills_of(q, side, limit, qty);
        assert(f.drop_first() =~= Seq::<(u64, u32, u32)>::empty());
        assert(fill_total(f.drop_first()) == 0);
        assert(fill_total(f) == qty);
    }
}

/// Fills follow the resting queue: the `k`-th fill is against the `k`-th
/// resting order, at its price, and every fill but the last takes that
/// order's whole quantity.
pub proof fn lemma_fills_follow_queue(q: Seq<Order>, side: Side, limit: u32, qty: u32)
    ensures
        fills_of(q, side, limit, qty).len() <= q.len(),
        forall|k: int|
            0 <= k < fills_of(q, side, limit, qty).len() ==> (#[trigger] fills_of(
                q,
                side,
                limit,
                qty,
            )[k]).0 == q[k].id && fills_of(q, side, limit, qty)[k].2 == q[k].price,
        forall|k: int|
            0 <= k < fills_of(q, side, limit, qty).len() - 1 ==> (#[trigger] fills_of(
                q,
                side,
                limit,
                qty,
            )[k]).1 == q[k].qty,
    decreases q.len(),
{
    if q.len() == 0 || qty == 0 || !crosses(side, limit, q[0].price) {
    } else if q[0].qty < qty {
        let t = q.drop_first();
        let r = (qty - q[0].qty) as u32;
        lemma_fills_follow_queue(t, side, limit, r);
        let f = fills_of(q, side, limit, qty);
        assert forall|k: int| 0 < k < f.len() implies (#[trigger] f[k]).0 == q[k].id && f[k].2
            == q[k].price by {
            assert(f[k] == fills_of(t, side, limit, r)[k - 1]);
            assert(t[k - 1] == q[k]);
        }
        assert forall|k: int| 0 < k < f.len() - 1 implies (#[trigger] f[k]).1 == q[k].qty by {
            assert(f[k] == fills_of(t, side, limit, r)[k - 1]);
            assert(t[k - 1] == q[k]);
        }
    }
}

/// An order joins its side behind every resting order at its price.
pub proof fn lemma_joins_behind_same_price(s: Seq<Order>, side: Side, o: Order, i: int)
    requires
        queue_wf(s, side),
        o.side == side,
        0 <= i < s.len(),
        s[i].price == o.price,
    ensures
        i < insert_pos(s, side, o.price),
        rest_in(s, o)[i] == s[i],
        rest_in(s, o)[insert_pos(s, side, o.price) as int] == o,
    decreases s.len(),
{
    lemma_insert_pos_bound(s, side, o.price);
    if i > 0 {
        let t = s.drop_first();
        assert(!better(side, s[i].price, s[0].price));
        assert(!better(side, o.price, s[0].price));
        assert(t[i - 1] == s[i]);
        assert(queue_wf(t, side)) by {
            assert forall|k: int| 0 <= k < t.len() implies (#[trigger] t[k]).side == side && t[k].qty
                > 0 by {
                assert(t[k] == s[k + 1]);
            }
            assert forall|a: int, b: int| 0 <= a < b < t.len() implies !better(
                side,
                #[trigger] t[b].price,
                #[trigger] t[a].price,
            ) by {
                assert(t[a] == s[a + 1] && t[b] == s[b + 1]);
            }
        }
        lemma_joins_behind_same_price(t, side, o, i - 1);
    }
}

proof fn lemma_insert_pos_bound(s: Seq<Order>, side: Side, price: u32)
    ensures
        insert_pos(s, side, price) <= s.len(),
    decreases s.len(),
{
    if s.len() > 0 {
        lemma_insert_pos_bound(s.drop_first(), side, price);
    }
}

/// Price-time priority: an order that joins a queue behind a resting order
/// at the same price is never filled before it. If an incoming order fills
/// the newcomer at all, the older order was filled in full first.
pub proof fn lemma_price_time_priority(
    s: Seq<Order>,
    o: Order,
    i: int,
    incoming: Side,
    limit: u32,
    qty: u32,
)
    requires
        queue_wf(s, o.side),
        0 <= i < s.len(),
        s[i].price == o.price,
    ensures
        ({
            let q = rest_in(s, o);
            let f = fills_of(q, incoming, limit, qty);
            let p = insert_pos(s, o.side, o.price) as int;
            &&& i < p
            &&& p < f.len() ==> f[i] == (s[i].id, s[i].qty, s[i].price)
        }),
{
    let q = rest_in(s, o);
    let f = fills_of(q, incoming, limit, qty);
    let p = insert_pos(s, o.side, o.price) as int;
    lemma_joins_behind_same_price(s, o.side, o, i);
    lemma_fills_follow_queue(q, incoming, limit, qty);
    if p < f.len() {
        assert(f[i].0 == q[i].id && f[i].2 == q[i].price);
        assert(f[i].1 == q[i].qty);
    }
}

/// No resting cross: when both sides hold orders, the best bid is below
/// the best ask.
pub proof fn lemma_no_resting_cross(book: OrderBook)
    requires
        book.wf(),
    ensures
        book.best_bid_price is Some && book.best_offer_price is Some
            ==> book.best_bid_price->0 < book.best_offer_price->0,
{
}

/// The location index matches the book: each indexed id is a resting order
/// on the side the index names, at the price it names, and every resting
/// order is indexed.
pub proof fn lemma_location_index(book: OrderBook)
    requires
        book.wf(),
    ensures
        forall|id: u64| #[trigger]
            book.contains(id) ==> exists|k: int|
                0 <= k < book.side_orders(book.loc()[id].0).len() && #[trigger] book.side_orders(
                    book.loc()[id].0,
                )[k].id == id && book.side_orders(book.loc()[id].0)[k].price == book.loc()[id].1,
        forall|side: Side, k: int|
            0 <= k < book.side_orders(side).len() ==> #[trigger] book.contains(
                book.side_orders(side)[k].id,
            ),
{
    assert forall|id: u64| #[trigger] book.contains(id) implies exists|k: int|
        0 <= k < book.side_orders(book.loc()[id].0).len() && #[trigger] book.side_orders(
            book.loc()[id].0,
        )[k].id == id && book.side_orders(book.loc()[id].0)[k].price == book.loc()[id].1 by {
        let s = book.side_orders(book.loc()[id].0);
        assert(has_id(s, id));
        let k = choose|k: int| 0 <= k < s.len() && (#[trigger] s[k]).id == id;
        assert(book.loc().contains_key(s[k].id));
    }
    assert forall|side: Side, k: int| 0 <= k < book.side_orders(side).len() implies #[trigger] book.contains(
        book.side_orders(side)[k].id,
    ) by {
        let s = book.side_orders(side);
        assert(book.loc().contains_key(s[k].id));
    }
}


proof fn lemma_at_same_price(s: Seq<Order>, price: u32)
    requires
        forall|k: int| 0 <= k < s.len() ==> (#[trigger] s[k]).price == price,
    ensures
        at_price(s, price) == s,
    decreases s.len(),
{
    reveal(Seq::filter);
    if s.len() > 0 {
        let t = s.drop_last();
        assert forall|k: int| 0 <= k < t.len() implies (#[trigger] t[k]).price == price by {
            assert(t[k] == s[k]);
        }
        lemma_at_same_price(t, price);
        assert(t.push(s.last()) =~= s);
    }
}

proof fn lemma_total_one(o: Order)
    ensures
        total_qty(seq![o]) == o.qty,
{
    assert(seq![o].drop_first() =~= Seq::<Order>::empty());
    assert(total_qty(seq![o].drop_first()) == 0);
}

/// Every order of `s` has a price that `pred` holds of.
spec fn all_prices(s: Seq<Order>, pred: spec_fn(u32) -> bool) -> bool {
    forall|j: int| 0 <= j < s.len() ==> pred(#[trigger] s[j].price)
}

proof fn lemma_rest_after_prices(q: Seq<Order>, side: Side, limit: u32, qty: u32, pred: spec_fn(u32) -> bool)
    requires
        all_prices(q, pred),
    ensures
        all_prices(crate::book::rest_after(q, side, limit, qty), pred),
    decreases q.len(),
{
    if q.len() == 0 || qty == 0 || !crosses(side, limit, q[0].price) {
    } else {
        let t = q.drop_first();
        assert forall|j: int| 0 <= j < t.len() implies pred(#[trigger] t[j].price) by {
            assert(t[j] == q[j + 1]);
        }
        if q[0].qty < qty {
            lemma_rest_after_prices(t, side, limit, (qty - q[0].qty) as u32, pred);
        } else if q[0].qty > qty {
            let r = crate::book::rest_after(q, side, limit, qty);
            assert forall|j: int| 0 <= j < r.len() implies pred(#[trigger] r[j].price) by {
                assert(q[0].price == r[0].price);
                if j > 0 {
                    assert(r[j] == q[j]);
                }
            }
        }
    }
}

proof fn lemma_rest_in_prices(s: Seq<Order>, o: Order, pred: spec_fn(u32) -> bool)
    requires
        all_prices(s, pred),
        pred(o.price),
    ensures
        all_prices(rest_in(s, o), pred),
{
    let i = insert_pos(s, o.side, o.price) as int;
    lemma_insert_pos_bound(s, o.side, o.price);
    let r = rest_in(s, o);
    assert forall|j: int| 0 <= j < r.len() implies pred(#[trigger] r[j].price) by {
        if j < i {
            assert(r[j] == s[j]);
        } else if j > i {
            assert(r[j] == s[j - 1]);
        }
    }
}

proof fn lemma_after_add_prices(
    bids: Seq<Order>,
    asks: Seq<Order>,
    order: Order,
    pb: spec_fn(u32) -> bool,
    pa: spec_fn(u32) -> bool,
)
    requires
        all_prices(bids, pb),
        all_prices(asks, pa),
        order.side == Side::Bid ==> pb(order.price),
        order.side == Side::Ask ==> pa(order.price),
    ensures
        all_prices(crate::book::after_add(bids, asks, order).0, pb),
        all_prices(crate::book::after_add(bids, asks, order).1, pa),
{
    let rem = unfilled(sel(crate::book::opposite(order.side), bids, asks), order.side, order.price, order.qty);
    let resting = Order { qty: rem, ..order };
    if order.side == Side::Bid {
        lemma_rest_after_prices(asks, order.side, order.price, order.qty, pa);
        if rem > 0 {
            lemma_rest_in_prices(bids, resting, pb);
        }
    } else {
        lemma_rest_after_prices(bids, order.side, order.price, order.qty, pb);
        if rem > 0 {
            lemma_rest_in_prices(asks, resting, pa);
        }
    }
}

/// No order on `o`'s side rests at its price, and no opposite order
/// crosses it: what the rows other than the own level leave.
spec fn level_clear(m: (Seq<Order>, Seq<Order>), o: QueueOffset) -> bool {
    &&& forall|j: int|
        0 <= j < sel(o.side, m.0, m.1).len() ==> (#[trigger] sel(o.side, m.0, m.1)[j]).price
            != o.price
    &&& forall|j: int|
        0 <= j < sel(crate::book::opposite(o.side), m.0, m.1).len() ==> !crosses(
            o.side,
            o.price,
            (#[trigger] sel(crate::book::opposite(o.side), m.0, m.1)[j]).price,
        )
}

proof fn lemma_rows_clear(rows: Seq<LimitOrder>, o: QueueOffset, k: nat)
    requires
        k <= rows.len(),
        forall|i: int|
            0 <= i < rows.len() && (#[trigger] rows[i]).side != o.side ==> !crosses(
                o.side,
                o.price,
                rows[i].price,
            ),
    ensures
        ({
            let bid = if o.side == Side::Bid { Some(o) } else { None };
            let ask = if o.side == Side::Ask { Some(o) } else { None };
            level_clear(crate::snap::place_rows(rows, bid, ask, k), o)
        }),
    decreases k,
{
    let bid = if o.side == Side::Bid { Some(o) } else { None };
    let ask = if o.side == Side::Ask { Some(o) } else { None };
    let p = o.price;
    let own_pred = |x: u32| x != p;
    let opp_pred = |x: u32| !crosses(o.side, p, x);
    let pb = if o.side == Side::Bid { own_pred } else { opp_pred };
    let pa = if o.side == Side::Ask { own_pred } else { opp_pred };
    if k > 0 {
        lemma_rows_clear(rows, o, (k - 1) as nat);
        let m = crate::snap::place_rows(rows, bid, ask, (k - 1) as nat);
        let r = rows[k - 1];
        if r.qty > 0 && !crate::snap::is_own_row(r, bid, ask) {
            let ro = crate::snap::row_order(rows, k - 1);
            assert(all_prices(m.0, pb)) by {
                assert forall|j: int| 0 <= j < m.0.len() implies pb(#[trigger] m.0[j].price) by {
                    if o.side == Side::Bid {
                        assert(sel(o.side, m.0, m.1)[j] == m.0[j]);
                    } else {
                        assert(sel(crate::book::opposite(o.side), m.0, m.1)[j] == m.0[j]);
                    }
                }
            }
            assert(all_prices(m.1, pa)) by {
                assert forall|j: int| 0 <= j < m.1.len() implies pa(#[trigger] m.1[j].price) by {
                    if o.side == Side::Ask {
                        assert(sel(o.side, m.0, m.1)[j] == m.1[j]);
                    } else {
                        assert(sel(crate::book::opposite(o.side), m.0, m.1)[j] == m.1[j]);
                    }
                }
            }
            lemma_after_add_prices(m.0, m.1, ro, pb, pa);
            let m2 = crate::book::after_add(m.0, m.1, ro);
            assert(m2 == crate::snap::place_rows(rows, bid, ask, k));
            assert forall|j: int| 0 <= j < sel(o.side, m2.0, m2.1).len() implies (#[trigger] sel(
                o.side,
                m2.0,
                m2.1,
            )[j]).price != p by {
                if o.side == Side::Bid {
                    assert(pb(m2.0[j].price));
                } else {
                    assert(pa(m2.1[j].price));
                }
            }
            assert forall|j: int| 0 <= j < sel(crate::book::opposite(o.side), m2.0, m2.1).len() implies !crosses(
                o.side,
                p,
                (#[trigger] sel(crate::book::opposite(o.side), m2.0, m2.1)[j]).price,
            ) by {
                if o.side == Side::Bid {
                    assert(pa(m2.1[j].price));
                } else {
                    assert(pb(m2.0[j].price));
                }
            }
        }
    }
}

proof fn lemma_insert_pos_props(s: Seq<Order>, side: Side, price: u32)
    ensures
        insert_pos(s, side, price) <= s.len(),
        forall|j: int| 0 <= j < insert_pos(s, side, price) ==> !better(side, price, #[trigger] s[j].price),
        insert_pos(s, side, price) < s.len() ==> better(side, price, s[insert_pos(s, side, price) as int].price),
    decreases s.len(),
{
    if s.len() > 0 && !better(side, price, s[0].price) {
        let t = s.drop_first();
        lemma_insert_pos_props(t, side, price);
        assert forall|j: int| 0 <= j < insert_pos(s, side, price) implies !better(side, price, #[trigger] s[j].price) by {
            if j > 0 {
                assert(s[j] == t[j - 1]);
            }
        }
        if insert_pos(s, side, price) < s.len() {
            assert(s[insert_pos(s, side, price) as int] == t[insert_pos(t, side, price) as int]);
        }
    }
}

/// Adding `order` where no opposite order crosses its price: nothing
/// trades and it joins its side at its place.
proof fn lemma_add_clear(bids: Seq<Order>, asks: Seq<Order>, order: Order)
    requires
        order.qty > 0,
        forall|j: int|
            0 <= j < sel(crate::book::opposite(order.side), bids, asks).len() ==> !crosses(
                order.side,
                order.price,
                (#[trigger] sel(crate::book::opposite(order.side), bids, asks)[j]).price,
            ),
    ensures
        ({
            let m = crate::book::after_add(bids, asks, order);
            &&& sel(order.side, m.0, m.1) == rest_in(sel(order.side, bids, asks), order)
            &&& sel(crate::book::opposite(order.side), m.0, m.1) == sel(
                crate::book::opposite(order.side),
                bids,
                asks,
            )
        }),
{
    let opp = sel(crate::book::opposite(order.side), bids, asks);
    if opp.len() > 0 {
        assert(!crosses(order.side, order.price, opp[0].price));
    }
    assert(unfilled(opp, order.side, order.price, order.qty) == order.qty);
    assert(Order { qty: order.qty, ..order } == order);
}

/// Where every order of `s` is at another price than `p`, the orders at `p`
/// in `s` weigh nothing.
proof fn lemma_total_none_at(s: Seq<Order>, p: u32)
    requires
        forall|j: int| 0 <= j < s.len() ==> (#[trigger] s[j]).price != p,
    ensures
        total_qty(at_price(s, p)) == 0,
    decreases s.len(),
{
    if s.len() == 0 {
        assert(at_price(s, p) =~= Seq::<Order>::empty()) by {
            reveal(Seq::filter);
        }
    } else {
        let t = s.drop_last();
        assert forall|j: int| 0 <= j < t.len() implies (#[trigger] t[j]).price != p by {
            assert(t[j] == s[j]);
        }
        lemma_total_none_at(t, p);
        crate::book::lemma_at_price_push(t, s.last(), p);
        assert(t.push(s.last()) =~= s);
    }
}

/// The orders at `p` in `a + b` weigh what those in `a` and in `b` weigh.
proof fn lemma_total_at_add(a: Seq<Order>, b: Seq<Order>, p: u32)
    ensures
        total_qty(at_price(a + b, p)) == total_qty(at_price(a, p)) + total_qty(at_price(b, p)),
    decreases b.len(),
{
    if b.len() == 0 {
        assert(a + b =~= a);
        lemma_total_none_at(b, p);
    } else {
        let c = b.drop_last();
        lemma_total_at_add(a, c, p);
        crate::book::lemma_at_price_push(a + c, b.last(), p);
        crate::book::lemma_at_price_push(c, b.last(), p);
        assert((a + c).push(b.last()) =~= a + b);
        assert(c.push(b.last()) =~= b);
    }
}

proof fn lemma_total_of(s: Seq<Order>, p: u32)
    requires
        s.len() <= 1,
        forall|j: int| 0 <= j < s.len() ==> (#[trigger] s[j]).price == p,
    ensures
        total_qty(at_price(s, p)) == (if s.len() == 1 { s[0].qty as nat } else { 0nat }),
{
    if s.len() == 1 {
        lemma_at_same_price(s, p);
        lemma_total_one(s[0]);
        assert(s =~= seq![s[0]]);
    } else {
        lemma_total_none_at(s, p);
    }
}

/// One order joining its side at position `i`, no opposite order crossing it.
proof fn lemma_join(bids: Seq<Order>, asks: Seq<Order>, x: Order, i: int)
    requires
        x.qty > 0,
        forall|j: int|
            0 <= j < sel(crate::book::opposite(x.side), bids, asks).len() ==> !crosses(
                x.side,
                x.price,
                (#[trigger] sel(crate::book::opposite(x.side), bids, asks)[j]).price,
            ),
        0 <= i <= sel(x.side, bids, asks).len(),
        forall|j: int| 0 <= j < i ==> !better(x.side, x.price, #[trigger] sel(x.side, bids, asks)[j].price),
        i < sel(x.side, bids, asks).len() ==> better(x.side, x.price, sel(x.side, bids, asks)[i].price),
    ensures
        ({
            let m = crate::book::after_add(bids, asks, x);
            &&& sel(x.side, m.0, m.1) == sel(x.side, bids, asks).insert(i, x)
            &&& sel(crate::book::opposite(x.side), m.0, m.1) == sel(crate::book::opposite(x.side), bids, asks)
        }),
{
    lemma_add_clear(bids, asks, x);
    crate::book::lemma_insert_pos(sel(x.side, bids, asks), x.side, x.price, i);
}

/// The own level rebuilt where no own-side order rests at its price and no
/// opposite order crosses it: filler ahead, own order and filler behind
/// join together at the price's place.
#[verifier::rlimit(60)]
proof fn lemma_rebuild_clear(
    m0: (Seq<Order>, Seq<Order>),
    o: QueueOffset,
    allow_fill: bool,
    ahead_id: u64,
    behind_id: u64,
)
    requires
        level_clear(m0, o),
        o.own_qty > 0,
        o.qty_ahead + o.own_qty + o.qty_behind <= u32::MAX,
    ensures
        ({
            let total = (o.qty_ahead + o.own_qty + o.qty_behind) as u32;
            let s = sel(o.side, m0.0, m0.1);
            let q = insert_pos(s, o.side, o.price) as int;
            let sa = if o.qty_ahead > 0 {
                seq![Order { id: ahead_id, side: o.side, price: o.price, qty: o.qty_ahead }]
            } else {
                Seq::<Order>::empty()
            };
            let sb = if o.qty_behind > 0 {
                seq![Order { id: behind_id, side: o.side, price: o.price, qty: o.qty_behind }]
            } else {
                Seq::<Order>::empty()
            };
            let m = crate::snap::rebuild_level(m0.0, m0.1, o, total, allow_fill, ahead_id, behind_id);
            &&& 0 <= q <= s.len()
            &&& sel(o.side, m.0, m.1) == s.take(q) + sa + seq![crate::snap::own_order(o)] + sb + s.skip(q)
        }),
{
    let total = (o.qty_ahead + o.own_qty + o.qty_behind) as u32;
    let side = o.side;
    let p = o.price;
    assert(split_queue_spec(o, total) == (o.qty_ahead, o.qty_behind));
    let fa = Order { id: ahead_id, side, price: p, qty: o.qty_ahead };
    let own = crate::snap::own_order(o);
    let fb = Order { id: behind_id, side, price: p, qty: o.qty_behind };
    let s = sel(side, m0.0, m0.1);
    let q = insert_pos(s, side, p) as int;
    lemma_insert_pos_props(s, side, p);
    let a: int = if o.qty_ahead > 0 { 1 } else { 0 };
    let sa = if o.qty_ahead > 0 { seq![fa] } else { Seq::<Order>::empty() };
    let sb = if o.qty_behind > 0 { seq![fb] } else { Seq::<Order>::empty() };
    let m1 = crate::snap::before_own(m0.0, m0.1, o, total, ahead_id);
    let s1 = s.take(q) + sa + s.skip(q);
    if o.qty_ahead > 0 {
        lemma_join(m0.0, m0.1, fa, q);
        assert(s.insert(q, fa) =~= s1);
    } else {
        assert(s1 =~= s);
    }
    let opp0 = sel(crate::book::opposite(side), m0.0, m0.1);
    assert(sel(crate::book::opposite(side), m1.0, m1.1) == opp0);
    assert forall|j: int| 0 <= j < q + a implies !better(side, p, #[trigger] s1[j].price) by {
        if j < q {
            assert(s1[j] == s[j]);
        }
    }
    if q + a < s1.len() {
        assert(s1[q + a] == s[q]);
    }
    assert(crate::snap::injects(m1.0, m1.1, own, allow_fill)) by {
        if opp0.len() > 0 {
            assert(!crosses(side, p, opp0[0].price));
        }
    }
    lemma_join(m1.0, m1.1, own, q + a);
    let m2 = crate::book::after_add(m1.0, m1.1, own);
    let s2 = s.take(q) + sa + seq![own] + s.skip(q);
    assert(s1.insert(q + a, own) =~= s2);
    let s3 = s.take(q) + sa + seq![own] + sb + s.skip(q);
    if o.qty_behind > 0 {
        assert forall|j: int| 0 <= j < q + a + 1 implies !better(side, p, #[trigger] s2[j].price) by {
            if j < q {
                assert(s2[j] == s[j]);
            }
        }
        if q + a + 1 < s2.len() {
            assert(s2[q + a + 1] == s[q]);
        }
        lemma_join(m2.0, m2.1, fb, q + a + 1);
        assert(s2.insert(q + a + 1, fb) =~= s3);
    } else {
        assert(s3 =~= s2);
    }
}

/// The offsets of the own order in a side where nothing else rests at its
/// price.
proof fn lemma_offsets_clear(s: Seq<Order>, q: int, o: QueueOffset, sa: Seq<Order>, sb: Seq<Order>)
    requires
        0 <= q <= s.len(),
        forall|j: int| 0 <= j < s.len() ==> (#[trigger] s[j]).price != o.price,
        sa.len() <= 1,
        sb.len() <= 1,
        forall|j: int| 0 <= j < sa.len() ==> (#[trigger] sa[j]).price == o.price,
        forall|j: int| 0 <= j < sb.len() ==> (#[trigger] sb[j]).price == o.price,
        sa.len() == 1 ==> sa[0].qty == o.qty_ahead,
        sa.len() == 0 ==> o.qty_ahead == 0,
        sb.len() == 1 ==> sb[0].qty == o.qty_behind,
        sb.len() == 0 ==> o.qty_behind == 0,
    ensures
        offset_at(
            s.take(q) + sa + seq![crate::snap::own_order(o)] + sb + s.skip(q),
            q + sa.len(),
            o,
        ),
{
    let p = o.price;
    let s3 = s.take(q) + sa + seq![crate::snap::own_order(o)] + sb + s.skip(q);
    let k = q + sa.len();
    assert(s3[k] == crate::snap::own_order(o));
    assert(s3.subrange(0, k) =~= s.take(q) + sa);
    assert(s3.subrange(k + 1, s3.len() as int) =~= sb + s.skip(q));
    assert forall|j: int| 0 <= j < s.take(q).len() implies (#[trigger] s.take(q)[j]).price != p by {
        assert(s.take(q)[j] == s[j]);
    }
    assert forall|j: int| 0 <= j < s.skip(q).len() implies (#[trigger] s.skip(q)[j]).price != p by {
        assert(s.skip(q)[j] == s[j + q]);
    }
    lemma_total_at_add(s.take(q), sa, p);
    lemma_total_none_at(s.take(q), p);
    lemma_total_of(sa, p);
    lemma_total_at_add(sb, s.skip(q), p);
    lemma_total_none_at(s.skip(q), p);
    lemma_total_of(sb, p);
}

/// `o` when it is on `side`, none otherwise.
pub open spec fn only_on(o: QueueOffset, side: Side) -> Option<QueueOffset> {
    if o.side == side {
        Some(o)
    } else {
        None
    }
}

/// Offset round trip: when the snapshot reports the own
/// order's level with its aggregate quantity unchanged and no row of the
/// other side crosses the own order's price, the rebuilt book holds the own
/// order with the same quantity ahead, own quantity and quantity behind.
pub proof fn lemma_offset_round_trip(rows: Seq<LimitOrder>, o: QueueOffset, allow_fill: bool)
    requires
        o.own_qty > 0,
        o.qty_ahead + o.own_qty + o.qty_behind <= u32::MAX,
        crate::snap::level_qty(rows, o.side, o.price) == o.qty_ahead + o.own_qty + o.qty_behind,
        forall|i: int|
            0 <= i < rows.len() && (#[trigger] rows[i]).side != o.side ==> !crosses(
                o.side,
                o.price,
                rows[i].price,
            ),
    ensures
        ({
            let m = reconciled(rows, only_on(o, Side::Bid), only_on(o, Side::Ask), allow_fill);
            exists|k: int| #[trigger] offset_at(sel(o.side, m.0, m.1), k, o)
        }),
{
    let bid = only_on(o, Side::Bid);
    let ask = only_on(o, Side::Ask);
    let n = rows.len() as int;
    let total = (o.qty_ahead + o.own_qty + o.qty_behind) as u32;
    let m0 = crate::snap::place_rows(rows, bid, ask, rows.len());
    lemma_rows_clear(rows, o, rows.len());
    let (ahead_id, behind_id) = if o.side == Side::Bid {
        (crate::snap::synthetic_id(n), crate::snap::synthetic_id(n + 1))
    } else {
        (crate::snap::synthetic_id(n + 2), crate::snap::synthetic_id(n + 3))
    };
    let m = reconciled(rows, bid, ask, allow_fill);
    assert(m == crate::snap::rebuild_level(m0.0, m0.1, o, total, allow_fill, ahead_id, behind_id));
    lemma_rebuild_clear(m0, o, allow_fill, ahead_id, behind_id);
    let s = sel(o.side, m0.0, m0.1);
    let q = insert_pos(s, o.side, o.price) as int;
    let sa = if o.qty_ahead > 0 {
        seq![Order { id: ahead_id, side: o.side, price: o.price, qty: o.qty_ahead }]
    } else {
        Seq::<Order>::empty()
    };
    let sb = if o.qty_behind > 0 {
        seq![Order { id: behind_id, side: o.side, price: o.price, qty: o.qty_behind }]
    } else {
        Seq::<Order>::empty()
    };
    lemma_offsets_clear(s, q, o, sa, sb);
    let k = q + sa.len();
    assert(offset_at(sel(o.side, m.0, m.1), k, o));
    assert(exists|k: int| #[trigger] offset_at(sel(o.side, m.0, m.1), k, o));
}

} // verus!
