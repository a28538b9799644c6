//! The limit order book and its matching engine.
//!
//! Each side of the book keeps its resting orders in one sequence in
//! priority order: best price first and, within one price, oldest first.
//! The orders at one price therefore form a contiguous run, which is that
//! price's FIFO queue, and the best price of a side is the price of its
//! first order.
//!
//! Because each side stays ordered, the best prices are read off the head of
//! each side after every operation instead of being found by a rescan, and
//! the location index maps an id to its side and price.
use std::collections::HashMap;
use vstd::prelude::*;

verus! {

broadcast use vstd::std_specs::hash::group_hash_axioms;

#[derive(PartialEq, Eq, Structural, Debug, Clone, Copy)]
pub enum Side {
    Bid,
    Ask,
}

#[derive(PartialEq, Eq, Structural, Debug, Clone, Copy)]
pub enum OrderStatus {
    Uninitialized,
    Created,
    Filled,
    PartiallyFilled,
    Cancelled,
}

/// Errors of the book's operations.
#[derive(PartialEq, Eq, Structural, Debug, Clone, Copy)]
pub enum BookError {
    /// No resting order has the given id.
    NotFound,
    /// Neither side has a resting order.
    BothSidesEmpty,
    /// The ask side has no resting order.
    AskSideEmpty,
    /// The bid side has no resting order.
    BidSideEmpty,
}

impl BookError {
    /// The error's text.
    pub fn message(&self) -> (r: &'static str)
        ensures
            r@ == (match self {
                BookError::NotFound => "No such order id"@,
                BookError::BothSidesEmpty => "Both bid and offer HalfBooks are empty"@,
                BookError::AskSideEmpty => "Offer HalfBook is empty"@,
                BookError::BidSideEmpty => "Bid HalfBook is empty"@,
            }),
    {
        match self {
            BookError::NotFound => "No such order id",
            BookError::BothSidesEmpty => "Both bid and offer HalfBooks are empty",
            BookError::AskSideEmpty => "Offer HalfBook is empty",
            BookError::BidSideEmpty => "Bid HalfBook is empty",
        }
    }
}

#[derive(PartialEq, Eq, Structural, Debug, Clone, Copy)]
pub struct Order {
    pub id: u64,
    pub side: Side,
    pub price: u32,
    pub qty: u32,
}

/// A fill: the counterparty's id, the quantity and the price.
pub type Fill = (u64, u32, u32);

/// What one operation did to one order.
#[derive(PartialEq, Eq, Debug, Clone)]
pub struct ExecutionReport {
    pub own_id: u64,
    pub own_side: Side,
    /// Fills in the order in which they were matched.
    pub filled_orders: Vec<Fill>,
    pub remaining_qty: u32,
    pub status: OrderStatus,
}

impl ExecutionReport {
    /// A report that does not describe any operation yet.
    pub fn new() -> (r: ExecutionReport)
        ensures
            r.own_id == 0,
            r.own_side == Side::Bid,
            r.filled_orders@.len() == 0,
            r.remaining_qty == u32::MAX,
            r.status == OrderStatus::Uninitialized,
    {
        ExecutionReport {
            own_id: 0,
            own_side: Side::Bid,
            filled_orders: Vec::new(),
            remaining_qty: u32::MAX,
            status: OrderStatus::Uninitialized,
        }
    }
}

/// The other side.
pub open spec fn opposite(side: Side) -> Side {
    match side {
        Side::Bid => Side::Ask,
        Side::Ask => Side::Bid,
    }
}

/// Whether price `a` has priority over price `b` on `side`.
pub open spec fn better(side: Side, a: u32, b: u32) -> bool {
    match side {
        Side::Bid => a > b,
        Side::Ask => a < b,
    }
}

/// Whether an incoming order of `side` with limit `limit` trades against a
/// resting order at `price`.
pub open spec fn crosses(side: Side, limit: u32, price: u32) -> bool {
    match side {
        Side::Bid => price <= limit,
        Side::Ask => price >= limit,
    }
}

/// The resting orders of one side, in priority order: each on `side`,
/// each with a positive quantity, prices never getting better.
pub open spec fn queue_wf(s: Seq<Order>, side: Side) -> bool {
    &&& forall|k: int| 0 <= k < s.len() ==> (#[trigger] s[k]).side == side && s[k].qty > 0
    &&& forall|a: int, b: int|
        0 <= a < b < s.len() ==> !better(side, #[trigger] s[b].price, #[trigger] s[a].price)
}

/// No id occurs twice in `s`.
pub open spec fn ids_unique(s: Seq<Order>) -> bool {
    forall|a: int, b: int| 0 <= a < b < s.len() ==> (#[trigger] s[a]).id != (#[trigger] s[b]).id
}

/// Some order of `s` has the id `id`.
pub open spec fn has_id(s: Seq<Order>, id: u64) -> bool {
    exists|k: int| 0 <= k < s.len() && (#[trigger] s[k]).id == id
}

/// The sum of the quantities of `s`.
pub open spec fn total_qty(s: Seq<Order>) -> nat
    decreases s.len(),
{
    if s.len() == 0 {
        0
    } else {
        s[0].qty as nat + total_qty(s.drop_first())
    }
}

/// `n` clamped to the range of `u32`.
pub open spec fn clamp_u32(n: nat) -> u32 {
    if n > u32::MAX {
        u32::MAX
    } else {
        n as u32
    }
}

/// The orders of `s` at `price`.
pub open spec fn at_price(s: Seq<Order>, price: u32) -> Seq<Order> {
    s.filter(|o: Order| o.price == price)
}

/// One side of the book.
pub struct HalfBook {
    pub side: Side,
    /// The resting orders, in priority order.
    pub orders: Vec<Order>,
}

impl HalfBook {
    pub open spec fn wf(&self) -> bool {
        queue_wf(self.orders@, self.side)
    }

    pub fn new(side: Side) -> (h: HalfBook)
        ensures
            h.side == side,
            h.orders@.len() == 0,
            h.wf(),
    {
        HalfBook { side, orders: Vec::new() }
    }

    /// The aggregate quantity resting at `price`, clamped to `u32::MAX`.
    pub fn get_total_qty(&self, price: u32) -> (r: u32)
        ensures
            r == clamp_u32(total_qty(at_price(self.orders@, price))),
    {
        let r = sum_at_price(&self.orders, 0, self.orders.len(), price);
        proof {
            assert(self.orders@.subrange(0, self.orders@.len() as int) =~= self.orders@);
        }
        r
    }
}

/// The quantity resting at `price` among `v[lo..hi]`, clamped to `u32::MAX`.
pub fn sum_at_price(v: &Vec<Order>, lo: usize, hi: usize, price: u32) -> (r: u32)
    requires
        lo <= hi <= v@.len(),
    ensures
        r == clamp_u32(total_qty(at_price(v@.subrange(lo as int, hi as int), price))),
{
    let mut sum: u32 = 0;
    let mut k: usize = lo;
    while k < hi
        invariant
            lo <= k <= hi <= v@.len(),
            sum == clamp_u32(total_qty(at_price(v@.subrange(lo as int, k as int), price))),
        decreases hi - k,
    {
        let o = v[k];
        proof {
            lemma_at_price_push(v@.subrange(lo as int, k as int), o, price);
            assert(v@.subrange(lo as int, k as int).push(o) =~= v@.subrange(lo as int, k + 1));
        }
        if o.price == price {
            sum = sum.saturating_add(o.qty);
        }
        k += 1;
    }
    sum
}

/// Filtering by price and summing, one order at a time.
pub(crate) proof fn lemma_at_price_push(s: Seq<Order>, o: Order, price: u32)
    ensures
        total_qty(at_price(s.push(o), price)) == total_qty(at_price(s, price)) + (if o.price
            == price {
            o.qty as nat
        } else {
            0nat
        }),
{
    reveal(Seq::filter);
    assert(s.push(o).drop_last() =~= s);
    if o.price == price {
        lemma_total_qty_push(at_price(s, price), o);
        assert(at_price(s.push(o), price) =~= at_price(s, price).push(o));
    } else {
        assert(at_price(s.push(o), price) =~= at_price(s, price));
    }
}

proof fn lemma_total_qty_push(s: Seq<Order>, o: Order)
    ensures
        total_qty(s.push(o)) == total_qty(s) + o.qty,
    decreases s.len(),
{
    if s.len() == 0 {
        assert(s.push(o).drop_first() =~= s);
    } else {
        assert(s.push(o).drop_first() =~= s.drop_first().push(o));
        lemma_total_qty_push(s.drop_first(), o);
    }
}

/// The book: both sides, their best prices, and an index from each
/// resting order's id to its side and price.
pub struct OrderBook {
    pub best_bid_price: Option<u32>,
    pub best_offer_price: Option<u32>,
    pub bid_book: HalfBook,
    pub ask_book: HalfBook,
    pub order_loc: HashMap<u64, (Side, u32)>,
}

/// The best price of a side held in priority order.
pub open spec fn best_of(s: Seq<Order>) -> Option<u32> {
    if s.len() == 0 {
        None
    } else {
        Some(s[0].price)
    }
}

/// Every order of `s` is in `loc` under its side and price.
pub open spec fn indexed(loc: Map<u64, (Side, u32)>, s: Seq<Order>) -> bool {
    forall|k: int|
        0 <= k < s.len() ==> #[trigger] loc.contains_key(s[k].id) && loc[s[k].id] == (
            s[k].side,
            s[k].price,
        )
}

/// Every id in `loc` is that of a resting order on the side it names.
pub open spec fn index_sound(loc: Map<u64, (Side, u32)>, bids: Seq<Order>, asks: Seq<Order>) -> bool {
    forall|id: u64|
        #[trigger] loc.contains_key(id) ==> (if loc[id].0 == Side::Bid {
            has_id(bids, id)
        } else {
            has_id(asks, id)
        })
}

/// The invariant of the two sides and the index: each side in priority
/// order, no resting cross, ids unique, and the index holding exactly the
/// resting orders, each under its side and price.
pub open spec fn sides_wf(bids: Seq<Order>, asks: Seq<Order>, loc: Map<u64, (Side, u32)>) -> bool {
    &&& queue_wf(bids, Side::Bid)
    &&& queue_wf(asks, Side::Ask)
    &&& (bids.len() > 0 && asks.len() > 0 ==> bids[0].price < asks[0].price)
    &&& ids_unique(bids)
    &&& ids_unique(asks)
    &&& indexed(loc, bids)
    &&& indexed(loc, asks)
    &&& index_sound(loc, bids, asks)
}

/// `sides_wf` seen from `side`: `own` is that side's queue, `opp` the other.
pub open spec fn pair_wf(own: Seq<Order>, opp: Seq<Order>, side: Side, loc: Map<u64, (Side, u32)>) -> bool {
    &&& queue_wf(own, side)
    &&& queue_wf(opp, opposite(side))
    &&& (own.len() > 0 && opp.len() > 0 ==> !crosses(side, own[0].price, opp[0].price))
    &&& ids_unique(own)
    &&& ids_unique(opp)
    &&& indexed(loc, own)
    &&& indexed(loc, opp)
    &&& forall|id: u64|
        #[trigger] loc.contains_key(id) ==> (if loc[id].0 == side {
            has_id(own, id)
        } else {
            has_id(opp, id)
        })
}

/// `side`'s queue out of the two.
pub open spec fn sel(side: Side, bids: Seq<Order>, asks: Seq<Order>) -> Seq<Order> {
    match side {
        Side::Bid => bids,
        Side::Ask => asks,
    }
}

proof fn lemma_pair_wf(bids: Seq<Order>, asks: Seq<Order>, side: Side, loc: Map<u64, (Side, u32)>)
    ensures
        sides_wf(bids, asks, loc) == pair_wf(
            sel(side, bids, asks),
            sel(opposite(side), bids, asks),
            side,
            loc,
        ),
{
    if side == Side::Ask {
        assert(sides_wf(bids, asks, loc) ==> pair_wf(asks, bids, side, loc)) by {
            if sides_wf(bids, asks, loc) {
                assert forall|id: u64| #[trigger] loc.contains_key(id) implies (if loc[id].0 == side {
                    has_id(asks, id)
                } else {
                    has_id(bids, id)
                }) by {
                    if loc[id].0 == Side::Bid {
                    } else {
                        assert(loc[id].0 == Side::Ask);
                    }
                }
            }
        }
        assert(pair_wf(asks, bids, side, loc) ==> sides_wf(bids, asks, loc)) by {
            if pair_wf(asks, bids, side, loc) {
                assert forall|id: u64| #[trigger] loc.contains_key(id) implies (if loc[id].0 == Side::Bid {
                    has_id(bids, id)
                } else {
                    has_id(asks, id)
                }) by {
                    if loc[id].0 == Side::Bid {
                    } else {
                        assert(loc[id].0 == Side::Ask);
                    }
                }
            }
        }
    }
}

impl OrderBook {
    pub open spec fn bids(&self) -> Seq<Order> {
        self.bid_book.orders@
    }

    pub open spec fn asks(&self) -> Seq<Order> {
        self.ask_book.orders@
    }

    /// The resting orders of `side`, in priority order.
    pub open spec fn side_orders(&self, side: Side) -> Seq<Order> {
        match side {
            Side::Bid => self.bids(),
            Side::Ask => self.asks(),
        }
    }

    pub open spec fn loc(&self) -> Map<u64, (Side, u32)> {
        self.order_loc@
    }

    /// Whether an order with id `id` rests in the book.
    pub open spec fn contains(&self, id: u64) -> bool {
        self.loc().contains_key(id)
    }

    pub open spec fn wf(&self) -> bool {
        &&& self.bid_book.side == Side::Bid
        &&& self.ask_book.side == Side::Ask
        &&& self.best_bid_price == best_of(self.bids())
        &&& self.best_offer_price == best_of(self.asks())
        &&& sides_wf(self.bids(), self.asks(), self.loc())
    }

    pub fn new() -> (b: OrderBook)
        ensures
            b.wf(),
            b.bids().len() == 0,
            b.asks().len() == 0,
            b.loc().is_empty(),
    {
        OrderBook {
            best_bid_price: None,
            best_offer_price: None,
            bid_book: HalfBook::new(Side::Bid),
            ask_book: HalfBook::new(Side::Ask),
            order_loc: HashMap::new(),
        }
    }

    /// Whether an order with id `order_id` rests in the book.
    pub fn contains_order(&self, order_id: u64) -> (r: bool)
        ensures
            r == self.contains(order_id),
    {
        self.order_loc.contains_key(&order_id)
    }

    /// The best bid, the best ask and the spread between them.
    pub fn get_bbo(&self) -> (r: Result<(u32, u32, u32), BookError>)
        requires
            self.wf(),
        ensures
            match r {
                Ok((bid, ask, spread)) => self.bids().len() > 0 && self.asks().len() > 0
                    && bid == self.bids()[0].price && ask == self.asks()[0].price && spread
                    == ask - bid,
                Err(e) => e == (if self.bids().len() == 0 && self.asks().len() == 0 {
                    BookError::BothSidesEmpty
                } else if self.asks().len() == 0 {
                    BookError::AskSideEmpty
                } else {
                    BookError::BidSideEmpty
                }) && (self.bids().len() == 0 || self.asks().len() == 0),
            },
    {
        match (self.best_bid_price, self.best_offer_price) {
            (None, None) => Err(BookError::BothSidesEmpty),
            (Some(_), None) => Err(BookError::AskSideEmpty),
            (None, Some(_)) => Err(BookError::BidSideEmpty),
            (Some(bid), Some(ask)) => Ok((bid, ask, ask - bid)),
        }
    }

    /// The resting order with id `order_id`, if any.
    pub fn get_order(&self, order_id: u64) -> (r: Option<Order>)
        requires
            self.wf(),
        ensures
            r.is_some() == self.contains(order_id),
            r matches Some(o) ==> o.id == order_id && self.side_orders(o.side).contains(o),
    {
        let (side, _price) = match self.order_loc.get(&order_id) {
            Some(v) => *v,
            None => return None,
        };
        let book = match side {
            Side::Bid => &self.bid_book,
            Side::Ask => &self.ask_book,
        };
        let k = find_id(&book.orders, order_id);
        if k < book.orders.len() {
            Some(book.orders[k])
        } else {
            None
        }
    }
}

/// The position of the order with id `id` in `v`, or `v.len()` if none has it.
fn find_id(v: &Vec<Order>, id: u64) -> (k: usize)
    ensures
        k <= v@.len(),
        k < v@.len() ==> v@[k as int].id == id,
        k == v@.len() <==> !has_id(v@, id),
{
    let mut k: usize = 0;
    while k < v.len()
        invariant
            k <= v@.len(),
            forall|j: int| 0 <= j < k ==> (#[trigger] v@[j]).id != id,
        decreases v@.len() - k,
    {
        if v[k].id == id {
            return k;
        }
        k += 1;
    }
    k
}


/// The fills that an incoming order of `side` with limit `limit` and
/// quantity `qty` gets against the opposite side's queue `q`: resting
/// orders are taken from the front while they cross and quantity is left.
pub open spec fn fills_of(q: Seq<Order>, side: Side, limit: u32, qty: u32) -> Seq<Fill>
    decreases q.len(),
{
    if q.len() == 0 || qty == 0 || !crosses(side, limit, q[0].price) {
        seq![]
    } else if q[0].qty < qty {
        seq![(q[0].id, q[0].qty, q[0].price)] + fills_of(
            q.drop_first(),
            side,
            limit,
            (qty - q[0].qty) as u32,
        )
    } else {
        seq![(q[0].id, qty, q[0].price)]
    }
}

/// The quantity of the incoming order left once matching against `q` stops.
pub open spec fn unfilled(q: Seq<Order>, side: Side, limit: u32, qty: u32) -> u32
    decreases q.len(),
{
    if q.len() == 0 || qty == 0 || !crosses(side, limit, q[0].price) {
        qty
    } else if q[0].qty < qty {
        unfilled(q.drop_first(), side, limit, (qty - q[0].qty) as u32)
    } else {
        0
    }
}

/// The opposite queue once matching against it stops: fully filled orders
/// leave it, a partly filled one keeps its place with less quantity.
pub open spec fn rest_after(q: Seq<Order>, side: Side, limit: u32, qty: u32) -> Seq<Order>
    decreases q.len(),
{
    if q.len() == 0 || qty == 0 || !crosses(side, limit, q[0].price) {
        q
    } else if q[0].qty < qty {
        rest_after(q.drop_first(), side, limit, (qty - q[0].qty) as u32)
    } else if q[0].qty == qty {
        q.drop_first()
    } else {
        q.update(0, Order { qty: (q[0].qty - qty) as u32, ..q[0] })
    }
}

/// The sum of the quantities of `f`.
pub open spec fn fill_total(f: Seq<Fill>) -> nat
    decreases f.len(),
{
    if f.len() == 0 {
        0
    } else {
        f[0].1 as nat + fill_total(f.drop_first())
    }
}

/// Where an order at `price` joins the queue `s` of `side`: behind every
/// order at the same or a better price.
pub open spec fn insert_pos(s: Seq<Order>, side: Side, price: u32) -> nat
    decreases s.len(),
{
    if s.len() == 0 || better(side, price, s[0].price) {
        0
    } else {
        1 + insert_pos(s.drop_first(), side, price)
    }
}

/// The queue `s` with `o` resting in it.
pub open spec fn rest_in(s: Seq<Order>, o: Order) -> Seq<Order> {
    s.insert(insert_pos(s, o.side, o.price) as int, o)
}

/// The status of an order of quantity `qty` of which `remaining` is left.
pub open spec fn status_of(qty: u32, remaining: u32) -> OrderStatus {
    if remaining == qty {
        OrderStatus::Created
    } else if remaining > 0 {
        OrderStatus::PartiallyFilled
    } else {
        OrderStatus::Filled
    }
}

fn crosses_exec(side: Side, limit: u32, price: u32) -> (r: bool)
    ensures
        r == crosses(side, limit, price),
{
    match side {
        Side::Bid => price <= limit,
        Side::Ask => price >= limit,
    }
}

fn better_exec(side: Side, a: u32, b: u32) -> (r: bool)
    ensures
        r == better(side, a, b),
{
    match side {
        Side::Bid => a > b,
        Side::Ask => a < b,
    }
}

proof fn lemma_has_id_take_succ(s: Seq<Order>, n: int, id: u64)
    requires
        0 <= n < s.len(),
    ensures
        has_id(s.take(n + 1), id) == (has_id(s.take(n), id) || s[n].id == id),
{
    if has_id(s.take(n + 1), id) {
        let k = choose|k: int| 0 <= k < s.take(n + 1).len() && (#[trigger] s.take(n + 1)[k]).id == id;
        if k < n {
            assert(s.take(n)[k] == s[k]);
        }
    }
    if has_id(s.take(n), id) {
        let k = choose|k: int| 0 <= k < s.take(n).len() && (#[trigger] s.take(n)[k]).id == id;
        assert(s.take(n + 1)[k] == s[k]);
    }
    if s[n].id == id {
        assert(s.take(n + 1)[n] == s[n]);
    }
}

/// Matches an incoming order against the opposite queue `q`, removing fully
/// filled orders from `q` and from the index.
fn match_orders(
    q: &mut Vec<Order>,
    loc: &mut HashMap<u64, (Side, u32)>,
    side: Side,
    limit: u32,
    qty: u32,
) -> (r: (Vec<Fill>, u32, Ghost<int>))
    ensures
        r.0@ == fills_of(old(q)@, side, limit, qty),
        r.1 == unfilled(old(q)@, side, limit, qty),
        final(q)@ == rest_after(old(q)@, side, limit, qty),
        0 <= r.2@ <= old(q)@.len(),
        final(q)@ == old(q)@.skip(r.2@) || (r.1 == 0 && r.2@ < old(q)@.len() && final(q)@
            == old(q)@.skip(r.2@).update(
            0,
            Order { qty: final(q)@[0].qty, ..old(q)@[r.2@] },
        ) && 0 < final(q)@[0].qty < old(q)@[r.2@].qty),
        r.1 > 0 ==> final(q)@ == old(q)@.skip(r.2@) && (final(q)@.len() == 0 || !crosses(
            side,
            limit,
            final(q)@[0].price,
        )),
        forall|id: u64|
            #[trigger] final(loc)@.contains_key(id) == (old(loc)@.contains_key(id) && !has_id(
                old(q)@.take(r.2@),
                id,
            )),
        forall|id: u64| #[trigger]
            final(loc)@.contains_key(id) ==> final(loc)@[id] == old(loc)@[id],
{
    let ghost q0 = q@;
    let ghost loc0 = loc@;
    let ghost mut n: int = 0;
    let ghost mut partial = false;
    let mut rem: u32 = qty;
    let mut fills: Vec<Fill> = Vec::new();
    while q.len() > 0 && rem > 0 && crosses_exec(side, limit, q[0].price)
        invariant
            0 <= n <= q0.len(),
            fills@ + fills_of(q@, side, limit, rem) == fills_of(q0, side, limit, qty),
            unfilled(q@, side, limit, rem) == unfilled(q0, side, limit, qty),
            rest_after(q@, side, limit, rem) == rest_after(q0, side, limit, qty),
            !partial ==> q@ == q0.skip(n),
            partial ==> rem == 0 && n < q0.len() && q@ == q0.skip(n).update(
                0,
                Order { qty: q@[0].qty, ..q0[n] },
            ) && 0 < q@[0].qty < q0[n].qty,
            forall|id: u64|
                #[trigger] loc@.contains_key(id) == (loc0.contains_key(id) && !has_id(
                    q0.take(n),
                    id,
                )),
            forall|id: u64| #[trigger] loc@.contains_key(id) ==> loc@[id] == loc0[id],
        decreases q@.len(), rem,
    {
        let head = q[0];
        proof {
            assert(q@[0] == q0[n]);
        }
        if head.qty <= rem {
            let ghost qb = q@;
            q.remove(0);
            loc.remove(&head.id);
            fills.push((head.id, head.qty, head.price));
            proof {
                assert(qb.drop_first() =~= q@);
                assert(q@ =~= q0.skip(n + 1));
                assert forall|id: u64| #[trigger]
                    loc@.contains_key(id) == (loc0.contains_key(id) && !has_id(
                        q0.take(n + 1),
                        id,
                    )) by {
                    lemma_has_id_take_succ(q0, n, id);
                }
                if head.qty < rem {
                    assert(fills_of(qb, side, limit, rem) == seq![(head.id, head.qty, head.price)]
                        + fills_of(q@, side, limit, (rem - head.qty) as u32));
                    assert(fills@ =~= fills@.drop_last().push((head.id, head.qty, head.price)));
                } else {
                    assert(fills_of(q@, side, limit, 0) =~= seq![]);
                    assert(fills_of(qb, side, limit, rem) == seq![(head.id, head.qty, head.price)]);
                }
                n = n + 1;
            }
            rem = rem - head.qty;
            proof {
                assert(fills@ + fills_of(q@, side, limit, rem) =~= fills_of(q0, side, limit, qty));
            }
        } else {
            let ghost qb = q@;
            q.set(0, Order { qty: head.qty - rem, ..head });
            fills.push((head.id, rem, head.price));
            proof {
                assert(fills_of(q@, side, limit, 0) =~= seq![]);
                assert(fills_of(qb, side, limit, rem) == seq![(head.id, rem, head.price)]);
                assert(q@ =~= q0.skip(n).update(0, Order { qty: q@[0].qty, ..q0[n] }));
                partial = true;
            }
            rem = 0;
            proof {
                assert(fills@ + fills_of(q@, side, limit, rem) =~= fills_of(q0, side, limit, qty));
            }
        }
    }
    proof {
        assert(fills@ + fills_of(q@, side, limit, rem) =~= fills@);
    }
    (fills, rem, Ghost(n))
}


pub(crate) proof fn lemma_insert_pos(s: Seq<Order>, side: Side, price: u32, i: int)
    requires
        0 <= i <= s.len(),
        forall|j: int| 0 <= j < i ==> !better(side, price, #[trigger] s[j].price),
        i == s.len() || better(side, price, s[i].price),
    ensures
        insert_pos(s, side, price) == i,
    decreases i,
{
    if i > 0 {
        assert(!better(side, price, s[0].price));
        let t = s.drop_first();
        assert forall|j: int| 0 <= j < i - 1 implies !better(side, price, #[trigger] t[j].price) by {
            assert(t[j] == s[j + 1]);
        }
        lemma_insert_pos(t, side, price, i - 1);
    }
}

/// Puts `o` at the back of its price's queue in `h`.
fn rest_order(h: &mut Vec<Order>, o: Order) -> (pos: usize)
    requires
        queue_wf(old(h)@, o.side),
    ensures
        pos == insert_pos(old(h)@, o.side, o.price),
        pos <= old(h)@.len(),
        final(h)@ == old(h)@.insert(pos as int, o),
        forall|k: int| 0 <= k < pos ==> !better(o.side, o.price, #[trigger] old(h)@[k].price),
        forall|k: int|
            pos <= k < old(h)@.len() ==> better(o.side, o.price, #[trigger] old(h)@[k].price),
{
    let mut i: usize = 0;
    while i < h.len() && !better_exec(o.side, o.price, h[i].price)
        invariant
            i <= h@.len(),
            h@ == old(h)@,
            forall|j: int| 0 <= j < i ==> !better(o.side, o.price, #[trigger] h@[j].price),
        decreases h@.len() - i,
    {
        i += 1;
    }
    proof {
        lemma_insert_pos(h@, o.side, o.price, i as int);
        assert forall|k: int| i <= k < h@.len() implies better(o.side, o.price, #[trigger] h@[k].price) by {
            if k > i {
                assert(!better(o.side, h@[k].price, h@[i as int].price));
            }
        }
    }
    h.insert(i, o);
    i
}

fn head_price(v: &Vec<Order>) -> (r: Option<u32>)
    ensures
        r == best_of(v@),
{
    if v.len() == 0 {
        None
    } else {
        Some(v[0].price)
    }
}

/// What matching leaves of the opposite queue `opp0`: the orders from `c` on,
/// the first of them perhaps with less quantity.
pub open spec fn suffix_of(opp1: Seq<Order>, opp0: Seq<Order>, c: int) -> bool {
    &&& 0 <= c <= opp0.len()
    &&& opp1.len() == opp0.len() - c
    &&& forall|k: int|
        0 <= k < opp1.len() ==> (#[trigger] opp1[k]).id == opp0[k + c].id && opp1[k].side
            == opp0[k + c].side && opp1[k].price == opp0[k + c].price && 0 < opp1[k].qty
            <= opp0[k + c].qty
}

/// What matching and resting leave of the two queues and the index.
spec fn add_step(
    own0: Seq<Order>,
    opp0: Seq<Order>,
    loc0: Map<u64, (Side, u32)>,
    own1: Seq<Order>,
    opp1: Seq<Order>,
    locm: Map<u64, (Side, u32)>,
    loc1: Map<u64, (Side, u32)>,
    order: Order,
    remaining: u32,
    c: int,
    pos: int,
) -> bool {
    &&& pair_wf(own0, opp0, order.side, loc0)
    &&& !loc0.contains_key(order.id)
    &&& suffix_of(opp1, opp0, c)
    &&& remaining > 0 ==> opp1.len() == 0 || !crosses(order.side, order.price, opp1[0].price)
    &&& forall|id: u64| #[trigger]
            locm.contains_key(id) == (loc0.contains_key(id) && !has_id(opp0.take(c), id))
    &&& forall|id: u64| #[trigger] locm.contains_key(id) ==> locm[id] == loc0[id]
    &&& remaining == 0 ==> own1 == own0 && loc1 == locm
    &&& remaining > 0 ==> {
            &&& 0 <= pos <= own0.len()
            &&& own1 == own0.insert(pos, Order { qty: remaining, ..order })
            &&& loc1 == locm.insert(order.id, (order.side, order.price))
            &&& forall|k: int| 0 <= k < pos ==> !better(order.side, order.price, #[trigger] own0[k].price)
            &&& forall|k: int| pos <= k < own0.len() ==> better(order.side, order.price, #[trigger] own0[k].price)
        }
}

proof fn lemma_add_opp(
    own0: Seq<Order>,
    opp0: Seq<Order>,
    loc0: Map<u64, (Side, u32)>,
    own1: Seq<Order>,
    opp1: Seq<Order>,
    locm: Map<u64, (Side, u32)>,
    loc1: Map<u64, (Side, u32)>,
    order: Order,
    remaining: u32,
    c: int,
    pos: int,
)
    requires
        add_step(own0, opp0, loc0, own1, opp1, locm, loc1, order, remaining, c, pos),
    ensures
        queue_wf(opp1, opposite(order.side)),
        ids_unique(opp1),
        indexed(loc1, opp1),
{
    let side = order.side;
    let resting = Order { qty: remaining, ..order };
    // the opposite queue
    assert forall|a: int, b: int| 0 <= a < b < opp1.len() implies !better(
        opposite(side),
        #[trigger] opp1[b].price,
        #[trigger] opp1[a].price,
    ) by {
        assert(!better(opposite(side), opp0[b + c].price, opp0[a + c].price));
    }
    assert forall|a: int, b: int| 0 <= a < b < opp1.len() implies (#[trigger] opp1[a]).id != (
    #[trigger] opp1[b]).id by {
        assert(opp0[a + c].id != opp0[b + c].id);
    }
    assert forall|k: int| 0 <= k < opp1.len() implies (#[trigger] opp1[k]).side == opposite(side)
        && opp1[k].qty > 0 by {
        assert(opp0[k + c].side == opposite(side));
    }
    // an id of the opposite queue is never one of its own side
    assert forall|k: int| 0 <= k < opp1.len() implies #[trigger] loc1.contains_key(opp1[k].id)
        && loc1[opp1[k].id] == (opp1[k].side, opp1[k].price) by {
        let id = opp1[k].id;
        assert(opp0[k + c].id == id);
        assert(loc0.contains_key(id));
        if has_id(opp0.take(c), id) {
            let j = choose|j: int| 0 <= j < opp0.take(c).len() && (#[trigger] opp0.take(c)[j]).id == id;
            assert(opp0[j].id == opp0[k + c].id);
        }
        assert(locm.contains_key(id));
        assert(loc0[opp0[k + c].id] == (opp0[k + c].side, opp0[k + c].price));
        assert(id != order.id);
        assert(loc1[id] == locm[id]);
        assert(loc1.contains_key(id));
    }
    assert(queue_wf(opp1, opposite(side)));
    assert(ids_unique(opp1));
    assert(indexed(loc1, opp1));
}

proof fn lemma_add_own(
    own0: Seq<Order>,
    opp0: Seq<Order>,
    loc0: Map<u64, (Side, u32)>,
    own1: Seq<Order>,
    opp1: Seq<Order>,
    locm: Map<u64, (Side, u32)>,
    loc1: Map<u64, (Side, u32)>,
    order: Order,
    remaining: u32,
    c: int,
    pos: int,
)
    requires
        add_step(own0, opp0, loc0, own1, opp1, locm, loc1, order, remaining, c, pos),
    ensures
        queue_wf(own1, order.side),
        ids_unique(own1),
{
    let side = order.side;
    let resting = Order { qty: remaining, ..order };
    // the own queue
    if remaining > 0 {
        assert forall|k: int| 0 <= k < own0.len() implies (#[trigger] own0[k]).id != order.id by {
            assert(loc0.contains_key(own0[k].id));
        }
        assert forall|k: int| 0 <= k < own1.len() implies (#[trigger] own1[k]).side == side
            && own1[k].qty > 0 by {
            if k < pos {
                assert(own1[k] == own0[k]);
            } else if k > pos {
                assert(own1[k] == own0[k - 1]);
            }
        }
        assert forall|a: int, b: int| 0 <= a < b < own1.len() implies !better(
            side,
            #[trigger] own1[b].price,
            #[trigger] own1[a].price,
        ) by {
            if b < pos {
                assert(own1[a] == own0[a] && own1[b] == own0[b]);
            } else if b == pos {
                assert(own1[a] == own0[a]);
            } else if a < pos {
                assert(own1[a] == own0[a] && own1[b] == own0[b - 1]);
            } else if a == pos {
                assert(own1[b] == own0[b - 1]);
            } else {
                assert(own1[a] == own0[a - 1] && own1[b] == own0[b - 1]);
            }
        }
        assert forall|a: int, b: int| 0 <= a < b < own1.len() implies (#[trigger] own1[a]).id != (
        #[trigger] own1[b]).id by {
            if b < pos {
                assert(own1[a] == own0[a] && own1[b] == own0[b]);
            } else if b == pos {
                assert(own1[a] == own0[a]);
            } else if a < pos {
                assert(own1[a] == own0[a] && own1[b] == own0[b - 1]);
            } else if a == pos {
                assert(own1[b] == own0[b - 1]);
            } else {
                assert(own1[a] == own0[a - 1] && own1[b] == own0[b - 1]);
            }
        }
    }
    assert(queue_wf(own1, side));
    assert(ids_unique(own1));
}

proof fn lemma_add_own_indexed(
    own0: Seq<Order>,
    opp0: Seq<Order>,
    loc0: Map<u64, (Side, u32)>,
    own1: Seq<Order>,
    opp1: Seq<Order>,
    locm: Map<u64, (Side, u32)>,
    loc1: Map<u64, (Side, u32)>,
    order: Order,
    remaining: u32,
    c: int,
    pos: int,
)
    requires
        add_step(own0, opp0, loc0, own1, opp1, locm, loc1, order, remaining, c, pos),
    ensures
        indexed(loc1, own1),
{
    let side = order.side;
    let resting = Order { qty: remaining, ..order };
    assert forall|k: int| 0 <= k < own1.len() implies #[trigger] loc1.contains_key(own1[k].id)
        && loc1[own1[k].id] == (own1[k].side, own1[k].price) by {
        let o = own1[k];
        if remaining > 0 && k == pos {
        } else {
            let j = if remaining > 0 && k > pos { k - 1 } else { k };
            assert(own0[j] == o);
            assert(own0[j].side == side);
            assert(loc0.contains_key(own0[j].id));
            assert(loc0.contains_key(o.id) && loc0[o.id].0 == side);
            if has_id(opp0.take(c), o.id) {
                let i = choose|i: int| 0 <= i < opp0.take(c).len() && (#[trigger] opp0.take(c)[i]).id == o.id;
                assert(opp0[i].id == o.id);
                assert(loc0[opp0[i].id].0 == opposite(side));
            }
            assert(locm.contains_key(o.id));
        }
    }
    assert(indexed(loc1, own1));
}

proof fn lemma_add_sound(
    own0: Seq<Order>,
    opp0: Seq<Order>,
    loc0: Map<u64, (Side, u32)>,
    own1: Seq<Order>,
    opp1: Seq<Order>,
    locm: Map<u64, (Side, u32)>,
    loc1: Map<u64, (Side, u32)>,
    order: Order,
    remaining: u32,
    c: int,
    pos: int,
)
    requires
        add_step(own0, opp0, loc0, own1, opp1, locm, loc1, order, remaining, c, pos),
    ensures
        forall|id: u64| #[trigger] loc1.contains_key(id) ==> (if loc1[id].0 == order.side {
            has_id(own1, id)
        } else {
            has_id(opp1, id)
        }),
{
    let side = order.side;
    let resting = Order { qty: remaining, ..order };
    assert forall|id: u64| #[trigger] loc1.contains_key(id) implies (if loc1[id].0 == side {
        has_id(own1, id)
    } else {
        has_id(opp1, id)
    }) by {
        if remaining > 0 && id == order.id {
            assert(own1[pos].id == id);
        } else {
            assert(locm.contains_key(id) && loc1[id] == loc0[id]);
            if loc0[id].0 == side {
                let j = choose|j: int| 0 <= j < own0.len() && (#[trigger] own0[j]).id == id;
                if remaining > 0 && j >= pos {
                    assert(own1[j + 1].id == id);
                } else {
                    assert(own1[j].id == id);
                }
            } else {
                let j = choose|j: int| 0 <= j < opp0.len() && (#[trigger] opp0[j]).id == id;
                if j < c {
                    assert(opp0.take(c)[j].id == id);
                }
                assert(opp1[j - c].id == id);
            }
        }
    }
}

proof fn lemma_add_pair(
    own0: Seq<Order>,
    opp0: Seq<Order>,
    loc0: Map<u64, (Side, u32)>,
    own1: Seq<Order>,
    opp1: Seq<Order>,
    locm: Map<u64, (Side, u32)>,
    loc1: Map<u64, (Side, u32)>,
    order: Order,
    remaining: u32,
    c: int,
    pos: int,
)
    requires
        pair_wf(own0, opp0, order.side, loc0),
        !loc0.contains_key(order.id),
        suffix_of(opp1, opp0, c),
        remaining > 0 ==> opp1.len() == 0 || !crosses(order.side, order.price, opp1[0].price),
        forall|id: u64| #[trigger]
            locm.contains_key(id) == (loc0.contains_key(id) && !has_id(opp0.take(c), id)),
        forall|id: u64| #[trigger] locm.contains_key(id) ==> locm[id] == loc0[id],
        remaining == 0 ==> own1 == own0 && loc1 == locm,
        remaining > 0 ==> {
            &&& 0 <= pos <= own0.len()
            &&& own1 == own0.insert(pos, Order { qty: remaining, ..order })
            &&& loc1 == locm.insert(order.id, (order.side, order.price))
            &&& forall|k: int| 0 <= k < pos ==> !better(order.side, order.price, #[trigger] own0[k].price)
            &&& forall|k: int| pos <= k < own0.len() ==> better(order.side, order.price, #[trigger] own0[k].price)
        },
    ensures
        pair_wf(own1, opp1, order.side, loc1),
{
    lemma_add_opp(own0, opp0, loc0, own1, opp1, locm, loc1, order, remaining, c, pos);
    lemma_add_own(own0, opp0, loc0, own1, opp1, locm, loc1, order, remaining, c, pos);
    lemma_add_own_indexed(own0, opp0, loc0, own1, opp1, locm, loc1, order, remaining, c, pos);
    lemma_add_sound(own0, opp0, loc0, own1, opp1, locm, loc1, order, remaining, c, pos);
    let side = order.side;
    let resting = Order { qty: remaining, ..order };
    // no resting cross
    if own1.len() > 0 && opp1.len() > 0 {
        assert(!better(opposite(side), opp0[c].price, opp0[0].price));
        if remaining > 0 && pos == 0 {
            assert(own1[0] == resting);
        } else {
            assert(own1[0] == own0[0]);
            if remaining > 0 {
                assert(!better(side, order.price, own0[0].price));
            }
        }
    }
}

proof fn lemma_suffix(opp1: Seq<Order>, opp0: Seq<Order>, c: int, side: Side)
    requires
        0 <= c <= opp0.len(),
        queue_wf(opp0, side),
        opp1 == opp0.skip(c) || (c < opp0.len() && opp1 == opp0.skip(c).update(
            0,
            Order { qty: opp1[0].qty, ..opp0[c] },
        ) && 0 < opp1[0].qty < opp0[c].qty),
    ensures
        suffix_of(opp1, opp0, c),
{
    assert forall|k: int| 0 <= k < opp1.len() implies (#[trigger] opp1[k]).id == opp0[k + c].id
        && opp1[k].side == opp0[k + c].side && opp1[k].price == opp0[k + c].price && 0
        < opp1[k].qty <= opp0[k + c].qty by {
        assert(opp0.skip(c)[k] == opp0[k + c]);
        assert(opp0[k + c].qty > 0);
    }
}

/// Matches `order` against `opp` and rests what is left of it in `own`,
/// keeping the index in step.
#[verifier::spinoff_prover]
#[verifier::rlimit(40)]
fn add_to_sides(
    own: &mut Vec<Order>,
    opp: &mut Vec<Order>,
    loc: &mut HashMap<u64, (Side, u32)>,
    order: Order,
) -> (r: (Vec<Fill>, u32))
    requires
        pair_wf(old(own)@, old(opp)@, order.side, old(loc)@),
        order.qty > 0,
        !old(loc)@.contains_key(order.id),
    ensures
        pair_wf(final(own)@, final(opp)@, order.side, final(loc)@),
        r.0@ == fills_of(old(opp)@, order.side, order.price, order.qty),
        r.1 == unfilled(old(opp)@, order.side, order.price, order.qty),
        final(opp)@ == rest_after(old(opp)@, order.side, order.price, order.qty),
        final(own)@ == (if r.1 > 0 {
            rest_in(old(own)@, Order { qty: r.1, ..order })
        } else {
            old(own)@
        }),
        final(loc)@.contains_key(order.id) == (r.1 > 0),
        forall|id: u64| #[trigger]
            final(loc)@.contains_key(id) ==> old(loc)@.contains_key(id) || id == order.id,
{
    let ghost own0 = own@;
    let ghost opp0 = opp@;
    let ghost loc0 = loc@;
    let (fills, remaining, Ghost(c)) = match_orders(opp, loc, order.side, order.price, order.qty);
    let ghost locm = loc@;
    let ghost mut pos: int = 0;
    if remaining > 0 {
        let p = rest_order(own, Order { qty: remaining, ..order });
        proof {
            pos = p as int;
        }
        loc.insert(order.id, (order.side, order.price));
    }
    proof {
        lemma_suffix(opp@, opp0, c, opposite(order.side));
        lemma_add_pair(own0, opp0, loc0, own@, opp@, locm, loc@, order, remaining, c, pos);
        assert(!locm.contains_key(order.id));
    }
    (fills, remaining)
}

impl OrderBook {
    /// Matches `order` against the opposite side, best price first and
    /// oldest first within a price, and rests what is left of it at the back
    /// of its price's queue.
    pub fn add_limit_order(&mut self, order: Order) -> (r: ExecutionReport)
        requires
            old(self).wf(),
            order.qty > 0,
            !old(self).contains(order.id),
        ensures
            final(self).wf(),
            r.own_id == order.id,
            r.own_side == order.side,
            r.filled_orders@ == fills_of(
                old(self).side_orders(opposite(order.side)),
                order.side,
                order.price,
                order.qty,
            ),
            r.remaining_qty == unfilled(
                old(self).side_orders(opposite(order.side)),
                order.side,
                order.price,
                order.qty,
            ),
            r.status == status_of(order.qty, r.remaining_qty),
            final(self).side_orders(opposite(order.side)) == rest_after(
                old(self).side_orders(opposite(order.side)),
                order.side,
                order.price,
                order.qty,
            ),
            final(self).side_orders(order.side) == (if r.remaining_qty > 0 {
                rest_in(
                    old(self).side_orders(order.side),
                    Order { qty: r.remaining_qty, ..order },
                )
            } else {
                old(self).side_orders(order.side)
            }),
            (final(self).bids(), final(self).asks()) == after_add(
                old(self).bids(),
                old(self).asks(),
                order,
            ),
            final(self).contains(order.id) == (r.remaining_qty > 0),
            forall|id: u64| #[trigger]
                final(self).contains(id) ==> old(self).contains(id) || id == order.id,
    {
        proof {
            lemma_pair_wf(self.bids(), self.asks(), order.side, self.loc());
        }
        let (fills, remaining) = match order.side {
            Side::Bid => add_to_sides(
                &mut self.bid_book.orders,
                &mut self.ask_book.orders,
                &mut self.order_loc,
                order,
            ),
            Side::Ask => add_to_sides(
                &mut self.ask_book.orders,
                &mut self.bid_book.orders,
                &mut self.order_loc,
                order,
            ),
        };
        self.best_bid_price = head_price(&self.bid_book.orders);
        self.best_offer_price = head_price(&self.ask_book.orders);
        proof {
            lemma_pair_wf(self.bids(), self.asks(), order.side, self.loc());
        }
        let status = if remaining == order.qty {
            OrderStatus::Created
        } else if remaining > 0 {
            OrderStatus::PartiallyFilled
        } else {
            OrderStatus::Filled
        };
        ExecutionReport {
            own_id: order.id,
            own_side: order.side,
            filled_orders: fills,
            remaining_qty: remaining,
            status,
        }
    }
}

/// `s` without the orders whose id is `id`.
pub open spec fn without_id(s: Seq<Order>, id: u64) -> Seq<Order>
    decreases s.len(),
{
    if s.len() == 0 {
        s
    } else if s[0].id == id {
        without_id(s.drop_first(), id)
    } else {
        seq![s[0]] + without_id(s.drop_first(), id)
    }
}

/// Both sides once the order `id` is cancelled.
pub open spec fn after_cancel(bids: Seq<Order>, asks: Seq<Order>, id: u64) -> (Seq<Order>, Seq<Order>) {
    (without_id(bids, id), without_id(asks, id))
}

/// Both sides once `order` has been matched and what is left of it rested.
pub open spec fn after_add(bids: Seq<Order>, asks: Seq<Order>, order: Order) -> (Seq<Order>, Seq<Order>) {
    let own = sel(order.side, bids, asks);
    let opp = sel(opposite(order.side), bids, asks);
    let rem = unfilled(opp, order.side, order.price, order.qty);
    let opp1 = rest_after(opp, order.side, order.price, order.qty);
    let own1 = if rem > 0 {
        rest_in(own, Order { qty: rem, ..order })
    } else {
        own
    };
    match order.side {
        Side::Bid => (own1, opp1),
        Side::Ask => (opp1, own1),
    }
}

proof fn lemma_without_absent(s: Seq<Order>, id: u64)
    requires
        !has_id(s, id),
    ensures
        without_id(s, id) == s,
    decreases s.len(),
{
    if s.len() > 0 {
        assert(s[0].id != id);
        assert forall|k: int| 0 <= k < s.drop_first().len() implies (#[trigger] s.drop_first()[k]).id != id by {
            assert(s.drop_first()[k] == s[k + 1]);
        }
        lemma_without_absent(s.drop_first(), id);
        assert(seq![s[0]] + s.drop_first() =~= s);
    }
}

proof fn lemma_without_at(s: Seq<Order>, id: u64, k: int)
    requires
        ids_unique(s),
        0 <= k < s.len(),
        s[k].id == id,
    ensures
        without_id(s, id) == s.remove(k),
    decreases s.len(),
{
    let t = s.drop_first();
    assert forall|a: int, b: int| 0 <= a < b < t.len() implies (#[trigger] t[a]).id != (#[trigger] t[b]).id by {
        assert(t[a] == s[a + 1] && t[b] == s[b + 1]);
    }
    if k == 0 {
        assert forall|j: int| 0 <= j < t.len() implies (#[trigger] t[j]).id != id by {
            assert(t[j] == s[j + 1]);
        }
        lemma_without_absent(t, id);
        assert(t =~= s.remove(0));
    } else {
        assert(s[0].id != id);
        assert(t[k - 1] == s[k]);
        lemma_without_at(t, id, k - 1);
        assert(seq![s[0]] + t.remove(k - 1) =~= s.remove(k));
    }
}

proof fn lemma_remove_pair(
    own0: Seq<Order>,
    opp: Seq<Order>,
    side: Side,
    loc0: Map<u64, (Side, u32)>,
    k: int,
)
    requires
        pair_wf(own0, opp, side, loc0),
        0 <= k < own0.len(),
    ensures
        pair_wf(own0.remove(k), opp, side, loc0.remove(own0[k].id)),
        !has_id(opp, own0[k].id),
{
    let id = own0[k].id;
    let own1 = own0.remove(k);
    let loc1 = loc0.remove(id);
    assert(own0[k].side == side);
    assert(loc0.contains_key(own0[k].id));
    assert forall|j: int| 0 <= j < own1.len() implies (#[trigger] own1[j]).side == side
        && own1[j].qty > 0 by {
        if j >= k {
            assert(own1[j] == own0[j + 1]);
        }
    }
    assert forall|a: int, b: int| 0 <= a < b < own1.len() implies !better(
        side,
        #[trigger] own1[b].price,
        #[trigger] own1[a].price,
    ) by {
        if b < k {
        } else if a < k {
            assert(own1[b] == own0[b + 1]);
        } else {
            assert(own1[a] == own0[a + 1] && own1[b] == own0[b + 1]);
        }
    }
    assert forall|a: int, b: int| 0 <= a < b < own1.len() implies (#[trigger] own1[a]).id != (
    #[trigger] own1[b]).id by {
        if b < k {
        } else if a < k {
            assert(own1[b] == own0[b + 1]);
        } else {
            assert(own1[a] == own0[a + 1] && own1[b] == own0[b + 1]);
        }
    }
    assert forall|j: int| 0 <= j < own1.len() implies #[trigger] loc1.contains_key(own1[j].id)
        && loc1[own1[j].id] == (own1[j].side, own1[j].price) by {
        let i = if j < k { j } else { j + 1 };
        assert(own1[j] == own0[i]);
        assert(loc0.contains_key(own0[i].id));
    }
    assert forall|j: int| 0 <= j < opp.len() implies (#[trigger] opp[j]).id != id by {
        assert(loc0.contains_key(opp[j].id));
        assert(opp[j].side == opposite(side));
    }
    assert forall|j: int| 0 <= j < opp.len() implies #[trigger] loc1.contains_key(opp[j].id)
        && loc1[opp[j].id] == (opp[j].side, opp[j].price) by {
        assert(loc0.contains_key(opp[j].id));
    }
    assert forall|i: u64| #[trigger] loc1.contains_key(i) implies (if loc1[i].0 == side {
        has_id(own1, i)
    } else {
        has_id(opp, i)
    }) by {
        assert(loc0.contains_key(i));
        if loc0[i].0 == side {
            let j = choose|j: int| 0 <= j < own0.len() && (#[trigger] own0[j]).id == i;
            if j < k {
                assert(own1[j].id == i);
            } else {
                assert(own1[j - 1].id == i);
            }
        }
    }
    if own1.len() > 0 && opp.len() > 0 {
        if k == 0 {
            assert(own1[0] == own0[1]);
            assert(!better(side, own0[1].price, own0[0].price));
        } else {
            assert(own1[0] == own0[0]);
        }
    }
    assert(queue_wf(own1, side));
    assert(ids_unique(own1));
    assert(indexed(loc1, own1));
    assert(indexed(loc1, opp));
}

/// Removes the order `id`, which rests in `own`, from `own` and the index.
fn cancel_in(
    own: &mut Vec<Order>,
    opp: &Vec<Order>,
    loc: &mut HashMap<u64, (Side, u32)>,
    side: Side,
    id: u64,
)
    requires
        pair_wf(old(own)@, opp@, side, old(loc)@),
        old(loc)@.contains_key(id),
        old(loc)@[id].0 == side,
    ensures
        pair_wf(final(own)@, opp@, side, final(loc)@),
        final(own)@ == without_id(old(own)@, id),
        opp@ == without_id(opp@, id),
        final(loc)@ == old(loc)@.remove(id),
{
    let k = find_id(own, id);
    proof {
        assert(has_id(old(own)@, id));
        lemma_remove_pair(own@, opp@, side, loc@, k as int);
        lemma_without_at(own@, id, k as int);
        lemma_without_absent(opp@, id);
    }
    own.remove(k);
    loc.remove(&id);
}

impl OrderBook {
    /// Cancels the resting order `order_id`. When no order has that id the
    /// book is left as it was and `NotFound` is returned.
    pub fn cancel_order(&mut self, order_id: u64) -> (r: Result<ExecutionReport, BookError>)
        requires
            old(self).wf(),
        ensures
            final(self).wf(),
            r is Err <==> !old(self).contains(order_id),
            r is Err ==> r == Err::<ExecutionReport, BookError>(BookError::NotFound) && *final(self)
                == *old(self),
            r matches Ok(rep) ==> {
                &&& rep.own_id == order_id
                &&& rep.own_side == old(self).loc()[order_id].0
                &&& rep.filled_orders@.len() == 0
                &&& rep.remaining_qty == 0
                &&& rep.status == OrderStatus::Cancelled
                &&& (final(self).bids(), final(self).asks()) == after_cancel(
                    old(self).bids(),
                    old(self).asks(),
                    order_id,
                )
                &&& final(self).loc() == old(self).loc().remove(order_id)
            },
    {
        let ghost bids0 = self.bids();
        let ghost asks0 = self.asks();
        let ghost loc0 = self.loc();
        let side = match self.order_loc.get(&order_id) {
            Some(v) => v.0,
            None => return Err(BookError::NotFound),
        };
        proof {
            lemma_pair_wf(self.bids(), self.asks(), side, self.loc());
        }
        match side {
            Side::Bid => cancel_in(
                &mut self.bid_book.orders,
                &self.ask_book.orders,
                &mut self.order_loc,
                side,
                order_id,
            ),
            Side::Ask => cancel_in(
                &mut self.ask_book.orders,
                &self.bid_book.orders,
                &mut self.order_loc,
                side,
                order_id,
            ),
        }
        self.best_bid_price = head_price(&self.bid_book.orders);
        self.best_offer_price = head_price(&self.ask_book.orders);
        proof {
            lemma_pair_wf(self.bids(), self.asks(), side, self.loc());
            assert(self.loc() == loc0.remove(order_id));
            assert((self.bids(), self.asks()) == after_cancel(bids0, asks0, order_id));
        }
        Ok(
            ExecutionReport {
                own_id: order_id,
                own_side: side,
                filled_orders: Vec::new(),
                remaining_qty: 0,
                status: OrderStatus::Cancelled,
            },
        )
    }

    /// Cancels `order_id` and then adds `new_order`: the amended order
    /// always goes to the back of its price's queue.
    pub fn amend_limit_order(&mut self, order_id: u64, new_order: Order) -> (r: Result<
        ExecutionReport,
        BookError,
    >)
        requires
            old(self).wf(),
            new_order.qty > 0,
            new_order.id == order_id || !old(self).contains(new_order.id),
        ensures
            final(self).wf(),
            r is Err <==> !old(self).contains(order_id),
            r is Err ==> r == Err::<ExecutionReport, BookError>(BookError::NotFound) && *final(self)
                == *old(self),
            r matches Ok(rep) ==> {
                let mid = after_cancel(old(self).bids(), old(self).asks(), order_id);
                let opp = sel(opposite(new_order.side), mid.0, mid.1);
                &&& rep.own_id == new_order.id
                &&& rep.own_side == new_order.side
                &&& rep.filled_orders@ == fills_of(opp, new_order.side, new_order.price, new_order.qty)
                &&& rep.remaining_qty == unfilled(opp, new_order.side, new_order.price, new_order.qty)
                &&& rep.status == status_of(new_order.qty, rep.remaining_qty)
                &&& (final(self).bids(), final(self).asks()) == after_add(mid.0, mid.1, new_order)
            },
    {
        match self.cancel_order(order_id) {
            Err(e) => Err(e),
            Ok(_) => Ok(self.add_limit_order(new_order)),
        }
    }
}

impl Default for OrderBook {
    fn default() -> (b: OrderBook)
        ensures
            b.wf(),
            b.bids().len() == 0,
            b.asks().len() == 0,
    {
        OrderBook::new()
    }
}

} // verus!
