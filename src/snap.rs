//! Rebuilding the book from a depth snapshot while keeping the trader's own
//! orders, and their place in their price's queue.
//!
//! A snapshot only gives the aggregate quantity at each price. Every row is
//! materialised as one synthetic order, except the row at the price of a
//! tracked own order: that level is rebuilt as a synthetic order for the
//! quantity ahead, the own order, and a synthetic order for the quantity
//! behind. When the level shrank, the quantity behind is taken first and
//! only then the quantity ahead; when it grew, the growth goes behind. The
//! snapshot cannot tell a fill ahead from a cancellation behind, so this
//! tail-first split is a modelling choice; `split_queue_with` also offers
//! the head-first split.
use crate::book::{
    after_add, at_price, clamp_u32, crosses, fills_of, has_id, opposite, sel, status_of,
    sum_at_price, total_qty, unfilled, BookError, ExecutionReport, Fill, Order, OrderBook,
    OrderStatus, Side,
};
use vstd::prelude::*;

verus! {

/// One row of a snapshot: the aggregate quantity at a price on a side.
#[derive(PartialEq, Eq, Structural, Debug, Clone, Copy)]
pub struct LimitOrder {
    pub side: Side,
    pub price: u32,
    pub qty: u32,
}

/// A depth snapshot of the market at one exchange epoch.
pub struct Snap {
    pub exch_epoch: u64,
    pub vec: Vec<LimitOrder>,
}

/// No two rows of a snapshot share a side and a price.
pub open spec fn rows_distinct(rows: Seq<LimitOrder>) -> bool {
    forall|a: int, b: int|
        0 <= a < b < rows.len() ==> !((#[trigger] rows[a]).side == (#[trigger] rows[b]).side
            && rows[a].price == rows[b].price)
}

impl Snap {
    pub fn new() -> (s: Snap)
        ensures
            s.exch_epoch == 0,
            s.vec@.len() == 0,
    {
        Snap { exch_epoch: 0, vec: Vec::new() }
    }

    pub fn push(&mut self, item: LimitOrder)
        ensures
            final(self).vec@ == old(self).vec@.push(item),
            final(self).exch_epoch == old(self).exch_epoch,
    {
        self.vec.push(item);
    }

    /// The snapshot at `exch_epoch` with the bid levels `bids` followed by
    /// the ask levels `asks`, each a (price, aggregate quantity) pair.
    pub fn from_levels(exch_epoch: u64, bids: &Vec<(u32, u32)>, asks: &Vec<(u32, u32)>) -> (s: Snap)
        ensures
            s.exch_epoch == exch_epoch,
            s.vec@ == level_rows(bids@, Side::Bid) + level_rows(asks@, Side::Ask),
    {
        let mut vec: Vec<LimitOrder> = Vec::new();
        push_levels(&mut vec, bids, Side::Bid);
        push_levels(&mut vec, asks, Side::Ask);
        Snap { exch_epoch, vec }
    }

    /// Whether no two rows share a side and a price.
    pub fn levels_distinct(&self) -> (r: bool)
        ensures
            r == rows_distinct(self.vec@),
    {
        let n = self.vec.len();
        let mut a: usize = 0;
        while a < n
            invariant
                n == self.vec@.len(),
                a <= n,
                forall|i: int, j: int|
                    0 <= i < a && i < j < n ==> !((#[trigger] self.vec@[i]).side == (
                    #[trigger] self.vec@[j]).side && self.vec@[i].price == self.vec@[j].price),
            decreases n - a,
        {
            let mut b: usize = a + 1;
            while b < n
                invariant
                    n == self.vec@.len(),
                    a < n,
                    a < b <= n,
                    forall|i: int, j: int|
                        0 <= i < a && i < j < n ==> !((#[trigger] self.vec@[i]).side == (
                        #[trigger] self.vec@[j]).side && self.vec@[i].price == self.vec@[j].price),
                    forall|j: int|
                        a < j < b ==> !(self.vec@[a as int].side == (#[trigger] self.vec@[j]).side
                            && self.vec@[a as int].price == self.vec@[j].price),
                decreases n - b,
            {
                if self.vec[a].side == self.vec[b].side && self.vec[a].price == self.vec[b].price {
                    return false;
                }
                b += 1;
            }
            a += 1;
        }
        true
    }
}

/// The rows of `levels` on `side`.
pub open spec fn level_rows(levels: Seq<(u32, u32)>, side: Side) -> Seq<LimitOrder> {
    levels.map_values(|l: (u32, u32)| LimitOrder { side, price: l.0, qty: l.1 })
}

fn push_levels(vec: &mut Vec<LimitOrder>, levels: &Vec<(u32, u32)>, side: Side)
    ensures
        final(vec)@ == old(vec)@ + level_rows(levels@, side),
{
    let mut i: usize = 0;
    while i < levels.len()
        invariant
            i <= levels@.len(),
            vec@ == old(vec)@ + level_rows(levels@.take(i as int), side),
        decreases levels@.len() - i,
    {
        let (price, qty) = levels[i];
        vec.push(LimitOrder { side, price, qty });
        proof {
            assert(level_rows(levels@.take(i + 1), side) =~= level_rows(levels@.take(i as int), side).push(
                LimitOrder { side, price, qty },
            ));
        }
        i += 1;
    }
    proof {
        assert(levels@.take(i as int) =~= levels@);
    }
}

/// The side that an order event's code names: 0 for an ask, 1 for a bid.
pub fn side_from_code(code: u8) -> (r: Option<Side>)
    ensures
        r == (if code == 0 {
            Some(Side::Ask)
        } else if code == 1 {
            Some(Side::Bid)
        } else {
            None::<Side>
        }),
{
    match code {
        0 => Some(Side::Ask),
        1 => Some(Side::Bid),
        _ => None,
    }
}

/// Where an own order sits in its price's queue.
#[derive(PartialEq, Eq, Structural, Debug, Clone, Copy)]
pub struct QueueOffset {
    pub side: Side,
    pub price: u32,
    /// Quantity ahead of the own order at its price.
    pub qty_ahead: u32,
    pub own_qty: u32,
    /// Quantity behind the own order at its price.
    pub qty_behind: u32,
    pub own_id: u64,
}

/// Ids from here on are reserved for synthetic orders; real orders use the
/// ids below.
pub const SYNTHETIC_ID_BASE: u64 = 0x8000_0000_0000_0000;

/// The `i`-th synthetic id.
pub open spec fn synthetic_id(i: int) -> u64 {
    (SYNTHETIC_ID_BASE + i) as u64
}

/// Whether `id` lies in the range reserved for synthetic orders.
pub fn is_synthetic(id: u64) -> (r: bool)
    ensures
        r == (id >= SYNTHETIC_ID_BASE),
{
    id >= SYNTHETIC_ID_BASE
}

fn make_synthetic_id(i: u64) -> (r: u64)
    requires
        i <= u32::MAX as nat + 4,
    ensures
        r == synthetic_id(i as int),
{
    SYNTHETIC_ID_BASE + i
}

/// `o` describes the own order with id `id` at position `k` of `s`.
pub open spec fn offset_at(s: Seq<Order>, k: int, o: QueueOffset) -> bool {
    &&& 0 <= k < s.len()
    &&& s[k].id == o.own_id
    &&& s[k].side == o.side
    &&& s[k].price == o.price
    &&& s[k].qty == o.own_qty
    &&& o.qty_ahead == clamp_u32(total_qty(at_price(s.subrange(0, k), o.price)))
    &&& o.qty_behind == clamp_u32(total_qty(at_price(s.subrange(k + 1, s.len() as int), o.price)))
}

impl OrderBook {
    /// Where the resting order `order_id` sits in its price's queue: the
    /// quantity ahead of it, its own quantity and the quantity behind it.
    pub fn get_offset(&self, order_id: u64) -> (r: Result<QueueOffset, BookError>)
        requires
            self.wf(),
        ensures
            r is Err <==> !self.contains(order_id),
            r is Err ==> r == Err::<QueueOffset, BookError>(BookError::NotFound),
            r matches Ok(o) ==> o.own_id == order_id && o.side == self.loc()[order_id].0
                && exists|k: int| #[trigger] offset_at(self.side_orders(o.side), k, o),
    {
        let (side, price) = match self.order_loc.get(&order_id) {
            Some(v) => *v,
            None => return Err(BookError::NotFound),
        };
        let v = match side {
            Side::Bid => &self.bid_book.orders,
            Side::Ask => &self.ask_book.orders,
        };
        proof {
            assert(v@ == self.side_orders(side));
            assert(has_id(v@, order_id));
        }
        let k = find_order(v, order_id);
        let own = v[k];
        proof {
            assert(self.loc().contains_key(v@[k as int].id));
        }
        let qty_ahead = sum_at_price(v, 0, k, price);
        let n = v.len();
        let qty_behind = sum_at_price(v, k + 1, n, price);
        let o = QueueOffset {
            side,
            price,
            qty_ahead,
            own_qty: own.qty,
            qty_behind,
            own_id: order_id,
        };
        proof {
            assert(offset_at(self.side_orders(o.side), k as int, o));
        }
        Ok(o)
    }
}

/// The position of the order `id`, which `v` holds.
fn find_order(v: &Vec<Order>, id: u64) -> (k: usize)
    requires
        has_id(v@, id),
    ensures
        k < v@.len(),
        v@[k as int].id == id,
{
    let mut k: usize = 0;
    while k < v.len()
        invariant
            k <= v@.len(),
            forall|j: int| 0 <= j < k ==> (#[trigger] v@[j]).id != id,
        decreases v@.len() - k,
    {
        if v[k].id == id {
            return k;
        }
        k += 1;
    }
    proof {
        let j = choose|j: int| 0 <= j < v@.len() && (#[trigger] v@[j]).id == id;
        assert(v@[j].id != id);
    }
    k
}

/// The quantities ahead of and behind an own order once its level's
/// aggregate quantity is `new_qty` (own quantity included). Shrinkage is
/// taken from behind first, then from ahead; growth goes behind.
pub open spec fn split_queue_spec(o: QueueOffset, new_qty: u32) -> (u32, u32) {
    let market: int = if new_qty > o.own_qty {
        new_qty - o.own_qty
    } else {
        0
    };
    let held: int = o.qty_ahead + o.qty_behind;
    if market < held {
        let deficit = held - market;
        let cut: int = if o.qty_behind < deficit {
            o.qty_behind as int
        } else {
            deficit
        };
        ((o.qty_ahead - (deficit - cut)) as u32, (o.qty_behind - cut) as u32)
    } else {
        (o.qty_ahead, (market - o.qty_ahead) as u32)
    }
}

/// The new quantities ahead of and behind the own order of `offset` when
/// its level's aggregate quantity is now `new_qty`.
pub fn split_queue(offset: &QueueOffset, new_qty: u32) -> (r: (u32, u32))
    ensures
        r == split_queue_spec(*offset, new_qty),
        ({
            let market: int = if new_qty > offset.own_qty {
                new_qty - offset.own_qty
            } else {
                0
            };
            &&& r.0 + r.1 == market
            &&& market < offset.qty_ahead + offset.qty_behind ==> r.0 <= offset.qty_ahead && r.1
                <= offset.qty_behind && (r.0 < offset.qty_ahead ==> r.1 == 0)
            &&& market >= offset.qty_ahead + offset.qty_behind ==> r.0 == offset.qty_ahead
        }),
{
    let market: u64 = if new_qty > offset.own_qty {
        (new_qty - offset.own_qty) as u64
    } else {
        0
    };
    let ahead = offset.qty_ahead as u64;
    let behind = offset.qty_behind as u64;
    if market < ahead + behind {
        let deficit = ahead + behind - market;
        let cut = if behind < deficit {
            behind
        } else {
            deficit
        };
        ((ahead - (deficit - cut)) as u32, (behind - cut) as u32)
    } else {
        (offset.qty_ahead, (market - ahead) as u32)
    }
}

/// How a shrinking level's deficit is split between the quantity ahead of
/// and behind an own order. Growth always goes behind.
#[derive(PartialEq, Eq, Structural, Debug, Clone, Copy)]
pub enum SplitPolicy {
    /// Take the deficit from behind first, then from ahead.
    BehindFirst,
    /// Take the deficit from ahead first, then from behind.
    AheadFirst,
}

pub open spec fn split_with_spec(o: QueueOffset, new_qty: u32, policy: SplitPolicy) -> (u32, u32) {
    match policy {
        SplitPolicy::BehindFirst => split_queue_spec(o, new_qty),
        SplitPolicy::AheadFirst => {
            let market: int = if new_qty > o.own_qty {
                new_qty - o.own_qty
            } else {
                0
            };
            let held: int = o.qty_ahead + o.qty_behind;
            if market < held {
                let deficit = held - market;
                let cut: int = if o.qty_ahead < deficit {
                    o.qty_ahead as int
                } else {
                    deficit
                };
                ((o.qty_ahead - cut) as u32, (o.qty_behind - (deficit - cut)) as u32)
            } else {
                (o.qty_ahead, (market - o.qty_ahead) as u32)
            }
        },
    }
}

/// The new quantities ahead of and behind the own order of `offset` when
/// its level's aggregate quantity is now `new_qty`, under `policy`.
pub fn split_queue_with(offset: &QueueOffset, new_qty: u32, policy: SplitPolicy) -> (r: (u32, u32))
    ensures
        r == split_with_spec(*offset, new_qty, policy),
{
    match policy {
        SplitPolicy::BehindFirst => split_queue(offset, new_qty),
        SplitPolicy::AheadFirst => {
            let market: u64 = if new_qty > offset.own_qty {
                (new_qty - offset.own_qty) as u64
            } else {
                0
            };
            let ahead = offset.qty_ahead as u64;
            let behind = offset.qty_behind as u64;
            if market < ahead + behind {
                let deficit = ahead + behind - market;
                let cut = if ahead < deficit {
                    ahead
                } else {
                    deficit
                };
                ((ahead - cut) as u32, (behind - (deficit - cut)) as u32)
            } else {
                (offset.qty_ahead, (market - ahead) as u32)
            }
        },
    }
}

/// Whether the injection policy places `order`: always when fills are
/// allowed, otherwise only when it does not cross the opposite side.
pub open spec fn injects(bids: Seq<Order>, asks: Seq<Order>, order: Order, allow_fill: bool) -> bool {
    let opp = sel(opposite(order.side), bids, asks);
    allow_fill || opp.len() == 0 || !crosses(order.side, order.price, opp[0].price)
}

/// Both sides once the policy has dealt with `order`.
pub open spec fn inject(bids: Seq<Order>, asks: Seq<Order>, order: Order, allow_fill: bool) -> (
    Seq<Order>,
    Seq<Order>,
) {
    if injects(bids, asks, order, allow_fill) {
        after_add(bids, asks, order)
    } else {
        (bids, asks)
    }
}

/// The fills of the report on placing `order` under the policy.
pub open spec fn placed_fills(bids: Seq<Order>, asks: Seq<Order>, order: Order, allow_fill: bool) -> Seq<Fill> {
    if injects(bids, asks, order, allow_fill) {
        fills_of(sel(opposite(order.side), bids, asks), order.side, order.price, order.qty)
    } else {
        seq![]
    }
}

/// The remaining quantity of the report on placing `order` under the
/// policy; the empty report of a declined order holds zero.
pub open spec fn placed_remaining(bids: Seq<Order>, asks: Seq<Order>, order: Order, allow_fill: bool) -> u32 {
    if injects(bids, asks, order, allow_fill) {
        unfilled(sel(opposite(order.side), bids, asks), order.side, order.price, order.qty)
    } else {
        0
    }
}

/// The subject id of the report on placing `order` under the policy; the
/// empty report of a declined order names id 0.
pub open spec fn placed_id(bids: Seq<Order>, asks: Seq<Order>, order: Order, allow_fill: bool) -> u64 {
    if injects(bids, asks, order, allow_fill) {
        order.id
    } else {
        0
    }
}

/// The subject side of the report on placing `order` under the policy; the
/// empty report of a declined order names the bid side.
pub open spec fn placed_side(bids: Seq<Order>, asks: Seq<Order>, order: Order, allow_fill: bool) -> Side {
    if injects(bids, asks, order, allow_fill) {
        order.side
    } else {
        Side::Bid
    }
}

/// The status of the report on placing `order` under the policy:
/// `Uninitialized` when the policy leaves it out.
pub open spec fn placed_status(bids: Seq<Order>, asks: Seq<Order>, order: Order, allow_fill: bool) -> OrderStatus {
    if injects(bids, asks, order, allow_fill) {
        status_of(order.qty, placed_remaining(bids, asks, order, allow_fill))
    } else {
        OrderStatus::Uninitialized
    }
}

/// Places an own order under the injection policy: with `allow_fill` it may
/// trade against the opposite side at once; without, it is placed only
/// where it rests passively, and otherwise left out, in which case the
/// report is the empty one: id 0, bid side, no fills, nothing remaining,
/// `Uninitialized`.
pub fn place_body(ob: &mut OrderBook, order: Order, allow_fill: bool) -> (r: ExecutionReport)
    requires
        old(ob).wf(),
        order.qty > 0,
        !old(ob).contains(order.id),
    ensures
        final(ob).wf(),
        (final(ob).bids(), final(ob).asks()) == inject(
            old(ob).bids(),
            old(ob).asks(),
            order,
            allow_fill,
        ),
        r.own_id == placed_id(old(ob).bids(), old(ob).asks(), order, allow_fill),
        r.own_side == placed_side(old(ob).bids(), old(ob).asks(), order, allow_fill),
        r.filled_orders@ == placed_fills(old(ob).bids(), old(ob).asks(), order, allow_fill),
        r.remaining_qty == placed_remaining(old(ob).bids(), old(ob).asks(), order, allow_fill),
        r.status == placed_status(old(ob).bids(), old(ob).asks(), order, allow_fill),
        !allow_fill && injects(old(ob).bids(), old(ob).asks(), order, allow_fill) ==> r.filled_orders@.len()
            == 0 && r.remaining_qty == order.qty && r.status == OrderStatus::Created,
        final(ob).contains(order.id) == (r.status == OrderStatus::Created || r.status
            == OrderStatus::PartiallyFilled),
        forall|id: u64| #[trigger]
            final(ob).contains(id) ==> old(ob).contains(id) || id == order.id,
{
    let crossing = match order.side {
        Side::Bid => match ob.best_offer_price {
            Some(ask) => ask <= order.price,
            None => false,
        },
        Side::Ask => match ob.best_bid_price {
            Some(bid) => bid >= order.price,
            None => false,
        },
    };
    if allow_fill || !crossing {
        let r = ob.add_limit_order(order);
        proof {
            let opp = sel(opposite(order.side), old(ob).bids(), old(ob).asks());
            if !allow_fill {
                assert(fills_of(opp, order.side, order.price, order.qty) =~= seq![]);
            }
        }
        r
    } else {
        ExecutionReport {
            own_id: 0,
            own_side: Side::Bid,
            filled_orders: Vec::new(),
            remaining_qty: 0,
            status: OrderStatus::Uninitialized,
        }
    }
}

/// The own order that the offset `o` describes.
pub open spec fn own_order(o: QueueOffset) -> Order {
    Order { id: o.own_id, side: o.side, price: o.price, qty: o.own_qty }
}

/// Both sides once the filler ahead of the own order of `o` is in place,
/// just before the own order is placed.
pub open spec fn before_own(
    bids: Seq<Order>,
    asks: Seq<Order>,
    o: QueueOffset,
    new_qty: u32,
    ahead_id: u64,
) -> (Seq<Order>, Seq<Order>) {
    before_own_with(bids, asks, o, new_qty, ahead_id, SplitPolicy::BehindFirst)
}

/// `before_own` with the level split under `policy`.
pub open spec fn before_own_with(
    bids: Seq<Order>,
    asks: Seq<Order>,
    o: QueueOffset,
    new_qty: u32,
    ahead_id: u64,
    policy: SplitPolicy,
) -> (Seq<Order>, Seq<Order>) {
    let split = split_with_spec(o, new_qty, policy);
    if split.0 > 0 {
        after_add(bids, asks, Order { id: ahead_id, side: o.side, price: o.price, qty: split.0 })
    } else {
        (bids, asks)
    }
}

/// Both sides once the level of the own order of `o` is rebuilt for an
/// aggregate quantity `new_qty`: filler ahead, own order, filler behind.
pub open spec fn rebuild_level(
    bids: Seq<Order>,
    asks: Seq<Order>,
    o: QueueOffset,
    new_qty: u32,
    allow_fill: bool,
    ahead_id: u64,
    behind_id: u64,
) -> (Seq<Order>, Seq<Order>) {
    rebuild_level_with(bids, asks, o, new_qty, allow_fill, ahead_id, behind_id, SplitPolicy::BehindFirst)
}

/// `rebuild_level` with the level split under `policy`.
pub open spec fn rebuild_level_with(
    bids: Seq<Order>,
    asks: Seq<Order>,
    o: QueueOffset,
    new_qty: u32,
    allow_fill: bool,
    ahead_id: u64,
    behind_id: u64,
    policy: SplitPolicy,
) -> (Seq<Order>, Seq<Order>) {
    let split = split_with_spec(o, new_qty, policy);
    let m1 = before_own_with(bids, asks, o, new_qty, ahead_id, policy);
    let m2 = inject(m1.0, m1.1, own_order(o), allow_fill);
    if split.1 > 0 {
        after_add(m2.0, m2.1, Order { id: behind_id, side: o.side, price: o.price, qty: split.1 })
    } else {
        m2
    }
}

/// Rebuilds the level of the own order of `offset` for an aggregate
/// quantity `new_qty`, placing the own order under the injection policy.
pub fn place_head_tail(
    ob: &mut OrderBook,
    offset: QueueOffset,
    new_qty: u32,
    allow_fill: bool,
    ahead_id: u64,
    behind_id: u64,
) -> (r: ExecutionReport)
    requires
        old(ob).wf(),
        offset.own_qty > 0,
        ahead_id != behind_id,
        ahead_id != offset.own_id,
        behind_id != offset.own_id,
        !old(ob).contains(ahead_id),
        !old(ob).contains(behind_id),
        !old(ob).contains(offset.own_id),
    ensures
        final(ob).wf(),
        (final(ob).bids(), final(ob).asks()) == rebuild_level(
            old(ob).bids(),
            old(ob).asks(),
            offset,
            new_qty,
            allow_fill,
            ahead_id,
            behind_id,
        ),
        ({
            let m1 = before_own(old(ob).bids(), old(ob).asks(), offset, new_qty, ahead_id);
            &&& r.own_id == placed_id(m1.0, m1.1, own_order(offset), allow_fill)
            &&& r.own_side == placed_side(m1.0, m1.1, own_order(offset), allow_fill)
            &&& r.filled_orders@ == placed_fills(m1.0, m1.1, own_order(offset), allow_fill)
            &&& r.remaining_qty == placed_remaining(m1.0, m1.1, own_order(offset), allow_fill)
            &&& r.status == placed_status(m1.0, m1.1, own_order(offset), allow_fill)
        }),
        r.status == OrderStatus::Filled ==> !final(ob).contains(offset.own_id),
        forall|id: u64| #[trigger]
            final(ob).contains(id) ==> old(ob).contains(id) || id == ahead_id || id
                == offset.own_id || id == behind_id,
{
    place_head_tail_with(ob, offset, new_qty, allow_fill, ahead_id, behind_id, SplitPolicy::BehindFirst)
}

/// Rebuilds the level of the own order of `offset` for an aggregate
/// quantity `new_qty` with the level split under `policy`, placing the own
/// order under the injection policy.
pub fn place_head_tail_with(
    ob: &mut OrderBook,
    offset: QueueOffset,
    new_qty: u32,
    allow_fill: bool,
    ahead_id: u64,
    behind_id: u64,
    policy: SplitPolicy,
) -> (r: ExecutionReport)
    requires
        old(ob).wf(),
        offset.own_qty > 0,
        ahead_id != behind_id,
        ahead_id != offset.own_id,
        behind_id != offset.own_id,
        !old(ob).contains(ahead_id),
        !old(ob).contains(behind_id),
        !old(ob).contains(offset.own_id),
    ensures
        final(ob).wf(),
        (final(ob).bids(), final(ob).asks()) == rebuild_level_with(
            old(ob).bids(),
            old(ob).asks(),
            offset,
            new_qty,
            allow_fill,
            ahead_id,
            behind_id,
            policy,
        ),
        ({
            let m1 = before_own_with(old(ob).bids(), old(ob).asks(), offset, new_qty, ahead_id, policy);
            &&& r.own_id == placed_id(m1.0, m1.1, own_order(offset), allow_fill)
            &&& r.own_side == placed_side(m1.0, m1.1, own_order(offset), allow_fill)
            &&& r.filled_orders@ == placed_fills(m1.0, m1.1, own_order(offset), allow_fill)
            &&& r.remaining_qty == placed_remaining(m1.0, m1.1, own_order(offset), allow_fill)
            &&& r.status == placed_status(m1.0, m1.1, own_order(offset), allow_fill)
        }),
        r.status == OrderStatus::Filled ==> !final(ob).contains(offset.own_id),
        forall|id: u64| #[trigger]
            final(ob).contains(id) ==> old(ob).contains(id) || id == ahead_id || id
                == offset.own_id || id == behind_id,
{
    let (ahead, behind) = split_queue_with(&offset, new_qty, policy);
    if ahead > 0 {
        let _ = ob.add_limit_order(
            Order { id: ahead_id, side: offset.side, price: offset.price, qty: ahead },
        );
    }
    let own = Order {
        id: offset.own_id,
        side: offset.side,
        price: offset.price,
        qty: offset.own_qty,
    };
    let report = place_body(ob, own, allow_fill);
    if behind > 0 {
        let _ = ob.add_limit_order(
            Order { id: behind_id, side: offset.side, price: offset.price, qty: behind },
        );
    }
    report
}

/// Whether `r` is the row of the level of a tracked own order.
pub open spec fn is_own_row(r: LimitOrder, bid: Option<QueueOffset>, ask: Option<QueueOffset>) -> bool {
    ||| (bid matches Some(o) && r.side == Side::Bid && r.price == o.price)
    ||| (ask matches Some(o) && r.side == Side::Ask && r.price == o.price)
}

/// The synthetic order that the `i`-th row becomes.
pub open spec fn row_order(rows: Seq<LimitOrder>, i: int) -> Order {
    Order { id: synthetic_id(i), side: rows[i].side, price: rows[i].price, qty: rows[i].qty }
}

/// Both sides once the first `k` rows are materialised, leaving out the rows
/// of tracked levels and empty rows.
pub open spec fn place_rows(
    rows: Seq<LimitOrder>,
    bid: Option<QueueOffset>,
    ask: Option<QueueOffset>,
    k: nat,
) -> (Seq<Order>, Seq<Order>)
    decreases k,
{
    if k == 0 {
        (seq![], seq![])
    } else {
        let m = place_rows(rows, bid, ask, (k - 1) as nat);
        let r = rows[k - 1];
        if r.qty > 0 && !is_own_row(r, bid, ask) {
            after_add(m.0, m.1, row_order(rows, k - 1))
        } else {
            m
        }
    }
}

/// The aggregate quantity that `rows` give at `price` on `side`; zero when
/// the level is not among them.
pub open spec fn level_qty(rows: Seq<LimitOrder>, side: Side, price: u32) -> u32
    decreases rows.len(),
{
    if rows.len() == 0 {
        0
    } else if rows[0].side == side && rows[0].price == price {
        rows[0].qty
    } else {
        level_qty(rows.drop_first(), side, price)
    }
}

/// Both sides once the rows are materialised, before any own level is rebuilt.
pub open spec fn bid_base(rows: Seq<LimitOrder>, bid: Option<QueueOffset>, ask: Option<QueueOffset>) -> (
    Seq<Order>,
    Seq<Order>,
) {
    place_rows(rows, bid, ask, rows.len())
}

/// Both sides once the rows are materialised and the own bid's level, if
/// any, is rebuilt.
pub open spec fn ask_base(
    rows: Seq<LimitOrder>,
    bid: Option<QueueOffset>,
    ask: Option<QueueOffset>,
    allow_fill: bool,
) -> (Seq<Order>, Seq<Order>) {
    ask_base_with(rows, bid, ask, allow_fill, SplitPolicy::BehindFirst)
}

/// `ask_base` with levels split under `policy`.
pub open spec fn ask_base_with(
    rows: Seq<LimitOrder>,
    bid: Option<QueueOffset>,
    ask: Option<QueueOffset>,
    allow_fill: bool,
    policy: SplitPolicy,
) -> (Seq<Order>, Seq<Order>) {
    let n = rows.len() as int;
    let m0 = bid_base(rows, bid, ask);
    match bid {
        Some(o) => rebuild_level_with(
            m0.0,
            m0.1,
            o,
            level_qty(rows, Side::Bid, o.price),
            allow_fill,
            synthetic_id(n),
            synthetic_id(n + 1),
            policy,
        ),
        None => m0,
    }
}

/// Both sides of the book rebuilt from `rows` with the own orders of `bid`
/// and `ask`.
pub open spec fn reconciled(
    rows: Seq<LimitOrder>,
    bid: Option<QueueOffset>,
    ask: Option<QueueOffset>,
    allow_fill: bool,
) -> (Seq<Order>, Seq<Order>) {
    reconciled_with(rows, bid, ask, allow_fill, SplitPolicy::BehindFirst)
}

/// `reconciled` with levels split under `policy`.
pub open spec fn reconciled_with(
    rows: Seq<LimitOrder>,
    bid: Option<QueueOffset>,
    ask: Option<QueueOffset>,
    allow_fill: bool,
    policy: SplitPolicy,
) -> (Seq<Order>, Seq<Order>) {
    let n = rows.len() as int;
    let m1 = ask_base_with(rows, bid, ask, allow_fill, policy);
    match ask {
        Some(o) => rebuild_level_with(
            m1.0,
            m1.1,
            o,
            level_qty(rows, Side::Ask, o.price),
            allow_fill,
            synthetic_id(n + 2),
            synthetic_id(n + 3),
            policy,
        ),
        None => m1,
    }
}

/// `rep` is the report on the own order of `o` on `side` after the
/// rebuild that produced `book`: it names the own order and its side, it
/// has the fills and the quantity left of the order's placement, and its
/// status is `Filled` when the order is no longer in `book`, the
/// placement's status otherwise.
pub open spec fn own_report_ok(
    rep: ExecutionReport,
    book: OrderBook,
    rows: Seq<LimitOrder>,
    bid: Option<QueueOffset>,
    ask: Option<QueueOffset>,
    allow_fill: bool,
    side: Side,
) -> bool {
    own_report_ok_with(rep, book, rows, bid, ask, allow_fill, side, SplitPolicy::BehindFirst)
}

/// `own_report_ok` with levels split under `policy`.
pub open spec fn own_report_ok_with(
    rep: ExecutionReport,
    book: OrderBook,
    rows: Seq<LimitOrder>,
    bid: Option<QueueOffset>,
    ask: Option<QueueOffset>,
    allow_fill: bool,
    side: Side,
    policy: SplitPolicy,
) -> bool {
    let n = rows.len() as int;
    let o = if side == Side::Bid { bid->0 } else { ask->0 };
    let base = if side == Side::Bid {
        bid_base(rows, bid, ask)
    } else {
        ask_base_with(rows, bid, ask, allow_fill, policy)
    };
    let ahead_id = if side == Side::Bid { synthetic_id(n) } else { synthetic_id(n + 2) };
    let m1 = before_own_with(base.0, base.1, o, level_qty(rows, side, o.price), ahead_id, policy);
    let own = own_order(o);
    &&& rep.own_id == o.own_id
    &&& rep.own_side == side
    &&& rep.filled_orders@ == placed_fills(m1.0, m1.1, own, allow_fill)
    &&& rep.remaining_qty == placed_remaining(m1.0, m1.1, own, allow_fill)
    &&& rep.status == (if book.contains(o.own_id) {
        placed_status(m1.0, m1.1, own, allow_fill)
    } else {
        OrderStatus::Filled
    })
}

/// An offset that `next_snap` can take for `side`.
pub open spec fn offset_ok(o: Option<QueueOffset>, side: Side) -> bool {
    o matches Some(q) ==> q.side == side && q.own_qty > 0 && q.own_id < SYNTHETIC_ID_BASE
}

fn own_row(r: LimitOrder, bid: Option<QueueOffset>, ask: Option<QueueOffset>) -> (b: bool)
    ensures
        b == is_own_row(r, bid, ask),
{
    let on_bid = match bid {
        Some(o) => r.side == Side::Bid && r.price == o.price,
        None => false,
    };
    let on_ask = match ask {
        Some(o) => r.side == Side::Ask && r.price == o.price,
        None => false,
    };
    on_bid || on_ask
}

fn find_level_qty(rows: &Vec<LimitOrder>, side: Side, price: u32) -> (q: u32)
    ensures
        q == level_qty(rows@, side, price),
{
    let mut i: usize = 0;
    proof {
        assert(rows@.skip(0) =~= rows@);
    }
    while i < rows.len()
        invariant
            i <= rows@.len(),
            level_qty(rows@.skip(i as int), side, price) == level_qty(rows@, side, price),
        decreases rows@.len() - i,
    {
        proof {
            assert(rows@.skip(i as int).drop_first() =~= rows@.skip(i + 1));
        }
        if rows[i].side == side && rows[i].price == price {
            return rows[i].qty;
        }
        i += 1;
    }
    0
}

/// A book holding one synthetic order for each row of `rows`, but for empty
/// rows and the rows of tracked levels.
fn place_order_from_snap(
    rows: &Vec<LimitOrder>,
    bid: Option<QueueOffset>,
    ask: Option<QueueOffset>,
) -> (ob: OrderBook)
    requires
        rows@.len() <= u32::MAX,
    ensures
        ob.wf(),
        (ob.bids(), ob.asks()) == place_rows(rows@, bid, ask, rows@.len()),
        forall|id: u64| #[trigger]
            ob.contains(id) ==> SYNTHETIC_ID_BASE <= id < synthetic_id(rows@.len() as int),
{
    let mut ob = OrderBook::new();
    let mut i: usize = 0;
    while i < rows.len()
        invariant
            i <= rows@.len() <= u32::MAX,
            ob.wf(),
            (ob.bids(), ob.asks()) == place_rows(rows@, bid, ask, i as nat),
            forall|id: u64| #[trigger] ob.contains(id) ==> SYNTHETIC_ID_BASE <= id < synthetic_id(i as int),
        decreases rows@.len() - i,
    {
        let r = rows[i];
        if r.qty > 0 && !own_row(r, bid, ask) {
            let id = make_synthetic_id(i as u64);
            let _ = ob.add_limit_order(Order { id, side: r.side, price: r.price, qty: r.qty });
        }
        i += 1;
    }
    ob
}

/// Rebuilds the book from the snapshot `snap`, keeping the tracked own
/// orders of `offsets` (bid, ask) with their queue positions. Returns the
/// book and, for each tracked side, the report of its own order, whose
/// status is `Filled` exactly when the order is no longer in the book.
pub fn next_snap(
    snap: Snap,
    offsets: (Option<QueueOffset>, Option<QueueOffset>),
    allow_fill: bool,
) -> (r: (OrderBook, Option<ExecutionReport>, Option<ExecutionReport>))
    requires
        rows_distinct(snap.vec@),
        snap.vec@.len() <= u32::MAX,
        offset_ok(offsets.0, Side::Bid),
        offset_ok(offsets.1, Side::Ask),
        offsets.0 is Some && offsets.1 is Some ==> offsets.0->0.own_id != offsets.1->0.own_id,
    ensures
        r.0.wf(),
        (r.0.bids(), r.0.asks()) == reconciled(snap.vec@, offsets.0, offsets.1, allow_fill),
        r.1 is Some == offsets.0 is Some,
        r.2 is Some == offsets.1 is Some,
        r.1 matches Some(rep) ==> own_report_ok(rep, r.0, snap.vec@, offsets.0, offsets.1, allow_fill, Side::Bid)
            && (rep.status == OrderStatus::Filled) == !r.0.contains(rep.own_id),
        r.2 matches Some(rep) ==> own_report_ok(rep, r.0, snap.vec@, offsets.0, offsets.1, allow_fill, Side::Ask)
            && (rep.status == OrderStatus::Filled) == !r.0.contains(rep.own_id),
{
    next_snap_with(snap, offsets, allow_fill, SplitPolicy::BehindFirst)
}

/// The report on the own order `own_id` of `side` from its placement
/// report `rep`: it names the order and its side, keeps the placement's
/// fills and quantity left, and says `Filled` when the order is gone from
/// `ob`.
fn own_report(rep: ExecutionReport, ob: &OrderBook, own_id: u64, side: Side) -> (r: ExecutionReport)
    ensures
        r.own_id == own_id,
        r.own_side == side,
        r.filled_orders@ == rep.filled_orders@,
        r.remaining_qty == rep.remaining_qty,
        r.status == (if ob.contains(own_id) {
            rep.status
        } else {
            OrderStatus::Filled
        }),
{
    let mut r = rep;
    r.own_id = own_id;
    r.own_side = side;
    if !ob.contains_order(own_id) {
        r.status = OrderStatus::Filled;
    }
    r
}

/// `next_snap` with each tracked level split under `policy`: rebuilds the
/// book from the snapshot `snap`, keeping the tracked own orders of `offsets` (bid, ask) with their queue positions. Returns the
/// book and, for each tracked side, the report of its own order, whose
/// status is `Filled` exactly when the order is no longer in the book.
pub fn next_snap_with(
    snap: Snap,
    offsets: (Option<QueueOffset>, Option<QueueOffset>),
    allow_fill: bool,
    policy: SplitPolicy,
) -> (r: (OrderBook, Option<ExecutionReport>, Option<ExecutionReport>))
    requires
        rows_distinct(snap.vec@),
        snap.vec@.len() <= u32::MAX,
        offset_ok(offsets.0, Side::Bid),
        offset_ok(offsets.1, Side::Ask),
        offsets.0 is Some && offsets.1 is Some ==> offsets.0->0.own_id != offsets.1->0.own_id,
    ensures
        r.0.wf(),
        (r.0.bids(), r.0.asks()) == reconciled_with(snap.vec@, offsets.0, offsets.1, allow_fill, policy),
        r.1 is Some == offsets.0 is Some,
        r.2 is Some == offsets.1 is Some,
        r.1 matches Some(rep) ==> own_report_ok_with(rep, r.0, snap.vec@, offsets.0, offsets.1, allow_fill, Side::Bid, policy)
            && (rep.status == OrderStatus::Filled) == !r.0.contains(rep.own_id),
        r.2 matches Some(rep) ==> own_report_ok_with(rep, r.0, snap.vec@, offsets.0, offsets.1, allow_fill, Side::Ask, policy)
            && (rep.status == OrderStatus::Filled) == !r.0.contains(rep.own_id),
{
    let rows = &snap.vec;
    let n = rows.len() as u64;
    let mut ob = place_order_from_snap(rows, offsets.0, offsets.1);
    let mut rep_bid: Option<ExecutionReport> = None;
    let mut rep_ask: Option<ExecutionReport> = None;
    match offsets.0 {
        Some(o) => {
            let new_qty = find_level_qty(rows, Side::Bid, o.price);
            let rep = place_head_tail_with(
                &mut ob,
                o,
                new_qty,
                allow_fill,
                make_synthetic_id(n),
                make_synthetic_id(n + 1),
                policy,
            );
            rep_bid = Some(rep);
        },
        None => {},
    }
    let ghost after_bid = ob.loc();
    match offsets.1 {
        Some(o) => {
            proof {
                assert(!ob.contains(synthetic_id(n + 2)));
                assert(!ob.contains(synthetic_id(n + 3)));
                assert(!ob.contains(o.own_id));
            }
            let new_qty = find_level_qty(rows, Side::Ask, o.price);
            let rep = place_head_tail_with(
                &mut ob,
                o,
                new_qty,
                allow_fill,
                make_synthetic_id(n + 2),
                make_synthetic_id(n + 3),
                policy,
            );
            rep_ask = Some(rep);
        },
        None => {},
    }
    let rep_bid = match (rep_bid, offsets.0) {
        (Some(rep), Some(o)) => Some(own_report(rep, &ob, o.own_id, Side::Bid)),
        _ => None,
    };
    let rep_ask = match (rep_ask, offsets.1) {
        (Some(rep), Some(o)) => Some(own_report(rep, &ob, o.own_id, Side::Ask)),
        _ => None,
    };
    (ob, rep_bid, rep_ask)
}

/// `o` is the offset of the own order `id` of `side` in `book`: none when
/// no id is given or the order no longer rests on that side.
pub open spec fn tracked_offset(book: OrderBook, id: Option<u64>, side: Side, o: Option<QueueOffset>) -> bool {
    match id {
        Some(i) => if book.contains(i) && book.loc()[i].0 == side {
            o matches Some(q) && q.own_id == i && q.side == side && exists|k: int|
                #[trigger] offset_at(book.side_orders(side), k, q)
        } else {
            o is None
        },
        None => o is None,
    }
}

fn offset_for(book: &OrderBook, id: Option<u64>, side: Side) -> (r: Option<QueueOffset>)
    requires
        book.wf(),
    ensures
        tracked_offset(*book, id, side, r),
{
    match id {
        Some(i) => match book.get_offset(i) {
            Ok(o) => if o.side == side {
                Some(o)
            } else {
                None
            },
            Err(_) => None,
        },
        None => None,
    }
}

impl OrderBook {
    /// Applies the snapshot `snap` to this book: reads the queue positions
    /// of the own orders `own_bid` and `own_ask` (where they still rest on
    /// their side) and rebuilds the book from the snapshot around them.
    pub fn process(
        &self,
        snap: Snap,
        own_bid: Option<u64>,
        own_ask: Option<u64>,
        allow_fill: bool,
    ) -> (r: (OrderBook, Option<ExecutionReport>, Option<ExecutionReport>))
        requires
            self.wf(),
            rows_distinct(snap.vec@),
            snap.vec@.len() <= u32::MAX,
            own_bid matches Some(i) ==> i < SYNTHETIC_ID_BASE,
            own_ask matches Some(i) ==> i < SYNTHETIC_ID_BASE,
        ensures
            r.0.wf(),
            exists|bid: Option<QueueOffset>, ask: Option<QueueOffset>|
                tracked_offset(*self, own_bid, Side::Bid, bid) && tracked_offset(
                    *self,
                    own_ask,
                    Side::Ask,
                    ask,
                ) && #[trigger] reconciled(snap.vec@, bid, ask, allow_fill) == (
                    r.0.bids(),
                    r.0.asks(),
                ) && (r.1 is Some == bid is Some) && (r.2 is Some == ask is Some) && (r.1 matches Some(
                    rep,
                ) ==> own_report_ok(rep, r.0, snap.vec@, bid, ask, allow_fill, Side::Bid)) && (r.2 matches Some(
                    rep,
                ) ==> own_report_ok(rep, r.0, snap.vec@, bid, ask, allow_fill, Side::Ask)),
            r.1 matches Some(rep) ==> (rep.status == OrderStatus::Filled) == !r.0.contains(
                rep.own_id,
            ),
            r.2 matches Some(rep) ==> (rep.status == OrderStatus::Filled) == !r.0.contains(
                rep.own_id,
            ),
    {
        let bid = offset_for(self, own_bid, Side::Bid);
        let ask = offset_for(self, own_ask, Side::Ask);
        proof {
            if bid is Some && ask is Some {
                assert(self.loc()[bid->0.own_id].0 != self.loc()[ask->0.own_id].0);
            }
            if let Some(q) = bid {
                let k = choose|k: int| #[trigger] offset_at(self.side_orders(Side::Bid), k, q);
                assert(self.side_orders(Side::Bid)[k].qty > 0);
            }
            if let Some(q) = ask {
                let k = choose|k: int| #[trigger] offset_at(self.side_orders(Side::Ask), k, q);
                assert(self.side_orders(Side::Ask)[k].qty > 0);
            }
        }
        next_snap(snap, (bid, ask), allow_fill)
    }
}

} // verus!
