//! Reference prices read off the book.
use crate::book::{better, BookError, Order, OrderBook, Side};
use vstd::prelude::*;

verus! {

/// The best bid and offer of a book.
pub enum BestBidOffer {
    Quote,
}

impl BestBidOffer {
    /// The best bid and the best ask, when both sides hold orders.
    pub fn evaluate(ob: &OrderBook) -> (r: Option<(u32, u32)>)
        requires
            ob.wf(),
        ensures
            r is Some == (ob.bids().len() > 0 && ob.asks().len() > 0),
            r matches Some(q) ==> q == (ob.bids()[0].price, ob.asks()[0].price),
    {
        match ob.get_bbo() {
            Ok((bid, ask, _spread)) => Some((bid, ask)),
            Err(_) => None,
        }
    }
}

/// Whether `id` is one of the ids left out.
pub open spec fn left_out(id: u64, a: Option<u64>, b: Option<u64>) -> bool {
    a == Some(id) || b == Some(id)
}

/// The best price of the side `s` once the orders `a` and `b` are left out.
pub open spec fn best_without(s: Seq<Order>, a: Option<u64>, b: Option<u64>) -> Option<u32>
    decreases s.len(),
{
    if s.len() == 0 {
        None
    } else if left_out(s[0].id, a, b) {
        best_without(s.drop_first(), a, b)
    } else {
        Some(s[0].price)
    }
}

proof fn lemma_best_without(s: Seq<Order>, a: Option<u64>, b: Option<u64>, k: int)
    requires
        0 <= k <= s.len(),
        forall|j: int| 0 <= j < k ==> left_out(#[trigger] s[j].id, a, b),
        k < s.len() ==> !left_out(s[k].id, a, b),
    ensures
        best_without(s, a, b) == (if k < s.len() {
            Some(s[k].price)
        } else {
            None::<u32>
        }),
    decreases k,
{
    if k > 0 {
        let t = s.drop_first();
        assert(left_out(s[0].id, a, b));
        assert forall|j: int| 0 <= j < k - 1 implies left_out(#[trigger] t[j].id, a, b) by {
            assert(t[j] == s[j + 1]);
        }
        lemma_best_without(t, a, b, k - 1);
    }
}

/// The position of the first order of `v` that is not left out.
fn first_kept(v: &Vec<Order>, a: Option<u64>, b: Option<u64>) -> (k: usize)
    ensures
        k <= v@.len(),
        best_without(v@, a, b) == (if k < v@.len() {
            Some(v@[k as int].price)
        } else {
            None::<u32>
        }),
{
    let mut k: usize = 0;
    while k < v.len()
        invariant
            k <= v@.len(),
            forall|j: int| 0 <= j < k ==> left_out(#[trigger] v@[j].id, a, b),
        decreases v@.len() - k,
    {
        let id = v[k].id;
        let out = match (a, b) {
            (Some(x), _) if x == id => true,
            (_, Some(y)) if y == id => true,
            _ => false,
        };
        if !out {
            proof {
                lemma_best_without(v@, a, b, k as int);
            }
            return k;
        }
        k += 1;
    }
    proof {
        lemma_best_without(v@, a, b, k as int);
    }
    k
}

impl OrderBook {
    /// The best bid, the best ask and the spread as if the orders `own_a`
    /// and `own_b` were not in the book: a view read off the book, which is
    /// left as it is.
    pub fn get_raw_bbo(&self, own_a: Option<u64>, own_b: Option<u64>) -> (r: Result<
        (u32, u32, u32),
        BookError,
    >)
        requires
            self.wf(),
        ensures
            ({
                let bid = best_without(self.bids(), own_a, own_b);
                let ask = best_without(self.asks(), own_a, own_b);
                match r {
                    Ok((b, a, spread)) => bid == Some(b) && ask == Some(a) && b < a && spread == a - b,
                    Err(e) => e == (if bid is None && ask is None {
                        BookError::BothSidesEmpty
                    } else if ask is None {
                        BookError::AskSideEmpty
                    } else {
                        BookError::BidSideEmpty
                    }) && (bid is None || ask is None),
                }
            }),
    {
        let kb = first_kept(&self.bid_book.orders, own_a, own_b);
        let ka = first_kept(&self.ask_book.orders, own_a, own_b);
        let nb = self.bid_book.orders.len();
        let na = self.ask_book.orders.len();
        if kb >= nb && ka >= na {
            Err(BookError::BothSidesEmpty)
        } else if ka >= na {
            Err(BookError::AskSideEmpty)
        } else if kb >= nb {
            Err(BookError::BidSideEmpty)
        } else {
            let b = self.bid_book.orders[kb].price;
            let a = self.ask_book.orders[ka].price;
            proof {
                assert(!better(Side::Bid, self.bids()[kb as int].price, self.bids()[0].price));
                assert(!better(Side::Ask, self.asks()[ka as int].price, self.asks()[0].price));
            }
            Ok((b, a, a - b))
        }
    }
}

} // verus!
