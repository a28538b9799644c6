use orderbook::fixtures::full_ob;
use orderbook::indicators::BestBidOffer;
use orderbook::book::OrderBook;
use orderbook::scheduler::{Ready, Schedule};

#[test]
fn schedule_counts_to_cooldown() {
    let mut s = Schedule::new(2);
    assert_eq!(s.ready(), Ready::No);
    s.incr_counter();
    assert_eq!(s.ready(), Ready::No);
    s.incr_counter();
    assert_eq!(s.ready(), Ready::Yes);
    s.set_counter(0);
    assert_eq!(s.counter, 0);
    s.set_counter(u64::MAX);
    s.incr_counter();
    assert_eq!(s.counter, u64::MAX);
}

#[test]
fn random_cooldown_in_range() {
    for _ in 0..200 {
        let s = Schedule::new_rand();
        assert_eq!(s.counter, 0);
        assert!((10..20).contains(&s.cooldown));
        let d = Schedule::default();
        assert!((10..20).contains(&d.cooldown));
    }
}

#[test]
fn best_bid_offer_quote() {
    assert_eq!(BestBidOffer::evaluate(&full_ob()), Some((99, 101)));
    assert_eq!(BestBidOffer::evaluate(&OrderBook::new()), None);
}
