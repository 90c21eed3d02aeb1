use orderbook::model::{IdGen, Instrument, OrderEvent, OrderFill, OrderInfo, Side};
use orderbook::order_book::{BookError, OrderBook};
use orderbook::order_list::OrderList;

fn book() -> OrderBook {
    OrderBook::new(Instrument::new("AUDUSD"))
}

fn run(ob: &mut OrderBook, e: OrderEvent) -> Vec<OrderFill> {
    ob.event(e).unwrap()
}

fn check_fill(f: &OrderFill, aggressor: u64, resting: u64, price: u64, qty: u64) {
    assert_eq!(f.ord_id_1(), aggressor);
    assert_eq!(f.ord_id_2(), resting);
    assert_eq!(f.price(), price);
    assert_eq!(f.qty(), qty);
}

#[test]
fn full_match_leaves_book_empty() {
    let mut ob = book();
    assert!(run(&mut ob, OrderEvent::limit(1, Side::Ask, 101, 100)).is_empty());
    let fills = run(&mut ob, OrderEvent::limit(2, Side::Bid, 101, 100));
    assert_eq!(fills.len(), 1);
    check_fill(&fills[0], 2, 1, 101, 100);
    assert_eq!(ob.level_count(Side::Bid), 0);
    assert_eq!(ob.level_count(Side::Ask), 0);
    assert_eq!(ob.max_bid(), None);
    assert_eq!(ob.min_ask(), None);
}

#[test]
fn partial_match_leaves_resting_remainder() {
    let mut ob = book();
    run(&mut ob, OrderEvent::limit(1, Side::Ask, 101, 100));
    let fills = run(&mut ob, OrderEvent::limit(4, Side::Bid, 101, 50));
    assert_eq!(fills.len(), 1);
    check_fill(&fills[0], 4, 1, 101, 50);
    assert_eq!(ob.resting_qty(1), Some(50));
    assert_eq!(ob.resting_qty(4), None);
    assert_eq!(ob.min_ask(), Some(101));
}

#[test]
fn earlier_bid_is_served_first() {
    let mut ob = book();
    run(&mut ob, OrderEvent::limit(6, Side::Bid, 101, 25));
    run(&mut ob, OrderEvent::limit(7, Side::Bid, 101, 25));
    let fills = run(&mut ob, OrderEvent::limit(5, Side::Ask, 101, 25));
    assert_eq!(fills.len(), 1);
    check_fill(&fills[0], 5, 6, 101, 25);
    assert_eq!(ob.resting_qty(7), Some(25));
    assert_eq!(ob.level_count(Side::Bid), 1);
}

#[test]
fn cancelled_bid_is_skipped() {
    let mut ob = book();
    run(&mut ob, OrderEvent::limit(6, Side::Bid, 101, 25));
    ob.cancel(6).unwrap();
    let fills = run(&mut ob, OrderEvent::limit(5, Side::Ask, 101, 25));
    assert!(fills.is_empty());
    assert_eq!(ob.resting_qty(5), Some(25));
    assert_eq!(ob.level_count(Side::Bid), 0);
}

#[test]
fn lazy_skip_over_cancelled_head() {
    let mut ob = book();
    run(&mut ob, OrderEvent::limit(2, Side::Bid, 101, 100));
    run(&mut ob, OrderEvent::limit(4, Side::Bid, 101, 50));
    run(&mut ob, OrderEvent::limit(7, Side::Bid, 101, 25));
    run(&mut ob, OrderEvent::limit(6, Side::Bid, 101, 25));
    assert_eq!(ob.cancel_checked(7), Ok(()));
    assert_eq!(ob.cancel_checked(2), Ok(()));
    assert_eq!(ob.cancel_checked(7), Err(BookError::NotFound));
    let fills = run(&mut ob, OrderEvent::limit(5, Side::Ask, 101, 25));
    assert_eq!(fills.len(), 1);
    check_fill(&fills[0], 5, 4, 101, 25);
    assert_eq!(ob.resting_qty(4), Some(25));
    assert_eq!(ob.resting_qty(6), Some(25));
    assert_eq!(ob.resting_qty(7), None);
}

#[test]
fn cancel_unknown_is_not_found_and_changes_nothing() {
    let mut ob = book();
    run(&mut ob, OrderEvent::limit(1, Side::Bid, 100, 10));
    assert_eq!(ob.cancel_checked(99), Err(BookError::NotFound));
    assert_eq!(ob.cancel(99), Ok(()));
    assert!(run(&mut ob, OrderEvent::Cancel { id: 99 }).is_empty());
    assert_eq!(ob.resting_qty(1), Some(10));
    assert_eq!(ob.max_bid(), Some(100));
}

#[test]
fn cancel_twice_is_not_found_the_second_time() {
    let mut ob = book();
    run(&mut ob, OrderEvent::limit(3, Side::Ask, 105, 10));
    assert_eq!(ob.cancel_checked(3), Ok(()));
    assert_eq!(ob.cancel_checked(3), Err(BookError::NotFound));
    assert_eq!(ob.resting_qty(3), None);
}

#[test]
fn cancelled_order_never_trades() {
    let mut ob = book();
    run(&mut ob, OrderEvent::limit(1, Side::Ask, 100, 10));
    run(&mut ob, OrderEvent::limit(2, Side::Ask, 100, 10));
    ob.cancel(1).unwrap();
    let fills = run(&mut ob, OrderEvent::market(3, Side::Bid, 30));
    assert_eq!(fills.len(), 1);
    check_fill(&fills[0], 3, 2, 100, 10);
    assert!(fills.iter().all(|f| f.ord_id_1() != 1 && f.ord_id_2() != 1));
}

#[test]
fn market_order_with_shortfall_does_not_rest() {
    let mut ob = book();
    run(&mut ob, OrderEvent::limit(1, Side::Ask, 101, 40));
    run(&mut ob, OrderEvent::limit(2, Side::Ask, 103, 30));
    let fills = run(&mut ob, OrderEvent::market(9, Side::Bid, 100));
    assert_eq!(fills.len(), 2);
    check_fill(&fills[0], 9, 1, 101, 40);
    check_fill(&fills[1], 9, 2, 103, 30);
    assert_eq!(ob.level_count(Side::Ask), 0);
    assert_eq!(ob.level_count(Side::Bid), 0);
    assert_eq!(ob.resting_qty(9), None);
}

#[test]
fn market_order_on_empty_side_fills_nothing() {
    let mut ob = book();
    run(&mut ob, OrderEvent::limit(1, Side::Bid, 99, 10));
    assert!(run(&mut ob, OrderEvent::market(2, Side::Bid, 10)).is_empty());
    assert_eq!(ob.level_count(Side::Bid), 1);
    assert_eq!(ob.resting_qty(2), None);
}

#[test]
fn limit_sweeps_levels_best_first_and_rests_remainder() {
    let mut ob = book();
    run(&mut ob, OrderEvent::limit(1, Side::Ask, 102, 10));
    run(&mut ob, OrderEvent::limit(2, Side::Ask, 101, 10));
    run(&mut ob, OrderEvent::limit(3, Side::Ask, 104, 10));
    let fills = run(&mut ob, OrderEvent::limit(4, Side::Bid, 102, 25));
    assert_eq!(fills.len(), 2);
    check_fill(&fills[0], 4, 2, 101, 10);
    check_fill(&fills[1], 4, 1, 102, 10);
    assert_eq!(ob.resting_qty(4), Some(5));
    assert_eq!(ob.max_bid(), Some(102));
    assert_eq!(ob.min_ask(), Some(104));
}

#[test]
fn ask_sweeps_bids_from_highest_price() {
    let mut ob = book();
    run(&mut ob, OrderEvent::limit(1, Side::Bid, 98, 10));
    run(&mut ob, OrderEvent::limit(2, Side::Bid, 100, 10));
    run(&mut ob, OrderEvent::limit(3, Side::Bid, 99, 10));
    let fills = run(&mut ob, OrderEvent::limit(4, Side::Ask, 99, 15));
    assert_eq!(fills.len(), 2);
    check_fill(&fills[0], 4, 2, 100, 10);
    check_fill(&fills[1], 4, 3, 99, 5);
    assert_eq!(ob.max_bid(), Some(99));
    assert_eq!(ob.resting_qty(3), Some(5));
    assert_eq!(ob.min_ask(), None);
}

#[test]
fn book_is_never_crossed() {
    let mut ob = book();
    let events = vec![
        OrderEvent::limit(1, Side::Bid, 100, 10),
        OrderEvent::limit(2, Side::Ask, 105, 10),
        OrderEvent::limit(3, Side::Ask, 100, 4),
        OrderEvent::limit(4, Side::Bid, 106, 30),
        OrderEvent::limit(5, Side::Ask, 90, 5),
        OrderEvent::market(6, Side::Bid, 3),
    ];
    for e in events {
        run(&mut ob, e);
        if let (Some(b), Some(a)) = (ob.max_bid(), ob.min_ask()) {
            assert!(b < a);
        }
    }
}

#[test]
fn non_crossing_limit_rests() {
    let mut ob = book();
    run(&mut ob, OrderEvent::limit(1, Side::Ask, 105, 10));
    assert!(run(&mut ob, OrderEvent::limit(2, Side::Bid, 104, 10)).is_empty());
    assert_eq!(ob.max_bid(), Some(104));
    assert_eq!(ob.min_ask(), Some(105));
}

#[test]
fn quantity_is_conserved_across_events() {
    let mut ob = book();
    run(&mut ob, OrderEvent::limit(1, Side::Ask, 100, 60));
    let mut total = 0u64;
    for id in 10..20u64 {
        for f in run(&mut ob, OrderEvent::limit(id, Side::Bid, 100, 15)) {
            assert_eq!(f.ord_id_2(), 1);
            total += f.qty();
        }
    }
    assert_eq!(total, 60);
    assert_eq!(ob.resting_qty(1), Some(0));
}

#[test]
fn replace_is_unsupported() {
    let mut ob = book();
    run(&mut ob, OrderEvent::limit(1, Side::Bid, 100, 10));
    let r = ob.event(OrderEvent::Replace { id: 1, side: Side::Bid, price: 101, qty: 5 });
    assert!(matches!(r, Err(BookError::UnsupportedOperation)));
    assert_eq!(ob.resting_qty(1), Some(10));
}

#[test]
fn fill_ids_are_consecutive_from_one() {
    let mut ob = book();
    run(&mut ob, OrderEvent::limit(1, Side::Ask, 100, 10));
    run(&mut ob, OrderEvent::limit(2, Side::Ask, 100, 10));
    let fills = run(&mut ob, OrderEvent::market(3, Side::Bid, 20));
    assert_eq!(fills.len(), 2);
    assert_eq!(fills[0].id(), 1);
    assert_eq!(fills[1].id(), 2);
    run(&mut ob, OrderEvent::limit(4, Side::Ask, 100, 10));
    let more = run(&mut ob, OrderEvent::market(5, Side::Bid, 5));
    assert_eq!(more[0].id(), 3);
}

#[test]
fn id_gen_counts_up_and_wraps() {
    let mut ids = IdGen::new();
    assert_eq!(ids.next(), 1);
    assert_eq!(ids.next(), 2);
    let mut top = IdGen { seq: u64::MAX };
    assert_eq!(top.next(), u64::MAX);
    assert_eq!(top.next(), 0);
}

#[test]
fn order_fill_new_takes_next_id() {
    let mut ids = IdGen::new();
    let a = OrderFill::new(&mut ids, 7, 8, 101, 5);
    let b = OrderFill::new(&mut ids, 7, 9, 102, 6);
    assert_eq!((a.id(), a.ord_id_1(), a.ord_id_2(), a.price(), a.qty()), (1, 7, 8, 101, 5));
    assert_eq!(b.id(), 2);
}

#[test]
fn order_info_fill_reduces_quantity() {
    let mut o = OrderInfo::new(3, 100, 40);
    o.fill(15);
    assert_eq!((o.id(), o.price(), o.qty()), (3, 100, 25));
    o.fill(25);
    assert_eq!(o.qty(), 0);
}

#[test]
fn pool_reuses_most_recently_freed_slot() {
    let mut pool = OrderList::new();
    let a = pool.insert(1, 100, 10);
    let b = pool.insert(2, 100, 20);
    let c = pool.insert(3, 100, 30);
    assert_eq!((a, b, c), (0, 1, 2));
    assert!(pool.delete(&1));
    assert!(pool.delete(&3));
    assert!(!pool.delete(&3));
    assert_eq!(pool.get(2).qty(), 0);
    assert_eq!(pool.insert(4, 101, 5), 2);
    assert_eq!(pool.insert(5, 101, 6), 0);
    assert_eq!(pool.insert(6, 101, 7), 3);
    assert_eq!(pool.lookup(4), Some(2));
    assert_eq!(pool.lookup(1), None);
    assert_eq!(pool.get(0).id(), 5);
}

#[test]
fn pool_fill_by_handle() {
    let mut pool = OrderList::new();
    let h = pool.insert(1, 100, 10);
    pool.fill(h, 4);
    assert_eq!(pool.get(h).qty(), 6);
}

#[test]
fn instrument_keeps_symbol() {
    let i = Instrument::new("EURUSD");
    assert_eq!(i.symbol, "EURUSD");
    assert_eq!(i, Instrument::new("EURUSD"));
}

#[test]
fn reused_slot_does_not_jump_the_queue() {
    let mut ob = book();
    run(&mut ob, OrderEvent::limit(3, Side::Bid, 101, 10));
    run(&mut ob, OrderEvent::limit(4, Side::Bid, 101, 10));
    ob.cancel(3).unwrap();
    run(&mut ob, OrderEvent::limit(5, Side::Bid, 101, 10));
    let fills = run(&mut ob, OrderEvent::limit(6, Side::Ask, 101, 10));
    assert_eq!(fills.len(), 1);
    check_fill(&fills[0], 6, 4, 101, 10);
    assert_eq!(ob.resting_qty(5), Some(10));
    let fills = run(&mut ob, OrderEvent::market(7, Side::Ask, 10));
    assert_eq!(fills.len(), 1);
    check_fill(&fills[0], 7, 5, 101, 10);
}

#[test]
fn reused_slot_does_not_trade_past_the_limit() {
    let mut ob = book();
    run(&mut ob, OrderEvent::limit(3, Side::Bid, 101, 10));
    ob.cancel(3).unwrap();
    run(&mut ob, OrderEvent::limit(5, Side::Bid, 99, 10));
    let fills = run(&mut ob, OrderEvent::limit(6, Side::Ask, 100, 10));
    assert!(fills.is_empty());
    assert_eq!(ob.resting_qty(5), Some(10));
    assert_eq!(ob.resting_qty(6), Some(10));
    assert_eq!(ob.max_bid(), Some(99));
    assert_eq!(ob.min_ask(), Some(100));
}

#[test]
fn reused_slot_does_not_match_same_side() {
    let mut ob = book();
    run(&mut ob, OrderEvent::limit(3, Side::Ask, 105, 10));
    ob.cancel(3).unwrap();
    run(&mut ob, OrderEvent::limit(5, Side::Bid, 100, 10));
    let fills = run(&mut ob, OrderEvent::limit(6, Side::Bid, 106, 10));
    assert!(fills.is_empty());
    assert_eq!(ob.resting_qty(5), Some(10));
    assert_eq!(ob.resting_qty(6), Some(10));
    assert_eq!(ob.max_bid(), Some(106));
}

#[test]
fn pool_duplicate_id_gets_a_fresh_slot() {
    let mut pool = OrderList::new();
    let a = pool.insert(1, 100, 10);
    let b = pool.insert(1, 101, 20);
    assert_ne!(a, b);
    assert_eq!(pool.lookup(1), Some(b));
    assert!(pool.delete(&1));
    assert_eq!(pool.get(a).qty(), 10);
    assert_eq!(pool.get(b).qty(), 0);
}

#[test]
fn pool_stamps_each_record() {
    let mut pool = OrderList::new();
    assert!(pool.has_room());
    let a = pool.insert(1, 100, 10);
    assert_eq!(pool.stamp(a), 0);
    pool.delete(&1);
    let b = pool.insert(2, 100, 10);
    assert_eq!(a, b);
    assert_eq!(pool.stamp(b), 1);
}

#[test]
fn limit_reusing_a_held_id_is_rejected() {
    let mut ob = book();
    run(&mut ob, OrderEvent::limit(1, Side::Bid, 100, 10));
    let r = ob.event(OrderEvent::limit(1, Side::Bid, 99, 5));
    assert!(matches!(r, Err(BookError::DuplicateId)));
    assert_eq!(ob.resting_qty(1), Some(10));
    assert_eq!(ob.level_count(Side::Bid), 1);
    assert_eq!(ob.max_bid(), Some(100));
}

#[test]
fn first_limit_on_new_book_succeeds() {
    let mut ob = book();
    assert_eq!(ob.event(OrderEvent::limit(1, Side::Ask, 101, 100)).unwrap().len(), 0);
    assert_eq!(ob.min_ask(), Some(101));
}
