use orderbook::model::{IdGen, Instrument, OrderEvent, OrderFill, Side};
use orderbook::order_book::OrderBook;

struct TestData {
    orders: Vec<OrderEvent>,
    cancels: Vec<u64>,
    orders2: Vec<OrderEvent>,
    expected: Vec<OrderFill>,
}

fn sell_1_101x100() -> OrderEvent {
    OrderEvent::limit(1, Side::Ask, 101u64, 100u64)
}

fn buy_2_101x100() -> OrderEvent {
    OrderEvent::limit(2, Side::Bid, 101u64, 100u64)
}

fn buy_4_101x50() -> OrderEvent {
    OrderEvent::limit(4, Side::Bid, 101u64, 50u64)
}

fn sell_5_101x25() -> OrderEvent {
    OrderEvent::limit(5, Side::Ask, 101u64, 25u64)
}

fn buy_6_101x25() -> OrderEvent {
    OrderEvent::limit(6, Side::Bid, 101u64, 25u64)
}

fn buy_7_101x25() -> OrderEvent {
    OrderEvent::limit(7, Side::Bid, 101u64, 25u64)
}

fn fill(ids: &mut IdGen, aggressor: u64, resting: u64, price: u64, qty: u64) -> OrderFill {
    OrderFill::new(ids, aggressor, resting, price, qty)
}

fn run_test(mut data: TestData) {
    let mut ob: OrderBook = OrderBook::new(Instrument::new("AUDUSD"));
    let mut fills: Vec<OrderFill> = Vec::new();

    for _ in 0..data.orders.len() {
        let ord = data.orders.remove(0);
        let mut new_fills = ob.event(ord).unwrap();
        fills.append(&mut new_fills);
    }

    for _ in 0..data.cancels.len() {
        let ord_id = data.cancels.remove(0);
        ob.cancel(ord_id).unwrap();
    }

    for _ in 0..data.orders2.len() {
        let ord = data.orders2.remove(0);
        let mut new_fills = ob.event(ord).unwrap();
        fills.append(&mut new_fills);
    }

    assert_eq!(data.expected.len(), fills.len(), "testing fill length");

    for (actual, expected) in fills.iter().zip(data.expected.iter()) {
        assert_equal(actual, expected);
    }
}

fn assert_equal(actual: &OrderFill, expected: &OrderFill) {
    assert_eq!(actual.ord_id_1(), expected.ord_id_1());
    assert_eq!(actual.ord_id_2(), expected.ord_id_2());
    assert_eq!(actual.price(), expected.price());
    assert_eq!(actual.qty(), expected.qty());
}

#[test]
fn market_order_insertion_with_no_previous_order() {
    let mut ob: OrderBook = OrderBook::new(Instrument::new("AUDUSD"));

    let o1 = OrderEvent::market(1, Side::Bid, 100u64);
    let o2 = OrderEvent::market(1, Side::Ask, 100u64);

    let filled = ob.event(o1);
    assert_eq!(filled.unwrap().len(), 0, "Order is not filled");
    let filled = ob.event(o2);
    assert_eq!(filled.unwrap().len(), 0, "Order is not filled");
}

#[test]
fn limit_order_insertion_with_no_previous_order() {
    let mut ob: OrderBook = OrderBook::new(Instrument::new("AUDUSD"));

    let o1 = OrderEvent::limit(1, Side::Bid, 10u64, 100u64);
    let o2 = OrderEvent::limit(2, Side::Ask, 10u64, 100u64);

    let filled = ob.event(o1);
    assert_eq!(filled.unwrap().len(), 0, "Order is not filled");
    let filled = ob.event(o2);
    assert_eq!(filled.unwrap().len(), 1, "Order should be filled");
}

#[test]
fn test_ask() {
    run_test(TestData { orders: vec![sell_1_101x100()], cancels: vec![], orders2: vec![], expected: vec![] });
}

#[test]
fn test_bid() {
    run_test(TestData { orders: vec![buy_2_101x100()], cancels: vec![], orders2: vec![], expected: vec![] });
}

#[test]
fn test_execution() {
    let mut ids = IdGen::new();
    run_test(TestData {
        orders: vec![sell_1_101x100(), buy_2_101x100()],
        cancels: vec![],
        orders2: vec![],
        expected: vec![fill(&mut ids, 2, 1, 101u64, 100u64)],
    });

    run_test(TestData {
        orders: vec![buy_2_101x100(), sell_1_101x100()],
        cancels: vec![],
        orders2: vec![],
        expected: vec![fill(&mut ids, 1, 2, 101u64, 100u64)],
    });
}

#[test]
fn test_partial_fill1() {
    let mut ids = IdGen::new();
    run_test(TestData {
        orders: vec![sell_1_101x100(), buy_4_101x50()],
        cancels: vec![],
        orders2: vec![],
        expected: vec![fill(&mut ids, 4, 1, 101u64, 50u64)],
    });

    run_test(TestData {
        orders: vec![buy_4_101x50(), sell_1_101x100()],
        cancels: vec![],
        orders2: vec![],
        expected: vec![fill(&mut ids, 1, 4, 101u64, 50u64)],
    });
}

#[test]
fn test_incremental_over_fill1() {
    let mut ids = IdGen::new();
    run_test(TestData {
        orders: vec![
            sell_1_101x100(),
            buy_6_101x25(),
            buy_6_101x25(),
            buy_6_101x25(),
            buy_6_101x25(),
            buy_6_101x25(),
        ],
        cancels: vec![],
        orders2: vec![],
        expected: vec![
            fill(&mut ids, 6, 1, 101u64, 25u64),
            fill(&mut ids, 6, 1, 101u64, 25u64),
            fill(&mut ids, 6, 1, 101u64, 25u64),
            fill(&mut ids, 6, 1, 101u64, 25u64),
        ],
    });
}

#[test]
fn test_incremental_over_fill2() {
    let mut ids = IdGen::new();
    run_test(TestData {
        orders: vec![
            buy_2_101x100(),
            sell_5_101x25(),
            sell_5_101x25(),
            sell_5_101x25(),
            sell_5_101x25(),
            sell_5_101x25(),
        ],
        cancels: vec![],
        orders2: vec![],
        expected: vec![
            fill(&mut ids, 5, 2, 101u64, 25u64),
            fill(&mut ids, 5, 2, 101u64, 25u64),
            fill(&mut ids, 5, 2, 101u64, 25u64),
            fill(&mut ids, 5, 2, 101u64, 25u64),
        ],
    });
}

#[test]
fn test_queue_position() {
    let mut ids = IdGen::new();
    run_test(TestData {
        orders: vec![buy_6_101x25(), buy_7_101x25(), sell_5_101x25()],
        cancels: vec![],
        orders2: vec![],
        expected: vec![fill(&mut ids, 5, 6, 101u64, 25u64)],
    });
}

#[test]
fn test_cancel_simple() {
    run_test(TestData { orders: vec![buy_6_101x25()], cancels: vec![6], orders2: vec![sell_5_101x25()], expected: vec![] });
}

#[test]
fn test_cancel_from_front_of_queue() {
    let mut ids = IdGen::new();
    run_test(TestData {
        orders: vec![buy_6_101x25(), buy_7_101x25()],
        cancels: vec![6],
        orders2: vec![sell_5_101x25()],
        expected: vec![fill(&mut ids, 5, 7, 101u64, 25u64)],
    });
}

#[test]
fn test_cancel_front_back_out_of_order_then_partial_execution() {
    let mut ids = IdGen::new();
    run_test(TestData {
        orders: vec![buy_2_101x100(), buy_4_101x50(), buy_7_101x25(), buy_6_101x25()],
        cancels: vec![7, 2, 7],
        orders2: vec![sell_5_101x25()],
        expected: vec![fill(&mut ids, 5, 4, 101u64, 25)],
    });
}
