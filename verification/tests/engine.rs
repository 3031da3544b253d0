//! Tests of the reorder engine: the strict flush boundary, output
//! ordering, the final drain, and the two strategies' agreement.

use quote_reorder::quote::{IssueCode, QuotePacket};
use quote_reorder::window::{ReorderWindow, Strategy, MAX_DELAY};

fn quote(accept: i64, tag: u8) -> QuotePacket {
    let mut code = *b"TEST--------";
    code[4] = tag;
    QuotePacket {
        packet_time: accept + 1_000_000,
        accept_time: accept,
        issue_code: IssueCode::try_from(&code).unwrap(),
        bid_price_1: 1,
        bid_price_2: 2,
        bid_price_3: 3,
        bid_price_4: 4,
        bid_price_5: 5,
        ask_price_1: 6,
        ask_price_2: 7,
        ask_price_3: 8,
        ask_price_4: 9,
        ask_price_5: 10,
        bid_quantity_1: 11,
        bid_quantity_2: 12,
        bid_quantity_3: 13,
        bid_quantity_4: 14,
        bid_quantity_5: 15,
        ask_quantity_1: 16,
        ask_quantity_2: 17,
        ask_quantity_3: 18,
        ask_quantity_4: 19,
        ask_quantity_5: 20,
    }
}

fn run(strategy: Strategy, accepts: &[i64]) -> Vec<i64> {
    let mut w = ReorderWindow::new(strategy);
    let mut out = Vec::new();
    for (i, &a) in accepts.iter().enumerate() {
        for q in w.insert(quote(a, b'a' + (i as u8))) {
            out.push(q.accept_time);
        }
    }
    for q in w.drain_all() {
        out.push(q.accept_time);
    }
    out
}

const T0: i64 = 1_000_000_000;

#[test]
fn flush_boundary_is_strict() {
    // a quote exactly MAX_DELAY behind the incoming one is retained;
    // one microsecond beyond, it is released
    let mut w = ReorderWindow::new(Strategy::Ordered);
    assert!(w.insert(quote(T0, b'a')).is_empty());
    assert!(w.insert(quote(T0 + MAX_DELAY, b'b')).is_empty());

    let mut w2 = ReorderWindow::new(Strategy::Ordered);
    assert!(w2.insert(quote(T0, b'a')).is_empty());
    let released = w2.insert(quote(T0 + MAX_DELAY + 1, b'b'));
    assert_eq!(released.len(), 1);
    assert_eq!(released[0].accept_time, T0);
}

#[test]
fn output_is_sorted_by_accept_time() {
    let accepts = [
        T0 + 1_000_000,
        T0,
        T0 + 5_000_000,
        T0 + 4_000_000,
        T0 + 9_000_000,
        T0 + 8_000_000,
    ];
    for strategy in [Strategy::Ordered, Strategy::Priority] {
        let out = run(strategy, &accepts);
        assert_eq!(out.len(), accepts.len());
        for pair in out.windows(2) {
            assert!(pair[0] <= pair[1]);
        }
        let mut sorted = accepts.to_vec();
        sorted.sort();
        assert_eq!(out, sorted);
    }
}

#[test]
fn strategies_agree_on_distinct_accept_times() {
    let accepts = [
        T0 + 2_000_000,
        T0,
        T0 + 1_000_000,
        T0 + 7_000_000,
        T0 + 6_500_000,
        T0 + 20_000_000,
        T0 + 19_000_000,
    ];
    let mut wa = ReorderWindow::new(Strategy::Ordered);
    let mut wb = ReorderWindow::new(Strategy::Priority);
    let mut outa = Vec::new();
    let mut outb = Vec::new();
    for (i, &a) in accepts.iter().enumerate() {
        outa.extend(wa.insert(quote(a, b'a' + (i as u8))));
        outb.extend(wb.insert(quote(a, b'a' + (i as u8))));
    }
    outa.extend(wa.drain_all());
    outb.extend(wb.drain_all());
    assert_eq!(outa, outb);
    // the rendered output is byte-identical too
    let lines_a: Vec<String> = outa.iter().map(|q| q.render()).collect();
    let lines_b: Vec<String> = outb.iter().map(|q| q.render()).collect();
    assert_eq!(lines_a, lines_b);
}

#[test]
fn strategies_emit_the_same_multiset_with_ties() {
    let accepts = [T0, T0 + 1_000_000, T0 + 1_000_000, T0, T0 + 10_000_000];
    let mut outa = run(Strategy::Ordered, &accepts);
    let mut outb = run(Strategy::Priority, &accepts);
    outa.sort();
    outb.sort();
    assert_eq!(outa, outb);
}

#[test]
fn ordered_strategy_keeps_arrival_order_on_ties() {
    let mut w = ReorderWindow::new(Strategy::Ordered);
    assert!(w.insert(quote(T0, b'a')).is_empty());
    assert!(w.insert(quote(T0, b'b')).is_empty());
    assert!(w.insert(quote(T0, b'c')).is_empty());
    let out = w.drain_all();
    let tags: Vec<u8> = out.iter().map(|q| q.issue_code.bytes()[4]).collect();
    assert_eq!(tags, vec![b'a', b'b', b'c']);
}

#[test]
fn drain_all_releases_everything_in_order() {
    let mut w = ReorderWindow::new(Strategy::Priority);
    for (i, a) in [T0 + 2_000_000, T0, T0 + 1_000_000].into_iter().enumerate() {
        assert!(w.insert(quote(a, b'a' + (i as u8))).is_empty());
    }
    let out = w.drain_all();
    let accepts: Vec<i64> = out.iter().map(|q| q.accept_time).collect();
    assert_eq!(accepts, vec![T0, T0 + 1_000_000, T0 + 2_000_000]);
}
