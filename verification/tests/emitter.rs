//! Tests of the emitter: exact line text, field order and widths.

use quote_reorder::quote::QuotePacket;

/// 2011-02-16 01:00:00 UTC, in microseconds since the epoch.
const PT: i64 = 1_297_818_000_000_000;

fn base_payload() -> Vec<u8> {
    let mut p = vec![b'0'; 215];
    p[0..5].copy_from_slice(b"B6034");
    p[5..17].copy_from_slice(b"AAPL--------");
    p[29..34].copy_from_slice(b"00123");
    p[34..41].copy_from_slice(b"0000500");
    p[96..101].copy_from_slice(b"01000");
    p[101..108].copy_from_slice(b"1234567");
    p[206..214].copy_from_slice(b"09301234");
    p[214] = 0xFF;
    p
}

#[test]
fn line_matches_the_canonical_form() {
    let q = QuotePacket::try_from_udp_payload(PT, &base_payload()).unwrap();
    let mut expected = format!(
        "{} {} ",
        chrono::DateTime::<chrono::Utc>::from_timestamp_micros(q.packet_time).unwrap(),
        chrono::DateTime::<chrono::Utc>::from_timestamp_micros(q.accept_time).unwrap(),
    );
    expected.push_str("AAPL--------");
    for (quantity, price) in [
        (q.bid_quantity_5, q.bid_price_5),
        (q.bid_quantity_4, q.bid_price_4),
        (q.bid_quantity_3, q.bid_price_3),
        (q.bid_quantity_2, q.bid_price_2),
        (q.bid_quantity_1, q.bid_price_1),
        (q.ask_quantity_1, q.ask_price_1),
        (q.ask_quantity_2, q.ask_price_2),
        (q.ask_quantity_3, q.ask_price_3),
        (q.ask_quantity_4, q.ask_price_4),
        (q.ask_quantity_5, q.ask_price_5),
    ] {
        expected.push_str(&format!(" {quantity:>6}@{price:<6}"));
    }
    assert_eq!(q.render(), expected);
}

#[test]
fn line_text_is_pinned() {
    let q = QuotePacket::try_from_udp_payload(PT, &base_payload()).unwrap();
    let line = q.render();
    assert!(line.starts_with(
        "2011-02-16 01:00:00 UTC 2011-02-16 00:30:12.340 UTC AAPL--------"
    ));
    assert!(line.contains("    500@123   "));
    assert!(line.contains("1234567@1000  "));
    assert!(line.ends_with("      0@0     "));
}

#[test]
fn rendered_quote_is_well_formed() {
    let q = QuotePacket::try_from_udp_payload(PT, &base_payload()).unwrap();
    assert!(q.is_wf());
}
