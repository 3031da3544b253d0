//! Tests of the quote decoder: frame filtering, the fixed field table,
//! the error taxonomy, and the accept-time derivation.

use quote_reorder::codec::{parse_u32_field, DecodeError};
use quote_reorder::quote::{
    IssueCode, QuotePacket, MAX_TIMESTAMP_MICROS, MIN_TIMESTAMP_MICROS,
};

/// 2011-02-16 01:00:00 UTC, in microseconds since the epoch.
const PT: i64 = 1_297_818_000_000_000;

/// 2011-02-16 00:30:12.340 UTC: the accept field 09:30:12.34 read in
/// UTC+9 on the capture date.
const ACCEPT: i64 = 1_297_816_212_340_000;

fn base_payload() -> Vec<u8> {
    let mut p = vec![b'0'; 215];
    p[0..5].copy_from_slice(b"B6034");
    p[5..17].copy_from_slice(b"AAPL--------");
    p[29..34].copy_from_slice(b"00123");
    p[34..41].copy_from_slice(b"0000500");
    p[206..214].copy_from_slice(b"09301234");
    p[214] = 0xFF;
    p
}

fn frame_for(payload: &[u8]) -> Vec<u8> {
    frame_with(0x0800, 17, payload)
}

fn frame_with(ethertype: u16, protocol: u8, payload: &[u8]) -> Vec<u8> {
    let mut f = Vec::new();
    // Ethernet: dst, src, ethertype
    f.extend_from_slice(&[0u8; 12]);
    f.extend_from_slice(&ethertype.to_be_bytes());
    // IPv4 header, 20 bytes, no options
    let total: u16 = (20 + 8 + payload.len()) as u16;
    f.push(0x45);
    f.push(0);
    f.extend_from_slice(&total.to_be_bytes());
    f.extend_from_slice(&[0, 0, 0, 0]); // id, flags/fragment
    f.push(64); // ttl
    f.push(protocol);
    f.extend_from_slice(&[0, 0]); // checksum (unchecked)
    f.extend_from_slice(&[10, 0, 0, 1]);
    f.extend_from_slice(&[10, 0, 0, 2]);
    // UDP header
    let ulen: u16 = (8 + payload.len()) as u16;
    f.extend_from_slice(&6000u16.to_be_bytes());
    f.extend_from_slice(&7000u16.to_be_bytes());
    f.extend_from_slice(&ulen.to_be_bytes());
    f.extend_from_slice(&[0, 0]);
    f.extend_from_slice(payload);
    f
}

#[test]
fn decode_round_trip() {
    let p = base_payload();
    let q = QuotePacket::try_from_udp_payload(PT, &p).unwrap();
    assert_eq!(q.packet_time, PT);
    assert_eq!(q.accept_time, ACCEPT);
    assert_eq!(q.issue_code.bytes().as_slice(), b"AAPL--------");
    assert_eq!(q.bid_price_1, 123);
    assert_eq!(q.bid_quantity_1, 500);
    assert_eq!(q.bid_price_2, 0);
    assert_eq!(q.bid_quantity_5, 0);
    assert_eq!(q.ask_price_1, 0);
    assert_eq!(q.ask_quantity_5, 0);
}

#[test]
fn accept_time_matches_calendar_derivation() {
    // the accept instant equals the capture date at 09:30:12.340 UTC+9,
    // normalized to UTC, exactly as the calendar library derives it
    let p = base_payload();
    let q = QuotePacket::try_from_udp_payload(PT, &p).unwrap();
    let korea = chrono::FixedOffset::east_opt(9 * 60 * 60).unwrap();
    let expected = chrono::DateTime::<chrono::Utc>::from_timestamp_micros(PT)
        .unwrap()
        .date_naive()
        .and_hms_milli_opt(9, 30, 12, 340)
        .unwrap()
        .and_local_timezone(korea)
        .single()
        .unwrap()
        .with_timezone(&chrono::Utc);
    assert_eq!(q.accept_time, expected.timestamp_micros());
    assert!(q.accept_time < q.packet_time);
}

#[test]
fn frame_with_marked_payload_decodes() {
    let p = base_payload();
    let f = frame_for(&p);
    let r = QuotePacket::try_from_packet(PT / 1_000_000, 0, &f);
    let q = r.expect("frame is relevant").expect("payload decodes");
    assert_eq!(q.bid_price_1, 123);
    assert_eq!(q.bid_quantity_1, 500);
    assert_eq!(q.accept_time, ACCEPT);
    assert_eq!(q.packet_time, PT);
}

#[test]
fn unmarked_payload_is_filtered() {
    let mut p = base_payload();
    p[0] = b'X';
    let f = frame_for(&p);
    assert!(QuotePacket::try_from_packet(PT / 1_000_000, 0, &f).is_none());
}

#[test]
fn short_unmarked_payload_is_filtered() {
    let f = frame_for(b"B60");
    assert!(QuotePacket::try_from_packet(PT / 1_000_000, 0, &f).is_none());
}

#[test]
fn non_ipv4_frame_is_filtered() {
    let p = base_payload();
    let f = frame_with(0x0806, 17, &p);
    assert!(QuotePacket::try_from_packet(PT / 1_000_000, 0, &f).is_none());
}

#[test]
fn non_udp_frame_is_filtered() {
    let p = base_payload();
    let f = frame_with(0x0800, 6, &p);
    assert!(QuotePacket::try_from_packet(PT / 1_000_000, 0, &f).is_none());
}

#[test]
fn non_digit_in_price_is_a_number_error() {
    let mut p = base_payload();
    p[31] = b'x';
    let r = QuotePacket::try_from_udp_payload(PT, &p);
    assert_eq!(r, Err(DecodeError::Number { offset: 29, len: 5 }));
}

#[test]
fn non_ascii_in_price_is_a_text_error() {
    let mut p = base_payload();
    p[30] = 0xFF;
    let r = QuotePacket::try_from_udp_payload(PT, &p);
    assert_eq!(r, Err(DecodeError::Text { offset: 29, len: 5 }));
}

#[test]
fn non_ascii_issue_code_is_a_text_error() {
    let mut p = base_payload();
    p[7] = 0xC3;
    let r = QuotePacket::try_from_udp_payload(PT, &p);
    assert_eq!(r, Err(DecodeError::Text { offset: 5, len: 12 }));
}

#[test]
fn invalid_hour_is_a_date_error() {
    let mut p = base_payload();
    p[206..214].copy_from_slice(b"25301234");
    let r = QuotePacket::try_from_udp_payload(PT, &p);
    assert_eq!(r, Err(DecodeError::Date));
}

#[test]
fn invalid_minute_is_a_date_error() {
    let mut p = base_payload();
    p[206..214].copy_from_slice(b"09601234");
    let r = QuotePacket::try_from_udp_payload(PT, &p);
    assert_eq!(r, Err(DecodeError::Date));
}

#[test]
fn short_marked_payload_is_truncated() {
    let p = base_payload();
    let r = QuotePacket::try_from_udp_payload(PT, &p[..100]);
    assert_eq!(r, Err(DecodeError::Truncated));
}

#[test]
fn leading_plus_parses_as_the_library_does() {
    let mut p = base_payload();
    p[29..34].copy_from_slice(b"+0123");
    let q = QuotePacket::try_from_udp_payload(PT, &p).unwrap();
    assert_eq!(q.bid_price_1, 123);
    assert_eq!(q.bid_price_1, u32::from_str_radix("+0123", 10).unwrap());
}

#[test]
fn unrepresentable_capture_stamp_is_a_date_error() {
    let p = base_payload();
    let f = frame_for(&p);
    let r = QuotePacket::try_from_packet(9_000_000_000_000, 0, &f);
    assert_eq!(r, Some(Err(DecodeError::Date)));
    let r2 = QuotePacket::try_from_packet(-9_000_000_000_000, 0, &f);
    assert_eq!(r2, Some(Err(DecodeError::Date)));
}

#[test]
fn timestamp_window_matches_the_calendar_library() {
    // the representable window is exactly what the calendar library accepts
    assert!(chrono::DateTime::<chrono::Utc>::from_timestamp_micros(MIN_TIMESTAMP_MICROS).is_some());
    assert!(
        chrono::DateTime::<chrono::Utc>::from_timestamp_micros(MIN_TIMESTAMP_MICROS - 1).is_none()
    );
    assert!(chrono::DateTime::<chrono::Utc>::from_timestamp_micros(MAX_TIMESTAMP_MICROS).is_some());
    assert!(
        chrono::DateTime::<chrono::Utc>::from_timestamp_micros(MAX_TIMESTAMP_MICROS + 1).is_none()
    );
}

#[test]
fn accept_time_uses_the_capture_date_without_rollover() {
    // the derivation pins the accept time to the capture instant's UTC
    // calendar date; by design there is no day-rollover correction when
    // the local (UTC+9) day differs, a stated approximation
    let mut p = base_payload();
    p[206..214].copy_from_slice(b"08490000");
    // 2011-02-16 23:50:00 UTC, which is already 2011-02-17 in UTC+9
    let pt2: i64 = 1_297_900_200_000_000;
    let q = QuotePacket::try_from_udp_payload(pt2, &p).unwrap();
    // 2011-02-16 08:49:00 UTC+9 == 2011-02-15 23:49:00 UTC
    assert_eq!(q.accept_time, 1_297_813_740_000_000);
}

#[test]
fn codec_parses_exact_windows() {
    let b = b"4294967295x4294967296";
    assert_eq!(parse_u32_field(b, 0, 10), Ok(4294967295));
    assert_eq!(
        parse_u32_field(b, 10, 1),
        Err(DecodeError::Number { offset: 10, len: 1 })
    );
    // one past u32::MAX: no wraparound, a Number error
    assert_eq!(
        parse_u32_field(b, 11, 10),
        Err(DecodeError::Number { offset: 11, len: 10 })
    );
    // the empty window and a lone sign have no digits
    assert_eq!(
        parse_u32_field(b, 0, 0),
        Err(DecodeError::Number { offset: 0, len: 0 })
    );
    assert_eq!(
        parse_u32_field(b"+", 0, 1),
        Err(DecodeError::Number { offset: 0, len: 1 })
    );
}

#[test]
fn issue_code_needs_twelve_ascii_bytes() {
    assert!(IssueCode::try_from(b"AAPL--------").is_some());
    assert!(IssueCode::try_from(b"AAPL").is_none());
    assert!(IssueCode::try_from(&[0xFFu8; 12]).is_none());
}
