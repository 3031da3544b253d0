//! Quote decoder: turns one raw frame into a validated quote record.

use crate::codec::{
    all_ascii, parse_u32_field, spec_parse_u32, DecodeError,
};
use crate::net::{spec_udp_payload_of_frame, udp_payload_of_frame};
use vstd::arithmetic::div_mod::{
    lemma_fundamental_div_mod, lemma_fundamental_div_mod_converse,
};
use vstd::prelude::*;

verus! {

/// The earliest instant (microseconds since the Unix epoch, UTC) that a
/// quote timestamp may hold; midnight of the first representable day.
pub const MIN_TIMESTAMP_MICROS: i64 = -8_334_601_228_800_000_000;

/// The latest instant (microseconds since the Unix epoch, UTC) that a
/// quote timestamp may hold; the last microsecond of the last
/// representable day.
pub const MAX_TIMESTAMP_MICROS: i64 = 8_210_266_876_799_999_999;

/// One day, in microseconds.
pub const DAY_MICROS: i64 = 86_400_000_000;

/// The fixed offset of the exchange's local time ahead of UTC, in
/// microseconds: nine hours.
pub const LOCAL_OFFSET_MICROS: i64 = 32_400_000_000;

/// A timestamp the library can carry: microseconds since the epoch,
/// within the representable window.
pub open spec fn ts_in_range(t: int) -> bool {
    MIN_TIMESTAMP_MICROS <= t <= MAX_TIMESTAMP_MICROS
}

/// The fixed 12-character symbol identifier of a quote: ASCII text,
/// opaque to the rest of the system.
#[derive(Clone, Debug, PartialEq, Eq)]
pub struct IssueCode(Vec<u8>);

impl View for IssueCode {
    type V = Seq<u8>;

    closed spec fn view(&self) -> Seq<u8> {
        self.0@
    }
}

impl IssueCode {
    pub open spec fn wf(&self) -> bool {
        self@.len() == 12 && all_ascii(self@)
    }

    /// Accepts exactly twelve bytes of ASCII text.
    pub fn try_from(bytes: &[u8]) -> (r: Option<IssueCode>)
        ensures
            r is Some <==> (bytes@.len() == 12 && all_ascii(bytes@)),
            r is Some ==> r->0@ == bytes@ && r->0.wf(),
    {
        if bytes.len() != 12 {
            return Option::None;
        }
        let mut v: Vec<u8> = Vec::new();
        let mut i: usize = 0;
        while i < 12
            invariant
                bytes@.len() == 12,
                i <= 12,
                v@ == bytes@.take(i as int),
                forall|j: int| 0 <= j < i ==> (#[trigger] bytes@[j]) < 128,
            decreases 12 - i,
        {
            let b = bytes[i];
            if b >= 128 {
                return Option::None;
            }
            v.push(b);
            proof {
                assert(v@ =~= bytes@.take(i + 1));
            }
            i += 1;
        }
        proof {
            assert(v@ =~= bytes@);
        }
        Option::Some(IssueCode(v))
    }

    /// The twelve bytes of the code.
    pub fn bytes(&self) -> (r: &Vec<u8>)
        ensures
            r@ == self@,
    {
        &self.0
    }
}

/// Best bid/ask prices and quantities of one quote event, with its
/// capture and accept instants (microseconds since the epoch, UTC).
#[derive(Clone, Debug, PartialEq, Eq)]
pub struct QuotePacket {
    pub packet_time: i64,
    pub accept_time: i64,
    pub issue_code: IssueCode,
    pub bid_price_1: u32,
    pub bid_price_2: u32,
    pub bid_price_3: u32,
    pub bid_price_4: u32,
    pub bid_price_5: u32,
    pub ask_price_1: u32,
    pub ask_price_2: u32,
    pub ask_price_3: u32,
    pub ask_price_4: u32,
    pub ask_price_5: u32,
    pub bid_quantity_1: u32,
    pub bid_quantity_2: u32,
    pub bid_quantity_3: u32,
    pub bid_quantity_4: u32,
    pub bid_quantity_5: u32,
    pub ask_quantity_1: u32,
    pub ask_quantity_2: u32,
    pub ask_quantity_3: u32,
    pub ask_quantity_4: u32,
    pub ask_quantity_5: u32,
}

impl QuotePacket {
    pub open spec fn wf(&self) -> bool {
        &&& self.issue_code.wf()
        &&& ts_in_range(self.packet_time as int)
        &&& ts_in_range(self.accept_time as int)
    }
}

/// The payload length the fixed field table needs.
pub const MIN_PAYLOAD_LEN: usize = 214;

/// The fixed offset table of the numeric fields, relative to the start of
/// the UDP payload: five bid (price, quantity) pairs from offset 29, five
/// ask (price, quantity) pairs from offset 96, each pair a 5-digit price
/// and a 7-digit quantity with a fixed stride.
pub open spec fn field_table() -> Seq<(int, int)> {
    seq![
        (29, 5), (34, 7),
        (41, 5), (46, 7),
        (53, 5), (58, 7),
        (65, 5), (70, 7),
        (77, 5), (82, 7),
        (96, 5), (101, 7),
        (108, 5), (113, 7),
        (120, 5), (125, 7),
        (132, 5), (137, 7),
        (144, 5), (149, 7),
    ]
}

/// The window of numeric field `k`, as the fixed table has it.
fn field_window(k: usize) -> (r: (usize, usize))
    requires
        k < 20,
    ensures
        (r.0 as int, r.1 as int) == field_table()[k as int],
        r.0 + r.1 <= MIN_PAYLOAD_LEN,
{
    match k {
        0 => (29, 5),
        1 => (34, 7),
        2 => (41, 5),
        3 => (46, 7),
        4 => (53, 5),
        5 => (58, 7),
        6 => (65, 5),
        7 => (70, 7),
        8 => (77, 5),
        9 => (82, 7),
        10 => (96, 5),
        11 => (101, 7),
        12 => (108, 5),
        13 => (113, 7),
        14 => (120, 5),
        15 => (125, 7),
        16 => (132, 5),
        17 => (137, 7),
        18 => (144, 5),
        _ => (149, 7),
    }
}

/// What numeric field `k` of payload `p` parses to.
pub open spec fn spec_field(p: Seq<u8>, k: int) -> Result<u32, DecodeError> {
    spec_parse_u32(p, field_table()[k].0, field_table()[k].1)
}

/// The value of numeric field `k`, where it parses.
pub open spec fn spec_field_val(p: Seq<u8>, k: int) -> u32 {
    spec_field(p, k)->Ok_0
}

/// The first error among the numeric fields from `k` on, in table order.
pub open spec fn spec_fields_err_from(p: Seq<u8>, k: int) -> Option<DecodeError>
    decreases 20 - k,
{
    if k < 0 || k >= 20 {
        Option::None
    } else {
        match spec_field(p, k) {
            Err(e) => Option::Some(e),
            Ok(_) => spec_fields_err_from(p, k + 1),
        }
    }
}

proof fn lemma_fields_err_skip(p: Seq<u8>, k: int)
    requires
        0 <= k <= 20,
        forall|j: int| 0 <= j < k ==> (#[trigger] spec_field(p, j)) is Ok,
    ensures
        spec_fields_err_from(p, 0) == spec_fields_err_from(p, k),
    decreases k,
{
    if k > 0 {
        lemma_fields_err_skip(p, k - 1);
    }
}

/// The 8-digit accept-time field, HHMMSShh, at offset 206.
pub open spec fn spec_time_digit(p: Seq<u8>, which: int) -> Result<u32, DecodeError> {
    spec_parse_u32(p, 206 + 2 * which, 2)
}

/// The first error in the accept-time field: the whole window must be
/// ASCII, then each 2-digit pair must parse, then the time of day must be
/// valid (hour 0-23, minute 0-59, second 0-59).
pub open spec fn spec_time_err(p: Seq<u8>) -> Option<DecodeError> {
    if !all_ascii(p.subrange(206, 214)) {
        Option::Some(DecodeError::Text { offset: 206, len: 8 })
    } else {
        match spec_time_digit(p, 0) {
            Err(e) => Option::Some(e),
            Ok(h) => match spec_time_digit(p, 1) {
                Err(e) => Option::Some(e),
                Ok(m) => match spec_time_digit(p, 2) {
                    Err(e) => Option::Some(e),
                    Ok(s) => match spec_time_digit(p, 3) {
                        Err(e) => Option::Some(e),
                        Ok(_) => if h > 23 || m > 59 || s > 59 {
                            Option::Some(DecodeError::Date)
                        } else {
                            Option::None
                        },
                    },
                },
            },
        }
    }
}

/// Midnight (UTC) of the day that holds instant `t`.
pub open spec fn spec_day_start(t: int) -> int {
    t - t % (DAY_MICROS as int)
}

/// The time of day the accept-time field encodes, in microseconds.
pub open spec fn spec_tod_micros(p: Seq<u8>) -> int {
    let h = spec_time_digit(p, 0)->Ok_0;
    let m = spec_time_digit(p, 1)->Ok_0;
    let s = spec_time_digit(p, 2)->Ok_0;
    let cc = spec_time_digit(p, 3)->Ok_0;
    (h * 3600 + m * 60 + s) * 1_000_000 + cc * 10_000
}

/// The accept instant: the encoded time of day on the same calendar day
/// as the capture instant, read in the fixed local offset (UTC+9), then
/// normalized to UTC. By design no day-rollover correction is applied:
/// an accept time within the skew of a local midnight is out of scope.
pub open spec fn spec_accept_micros(packet_us: int, p: Seq<u8>) -> int {
    spec_day_start(packet_us) + spec_tod_micros(p) - LOCAL_OFFSET_MICROS
}

/// The first error, if any, that decoding a marked payload hits, in the
/// order the fields stand in the record.
pub open spec fn spec_decode_err(packet_us: int, p: Seq<u8>) -> Option<DecodeError> {
    if p.len() < MIN_PAYLOAD_LEN {
        Option::Some(DecodeError::Truncated)
    } else if !all_ascii(p.subrange(5, 17)) {
        Option::Some(DecodeError::Text { offset: 5, len: 12 })
    } else {
        match spec_fields_err_from(p, 0) {
            Option::Some(e) => Option::Some(e),
            Option::None => match spec_time_err(p) {
                Option::Some(e) => Option::Some(e),
                Option::None => if !ts_in_range(spec_accept_micros(packet_us, p)) {
                    Option::Some(DecodeError::Date)
                } else {
                    Option::None
                },
            },
        }
    }
}

/// What a decode result must be, for a capture instant and a payload.
pub open spec fn decode_post(
    r: Result<QuotePacket, DecodeError>,
    packet_us: int,
    p: Seq<u8>,
) -> bool {
    match r {
        Ok(q) => {
            &&& spec_decode_err(packet_us, p) is None
            &&& q.packet_time == packet_us
            &&& q.accept_time == spec_accept_micros(packet_us, p)
            &&& q.issue_code@ == p.subrange(5, 17)
            &&& q.bid_price_1 == spec_field_val(p, 0)
            &&& q.bid_quantity_1 == spec_field_val(p, 1)
            &&& q.bid_price_2 == spec_field_val(p, 2)
            &&& q.bid_quantity_2 == spec_field_val(p, 3)
            &&& q.bid_price_3 == spec_field_val(p, 4)
            &&& q.bid_quantity_3 == spec_field_val(p, 5)
            &&& q.bid_price_4 == spec_field_val(p, 6)
            &&& q.bid_quantity_4 == spec_field_val(p, 7)
            &&& q.bid_price_5 == spec_field_val(p, 8)
            &&& q.bid_quantity_5 == spec_field_val(p, 9)
            &&& q.ask_price_1 == spec_field_val(p, 10)
            &&& q.ask_quantity_1 == spec_field_val(p, 11)
            &&& q.ask_price_2 == spec_field_val(p, 12)
            &&& q.ask_quantity_2 == spec_field_val(p, 13)
            &&& q.ask_price_3 == spec_field_val(p, 14)
            &&& q.ask_quantity_3 == spec_field_val(p, 15)
            &&& q.ask_price_4 == spec_field_val(p, 16)
            &&& q.ask_quantity_4 == spec_field_val(p, 17)
            &&& q.ask_price_5 == spec_field_val(p, 18)
            &&& q.ask_quantity_5 == spec_field_val(p, 19)
            &&& q.wf()
        },
        Err(e) => spec_decode_err(packet_us, p) == Option::Some(e),
    }
}

/// Whether the `(start, len)` window of `p` is all ASCII.
fn ascii_window(p: &[u8], start: usize, len: usize) -> (r: bool)
    requires
        start + len <= p@.len(),
    ensures
        r == all_ascii(p@.subrange(start as int, start as int + len as int)),
{
    let ghost w = p@.subrange(start as int, start as int + len as int);
    let plen: usize = p.len();
    let mut i: usize = 0;
    while i < len
        invariant
            start + len <= plen,
            plen == p@.len(),
            i <= len,
            w == p@.subrange(start as int, start as int + len as int),
            forall|j: int| 0 <= j < i ==> (#[trigger] w[j]) < 128,
        decreases len - i,
    {
        if p[start + i] >= 128 {
            assert(w[i as int] == p@[start as int + i as int]);
            return false;
        }
        i += 1;
    }
    true
}

/// Copies the `(start, len)` window of `p`.
fn copy_window(p: &[u8], start: usize, len: usize) -> (r: Vec<u8>)
    requires
        start + len <= p@.len(),
    ensures
        r@ == p@.subrange(start as int, start as int + len as int),
{
    let plen: usize = p.len();
    let mut v: Vec<u8> = Vec::new();
    let mut i: usize = 0;
    while i < len
        invariant
            start + len <= plen,
            plen == p@.len(),
            i <= len,
            v@ == p@.subrange(start as int, start as int + i as int),
        decreases len - i,
    {
        v.push(p[start + i]);
        proof {
            assert(v@ =~= p@.subrange(start as int, start as int + i as int + 1));
        }
        i += 1;
    }
    v
}

/// Midnight (UTC) of the day that holds `t`.
fn day_floor(t: i64) -> (r: i64)
    requires
        ts_in_range(t as int),
    ensures
        r == spec_day_start(t as int),
        r <= t,
        t - r < DAY_MICROS,
{
    let d: u64 = DAY_MICROS as u64;
    if t >= 0 {
        let rem: u64 = (t as u64) % d;
        proof {
            lemma_fundamental_div_mod(t as int, d as int);
        }
        t - (rem as i64)
    } else {
        let m: u64 = (-t) as u64;
        let rem: u64 = m % d;
        let ghost q: int = (m as int) / (d as int);
        proof {
            lemma_fundamental_div_mod(m as int, d as int);
        }
        if rem == 0 {
            proof {
                lemma_fundamental_div_mod_converse(t as int, d as int, -q, 0);
            }
            t
        } else {
            proof {
                lemma_fundamental_div_mod_converse(
                    t as int,
                    d as int,
                    -q - 1,
                    d as int - rem as int,
                );
            }
            t - ((d - rem) as i64)
        }
    }
}

/// The 5-byte ASCII marker that identifies this feed's payloads.
pub open spec fn spec_has_marker(p: Seq<u8>) -> bool {
    p.len() >= 5 && p[0] == 66 && p[1] == 54 && p[2] == 48 && p[3] == 51 && p[4] == 52
}

/// Whether the payload begins with the feed marker, `B6034`.
pub fn has_marker(p: &[u8]) -> (r: bool)
    ensures
        r == spec_has_marker(p@),
{
    p.len() >= 5 && p[0] == 66 && p[1] == 54 && p[2] == 48 && p[3] == 51 && p[4] == 52
}

/// The capture instant, in microseconds, of a frame stamped with whole
/// seconds and a sub-second microsecond component.
pub open spec fn spec_packet_micros(sec: int, usec: int) -> int {
    sec * 1_000_000 + usec
}

impl QuotePacket {
    /// Decodes a marked UDP payload into a quote record, or says exactly
    /// which field refused first. `packet_us` is the capture instant in
    /// microseconds since the epoch, UTC.
    pub fn try_from_udp_payload(packet_us: i64, udp_payload: &[u8]) -> (r: Result<
        QuotePacket,
        DecodeError,
    >)
        requires
            ts_in_range(packet_us as int),
        ensures
            decode_post(r, packet_us as int, udp_payload@),
    {
        let ghost p = udp_payload@;
        if udp_payload.len() < MIN_PAYLOAD_LEN {
            return Err(DecodeError::Truncated);
        }

        let issue_window = copy_window(udp_payload, 5, 12);
        let issue_code = match IssueCode::try_from(issue_window.as_slice()) {
            Option::Some(ic) => ic,
            Option::None => {
                return Err(DecodeError::Text { offset: 5, len: 12 });
            },
        };

        let mut vals: Vec<u32> = Vec::new();
        let mut k: usize = 0;
        while k < 20
            invariant
                p == udp_payload@,
                p.len() >= MIN_PAYLOAD_LEN,
                all_ascii(p.subrange(5, 17)),
                issue_code@ == p.subrange(5, 17),
                issue_code.wf(),
                ts_in_range(packet_us as int),
                k <= 20,
                vals@.len() == k,
                forall|j: int| 0 <= j < k ==> (#[trigger] spec_field(p, j)) is Ok,
                forall|j: int| 0 <= j < k ==> #[trigger] vals@[j] == spec_field_val(p, j),
            decreases 20 - k,
        {
            let (off, flen) = field_window(k);
            match parse_u32_field(udp_payload, off, flen) {
                Ok(v) => {
                    vals.push(v);
                },
                Err(e) => {
                    proof {
                        lemma_fields_err_skip(p, k as int);
                    }
                    return Err(e);
                },
            }
            k += 1;
        }
        proof {
            lemma_fields_err_skip(p, 20);
        }

        if !ascii_window(udp_payload, 206, 8) {
            return Err(DecodeError::Text { offset: 206, len: 8 });
        }
        let hours = match parse_u32_field(udp_payload, 206, 2) {
            Ok(v) => v,
            Err(e) => {
                return Err(e);
            },
        };
        let minutes = match parse_u32_field(udp_payload, 208, 2) {
            Ok(v) => v,
            Err(e) => {
                return Err(e);
            },
        };
        let seconds = match parse_u32_field(udp_payload, 210, 2) {
            Ok(v) => v,
            Err(e) => {
                return Err(e);
            },
        };
        let centis = match parse_u32_field(udp_payload, 212, 2) {
            Ok(v) => v,
            Err(e) => {
                return Err(e);
            },
        };
        if hours > 23 || minutes > 59 || seconds > 59 {
            return Err(DecodeError::Date);
        }
        assert(centis <= 99) by {
            lemma_two_digit_bound(p, 212);
        };

        let day = day_floor(packet_us);
        let tod: i64 = ((hours as i64) * 3600 + (minutes as i64) * 60 + (seconds as i64))
            * 1_000_000 + (centis as i64) * 10_000;
        let accept_time = day + tod - LOCAL_OFFSET_MICROS;
        if accept_time < MIN_TIMESTAMP_MICROS || accept_time > MAX_TIMESTAMP_MICROS {
            return Err(DecodeError::Date);
        }

        Ok(QuotePacket {
            packet_time: packet_us,
            accept_time,
            issue_code,
            bid_price_1: vals[0],
            bid_quantity_1: vals[1],
            bid_price_2: vals[2],
            bid_quantity_2: vals[3],
            bid_price_3: vals[4],
            bid_quantity_3: vals[5],
            bid_price_4: vals[6],
            bid_quantity_4: vals[7],
            bid_price_5: vals[8],
            bid_quantity_5: vals[9],
            ask_price_1: vals[10],
            ask_quantity_1: vals[11],
            ask_price_2: vals[12],
            ask_quantity_2: vals[13],
            ask_price_3: vals[14],
            ask_quantity_3: vals[15],
            ask_price_4: vals[16],
            ask_quantity_4: vals[17],
            ask_price_5: vals[18],
            ask_quantity_5: vals[19],
        })
    }

    /// Decodes one captured frame. `None` means the frame is not this
    /// feed's concern (not IPv4, not UDP, or no marker) and is skipped
    /// silently; `Some(Err(..))` means the frame is marked but refused;
    /// `Some(Ok(..))` is a quote. The capture stamp is `ts_sec` whole
    /// seconds plus `ts_usec` microseconds.
    pub fn try_from_packet(ts_sec: i64, ts_usec: i64, frame: &[u8]) -> (r: Option<
        Result<QuotePacket, DecodeError>,
    >)
        requires
            0 <= ts_usec < 1_000_000,
        ensures
            r is Some <==> (spec_udp_payload_of_frame(frame@) matches Option::Some(p)
                && spec_has_marker(p)),
            r is Some ==> {
                let p = spec_udp_payload_of_frame(frame@)->0;
                let us = spec_packet_micros(ts_sec as int, ts_usec as int);
                if ts_in_range(us) {
                    decode_post(r->0, us, p)
                } else {
                    r->0 == Err::<QuotePacket, DecodeError>(DecodeError::Date)
                }
            },
    {
        let udp = match udp_payload_of_frame(frame) {
            Option::Some(v) => v,
            Option::None => {
                return Option::None;
            },
        };
        if !has_marker(udp.as_slice()) {
            return Option::None;
        }

        // sec * 1_000_000 + usec lies in the representable window exactly
        // when sec lies between the window's first and last whole second
        let in_range = -8_334_601_228_800i64 <= ts_sec && ts_sec <= 8_210_266_876_799i64;
        if !in_range {
            proof {
                if ts_sec < -8_334_601_228_800i64 {
                    assert(ts_sec * 1_000_000 <= (-8_334_601_228_801i64) * 1_000_000);
                } else {
                    assert(ts_sec * 1_000_000 >= 8_210_266_876_800i64 * 1_000_000);
                }
            }
            return Option::Some(Err(DecodeError::Date));
        }
        let packet_us: i64 = ts_sec * 1_000_000 + ts_usec;
        Option::Some(QuotePacket::try_from_udp_payload(packet_us, udp.as_slice()))
    }
}

/// A 2-digit window parses to at most 99.
proof fn lemma_two_digit_bound(p: Seq<u8>, start: int)
    requires
        0 <= start,
        start + 2 <= p.len(),
        spec_parse_u32(p, start, 2) is Ok,
    ensures
        spec_parse_u32(p, start, 2)->Ok_0 <= 99,
{
    let w = p.subrange(start, start + 2);
    let ds = crate::codec::digits_part(w);
    assert(w.len() == 2);
    assert(crate::codec::dec_val(Seq::<u8>::empty()) == 0);
    if w[0] == 43 {
        assert(ds =~= w.subrange(1, 2));
        assert(ds.len() == 1);
        assert(crate::codec::is_digit(ds[0]));
        assert(ds.drop_last() =~= Seq::<u8>::empty());
        assert(ds.last() == ds[0]);
        assert(crate::codec::dec_val(ds) <= 9);
    } else {
        assert(ds =~= w);
        assert(ds.len() == 2);
        assert(crate::codec::is_digit(ds[0]));
        assert(crate::codec::is_digit(ds[1]));
        assert(ds.drop_last() =~= ds.take(1));
        assert(ds.drop_last().drop_last() =~= Seq::<u8>::empty());
        assert(ds.drop_last().last() == ds[0]);
        assert(crate::codec::dec_val(ds.drop_last()) <= 9);
        assert(ds.last() == ds[1]);
        assert(crate::codec::dec_val(ds) <= 99);
    }
}

} // verus!
