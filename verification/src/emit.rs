//! Emitter: formats one quote as its canonical human-readable line.
//!
//! The line is `packet_time accept_time issue_code` followed by ten
//! `quantity@price` fields: bid levels five down to one, then ask levels
//! one up to five. Quantities are right-aligned and prices left-aligned
//! in a minimum width of six. The field order and widths are an output
//! contract, not cosmetics.

use crate::quote::{ts_in_range, QuotePacket};
use vstd::prelude::*;
use vstd::string::StringExecFns;

verus! {

/// What chrono renders for the UTC instant `t` (microseconds since the
/// epoch): a fixed, sortable textual form.
pub uninterp spec fn utc_text_of(t: int) -> Seq<char>;

/// Relies on chrono's `DateTime::<Utc>::from_timestamp_micros` (defined on
/// every in-range instant) and on chrono's `Display` for `DateTime<Utc>`:
/// the rendering depends on the timestamp alone.
#[verifier::external_body]
fn format_utc_micros(t: i64) -> (r: String)
    requires
        ts_in_range(t as int),
    ensures
        r@ == utc_text_of(t as int),
{
    chrono::DateTime::<chrono::Utc>::from_timestamp_micros(t).unwrap().to_string()
}

/// Relies on `String::push`: appends exactly one character.
#[verifier::external_body]
fn push_char(s: &mut String, c: char)
    ensures
        final(s)@ == old(s)@ + seq![c],
{
    s.push(c);
}

pub open spec fn digit_char(d: int) -> char {
    if d == 0 {
        '0'
    } else if d == 1 {
        '1'
    } else if d == 2 {
        '2'
    } else if d == 3 {
        '3'
    } else if d == 4 {
        '4'
    } else if d == 5 {
        '5'
    } else if d == 6 {
        '6'
    } else if d == 7 {
        '7'
    } else if d == 8 {
        '8'
    } else {
        '9'
    }
}

/// The decimal rendering of `n`, most significant digit first, no
/// leading zeros (a lone `0` for zero).
pub open spec fn dec_chars(n: nat) -> Seq<char>
    decreases n,
{
    if n < 10 {
        seq![digit_char(n as int)]
    } else {
        dec_chars(n / 10) + seq![digit_char((n % 10) as int)]
    }
}

pub open spec fn spaces(k: int) -> Seq<char>
    decreases k,
{
    if k <= 0 {
        Seq::empty()
    } else {
        spaces(k - 1) + seq![' ']
    }
}

/// A quantity: numerically right-aligned in a minimum width of six.
pub open spec fn quantity_text(n: nat) -> Seq<char> {
    spaces(6 - dec_chars(n).len()) + dec_chars(n)
}

/// A price: left-aligned in a minimum width of six.
pub open spec fn price_text(n: nat) -> Seq<char> {
    dec_chars(n) + spaces(6 - dec_chars(n).len())
}

/// One ` quantity@price` field.
pub open spec fn pair_text(qty: u32, price: u32) -> Seq<char> {
    seq![' '] + quantity_text(qty as nat) + seq!['@'] + price_text(price as nat)
}

/// The issue code's bytes, as the characters they stand for.
pub open spec fn issue_chars(s: Seq<u8>) -> Seq<char> {
    s.map_values(|b: u8| b as char)
}

/// The canonical line for one quote.
pub open spec fn spec_line(q: QuotePacket) -> Seq<char> {
    utc_text_of(q.packet_time as int) + seq![' '] + utc_text_of(q.accept_time as int) + seq![' ']
        + issue_chars(q.issue_code@) + pair_text(q.bid_quantity_5, q.bid_price_5) + pair_text(
        q.bid_quantity_4,
        q.bid_price_4,
    ) + pair_text(q.bid_quantity_3, q.bid_price_3) + pair_text(q.bid_quantity_2, q.bid_price_2)
        + pair_text(q.bid_quantity_1, q.bid_price_1) + pair_text(q.ask_quantity_1, q.ask_price_1)
        + pair_text(q.ask_quantity_2, q.ask_price_2) + pair_text(q.ask_quantity_3, q.ask_price_3)
        + pair_text(q.ask_quantity_4, q.ask_price_4) + pair_text(q.ask_quantity_5, q.ask_price_5)
}

fn digit_char_exec(d: u32) -> (c: char)
    requires
        d < 10,
    ensures
        c == digit_char(d as int),
{
    if d == 0 {
        '0'
    } else if d == 1 {
        '1'
    } else if d == 2 {
        '2'
    } else if d == 3 {
        '3'
    } else if d == 4 {
        '4'
    } else if d == 5 {
        '5'
    } else if d == 6 {
        '6'
    } else if d == 7 {
        '7'
    } else if d == 8 {
        '8'
    } else {
        '9'
    }
}

fn push_u32(s: &mut String, n: u32)
    ensures
        final(s)@ == old(s)@ + dec_chars(n as nat),
    decreases n,
{
    if n < 10 {
        let c = digit_char_exec(n);
        push_char(s, c);
    } else {
        push_u32(s, n / 10);
        let c = digit_char_exec(n % 10);
        push_char(s, c);
        proof {
            assert(old(s)@ + dec_chars((n / 10) as nat) + seq![digit_char((n % 10) as int)]
                =~= old(s)@ + dec_chars(n as nat));
        }
    }
}

pub open spec fn pow10(k: nat) -> nat
    decreases k,
{
    if k == 0 {
        1
    } else {
        10 * pow10((k - 1) as nat)
    }
}

proof fn lemma_dec_len_bound(n: nat, k: nat)
    requires
        k >= 1,
        n < pow10(k),
    ensures
        dec_chars(n).len() <= k,
    decreases k,
{
    if n < 10 {
    } else {
        assert(pow10(k) == 10 * pow10((k - 1) as nat));
        if k == 1 {
            assert(pow10(0nat) == 1);
            assert(false);
        }
        assert(n == 10 * (n / 10) + n % 10);
        assert(n / 10 < pow10((k - 1) as nat));
        lemma_dec_len_bound(n / 10, (k - 1) as nat);
    }
}

proof fn lemma_dec_len_u32(n: nat)
    requires
        n <= u32::MAX,
    ensures
        dec_chars(n).len() <= 10,
{
    assert(pow10(1nat) == 10 * pow10(0nat));
    assert(pow10(2nat) == 10 * pow10(1nat));
    assert(pow10(3nat) == 10 * pow10(2nat));
    assert(pow10(4nat) == 10 * pow10(3nat));
    assert(pow10(5nat) == 10 * pow10(4nat));
    assert(pow10(6nat) == 10 * pow10(5nat));
    assert(pow10(7nat) == 10 * pow10(6nat));
    assert(pow10(8nat) == 10 * pow10(7nat));
    assert(pow10(9nat) == 10 * pow10(8nat));
    assert(pow10(10nat) == 10 * pow10(9nat));
    assert(pow10(10nat) == 10_000_000_000);
    lemma_dec_len_bound(n, 10);
}

fn dec_len(n: u32) -> (r: usize)
    ensures
        r == dec_chars(n as nat).len(),
        r <= 10,
    decreases n,
{
    proof {
        lemma_dec_len_u32(n as nat);
    }
    if n < 10 {
        1
    } else {
        let r = dec_len(n / 10);
        r + 1
    }
}

fn push_spaces(s: &mut String, k: usize)
    requires
        k <= 6,
    ensures
        final(s)@ == old(s)@ + spaces(k as int),
{
    let mut i: usize = 0;
    while i < k
        invariant
            i <= k,
            s@ == old(s)@ + spaces(i as int),
        decreases k - i,
    {
        push_char(s, ' ');
        proof {
            assert(old(s)@ + spaces(i as int) + seq![' '] =~= old(s)@ + spaces(i as int + 1));
        }
        i += 1;
    }
}

fn push_pair(s: &mut String, qty: u32, price: u32)
    ensures
        final(s)@ == old(s)@ + pair_text(qty, price),
{
    push_char(s, ' ');
    let ql = dec_len(qty);
    let qpad: usize = if ql < 6 {
        6 - ql
    } else {
        0
    };
    push_spaces(s, qpad);
    push_u32(s, qty);
    push_char(s, '@');
    push_u32(s, price);
    let pl = dec_len(price);
    let ppad: usize = if pl < 6 {
        6 - pl
    } else {
        0
    };
    push_spaces(s, ppad);
    proof {
        assert(spaces(qpad as int) =~= spaces(6 - dec_chars(qty as nat).len()));
        assert(spaces(ppad as int) =~= spaces(6 - dec_chars(price as nat).len()));
        assert(old(s)@ + seq![' '] + spaces(6 - dec_chars(qty as nat).len()) + dec_chars(
            qty as nat,
        ) + seq!['@'] + dec_chars(price as nat) + spaces(6 - dec_chars(price as nat).len())
            =~= old(s)@ + pair_text(qty, price));
    }
}

impl QuotePacket {
    /// The canonical output line for this quote.
    pub fn render(&self) -> (r: String)
        requires
            self.wf(),
        ensures
            r@ == spec_line(*self),
    {
        let mut s = format_utc_micros(self.packet_time);
        push_char(&mut s, ' ');
        let at = format_utc_micros(self.accept_time);
        s.append(at.as_str());
        push_char(&mut s, ' ');

        let bytes = self.issue_code.bytes();
        let mut i: usize = 0;
        while i < bytes.len()
            invariant
                bytes@ == self.issue_code@,
                i <= bytes@.len(),
                s@ == utc_text_of(self.packet_time as int) + seq![' '] + utc_text_of(
                    self.accept_time as int,
                ) + seq![' '] + issue_chars(bytes@.take(i as int)),
            decreases bytes@.len() - i,
        {
            let b = bytes[i];
            push_char(&mut s, b as char);
            proof {
                assert(issue_chars(bytes@.take(i as int)) + seq![bytes@[i as int] as char]
                    =~= issue_chars(bytes@.take(i as int + 1)));
                assert(s@ =~= utc_text_of(self.packet_time as int) + seq![' '] + utc_text_of(
                    self.accept_time as int,
                ) + seq![' '] + issue_chars(bytes@.take(i as int + 1)));
            }
            i += 1;
        }
        proof {
            assert(bytes@.take(bytes@.len() as int) =~= bytes@);
        }

        push_pair(&mut s, self.bid_quantity_5, self.bid_price_5);
        push_pair(&mut s, self.bid_quantity_4, self.bid_price_4);
        push_pair(&mut s, self.bid_quantity_3, self.bid_price_3);
        push_pair(&mut s, self.bid_quantity_2, self.bid_price_2);
        push_pair(&mut s, self.bid_quantity_1, self.bid_price_1);
        push_pair(&mut s, self.ask_quantity_1, self.ask_price_1);
        push_pair(&mut s, self.ask_quantity_2, self.ask_price_2);
        push_pair(&mut s, self.ask_quantity_3, self.ask_price_3);
        push_pair(&mut s, self.ask_quantity_4, self.ask_price_4);
        push_pair(&mut s, self.ask_quantity_5, self.ask_price_5);
        proof {
            assert(s@ =~= spec_line(*self));
        }
        s
    }

    /// Whether the quote's fields lie in the representable window, so
    /// that it can be rendered; every decoded quote does.
    pub fn is_wf(&self) -> (r: bool)
        ensures
            r == self.wf(),
    {
        let issue_ok = {
            let bytes = self.issue_code.bytes();
            if bytes.len() != 12 {
                false
            } else {
                let mut i: usize = 0;
                let mut ok = true;
                while i < 12
                    invariant
                        bytes@ == self.issue_code@,
                        bytes@.len() == 12,
                        i <= 12,
                        ok == (forall|j: int| 0 <= j < i ==> (#[trigger] bytes@[j]) < 128),
                    decreases 12 - i,
                {
                    if bytes[i] >= 128 {
                        ok = false;
                    }
                    i += 1;
                }
                ok
            }
        };
        issue_ok && self.packet_time >= crate::quote::MIN_TIMESTAMP_MICROS && self.packet_time
            <= crate::quote::MAX_TIMESTAMP_MICROS && self.accept_time
            >= crate::quote::MIN_TIMESTAMP_MICROS && self.accept_time
            <= crate::quote::MAX_TIMESTAMP_MICROS
    }
}

} // verus!
