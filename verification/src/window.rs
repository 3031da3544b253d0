//! Bounded-delay reorder engine.
//!
//! Quotes arrive in capture order, which need not be accept-time order.
//! The engine buffers them and releases a buffered quote only once the
//! incoming accept time has passed it by more than `MAX_DELAY`, so that no
//! in-window arrival can still precede it.

use crate::quote::QuotePacket;
use vstd::multiset::Multiset;
use vstd::prelude::*;
use vstd::seq_lib::lemma_multiset_commutative;

verus! {

/// The maximum assumed out-of-order skew between any two quotes' accept
/// times, in microseconds: three seconds.
pub const MAX_DELAY: i64 = 3_000_000;

/// The two interchangeable buffering strategies. Both emit the same
/// quotes in the same ascending accept-time order; they may differ only
/// in the order of quotes whose accept times are exactly equal (the
/// ordered-sequence strategy keeps arrival order there, the
/// priority-queue strategy does not promise to).
#[derive(Clone, Copy, Debug, PartialEq, Eq, Structural)]
pub enum Strategy {
    Ordered,
    Priority,
}

pub open spec fn accept_of(q: QuotePacket) -> int {
    q.accept_time as int
}

/// A buffered quote may leave once the reference accept time `t` has
/// passed it by strictly more than `MAX_DELAY`.
pub open spec fn ready(e: QuotePacket, t: int) -> bool {
    accept_of(e) + MAX_DELAY < t
}

pub open spec fn sorted_by_accept(s: Seq<QuotePacket>) -> bool {
    forall|i: int, j: int|
        0 <= i <= j < s.len() ==> accept_of(#[trigger] s[i]) <= accept_of(#[trigger] s[j])
}

/// How many quotes at the front of the buffer are ready for reference
/// time `t`.
pub open spec fn ready_prefix_len(buf: Seq<QuotePacket>, t: int) -> int
    decreases buf.len(),
{
    if buf.len() == 0 {
        0
    } else if ready(buf[0], t) {
        1 + ready_prefix_len(buf.drop_first(), t)
    } else {
        0
    }
}

/// Whether the inserted quote `q` is placed after the buffered quote `e`.
pub open spec fn goes_after(strat: Strategy, e: QuotePacket, q: QuotePacket) -> bool {
    match strat {
        Strategy::Ordered => accept_of(e) <= accept_of(q),
        Strategy::Priority => accept_of(e) < accept_of(q),
    }
}

/// Where `q` is placed in the buffer: after every quote it goes after.
pub open spec fn insert_pos(strat: Strategy, buf: Seq<QuotePacket>, q: QuotePacket) -> int
    decreases buf.len(),
{
    if buf.len() == 0 {
        0
    } else if goes_after(strat, buf[0], q) {
        1 + insert_pos(strat, buf.drop_first(), q)
    } else {
        0
    }
}

/// What one insertion emits: the ready prefix of the buffer, in order.
pub open spec fn step_emit(strat: Strategy, buf: Seq<QuotePacket>, q: QuotePacket) -> Seq<
    QuotePacket,
> {
    buf.take(ready_prefix_len(buf, accept_of(q)))
}

/// The buffer after one insertion: the ready prefix gone, `q` placed.
pub open spec fn step_buf(strat: Strategy, buf: Seq<QuotePacket>, q: QuotePacket) -> Seq<
    QuotePacket,
> {
    let rest = buf.skip(ready_prefix_len(buf, accept_of(q)));
    rest.insert(insert_pos(strat, rest, q), q)
}

/// The buffer after inserting a whole input sequence, in order.
pub open spec fn run_buf(strat: Strategy, input: Seq<QuotePacket>) -> Seq<QuotePacket>
    decreases input.len(),
{
    if input.len() == 0 {
        Seq::empty()
    } else {
        step_buf(strat, run_buf(strat, input.drop_last()), input.last())
    }
}

/// Everything emitted while inserting a whole input sequence, in order.
pub open spec fn run_emitted(strat: Strategy, input: Seq<QuotePacket>) -> Seq<QuotePacket>
    decreases input.len(),
{
    if input.len() == 0 {
        Seq::empty()
    } else {
        run_emitted(strat, input.drop_last()) + step_emit(
            strat,
            run_buf(strat, input.drop_last()),
            input.last(),
        )
    }
}

/// The complete output for an input sequence: everything emitted along
/// the way, then the final unconditional drain.
pub open spec fn run_output(strat: Strategy, input: Seq<QuotePacket>) -> Seq<QuotePacket> {
    run_emitted(strat, input) + run_buf(strat, input)
}

proof fn lemma_ready_prefix_bounds(buf: Seq<QuotePacket>, t: int)
    ensures
        0 <= ready_prefix_len(buf, t) <= buf.len(),
        forall|i: int|
            0 <= i < ready_prefix_len(buf, t) ==> ready(#[trigger] buf[i], t),
    decreases buf.len(),
{
    if buf.len() > 0 && ready(buf[0], t) {
        lemma_ready_prefix_bounds(buf.drop_first(), t);
        assert forall|i: int| 0 <= i < ready_prefix_len(buf, t) implies ready(
            #[trigger] buf[i],
            t,
        ) by {
            if i > 0 {
                assert(buf.drop_first()[i - 1] == buf[i]);
            }
        }
    }
}

proof fn lemma_ready_prefix_char(buf: Seq<QuotePacket>, t: int, k: int)
    requires
        0 <= k <= buf.len(),
        forall|i: int| 0 <= i < k ==> ready(#[trigger] buf[i], t),
        k < buf.len() ==> !ready(buf[k as int], t),
    ensures
        ready_prefix_len(buf, t) == k,
    decreases buf.len(),
{
    if buf.len() > 0 {
        if k == 0 {
        } else {
            assert(ready(buf[0], t));
            assert forall|i: int| 0 <= i < k - 1 implies ready(
                #[trigger] buf.drop_first()[i],
                t,
            ) by {
                assert(buf.drop_first()[i] == buf[i + 1]);
            }
            assert(k - 1 < buf.drop_first().len() ==> !ready(buf.drop_first()[k - 1], t));
            lemma_ready_prefix_char(buf.drop_first(), t, k - 1);
        }
    }
}

proof fn lemma_insert_pos_char(strat: Strategy, buf: Seq<QuotePacket>, q: QuotePacket, k: int)
    requires
        0 <= k <= buf.len(),
        forall|i: int| 0 <= i < k ==> goes_after(strat, #[trigger] buf[i], q),
        k < buf.len() ==> !goes_after(strat, buf[k as int], q),
    ensures
        insert_pos(strat, buf, q) == k,
    decreases buf.len(),
{
    if buf.len() > 0 {
        if k == 0 {
        } else {
            assert(goes_after(strat, buf[0], q));
            assert forall|i: int| 0 <= i < k - 1 implies goes_after(
                strat,
                #[trigger] buf.drop_first()[i],
                q,
            ) by {
                assert(buf.drop_first()[i] == buf[i + 1]);
            }
            assert(k - 1 < buf.drop_first().len() ==> !goes_after(
                strat,
                buf.drop_first()[k - 1],
                q,
            ));
            lemma_insert_pos_char(strat, buf.drop_first(), q, k - 1);
        }
    }
}

proof fn lemma_insert_pos_bounds(strat: Strategy, buf: Seq<QuotePacket>, q: QuotePacket)
    ensures
        0 <= insert_pos(strat, buf, q) <= buf.len(),
        forall|i: int|
            0 <= i < insert_pos(strat, buf, q) ==> goes_after(strat, #[trigger] buf[i], q),
        insert_pos(strat, buf, q) < buf.len() ==> !goes_after(
            strat,
            buf[insert_pos(strat, buf, q)],
            q,
        ),
    decreases buf.len(),
{
    if buf.len() > 0 && goes_after(strat, buf[0], q) {
        lemma_insert_pos_bounds(strat, buf.drop_first(), q);
        assert forall|i: int| 0 <= i < insert_pos(strat, buf, q) implies goes_after(
            strat,
            #[trigger] buf[i],
            q,
        ) by {
            if i > 0 {
                assert(buf.drop_first()[i - 1] == buf[i]);
            }
        }
        assert(insert_pos(strat, buf, q) < buf.len() ==> buf[insert_pos(strat, buf, q)]
            == buf.drop_first()[insert_pos(strat, buf.drop_first(), q)]);
    }
}

/// The engine: a buffer of not-yet-released quotes, logically always
/// sorted ascending by accept time, plus the ghost record of what has
/// been inserted and emitted so far.
pub struct ReorderWindow {
    strategy: Strategy,
    buf: Vec<QuotePacket>,
    inserted: Ghost<Seq<QuotePacket>>,
    emitted: Ghost<Seq<QuotePacket>>,
}

fn is_ready(e: &QuotePacket, t: i64) -> (r: bool)
    ensures
        r == ready(*e, t as int),
{
    if e.accept_time <= i64::MAX - MAX_DELAY {
        e.accept_time + MAX_DELAY < t
    } else {
        false
    }
}

fn goes_after_exec(strat: Strategy, e: &QuotePacket, q: &QuotePacket) -> (r: bool)
    ensures
        r == goes_after(strat, *e, *q),
{
    match strat {
        Strategy::Ordered => e.accept_time <= q.accept_time,
        Strategy::Priority => e.accept_time < q.accept_time,
    }
}

impl ReorderWindow {
    pub closed spec fn strat(&self) -> Strategy {
        self.strategy
    }

    pub closed spec fn buffered(&self) -> Seq<QuotePacket> {
        self.buf@
    }

    pub closed spec fn inserted_seq(&self) -> Seq<QuotePacket> {
        self.inserted@
    }

    pub closed spec fn emitted_seq(&self) -> Seq<QuotePacket> {
        self.emitted@
    }

    /// The engine's state is exactly what replaying its inputs through
    /// the one-step model gives.
    pub open spec fn wf(&self) -> bool {
        &&& self.buffered() == run_buf(self.strat(), self.inserted_seq())
        &&& self.emitted_seq() == run_emitted(self.strat(), self.inserted_seq())
    }

    /// An empty engine with the chosen strategy. The capacity hint is
    /// advisory only; the buffer grows without bound if it must.
    pub fn new(strategy: Strategy) -> (w: ReorderWindow)
        ensures
            w.wf(),
            w.strat() == strategy,
            w.inserted_seq() == Seq::<QuotePacket>::empty(),
            w.emitted_seq() == Seq::<QuotePacket>::empty(),
    {
        ReorderWindow {
            strategy,
            buf: Vec::with_capacity(2048),
            inserted: Ghost(Seq::empty()),
            emitted: Ghost(Seq::empty()),
        }
    }

    /// Inserts one quote: first releases, in ascending order, every
    /// buffered quote whose accept time the incoming accept time has
    /// passed by more than `MAX_DELAY`, then places the quote at its
    /// strategy's position. Returns the released quotes.
    pub fn insert(&mut self, q: QuotePacket) -> (r: Vec<QuotePacket>)
        requires
            old(self).wf(),
        ensures
            final(self).wf(),
            final(self).strat() == old(self).strat(),
            final(self).inserted_seq() == old(self).inserted_seq().push(q),
            r@ == step_emit(old(self).strat(), old(self).buffered(), q),
            final(self).buffered() == step_buf(old(self).strat(), old(self).buffered(), q),
            final(self).emitted_seq() == old(self).emitted_seq() + r@,
    {
        let ghost buf0 = self.buf@;
        let t = q.accept_time;

        // how long the ready prefix is
        let mut k: usize = 0;
        while k < self.buf.len() && is_ready(&self.buf[k], t)
            invariant
                self == old(self),
                k <= self.buf.len(),
                forall|i: int| 0 <= i < k ==> ready(#[trigger] self.buf@[i], t as int),
            decreases self.buf.len() - k,
        {
            k += 1;
        }
        proof {
            lemma_ready_prefix_char(buf0, t as int, k as int);
        }

        // release it
        let mut flushed: Vec<QuotePacket> = Vec::new();
        let mut i: usize = 0;
        while i < k
            invariant
                old(self).wf(),
                buf0 == old(self).buf@,
                self.strategy == old(self).strategy,
                self.inserted == old(self).inserted,
                self.emitted == old(self).emitted,
                i <= k,
                k <= buf0.len(),
                flushed@ == buf0.take(i as int),
                self.buf@ == buf0.skip(i as int),
            decreases k - i,
        {
            let e = self.buf.remove(0);
            flushed.push(e);
            proof {
                assert(flushed@ =~= buf0.take(i + 1));
                assert(self.buf@ =~= buf0.skip(i + 1));
            }
            i += 1;
        }

        // place the quote
        let ghost rest = buf0.skip(k as int);
        let mut pos: usize = 0;
        while pos < self.buf.len() && goes_after_exec(self.strategy, &self.buf[pos], &q)
            invariant
                self.buf@ == rest,
                self.strategy == old(self).strategy,
                self.inserted == old(self).inserted,
                self.emitted == old(self).emitted,
                pos <= self.buf.len(),
                forall|i2: int|
                    0 <= i2 < pos ==> goes_after(self.strategy, #[trigger] rest[i2], q),
            decreases self.buf.len() - pos,
        {
            pos += 1;
        }
        proof {
            lemma_insert_pos_char(self.strategy, rest, q, pos as int);
        }
        self.buf.insert(pos, q);

        proof {
            self.inserted@ = self.inserted@.push(q);
            self.emitted@ = self.emitted@ + flushed@;
            assert(self.inserted@.drop_last() =~= old(self).inserted@);
            assert(self.inserted@.last() == q);
        }
        flushed
    }

    /// Drains the remaining buffered quotes, in ascending accept-time
    /// order, ending the run: together with everything already emitted
    /// this is the complete output for the inserted sequence.
    pub fn drain_all(self) -> (r: Vec<QuotePacket>)
        requires
            self.wf(),
        ensures
            r@ == run_buf(self.strat(), self.inserted_seq()),
            self.emitted_seq() + r@ == run_output(self.strat(), self.inserted_seq()),
    {
        self.buf
    }
}

/// No quote of `input` arrives later than `MAX_DELAY` of accept time
/// after a quote it precedes: the stated reordering bound.
pub open spec fn bounded_skew(input: Seq<QuotePacket>) -> bool {
    forall|i: int, j: int|
        0 <= i <= j < input.len() ==> accept_of(#[trigger] input[i]) <= accept_of(
            #[trigger] input[j],
        ) + MAX_DELAY
}

/// No two quotes of `input` share an accept time.
pub open spec fn distinct_accepts(input: Seq<QuotePacket>) -> bool {
    forall|i: int, j: int|
        0 <= i < j < input.len() ==> accept_of(#[trigger] input[i]) != accept_of(
            #[trigger] input[j],
        )
}

/// Every accept time in `buf` is the accept time of some quote of `inp`.
pub open spec fn accepts_from(buf: Seq<QuotePacket>, inp: Seq<QuotePacket>) -> bool {
    forall|i: int|
        0 <= i < buf.len() ==> exists|j: int|
            0 <= j < inp.len() && accept_of(#[trigger] buf[i]) == accept_of(inp[j])
}

proof fn lemma_run_inv(strat: Strategy, full: Seq<QuotePacket>, n: int)
    requires
        bounded_skew(full),
        0 <= n <= full.len(),
    ensures
        sorted_by_accept(run_buf(strat, full.take(n))),
        sorted_by_accept(run_emitted(strat, full.take(n))),
        forall|a: int, b: int|
            0 <= a < run_emitted(strat, full.take(n)).len() && 0 <= b < run_buf(
                strat,
                full.take(n),
            ).len() ==> accept_of(#[trigger] run_emitted(strat, full.take(n))[a]) <= accept_of(
                #[trigger] run_buf(strat, full.take(n))[b],
            ),
        forall|a: int, j: int|
            0 <= a < run_emitted(strat, full.take(n)).len() && n <= j < full.len() ==> accept_of(
                #[trigger] run_emitted(strat, full.take(n))[a],
            ) <= accept_of(#[trigger] full[j]),
    decreases n,
{
    if n == 0 {
        assert(full.take(0) =~= Seq::<QuotePacket>::empty());
        assert(run_buf(strat, full.take(0)).len() == 0);
        assert(run_emitted(strat, full.take(0)).len() == 0);
    } else {
        let inp = full.take(n);
        let prev = full.take(n - 1);
        let q = full[n - 1];
        assert(inp.drop_last() =~= prev);
        assert(inp.last() == q);
        lemma_run_inv(strat, full, n - 1);
        let bufp = run_buf(strat, prev);
        let emp = run_emitted(strat, prev);
        assert(run_buf(strat, inp) == step_buf(strat, bufp, q));
        assert(run_emitted(strat, inp) == emp + step_emit(strat, bufp, q));

        let t = accept_of(q);
        let k = ready_prefix_len(bufp, t);
        lemma_ready_prefix_bounds(bufp, t);
        let flushed = bufp.take(k);
        let rest = bufp.skip(k);
        let pos = insert_pos(strat, rest, q);
        lemma_insert_pos_bounds(strat, rest, q);
        let bufn = rest.insert(pos, q);
        rest.insert_ensures(pos, q);
        let emn = emp + flushed;

        // every released quote is more than MAX_DELAY older than q,
        // and at most every remaining or future accept time
        assert(forall|i: int| 0 <= i < k ==> accept_of(#[trigger] bufp[i]) + MAX_DELAY < t);

        // the new buffer is sorted: before pos everything goes before q,
        // from pos on everything goes after, and rest was sorted
        assert forall|a: int, b: int| 0 <= a <= b < bufn.len() implies accept_of(
            #[trigger] bufn[a],
        ) <= accept_of(#[trigger] bufn[b]) by {
            if a < pos {
                assert(bufn[a] == rest[a]);
            }
            if b < pos {
                assert(bufn[b] == rest[b]);
            }
            if a > pos {
                assert(bufn[a] == rest[a - 1]);
            }
            if b > pos {
                assert(bufn[b] == rest[b - 1]);
            }
            if a == pos {
                assert(bufn[a] == q);
            }
            if b == pos {
                assert(bufn[b] == q);
            }
            if b > pos && pos < rest.len() {
                assert(accept_of(rest[pos]) <= accept_of(rest[b - 1]));
            }
            assert(rest =~= bufp.skip(k));
        }

        // the new emission sequence is sorted and below the new buffer
        assert forall|a: int, b: int| 0 <= a <= b < emn.len() implies accept_of(
            #[trigger] emn[a],
        ) <= accept_of(#[trigger] emn[b]) by {
            if a < emp.len() && b >= emp.len() {
                assert(emn[b] == bufp[b - emp.len()]);
            }
        }
        assert forall|a: int, b: int|
            0 <= a < emn.len() && 0 <= b < bufn.len() implies accept_of(#[trigger] emn[a])
            <= accept_of(#[trigger] bufn[b]) by {
            let ea = if a < emp.len() {
                emp[a]
            } else {
                bufp[a - emp.len()]
            };
            assert(emn[a] == ea);
            if a >= emp.len() {
                assert(accept_of(ea) + MAX_DELAY < t);
            }
            if b < pos {
                assert(bufn[b] == rest[b] && rest[b] == bufp[k + b]);
            } else if b == pos {
                assert(bufn[b] == q);
                if a < emp.len() {
                    // an already emitted quote is at most any future input
                    assert(accept_of(emp[a]) <= accept_of(full[n - 1]));
                }
            } else {
                assert(bufn[b] == rest[b - 1] && rest[b - 1] == bufp[k + b - 1]);
            }
        }

        // everything emitted so far is at most any future accept time
        assert forall|a: int, j: int|
            0 <= a < emn.len() && n <= j < full.len() implies accept_of(#[trigger] emn[a])
            <= accept_of(#[trigger] full[j]) by {
            if a < emp.len() {
                assert(accept_of(emp[a]) <= accept_of(full[j]));
            } else {
                let e = bufp[a - emp.len()];
                assert(emn[a] == e);
                assert(accept_of(e) + MAX_DELAY < accept_of(full[n - 1]));
                assert(accept_of(full[n - 1]) <= accept_of(full[j]) + MAX_DELAY);
            }
        }
    }
}

/// Ordering law: under the bounded-skew assumption, the complete output
/// of a run is in non-decreasing accept-time order; in particular every
/// adjacent pair of emitted quotes is ordered.
pub proof fn lemma_ordering(strat: Strategy, input: Seq<QuotePacket>)
    requires
        bounded_skew(input),
    ensures
        sorted_by_accept(run_output(strat, input)),
{
    lemma_run_inv(strat, input, input.len() as int);
    assert(input.take(input.len() as int) =~= input);
    let em = run_emitted(strat, input);
    let buf = run_buf(strat, input);
    let out = run_output(strat, input);
    assert forall|a: int, b: int| 0 <= a <= b < out.len() implies accept_of(#[trigger] out[a])
        <= accept_of(#[trigger] out[b]) by {
        if a < em.len() {
            assert(out[a] == em[a]);
        } else {
            assert(out[a] == buf[a - em.len()]);
        }
        if b < em.len() {
            assert(out[b] == em[b]);
        } else {
            assert(out[b] == buf[b - em.len()]);
        }
    }
}

/// Bounded-delay law: a quote is released by an insertion only when the
/// incoming accept time has passed it by strictly more than `MAX_DELAY`;
/// so any quote `q2` still within `MAX_DELAY` of the incoming one - any
/// arrival the skew assumption permits after it - has a strictly later
/// accept time than everything just released, and the release cannot be
/// superseded.
pub proof fn lemma_bounded_delay(
    strat: Strategy,
    buf: Seq<QuotePacket>,
    q: QuotePacket,
    i: int,
    q2: QuotePacket,
)
    requires
        0 <= i < step_emit(strat, buf, q).len(),
        accept_of(q) <= accept_of(q2) + MAX_DELAY,
    ensures
        accept_of(step_emit(strat, buf, q)[i]) + MAX_DELAY < accept_of(q),
        accept_of(step_emit(strat, buf, q)[i]) < accept_of(q2),
{
    lemma_ready_prefix_bounds(buf, accept_of(q));
}

proof fn lemma_step_multiset(strat: Strategy, buf: Seq<QuotePacket>, q: QuotePacket)
    ensures
        step_emit(strat, buf, q).to_multiset().add(step_buf(strat, buf, q).to_multiset())
            == buf.to_multiset().insert(q),
{
    broadcast use vstd::seq_lib::group_to_multiset_ensures;

    let t = accept_of(q);
    let k = ready_prefix_len(buf, t);
    lemma_ready_prefix_bounds(buf, t);
    let rest = buf.skip(k);
    let pos = insert_pos(strat, rest, q);
    lemma_insert_pos_bounds(strat, rest, q);
    rest.insert_ensures(pos, q);
    let bufn = rest.insert(pos, q);

    assert(buf =~= buf.take(k) + rest);
    lemma_multiset_commutative(buf.take(k), rest);

    assert(bufn =~= (rest.take(pos) + seq![q]) + rest.skip(pos));
    lemma_multiset_commutative(rest.take(pos) + seq![q], rest.skip(pos));
    lemma_multiset_commutative(rest.take(pos), seq![q]);
    assert(seq![q] =~= Seq::<QuotePacket>::empty().push(q));
    assert(seq![q].to_multiset() =~= Multiset::<QuotePacket>::empty().insert(q));
    assert(rest =~= rest.take(pos) + rest.skip(pos));
    lemma_multiset_commutative(rest.take(pos), rest.skip(pos));

    assert(step_emit(strat, buf, q).to_multiset().add(step_buf(strat, buf, q).to_multiset())
        =~= buf.to_multiset().insert(q));
}

proof fn lemma_run_multiset(strat: Strategy, input: Seq<QuotePacket>)
    ensures
        run_emitted(strat, input).to_multiset().add(run_buf(strat, input).to_multiset())
            == input.to_multiset(),
    decreases input.len(),
{
    broadcast use vstd::seq_lib::group_to_multiset_ensures;
    broadcast use vstd::multiset::group_multiset_axioms;

    if input.len() == 0 {
        assert(run_emitted(strat, input).to_multiset() =~= Multiset::<QuotePacket>::empty());
        assert(run_buf(strat, input).to_multiset() =~= Multiset::<QuotePacket>::empty());
        assert(input.to_multiset() =~= Multiset::<QuotePacket>::empty());
    } else {
        let prev = input.drop_last();
        let q = input.last();
        lemma_run_multiset(strat, prev);
        lemma_step_multiset(strat, run_buf(strat, prev), q);
        lemma_multiset_commutative(run_emitted(strat, prev), step_emit(
            strat,
            run_buf(strat, prev),
            q,
        ));
        assert(prev.push(q) =~= input);
        assert(prev.push(q).to_multiset() =~= prev.to_multiset().insert(q));
        assert(input.to_multiset() == prev.to_multiset().insert(q));
        let f = step_emit(strat, run_buf(strat, prev), q);
        assert(run_emitted(strat, input) == run_emitted(strat, prev) + f);
        assert(run_emitted(strat, input).to_multiset() == run_emitted(strat, prev).to_multiset()
            .add(f.to_multiset()));
        assert(f.to_multiset().add(run_buf(strat, input).to_multiset()) == run_buf(
            strat,
            prev,
        ).to_multiset().insert(q));
        let lhs = run_emitted(strat, input).to_multiset().add(run_buf(strat, input).to_multiset());
        assert forall|x: QuotePacket| lhs.count(x) == input.to_multiset().count(x) by {
            assert(lhs.count(x) == run_emitted(strat, prev).to_multiset().count(x)
                + f.to_multiset().count(x) + run_buf(strat, input).to_multiset().count(x));
            assert(f.to_multiset().count(x) + run_buf(strat, input).to_multiset().count(x)
                == run_buf(strat, prev).to_multiset().insert(q).count(x));
            assert(run_buf(strat, prev).to_multiset().insert(q).count(x) == run_buf(
                strat,
                prev,
            ).to_multiset().count(x) + (if x == q {
                1int
            } else {
                0int
            }));
            assert(run_emitted(strat, prev).to_multiset().count(x) + run_buf(
                strat,
                prev,
            ).to_multiset().count(x) == prev.to_multiset().count(x));
            assert(input.to_multiset().count(x) == prev.to_multiset().count(x) + (if x == q {
                1int
            } else {
                0int
            }));
        }
        assert(lhs =~= input.to_multiset());
    }
}

/// Strategy-equivalence law, multiset half: for any input sequence both
/// strategies emit, over a whole run, exactly the quotes inserted - so
/// the same multiset as each other.
pub proof fn lemma_strategy_multiset(input: Seq<QuotePacket>)
    ensures
        run_output(Strategy::Ordered, input).to_multiset() == run_output(
            Strategy::Priority,
            input,
        ).to_multiset(),
        run_output(Strategy::Ordered, input).to_multiset() == input.to_multiset(),
{
    lemma_run_multiset(Strategy::Ordered, input);
    lemma_run_multiset(Strategy::Priority, input);
    lemma_multiset_commutative(
        run_emitted(Strategy::Ordered, input),
        run_buf(Strategy::Ordered, input),
    );
    lemma_multiset_commutative(
        run_emitted(Strategy::Priority, input),
        run_buf(Strategy::Priority, input),
    );
}

proof fn lemma_insert_pos_agree(buf: Seq<QuotePacket>, q: QuotePacket)
    requires
        forall|i: int| 0 <= i < buf.len() ==> accept_of(#[trigger] buf[i]) != accept_of(q),
    ensures
        insert_pos(Strategy::Ordered, buf, q) == insert_pos(Strategy::Priority, buf, q),
    decreases buf.len(),
{
    if buf.len() > 0 {
        assert forall|i: int| 0 <= i < buf.drop_first().len() implies accept_of(
            #[trigger] buf.drop_first()[i],
        ) != accept_of(q) by {
            assert(buf.drop_first()[i] == buf[i + 1]);
        }
        lemma_insert_pos_agree(buf.drop_first(), q);
    }
}

proof fn lemma_run_agree(full: Seq<QuotePacket>, n: int)
    requires
        distinct_accepts(full),
        0 <= n <= full.len(),
    ensures
        run_buf(Strategy::Ordered, full.take(n)) == run_buf(Strategy::Priority, full.take(n)),
        run_emitted(Strategy::Ordered, full.take(n)) == run_emitted(
            Strategy::Priority,
            full.take(n),
        ),
        accepts_from(run_buf(Strategy::Ordered, full.take(n)), full.take(n)),
    decreases n,
{
    if n == 0 {
        assert(full.take(0) =~= Seq::<QuotePacket>::empty());
    } else {
        let inp = full.take(n);
        let prev = full.take(n - 1);
        let q = full[n - 1];
        assert(inp.drop_last() =~= prev);
        assert(inp.last() == q);
        lemma_run_agree(full, n - 1);
        let bufp = run_buf(Strategy::Ordered, prev);
        let t = accept_of(q);
        let k = ready_prefix_len(bufp, t);
        lemma_ready_prefix_bounds(bufp, t);
        let rest = bufp.skip(k);

        // q's accept time is fresh among the buffered ones
        assert forall|i: int| 0 <= i < rest.len() implies accept_of(#[trigger] rest[i])
            != accept_of(q) by {
            assert(rest[i] == bufp[k + i]);
            let j = choose|j: int|
                0 <= j < prev.len() && accept_of(bufp[k + i]) == accept_of(prev[j]);
            assert(prev[j] == full[j]);
            assert(accept_of(full[j]) != accept_of(full[n - 1]));
        }
        lemma_insert_pos_agree(rest, q);
        let pos = insert_pos(Strategy::Ordered, rest, q);
        lemma_insert_pos_bounds(Strategy::Ordered, rest, q);
        rest.insert_ensures(pos, q);
        let bufn = rest.insert(pos, q);
        assert(run_buf(Strategy::Ordered, inp) == bufn);
        assert(run_buf(Strategy::Priority, inp) == bufn);

        // the new buffer's accept times still come from the input
        assert forall|i: int| 0 <= i < bufn.len() implies exists|j: int|
            0 <= j < inp.len() && accept_of(#[trigger] bufn[i]) == accept_of(inp[j]) by {
            if i == pos {
                assert(bufn[i] == q);
                assert(inp[n - 1] == q);
                assert(0 <= n - 1 < inp.len() && accept_of(bufn[i]) == accept_of(inp[n - 1]));
            } else {
                let e = if i < pos {
                    rest[i]
                } else {
                    rest[i - 1]
                };
                assert(bufn[i] == e);
                let b = if i < pos {
                    k + i
                } else {
                    k + i - 1
                };
                assert(e == bufp[b]);
                let j = choose|j: int|
                    0 <= j < prev.len() && accept_of(bufp[b]) == accept_of(prev[j]);
                assert(prev[j] == inp[j]);
                assert(0 <= j < inp.len() && accept_of(bufn[i]) == accept_of(inp[j]));
            }
        }
    }
}

/// Strategy-equivalence law, order half: when no two inserted quotes
/// share an accept time, the two strategies' complete outputs are
/// identical, quote for quote.
pub proof fn lemma_strategy_agreement(input: Seq<QuotePacket>)
    requires
        distinct_accepts(input),
    ensures
        run_output(Strategy::Ordered, input) == run_output(Strategy::Priority, input),
{
    lemma_run_agree(input, input.len() as int);
    assert(input.take(input.len() as int) =~= input);
}

} // verus!
