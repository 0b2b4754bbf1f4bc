//! The adaptive binary range coder of the BCJ2 decision stream, which is LZMA's.
//!
//! A coder narrows an interval, once for every decision. The interval is modelled exactly, as an
//! integer lower end and an integer width, both scaled by 256 for every byte that has been
//! shifted out. The bytes in the end spell the lower end of the last interval, and every
//! interval of the sequence contains that number: this is what lets a decoder take the
//! decisions back.

use crate::wire;
use vstd::prelude::*;

verus! {

pub const NUM_MODEL_BITS: u32 = 11;

pub const BIT_MODEL_TOTAL: u32 = 2048;

pub const NUM_MOVE_BITS: u32 = 5;

pub const TOP_VALUE: u32 = 0x100_0000;

/// The number of adaptive probabilities: one for conditional jumps, one for jumps, and one for
/// calls after each possible byte.
pub const NUM_CONTEXTS: usize = 258;

/// The value of a probability before the first decision in its context.
pub const INITIAL_PROBABILITY: u16 = 1024;

/// One decision: the probability it is coded with, and the bit.
pub struct Decision {
    pub context: int,
    pub bit: bool,
}

/// The interval that a coder has narrowed its numbers down to: `low` up to, but excluding,
/// `low + range`, in units of which 256 to the power `shifts` make up the first one.
pub struct Interval {
    pub low: nat,
    pub range: nat,
    pub shifts: nat,
}

/// What a coder knows between two decisions.
pub struct CoderState {
    pub interval: Interval,
    pub probs: Seq<u16>,
}

/// The number that `bytes` spell, the most significant first.
pub open spec fn be_value(bytes: Seq<u8>) -> nat
    decreases bytes.len(),
{
    if bytes.len() == 0 {
        0
    } else {
        be_value(bytes.drop_last()) * 256 + bytes.last() as nat
    }
}

/// The part of `range` that stands for a clear bit.
pub open spec fn bound_of(range: nat, prob: u16) -> nat {
    (range / 2048) * prob as nat
}

/// The probability of a clear bit, once `bit` has been seen.
pub open spec fn next_prob(prob: u16, bit: bool) -> u16 {
    if bit {
        (prob - prob / 32) as u16
    } else {
        (prob + (2048 - prob) / 32) as u16
    }
}

/// The values that a probability can take.
pub open spec fn prob_ok(prob: u16) -> bool {
    31 <= prob <= 2017
}

/// The part of the interval that stands for `bit`.
pub open spec fn narrow(i: Interval, prob: u16, bit: bool) -> Interval {
    let bound = bound_of(i.range, prob);
    if bit {
        Interval { low: i.low + bound, range: (i.range - bound) as nat, shifts: i.shifts }
    } else {
        Interval { low: i.low, range: bound, shifts: i.shifts }
    }
}

/// The same interval, in smaller units when it has become narrow.
pub open spec fn normalise(i: Interval) -> Interval {
    if i.range < TOP_VALUE {
        Interval { low: i.low * 256, range: i.range * 256, shifts: i.shifts + 1 }
    } else {
        i
    }
}

/// The state before the first decision.
pub open spec fn initial_state() -> CoderState {
    CoderState {
        interval: Interval { low: 0, range: 0xFFFF_FFFF, shifts: 0 },
        probs: Seq::new(NUM_CONTEXTS as nat, |i: int| INITIAL_PROBABILITY),
    }
}

/// The state after one more decision.
pub open spec fn step(s: CoderState, d: Decision) -> CoderState {
    let prob = s.probs[d.context];
    CoderState {
        interval: normalise(narrow(s.interval, prob, d.bit)),
        probs: s.probs.update(d.context, next_prob(prob, d.bit)),
    }
}

/// The state after all of `ds`.
pub open spec fn state_after(ds: Seq<Decision>) -> CoderState
    decreases ds.len(),
{
    if ds.len() == 0 {
        initial_state()
    } else {
        step(state_after(ds.drop_last()), ds.last())
    }
}

/// Every decision has one of the contexts.
pub open spec fn contexts_ok(ds: Seq<Decision>) -> bool {
    forall|i: int| 0 <= i < ds.len() ==> 0 <= (#[trigger] ds[i]).context < NUM_CONTEXTS
}

/// The lowest `n` digits of `v` to the base 256, the most significant first.
pub open spec fn be_digits(v: nat, n: nat) -> Seq<u8>
    decreases n,
{
    if n == 0 {
        Seq::empty()
    } else {
        be_digits(v / 256, (n - 1) as nat).push((v % 256) as u8)
    }
}

/// The coded form of `ds`: five bytes more than were shifted out, spelling the lower end of the
/// last interval.
pub open spec fn coded(ds: Seq<Decision>) -> Seq<u8> {
    let i = state_after(ds).interval;
    be_digits(i.low, i.shifts + 5)
}

/// The state of a decoder: how far the coded number lies above the lower end of the interval,
/// as far as the bytes taken tell, and the width of the interval.
pub struct DecoderState {
    pub code: nat,
    pub range: nat,
    pub taken: nat,
    pub probs: Seq<u16>,
}

/// A decoder that has taken the first five bytes.
pub open spec fn decoder_start(bytes: Seq<u8>) -> DecoderState {
    DecoderState {
        code: ((((bytes[0] as nat * 256 + bytes[1] as nat) * 256 + bytes[2] as nat) * 256
            + bytes[3] as nat) * 256 + bytes[4] as nat),
        range: 0xFFFF_FFFF,
        taken: 5,
        probs: Seq::new(258, |i: int| 1024u16),
    }
}

/// Takes one decision back: the bit, and the state after it. A clear bit has the part of the range
/// that its probability has of 2048; the probability moves by a 32nd of what is left of it; and a
/// range below 2 to the power 24 takes one more byte.
pub open spec fn decode_bit(bytes: Seq<u8>, s: DecoderState, context: int) -> (bool, DecoderState) {
    let prob = s.probs[context];
    let bound = s.range / 2048 * prob as nat;
    let bit = s.code >= bound;
    let adapted = if bit {
        prob - prob / 32
    } else {
        prob + (2048 - prob) / 32
    };
    let probs = s.probs.update(context, adapted as u16);
    let code = if bit {
        (s.code - bound) as nat
    } else {
        s.code
    };
    let range = if bit {
        (s.range - bound) as nat
    } else {
        bound
    };
    (
        bit,
        if range < 0x100_0000 {
            DecoderState {
                code: code * 256 + bytes[s.taken as int] as nat,
                range: range * 256,
                taken: s.taken + 1,
                probs,
            }
        } else {
            DecoderState { code, range, taken: s.taken, probs }
        },
    )
}

/// Takes back as many decisions as there are contexts: the bits, and the state after the last.
pub open spec fn decode_bits(bytes: Seq<u8>, contexts: Seq<int>) -> (Seq<bool>, DecoderState)
    decreases contexts.len(),
{
    if contexts.len() == 0 {
        (Seq::empty(), decoder_start(bytes))
    } else {
        let (bits, s) = decode_bits(bytes, contexts.drop_last());
        let (bit, t) = decode_bit(bytes, s, contexts.last());
        (bits.push(bit), t)
    }
}

/// What holds of every state a coder comes to.
pub open spec fn state_ok(s: CoderState) -> bool {
    &&& TOP_VALUE <= s.interval.range <= 0xFFFF_FFFF
    &&& s.interval.low + s.interval.range <= wire::pow256(s.interval.shifts + 4)
    &&& s.probs.len() == NUM_CONTEXTS
    &&& forall|i: int| 0 <= i < NUM_CONTEXTS ==> prob_ok(#[trigger] s.probs[i])
}

/// A usable probability splits a wide enough range in two parts, neither of them too narrow to
/// be widened again by a single shift.
pub proof fn lemma_bound(range: nat, prob: u16)
    requires
        TOP_VALUE <= range <= 0xFFFF_FFFF,
        prob_ok(prob),
    ensures
        0x1_0000 <= bound_of(range, prob),
        0x1_0000 <= range - bound_of(range, prob),
        prob_ok(next_prob(prob, true)),
        prob_ok(next_prob(prob, false)),
{
    let q = range / 2048;
    let p = prob as nat;
    assert(8192 <= q);
    assert(q * 2048 <= range);
    assert(q * 31 <= q * p <= q * 2017) by (nonlinear_arith)
        requires
            31 <= p <= 2017,
            8192 <= q,
    ;
}

/// One decision keeps what holds of every state.
pub proof fn lemma_step_ok(s: CoderState, d: Decision)
    requires
        state_ok(s),
        0 <= d.context < NUM_CONTEXTS,
    ensures
        state_ok(step(s, d)),
        step(s, d).interval.shifts <= s.interval.shifts + 1,
{
    lemma_bound(s.interval.range, s.probs[d.context]);
    let n = narrow(s.interval, s.probs[d.context], d.bit);
    assert(n.low + n.range <= wire::pow256(n.shifts + 4));
    if n.range < TOP_VALUE {
        assert(wire::pow256((n.shifts + 1 + 4) as nat) == 256 * wire::pow256(n.shifts + 4));
    }
}

/// What holds of every state holds after any decisions.
pub proof fn lemma_state_after_ok(ds: Seq<Decision>)
    requires
        contexts_ok(ds),
    ensures
        state_ok(state_after(ds)),
        state_after(ds).interval.shifts <= ds.len(),
    decreases ds.len(),
{
    if ds.len() == 0 {
        assert(wire::pow256(4) == 0x1_0000_0000) by {
            reveal_with_fuel(wire::pow256, 5);
        }
    } else {
        lemma_state_after_ok(ds.drop_last());
        lemma_step_ok(state_after(ds.drop_last()), ds.last());
    }
}

/// Appending a byte.
pub proof fn lemma_be_push(s: Seq<u8>, b: u8)
    ensures
        be_value(s.push(b)) == be_value(s) * 256 + b as nat,
{
    assert(s.push(b).drop_last() =~= s);
}

/// The digits of the number that bytes spell are the bytes.
proof fn lemma_be_digits_of_value(s: Seq<u8>)
    ensures
        be_digits(be_value(s), s.len()) == s,
    decreases s.len(),
{
    if s.len() > 0 {
        lemma_be_digits_of_value(s.drop_last());
        assert(s.drop_last().push(s.last()) =~= s);
    }
}

/// The number that digits spell, when there are enough of them.
proof fn lemma_value_of_be_digits(v: nat, n: nat)
    requires
        v < wire::pow256(n),
    ensures
        be_digits(v, n).len() == n,
        be_value(be_digits(v, n)) == v,
    decreases n,
{
    if n > 0 {
        lemma_value_of_be_digits(v / 256, (n - 1) as nat);
        lemma_be_push(be_digits(v / 256, (n - 1) as nat), (v % 256) as u8);
    }
}

/// What the first bytes spell is the number without the digits of the others.
proof fn lemma_be_prefix(s: Seq<u8>, n: nat)
    requires
        n <= s.len(),
    ensures
        be_value(s.take(n as int)) * wire::pow256((s.len() - n) as nat) <= be_value(s),
        be_value(s) < (be_value(s.take(n as int)) + 1) * wire::pow256((s.len() - n) as nat),
    decreases s.len() - n,
{
    if n == s.len() {
        assert(s.take(n as int) =~= s);
        let p = wire::pow256((s.len() - n) as nat);
        assert(p == 1);
        assert(forall|x: nat| #[trigger] (x * p) == x) by (nonlinear_arith)
            requires
                p == 1,
        ;
    } else {
        let t = s.take(n as int);
        let b = s[n as int];
        let p = wire::pow256((s.len() - n - 1) as nat);
        lemma_be_prefix(s, n + 1);
        assert(s.take(n as int + 1) =~= t.push(b));
        lemma_be_push(t, b);
        assert(wire::pow256((s.len() - n) as nat) == 256 * p);
        let v = be_value(t);
        let w = be_value(s.take(n as int + 1));
        assert(v * (256 * p) <= w * p) by (nonlinear_arith)
            requires
                w == v * 256 + b,
        ;
        assert((w + 1) * p <= (v + 1) * (256 * p)) by (nonlinear_arith)
            requires
                w == v * 256 + b,
                b <= 255,
        ;
    }
}

/// `n` times the byte `b`.
pub open spec fn repeated(b: u8, n: nat) -> Seq<u8> {
    Seq::new(n, |i: int| b)
}

/// A carry runs through any number of full bytes.
proof fn lemma_be_carry(s: Seq<u8>, t: Seq<u8>, n: nat)
    requires
        be_value(t) == be_value(s) + 1,
    ensures
        be_value(t + repeated(0, n)) == be_value(s + repeated(0xFF, n)) + 1,
    decreases n,
{
    if n == 0 {
        assert(t + repeated(0, n) =~= t);
        assert(s + repeated(0xFF, n) =~= s);
    } else {
        let m = (n - 1) as nat;
        lemma_be_carry(s, t, m);
        assert(t + repeated(0, n) =~= (t + repeated(0, m)).push(0));
        assert(s + repeated(0xFF, n) =~= (s + repeated(0xFF, m)).push(0xFF));
        lemma_be_push(t + repeated(0, m), 0);
        lemma_be_push(s + repeated(0xFF, m), 0xFF);
    }
}

/// The range coder of the decision stream, LZMA's.
///
/// The last bytes are held back while a carry can still reach them: one byte that is not to be
/// trusted yet, and as many full bytes as have followed it.
pub struct RangeEncoder {
    low: u64,
    range: u32,
    cache: u8,
    cache_size: u128,
    out: Vec<u8>,
}

impl RangeEncoder {
    /// The bytes so far, those that are held back included, without a carry still in `low`.
    pub closed spec fn shifted(&self) -> Seq<u8> {
        self.out@.push(self.cache) + repeated(0xFF, (self.cache_size - 1) as nat)
    }

    /// The bytes that no carry can reach any more.
    pub closed spec fn put_out(&self) -> Seq<u8> {
        self.out@
    }

    /// How many bytes are held back.
    pub closed spec fn held(&self) -> nat {
        self.cache_size as nat
    }

    /// What it takes to code a bit: a byte is held back, and there is no more in `low` than a carry.
    pub closed spec fn usable(&self) -> bool {
        self.cache_size >= 1 && self.low < 0x2_0000_0000
    }

    /// The interval that the coder stands for.
    pub closed spec fn interval(&self) -> Interval {
        Interval {
            low: be_value(self.shifted()) * 0x1_0000_0000 + self.low as nat,
            range: self.range as nat,
            shifts: (self.out@.len() + self.cache_size - 1) as nat,
        }
    }

    /// The bytes that are held back can take the carry that may come.
    pub closed spec fn inv(&self) -> bool {
        &&& self.cache_size >= 1
        &&& self.low + self.range <= 0x2_0000_0000
        &&& self.cache == 0xFF ==> self.low + self.range <= 0x1_0000_0000
    }

    /// A coder before its first decision.
    pub fn new() -> (r: Self)
        ensures
            r.inv(),
            r.interval() == initial_state().interval,
    {
        let r = RangeEncoder {
            low: 0,
            range: 0xFFFF_FFFF,
            cache: 0,
            cache_size: 1,
            out: Vec::new(),
        };
        proof {
            assert(r.shifted() =~= Seq::<u8>::empty().push(0));
            lemma_be_push(Seq::<u8>::empty(), 0);
        }
        r
    }

    /// A coder that keeps to its invariant can code a bit, and holds back no more bytes than it has
    /// shifted.
    pub proof fn lemma_usable(&self)
        requires
            self.inv(),
            self.interval().range > 0,
        ensures
            self.usable(),
            self.held() <= self.interval().shifts + 1,
    {
    }

    /// Codes `bit` with the probability `prob`, and adapts the probability. What is put out stays.
    pub fn encode_bit(&mut self, prob: &mut u16, bit: bool)
        requires
            old(self).usable(),
            old(self).interval().range >= TOP_VALUE,
            old(self).held() < u128::MAX,
            prob_ok(*old(prob)),
        ensures
            old(self).inv() ==> final(self).inv() && final(self).interval() == normalise(
                narrow(old(self).interval(), *old(prob), bit),
            ),
            final(self).interval().range >= TOP_VALUE,
            final(self).held() >= 1,
            old(self).put_out().is_prefix_of(final(self).put_out()),
            *final(prob) == next_prob(*old(prob), bit),
            prob_ok(*final(prob)),
    {
        let ghost before = self.interval();
        let p: u16 = *prob;
        proof {
            lemma_bound(self.range as nat, p);
            assert(bound_of(self.range as nat, p) <= self.range);
            let r = self.range;
            assert(r >> NUM_MODEL_BITS == r / 2048) by (bit_vector)
                requires
                    NUM_MODEL_BITS == 11,
            ;
            assert(p >> NUM_MOVE_BITS == p / 32) by (bit_vector)
                requires
                    NUM_MOVE_BITS == 5,
            ;
        }
        let bound: u32 = (self.range >> NUM_MODEL_BITS) * (p as u32);
        if bit {
            self.low = self.low + bound as u64;
            self.range = self.range - bound;
            *prob = p - (p >> NUM_MOVE_BITS);
        } else {
            self.range = bound;
            let up: u32 = BIT_MODEL_TOTAL - p as u32;
            proof {
                assert(up >> NUM_MOVE_BITS == up / 32) by (bit_vector)
                    requires
                        NUM_MOVE_BITS == 5,
                ;
            }
            *prob = p + ((up >> NUM_MOVE_BITS) as u16);
        }
        assert(self.interval() == narrow(before, p, bit));
        if self.range < TOP_VALUE {
            let ghost narrowed = *self;
            proof {
                let r = self.range;
                assert(r << 8u32 == r * 256) by (bit_vector)
                    requires
                        r < 0x100_0000,
                ;
            }
            self.range = self.range << 8;
            self.shift_low();
            assert(old(self).inv() ==> self.low + self.range <= 0x2_0000_0000);
            assert(old(self).inv() ==> self.interval() == normalise(narrowed.interval()));
        }
    }

    /// Shifts the highest byte of `low` out: it is held back where a carry could still reach it;
    /// otherwise it takes the place of the bytes held back, which are put out with the carry added.
    fn shift_low(&mut self)
        requires
            old(self).cache_size >= 1,
            old(self).cache_size < u128::MAX,
            old(self).low < 0x100_0000_0000,
        ensures
            final(self).range == old(self).range,
            final(self).low == (old(self).low % 0x100_0000) * 256,
            0xFF00_0000 <= old(self).low < 0x1_0000_0000 ==> {
                &&& final(self).out@ == old(self).out@
                &&& final(self).cache == old(self).cache
                &&& final(self).cache_size == old(self).cache_size + 1
            },
            !(0xFF00_0000 <= old(self).low < 0x1_0000_0000) ==> {
                let carry = old(self).low / 0x1_0000_0000;
                &&& final(self).out@ == old(self).out@.push(
                    ((old(self).cache + carry) % 256) as u8,
                ) + repeated(((0xFF + carry) % 256) as u8, (old(self).cache_size - 1) as nat)
                &&& final(self).cache == (old(self).low / 0x100_0000) % 256
                &&& final(self).cache_size == 1
            },
            old(self).low < 0x2_0000_0000 && (old(self).cache == 0xFF ==> old(self).low
                < 0x1_0000_0000) ==> final(self).interval() == (Interval {
                low: old(self).interval().low * 256,
                range: old(self).interval().range,
                shifts: old(self).interval().shifts + 1,
            }),
            old(self).low < 0xFF00_0000 ==> final(self).out@ == old(self).shifted(),
    {
        let ghost before = *self;
        let low: u64 = self.low;
        if low < 0xFF00_0000 || low >= 0x1_0000_0000 {
            let carry: u8 = (low / 0x1_0000_0000) as u8;
            let full: u8 = 0xFFu8.wrapping_add(carry);
            self.out.push(self.cache.wrapping_add(carry));
            while self.cache_size > 1
                invariant
                    1 <= self.cache_size <= before.cache_size,
                    self.out@ =~= before.out@.push(((before.cache + carry) % 256) as u8) + repeated(
                        full,
                        (before.cache_size - self.cache_size) as nat,
                    ),
                    self.low == before.low,
                    self.range == before.range,
                decreases self.cache_size,
            {
                self.out.push(full);
                self.cache_size = self.cache_size - 1;
            }
            self.cache_size = 0;
            self.cache = ((low / 0x100_0000) % 256) as u8;
            proof {
                let n = (before.cache_size - 1) as nat;
                let s = before.out@.push(before.cache);
                let t = before.out@.push(((before.cache + carry) % 256) as u8);
                if low < 0x2_0000_0000 && (before.cache == 0xFF ==> low < 0x1_0000_0000) {
                    lemma_be_push(before.out@, before.cache);
                    lemma_be_push(before.out@, (before.cache + carry) as u8);
                    if carry == 1 {
                        lemma_be_carry(s, t, n);
                    } else {
                        assert(s =~= t);
                    }
                    assert(be_value(self.out@) == be_value(before.shifted()) + carry);
                }
                lemma_be_push(self.out@, self.cache);
            }
        } else {
            proof {
                assert(before.shifted().push(0xFF) =~= before.out@.push(before.cache) + repeated(
                    0xFF,
                    before.cache_size as nat,
                ));
                lemma_be_push(before.shifted(), 0xFF);
            }
        }
        self.cache_size = self.cache_size + 1;
        proof {
            let m = low & 0x00FF_FFFF;
            assert(m == low % 0x100_0000) by (bit_vector)
                requires
                    m == low & 0x00FF_FFFF,
            ;
            assert(m << 8u64 == m * 256) by (bit_vector)
                requires
                    m < 0x100_0000,
            ;
            if low < 0xFF00_0000 || low >= 0x1_0000_0000 {
                assert(self.shifted() =~= self.out@.push(self.cache));
            }
        }
        self.low = (low & 0x00FF_FFFF) << 8;
    }

    /// Shifts everything out: the bytes spell the lower end of the interval.
    pub fn finish(self) -> (bytes: Vec<u8>)
        requires
            self.inv(),
            self.interval().range > 0,
            self.interval().shifts < u128::MAX - 6,
        ensures
            bytes@ == be_digits(self.interval().low, self.interval().shifts + 5),
    {
        let mut this = self;
        let ghost start = this.interval();
        let mut i: u32 = 0;
        assert(wire::pow256(0) == 1);
        while i < 5
            invariant
                i <= 5,
                this.cache_size >= 1,
                start.shifts < u128::MAX - 6,
                this.low < 0x2_0000_0000,
                this.cache == 0xFF ==> this.low < 0x1_0000_0000,
                i > 0 ==> this.low < 0x1_0000_0000,
                i >= 1 ==> this.low % 256 == 0,
                i >= 2 ==> this.low % 0x1_0000 == 0,
                i >= 3 ==> this.low % 0x100_0000 == 0,
                i >= 4 ==> this.low == 0,
                i == 5 ==> this.cache_size == 1 && this.cache == 0,
                this.interval().shifts == start.shifts + i,
                this.interval().low == start.low * wire::pow256(i as nat),
            decreases 5 - i,
        {
            let ghost v = this.interval().low;
            this.shift_low();
            i = i + 1;
            proof {
                assert(start.low * wire::pow256(i as nat) == v * 256) by (nonlinear_arith)
                    requires
                        v == start.low * wire::pow256((i - 1) as nat),
                        wire::pow256(i as nat) == 256 * wire::pow256((i - 1) as nat),
                ;
            }
        }
        proof {
            assert(wire::pow256(5) == 0x100_0000_0000) by {
                reveal_with_fuel(wire::pow256, 6);
            }
            assert(this.shifted() =~= this.out@.push(0));
            lemma_be_push(this.out@, 0);
            lemma_be_digits_of_value(this.out@);
        }
        this.out
    }
}

/// The state that a decoder of the coded form of `ds` is to have after `k` decisions.
pub open spec fn decoder_at(ds: Seq<Decision>, k: int) -> DecoderState {
    let s = state_after(ds.take(k));
    DecoderState {
        code: (be_value(coded(ds).take(s.interval.shifts as int + 5)) - s.interval.low) as nat,
        range: s.interval.range,
        taken: s.interval.shifts + 5,
        probs: s.probs,
    }
}

/// An inner interval lies in an outer one, both in the units of the inner.
spec fn within(inner: Interval, outer: Interval) -> bool {
    let p = wire::pow256((inner.shifts - outer.shifts) as nat);
    &&& outer.shifts <= inner.shifts
    &&& outer.low * p <= inner.low
    &&& inner.low + inner.range <= (outer.low + outer.range) * p
}

/// One decision stays within any interval that contained the state.
proof fn lemma_step_within(s: CoderState, d: Decision, outer: Interval)
    requires
        state_ok(s),
        0 <= d.context < NUM_CONTEXTS,
        within(s.interval, outer),
    ensures
        within(step(s, d).interval, outer),
{
    lemma_bound(s.interval.range, s.probs[d.context]);
    let n = narrow(s.interval, s.probs[d.context], d.bit);
    let p = wire::pow256((n.shifts - outer.shifts) as nat);
    assert(within(n, outer));
    if n.range < TOP_VALUE {
        let a = outer.low;
        let b = outer.low + outer.range;
        assert(wire::pow256((n.shifts + 1 - outer.shifts) as nat) == 256 * p);
        assert(a * (256 * p) == a * p * 256) by (nonlinear_arith);
        assert(b * (256 * p) == b * p * 256) by (nonlinear_arith);
    }
}

/// The last interval lies within the one that stands for the decision `k`, in the units from
/// before that decision.
proof fn lemma_last_within(ds: Seq<Decision>, k: int, m: int)
    requires
        contexts_ok(ds),
        0 <= k < m <= ds.len(),
    ensures
        within(
            state_after(ds.take(m)).interval,
            narrow(
                state_after(ds.take(k)).interval,
                state_after(ds.take(k)).probs[ds[k].context],
                ds[k].bit,
            ),
        ),
    decreases m,
{
    let s = state_after(ds.take(k));
    let n = narrow(s.interval, s.probs[ds[k].context], ds[k].bit);
    lemma_state_after_ok(ds.take(m - 1));
    assert(ds.take(m).drop_last() =~= ds.take(m - 1));
    assert(ds.take(m).last() == ds[m - 1]);
    if m == k + 1 {
        let f = state_after(ds.take(m)).interval;
        lemma_bound(s.interval.range, s.probs[ds[k].context]);
        assert(f == normalise(n));
        let p = wire::pow256((f.shifts - n.shifts) as nat);
        assert(p == (if n.range < TOP_VALUE { 256nat } else { 1nat })) by {
            reveal_with_fuel(wire::pow256, 2);
        }
        let end = n.low + n.range;
        if n.range < TOP_VALUE {
            assert(n.low * p == n.low * 256 && end * p == end * 256) by (nonlinear_arith)
                requires
                    p == 256,
            ;
        } else {
            assert(n.low * p == n.low && end * p == end) by (nonlinear_arith)
                requires
                    p == 1,
            ;
        }
    } else {
        lemma_last_within(ds, k, m - 1);
        lemma_step_within(state_after(ds.take(m - 1)), ds[m - 1], n);
    }
}

/// The coded number, as far as the bytes taken tell, lies in an interval that contains the last.
proof fn lemma_prefix_in(ds: Seq<Decision>, i: Interval)
    requires
        contexts_ok(ds),
        within(state_after(ds).interval, i),
    ensures
        i.low <= be_value(coded(ds).take(i.shifts as int + 5)) < i.low + i.range,
        i.shifts + 5 <= coded(ds).len(),
{
    let f = state_after(ds).interval;
    lemma_state_after_ok(ds);
    assert(wire::pow256((f.shifts + 5) as nat) == 256 * wire::pow256((f.shifts + 4) as nat));
    lemma_value_of_be_digits(f.low, f.shifts + 5);
    let n = i.shifts + 5;
    let p = wire::pow256((f.shifts - i.shifts) as nat);
    let v = be_value(coded(ds).take(n as int));
    lemma_be_prefix(coded(ds), n as nat);
    assert(f.low < (i.low + i.range) * p);
    let a = i.low;
    let b = i.low + i.range;
    assert(a < v + 1) by (nonlinear_arith)
        requires
            a * p <= f.low,
            f.low < (v + 1) * p,
    ;
    assert(v < b) by (nonlinear_arith)
        requires
            v * p <= f.low,
            f.low < b * p,
    ;
}

/// A decoder starts in the state it is to have.
pub proof fn lemma_decoder_start(ds: Seq<Decision>)
    requires
        contexts_ok(ds),
    ensures
        decoder_start(coded(ds)) == decoder_at(ds, 0),
{
    assert(ds.take(0) =~= Seq::empty());
    let bytes = coded(ds);
    let first = bytes.take(5);
    lemma_state_after_ok(ds);
    lemma_value_of_be_digits_len(state_after(ds).interval.low, state_after(ds).interval.shifts + 5);
    assert(first =~= seq![bytes[0], bytes[1], bytes[2], bytes[3], bytes[4]]);
    let none = Seq::<u8>::empty();
    assert(be_value(none) == 0);
    lemma_be_push(none, bytes[0]);
    lemma_be_push(none.push(bytes[0]), bytes[1]);
    lemma_be_push(none.push(bytes[0]).push(bytes[1]), bytes[2]);
    lemma_be_push(none.push(bytes[0]).push(bytes[1]).push(bytes[2]), bytes[3]);
    lemma_be_push(none.push(bytes[0]).push(bytes[1]).push(bytes[2]).push(bytes[3]), bytes[4]);
    assert(first =~= none.push(bytes[0]).push(bytes[1]).push(bytes[2]).push(bytes[3]).push(bytes[4]));
    assert(decoder_start(bytes).probs =~= initial_state().probs);
}

/// A decoder takes the decision `k` back, and comes to the state it is to have next.
pub proof fn lemma_decode_bit(ds: Seq<Decision>, k: int)
    requires
        contexts_ok(ds),
        0 <= k < ds.len(),
    ensures
        decode_bit(coded(ds), decoder_at(ds, k), ds[k].context) == (
            ds[k].bit,
            decoder_at(ds, k + 1),
        ),
{
    let s = state_after(ds.take(k));
    let d = ds[k];
    let n = narrow(s.interval, s.probs[d.context], d.bit);
    lemma_state_after_ok(ds.take(k));
    lemma_bound(s.interval.range, s.probs[d.context]);
    assert(ds.take(k + 1).drop_last() =~= ds.take(k));
    assert(ds.take(k + 1).last() == d);
    assert(ds.take(ds.len() as int) =~= ds);
    lemma_last_within(ds, k, ds.len() as int);
    lemma_prefix_in(ds, n);
    let c = coded(ds);
    if n.range < TOP_VALUE {
        lemma_state_after_ok(ds);
        assert(state_after(ds).interval.shifts > n.shifts) by {
            lemma_shifts_grow(ds, k + 1, ds.len() as int);
        }
        lemma_value_of_be_digits_len(state_after(ds).interval.low, state_after(ds).interval.shifts + 5);
        assert(c.take(n.shifts as int + 6) =~= c.take(n.shifts as int + 5).push(c[n.shifts as int + 5]));
        lemma_be_push(c.take(n.shifts as int + 5), c[n.shifts as int + 5]);
    }
}

/// How many digits there are.
proof fn lemma_value_of_be_digits_len(v: nat, n: nat)
    ensures
        be_digits(v, n).len() == n,
    decreases n,
{
    if n > 0 {
        lemma_value_of_be_digits_len(v / 256, (n - 1) as nat);
    }
}

/// Bytes that have been shifted out stay so.
proof fn lemma_shifts_grow(ds: Seq<Decision>, k: int, m: int)
    requires
        0 <= k <= m <= ds.len(),
    ensures
        state_after(ds.take(k)).interval.shifts <= state_after(ds.take(m)).interval.shifts,
    decreases m,
{
    if k < m {
        lemma_shifts_grow(ds, k, m - 1);
        assert(ds.take(m).drop_last() =~= ds.take(m - 1));
    }
}

/// A decoder that has taken back every decision has taken every byte, and stands exactly on the
/// lower end of the interval.
pub proof fn lemma_decoder_end(ds: Seq<Decision>)
    requires
        contexts_ok(ds),
    ensures
        decoder_at(ds, ds.len() as int).code == 0,
        decoder_at(ds, ds.len() as int).taken == coded(ds).len(),
{
    let f = state_after(ds).interval;
    lemma_state_after_ok(ds);
    assert(wire::pow256((f.shifts + 5) as nat) == 256 * wire::pow256((f.shifts + 4) as nat));
    lemma_value_of_be_digits(f.low, f.shifts + 5);
    assert(ds.take(ds.len() as int) =~= ds);
    assert(coded(ds).take(f.shifts as int + 5) =~= coded(ds));
}

/// The contexts of decisions.
pub open spec fn contexts(ds: Seq<Decision>) -> Seq<int> {
    ds.map_values(|d: Decision| d.context)
}

/// The bits of decisions.
pub open spec fn bits(ds: Seq<Decision>) -> Seq<bool> {
    ds.map_values(|d: Decision| d.bit)
}

proof fn lemma_decode_some_bits(ds: Seq<Decision>, k: int)
    requires
        contexts_ok(ds),
        0 <= k <= ds.len(),
    ensures
        decode_bits(coded(ds), contexts(ds).take(k)) == (bits(ds).take(k), decoder_at(ds, k)),
    decreases k,
{
    if k == 0 {
        lemma_decoder_start(ds);
        assert(bits(ds).take(0) =~= Seq::empty());
    } else {
        lemma_decode_some_bits(ds, k - 1);
        assert(contexts(ds).take(k).drop_last() =~= contexts(ds).take(k - 1));
        lemma_decode_bit(ds, k - 1);
        assert(bits(ds).take(k) =~= bits(ds).take(k - 1).push(ds[k - 1].bit));
    }
}

/// A decoder that knows the contexts takes back every decision of any sequence, in doing so takes
/// every byte of the coded form, and ends exactly on the lower end of the interval.
pub proof fn law_decisions_are_taken_back(ds: Seq<Decision>)
    requires
        contexts_ok(ds),
    ensures
        decode_bits(coded(ds), contexts(ds)).0 == bits(ds),
        decode_bits(coded(ds), contexts(ds)).1.taken == coded(ds).len(),
        decode_bits(coded(ds), contexts(ds)).1.code == 0,
{
    let n = ds.len() as int;
    lemma_decode_some_bits(ds, n);
    lemma_decoder_end(ds);
    assert(contexts(ds).take(n) =~= contexts(ds));
    assert(bits(ds).take(n) =~= bits(ds));
}

/// The coded form starts with a zero byte.
pub proof fn law_coded_form_starts_with_zero(ds: Seq<Decision>)
    requires
        contexts_ok(ds),
    ensures
        coded(ds).len() >= 5,
        coded(ds)[0] == 0,
{
    let f = state_after(ds).interval;
    lemma_state_after_ok(ds);
    let p = wire::pow256((f.shifts + 4) as nat);
    assert(wire::pow256((f.shifts + 5) as nat) == 256 * p);
    lemma_value_of_be_digits(f.low, f.shifts + 5);
    lemma_be_prefix(coded(ds), 1);
    let t = coded(ds).take(1);
    assert(t =~= Seq::<u8>::empty().push(coded(ds)[0]));
    lemma_be_push(Seq::empty(), coded(ds)[0]);
    let v = be_value(t);
    assert(v < 1) by (nonlinear_arith)
        requires
            v * p <= f.low,
            f.low < p,
    ;
}

/// What a decoder does with the first five bytes, and with each decision, in numbers: it starts with
/// the number that they spell, a range of 2 to the power 32 less one, and 258 probabilities of a half;
/// a decision splits the range by its probability of 2048; the bit is set where the number reaches
/// beyond the part for a clear bit, which is then taken off it; its probability, and no other, moves by
/// a 32nd towards what was seen; and where the range comes below 2 to the power 24, both take in one
/// more byte.
pub proof fn law_decoder_in_numbers(bytes: Seq<u8>, s: DecoderState, context: int, other: int)
    requires
        0 <= context < s.probs.len(),
        0 <= other < s.probs.len(),
        31 <= s.probs[context] <= 2017,
        s.range >= 0x100_0000,
    ensures
        ({
            let start = decoder_start(bytes);
            &&& start.code == bytes[0] * 0x1_0000_0000 + bytes[1] * 0x100_0000 + bytes[2] * 0x1_0000
                + bytes[3] * 0x100 + bytes[4]
            &&& start.range == 0xFFFF_FFFF
            &&& start.taken == 5
            &&& start.probs.len() == 258
            &&& forall|i: int| 0 <= i < 258 ==> #[trigger] start.probs[i] == 1024
        }),
        ({
            let (bit, t) = decode_bit(bytes, s, context);
            let p = s.probs[context];
            let clear = s.range / 2048 * p as nat;
            let range = if bit {
                s.range - clear
            } else {
                clear as int
            };
            let code = if bit {
                s.code - clear
            } else {
                s.code as int
            };
            &&& bit <==> s.code >= clear
            &&& t.probs.len() == s.probs.len()
            &&& t.probs[context] == if bit {
                p - p / 32
            } else {
                p + (2048 - p) / 32
            }
            &&& other != context ==> t.probs[other] == s.probs[other]
            &&& range >= 0x100_0000 ==> t.range == range && t.code == code && t.taken == s.taken
            &&& range < 0x100_0000 ==> t.range == range * 256 && t.code == code * 256
                + bytes[s.taken as int] && t.taken == s.taken + 1
        }),
{
    let p = s.probs[context];
    let q = s.range / 2048;
    assert(q * p <= s.range) by (nonlinear_arith)
        requires
            q * 2048 <= s.range,
            p <= 2017,
            q >= 0,
    ;
}

} // verus!
