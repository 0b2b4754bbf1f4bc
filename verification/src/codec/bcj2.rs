//! The BCJ2 encoder: x86 code split into four streams, as 7-Zip's `Bcj2Enc` splits it.
//!
//! The main stream keeps every byte except the four-byte operands of the calls and jumps that
//! are converted; those operands go to the call stream (`E8`) or the jump stream (`E9` and the
//! `0F 8x` conditional jumps) as absolute addresses in big-endian order; and a range-coded bit
//! per opcode says whether its operand was converted. A decoder scans the main stream for the
//! same opcodes: an `E8` or `E9` byte, or an `8x` byte after `0F`, wherever it lies, operand
//! bytes of an unconverted branch included. Each of them has its bit.

use vstd::prelude::*;

use crate::codec::range_coder;
use crate::codec::range_coder::{Decision, DecoderState, RangeEncoder, NUM_CONTEXTS};

verus! {

/// A branch is converted when its relative target is within this many bytes either way.
pub const RELATIVE_LIMIT: u32 = 0x400_0000;

/// `x` modulo 2 to the power 32.
pub open spec fn wrap32(x: int) -> u32 {
    (x % 0x1_0000_0000) as u32
}

/// The number that four bytes spell, the least significant first.
#[verifier::opaque]
pub open spec fn le32(b: Seq<u8>) -> u32 {
    (b[0] + 256 * (b[1] + 256 * (b[2] + 256 * b[3]))) as u32
}

/// The four bytes of a number, the least significant first.
#[verifier::opaque]
pub open spec fn le32_bytes(x: u32) -> Seq<u8> {
    seq![
        (x % 256) as u8,
        (x / 256 % 256) as u8,
        (x / 256 / 256 % 256) as u8,
        (x / 256 / 256 / 256) as u8,
    ]
}

/// The four bytes of a number, the most significant first.
pub open spec fn be32_bytes(x: u32) -> Seq<u8> {
    le32_bytes(x).reverse()
}

/// The number that four bytes spell, the most significant first.
pub open spec fn be32(b: Seq<u8>) -> u32 {
    le32(b.reverse())
}

/// Whether `b`, coming after `prev`, is the opcode of a branch.
pub open spec fn is_branch(prev: u8, b: u8) -> bool {
    b == 0xE8 || b == 0xE9 || (prev == 0x0F && 0x80 <= b <= 0x8F)
}

/// The context of the decision for the opcode `b`: the previous byte for a call, one context for
/// every jump, another for every conditional jump.
pub open spec fn context_of(prev: u8, b: u8) -> int {
    if b == 0xE8 {
        2 + prev
    } else if b == 0xE9 {
        1
    } else {
        0
    }
}

/// Whether an operand is converted: as a signed number it lies from -64 MiB up to, but
/// excluding, 64 MiB.
pub open spec fn is_near(relative: u32) -> bool {
    relative < RELATIVE_LIMIT || relative >= 0x1_0000_0000 - RELATIVE_LIMIT
}

/// What a scan has put out, and where it has stopped.
#[verifier::ext_equal]
pub struct Scan {
    pub decisions: Seq<Decision>,
    pub main: Seq<u8>,
    pub call: Seq<u8>,
    pub jump: Seq<u8>,
    /// The input that has not been scanned.
    pub rest: Seq<u8>,
    /// The input byte before the next one to scan.
    pub prev: u8,
    /// The number of input bytes scanned, modulo 2 to the power 32.
    pub ip: u32,
}

impl Scan {
    /// This scan, with what `first` has put out before it.
    pub open spec fn after(self, first: Scan) -> Scan {
        Scan {
            decisions: first.decisions + self.decisions,
            main: first.main + self.main,
            call: first.call + self.call,
            jump: first.jump + self.jump,
            rest: self.rest,
            prev: self.prev,
            ip: self.ip,
        }
    }
}

/// A scan that has put nothing out and stops before `rest`.
pub open spec fn stopped(prev: u8, ip: u32, rest: Seq<u8>) -> Scan {
    Scan {
        decisions: Seq::empty(),
        main: Seq::empty(),
        call: Seq::empty(),
        jump: Seq::empty(),
        rest,
        prev,
        ip,
    }
}

/// A scan past one byte that stays in the main stream; with a decision when it is an opcode.
pub open spec fn kept(prev: u8, ip: u32, data: Seq<u8>) -> Scan {
    let b = data[0];
    Scan {
        decisions: if is_branch(prev, b) {
            seq![Decision { context: context_of(prev, b), bit: false }]
        } else {
            Seq::empty()
        },
        main: seq![b],
        call: Seq::empty(),
        jump: Seq::empty(),
        rest: data.skip(1),
        prev: b,
        ip: wrap32(ip + 1),
    }
}

/// A scan past an opcode and its operand, which is converted.
pub open spec fn converted(prev: u8, ip: u32, data: Seq<u8>) -> Scan {
    let b = data[0];
    let address = be32_bytes(wrap32(le32(data.subrange(1, 5)) + ip + 5));
    Scan {
        decisions: seq![Decision { context: context_of(prev, b), bit: true }],
        main: seq![b],
        call: if b == 0xE8 {
            address
        } else {
            Seq::empty()
        },
        jump: if b == 0xE8 {
            Seq::empty()
        } else {
            address
        },
        rest: data.skip(5),
        prev: data[4],
        ip: wrap32(ip + 5),
    }
}

/// Whether `data` starts with an opcode whose operand has not fully arrived.
pub open spec fn operand_missing(prev: u8, data: Seq<u8>) -> bool {
    is_branch(prev, data[0]) && data.len() < 5
}

/// One step of the scan.
pub open spec fn scan_one(prev: u8, ip: u32, data: Seq<u8>) -> Scan {
    if is_branch(prev, data[0]) && data.len() >= 5 && is_near(le32(data.subrange(1, 5))) {
        converted(prev, ip, data)
    } else {
        kept(prev, ip, data)
    }
}

/// Scans `data` from the left. Unless it is `finishing`, the scan stops before an opcode whose
/// operand has not fully arrived.
pub open spec fn scan(prev: u8, ip: u32, data: Seq<u8>, finishing: bool) -> Scan
    decreases data.len(),
{
    if data.len() == 0 || (!finishing && operand_missing(prev, data)) {
        stopped(prev, ip, data)
    } else {
        let one = scan_one(prev, ip, data);
        scan(one.prev, one.ip, one.rest, finishing).after(one)
    }
}

/// The four streams that x86 code is split into.
pub struct Split {
    pub main: Seq<u8>,
    pub call: Seq<u8>,
    pub jump: Seq<u8>,
    pub rc: Seq<u8>,
}

/// The streams of the whole of `data`.
pub open spec fn split(data: Seq<u8>) -> Split {
    let s = scan(0, 0, data, true);
    Split { main: s.main, call: s.call, jump: s.jump, rc: range_coder::coded(s.decisions) }
}

/// Whether a decoder takes `b`, coming after `prev`, for the opcode of a branch.
#[verifier::opaque]
pub open spec fn is_opcode(prev: u8, b: u8) -> bool {
    b & 0xFE == 0xE8 || (prev == 0x0F && b & 0xF0 == 0x80)
}

/// The operand of the branch at `ip` that a decoder makes of the address at the front of a stream:
/// four bytes, the most significant first, relative to the byte behind the operand; the operand has
/// the least significant first.
#[verifier::opaque]
pub open spec fn operand_from(from: Seq<u8>, ip: u32) -> Seq<u8> {
    let address = from[0] * 0x100_0000 + from[1] * 0x1_0000 + from[2] * 0x100 + from[3];
    let relative = (address - (ip + 5)) % 0x1_0000_0000;
    seq![
        (relative % 0x100) as u8,
        (relative / 0x100 % 0x100) as u8,
        (relative / 0x1_0000 % 0x100) as u8,
        (relative / 0x100_0000) as u8,
    ]
}

/// The position so many bytes behind another, in 32 bits.
pub open spec fn next_ip(ip: u32, n: int) -> u32 {
    if ip + n < 0x1_0000_0000 {
        (ip + n) as u32
    } else {
        (ip + n - 0x1_0000_0000) as u32
    }
}

/// Puts the code together again from what is left of the four streams: `main` is scanned for
/// opcodes, and each of them has its decision in `rc`. There is no result when an operand is
/// missing, or when anything is left over in the end.
pub open spec fn join(
    prev: u8,
    ip: u32,
    main: Seq<u8>,
    call: Seq<u8>,
    jump: Seq<u8>,
    rc: Seq<u8>,
    state: DecoderState,
) -> Option<Seq<u8>>
    decreases main.len(),
{
    if main.len() == 0 {
        if call.len() == 0 && jump.len() == 0 && state.taken == rc.len() && state.code == 0 {
            Some(Seq::empty())
        } else {
            None
        }
    } else {
        let b = main[0];
        let (bit, next) = range_coder::decode_bit(
            rc,
            state,
            if b == 0xE8 {
                2 + prev as int
            } else if b == 0xE9 {
                1int
            } else {
                0int
            },
        );
        if !is_opcode(prev, b) {
            prefixed(seq![b], join(b, next_ip(ip, 1), main.skip(1), call, jump, rc, state))
        } else if !bit {
            prefixed(seq![b], join(b, next_ip(ip, 1), main.skip(1), call, jump, rc, next))
        } else {
            let from = if b == 0xE8 {
                call
            } else {
                jump
            };
            if from.len() < 4 {
                None
            } else {
                let operand = operand_from(from, ip);
                prefixed(
                    seq![b] + operand,
                    join(
                        operand[3],
                        next_ip(ip, 5),
                        main.skip(1),
                        if b == 0xE8 {
                            call.skip(4)
                        } else {
                            call
                        },
                        if b == 0xE8 {
                            jump
                        } else {
                            jump.skip(4)
                        },
                        rc,
                        next,
                    ),
                )
            }
        }
    }
}

/// `s` after `first`, when there is one.
pub open spec fn prefixed(first: Seq<u8>, s: Option<Seq<u8>>) -> Option<Seq<u8>> {
    match s {
        Some(s) => Some(first + s),
        None => None,
    }
}

/// Puts the code together again from all of the four streams.
pub open spec fn unsplit(s: Split) -> Option<Seq<u8>> {
    join(0, 0, s.main, s.call, s.jump, s.rc, range_coder::decoder_start(s.rc))
}

/// The four bytes of a number spell it.
proof fn lemma_le32(x: u32, b: Seq<u8>)
    requires
        b.len() == 4,
    ensures
        le32(le32_bytes(x)) == x,
        le32_bytes(le32(b)) == b,
        be32(be32_bytes(x)) == x,
        le32_bytes(x).len() == 4,
        be32_bytes(x).len() == 4,
{
    reveal(le32);
    reveal(le32_bytes);
    let y = b[0] + 256 * (b[1] + 256 * (b[2] + 256 * b[3]));
    assert(y / 256 == b[1] + 256 * (b[2] + 256 * b[3]));
    assert(y / 256 / 256 == b[2] + 256 * b[3]);
    assert(y / 256 / 256 / 256 == b[3]);
    assert(le32(b) == y);
    assert(le32_bytes(le32(b)) =~= b);
    assert(be32_bytes(x).reverse() =~= le32_bytes(x));
}

/// A scan that comes after two others comes after both of them together.
proof fn lemma_after(a: Scan, b: Scan, c: Scan)
    ensures
        c.after(b).after(a) == c.after(b.after(a)),
{
    assert(c.after(b).after(a) =~= c.after(b.after(a)));
}

/// A scan that comes after one that has put nothing out.
proof fn lemma_after_nothing(prev: u8, ip: u32, rest: Seq<u8>, s: Scan)
    ensures
        s.after(stopped(prev, ip, rest)) == s,
{
    assert(s.after(stopped(prev, ip, rest)) =~= s);
}

/// What a scan puts out, and what it leaves.
pub proof fn lemma_scan(prev: u8, ip: u32, data: Seq<u8>, finishing: bool)
    ensures
        ({
            let s = scan(prev, ip, data, finishing);
            &&& range_coder::contexts_ok(s.decisions)
            &&& s.decisions.len() + s.rest.len() <= data.len()
            &&& s.main.len() + s.call.len() + s.jump.len() + s.rest.len() == data.len()
            &&& s.call.len() % 4 == 0
            &&& s.jump.len() % 4 == 0
            &&& finishing ==> s.rest.len() == 0
            &&& s.rest.len() > 0 ==> operand_missing(s.prev, s.rest)
        }),
    decreases data.len(),
{
    if !(data.len() == 0 || (!finishing && operand_missing(prev, data))) {
        let one = scan_one(prev, ip, data);
        lemma_scan(one.prev, one.ip, one.rest, finishing);
        if data.len() >= 5 {
            let relative = le32(data.subrange(1, 5));
            lemma_le32(wrap32(relative + ip + 5), data.subrange(1, 5));
        }
        let s = scan(one.prev, one.ip, one.rest, finishing);
        assert forall|i: int| 0 <= i < s.after(one).decisions.len() implies 0 <= (
        #[trigger] s.after(one).decisions[i]).context < NUM_CONTEXTS by {
            if i < one.decisions.len() {
                assert(one.decisions[i].context == context_of(prev, data[0]));
            } else {
                assert(s.after(one).decisions[i] == s.decisions[i - one.decisions.len()]);
            }
        }
    }
}

/// Code may come in pieces: scanning `a`, and then what was left of it with `b`, puts out the
/// same streams and decisions, and leaves the same rest, as scanning both at once.
pub proof fn law_scan_in_pieces(prev: u8, ip: u32, a: Seq<u8>, b: Seq<u8>, finishing: bool)
    ensures
        ({
            let s = scan(prev, ip, a, false);
            scan(prev, ip, a + b, finishing) == scan(s.prev, s.ip, s.rest + b, finishing).after(s)
        }),
    decreases a.len(),
{
    let s = scan(prev, ip, a, false);
    if a.len() == 0 || operand_missing(prev, a) {
        lemma_after_nothing(prev, ip, a, scan(prev, ip, a + b, finishing));
    } else {
        let one = scan_one(prev, ip, a);
        let more = scan_one(prev, ip, a + b);
        law_scan_in_pieces(one.prev, one.ip, one.rest, b, finishing);
        assert((a + b).skip(1) =~= a.skip(1) + b);
        if a.len() >= 5 {
            assert((a + b).subrange(1, 5) =~= a.subrange(1, 5));
            assert((a + b).skip(5) =~= a.skip(5) + b);
        }
        assert(more.rest == one.rest + b);
        let t = scan(one.prev, one.ip, one.rest, false);
        lemma_after(one, t, scan(t.prev, t.ip, t.rest + b, finishing));
    }
}

/// A decoder takes for opcodes what the encoder does.
proof fn lemma_opcode(prev: u8, b: u8)
    ensures
        is_opcode(prev, b) == is_branch(prev, b),
{
    reveal(is_opcode);
    assert((b & 0xFE) == 0xE8 <==> (b == 0xE8 || b == 0xE9)) by (bit_vector);
    assert((b & 0xF0) == 0x80 <==> (0x80 <= b <= 0x8F)) by (bit_vector);
}

/// A decoder makes the operand again of its address.
proof fn lemma_operand(from: Seq<u8>, ip: u32, operand: Seq<u8>)
    requires
        from.len() >= 4,
        from.take(4) == be32_bytes(wrap32(le32(operand) + ip + 5)),
        operand.len() == 4,
    ensures
        operand_from(from, ip) == operand,
{
    reveal(operand_from);
    reveal(le32);
    reveal(le32_bytes);
    let r = le32(operand);
    let x = wrap32(r + ip + 5);
    let bytes = be32_bytes(x);
    assert(from[0] == from.take(4)[0] && from[1] == from.take(4)[1]);
    assert(from[2] == from.take(4)[2] && from[3] == from.take(4)[3]);
    assert(bytes[0] == (x / 256 / 256 / 256) as u8 && bytes[1] == (x / 256 / 256 % 256) as u8);
    assert(bytes[2] == (x / 256 % 256) as u8 && bytes[3] == (x % 256) as u8);
    let address = from[0] * 0x100_0000 + from[1] * 0x1_0000 + from[2] * 0x100 + from[3];
    assert(address == x);
    assert((address - (ip + 5)) % 0x1_0000_0000 == r);
    assert(r == operand[0] + 0x100 * operand[1] + 0x1_0000 * operand[2] + 0x100_0000 * operand[3]);
    assert(operand_from(from, ip) =~= operand);
}

/// What joining the streams of a scan gives, when the decisions of the scan are those of `all`
/// from `k` on.
#[verifier::spinoff_prover]
#[verifier::rlimit(60)]
proof fn lemma_join(prev: u8, ip: u32, data: Seq<u8>, all: Seq<Decision>, k: int)
    requires
        0 <= k <= all.len(),
        range_coder::contexts_ok(all),
        all.skip(k) == scan(prev, ip, data, true).decisions,
    ensures
        ({
            let s = scan(prev, ip, data, true);
            join(
                prev,
                ip,
                s.main,
                s.call,
                s.jump,
                range_coder::coded(all),
                range_coder::decoder_at(all, k),
            ) == Some(data)
        }),
    decreases data.len(),
{
    let s = scan(prev, ip, data, true);
    let rc = range_coder::coded(all);
    if data.len() == 0 {
        assert(k == all.len()) by {
            assert(all.skip(k).len() == 0);
        }
        range_coder::lemma_decoder_end(all);
        assert(data =~= Seq::empty());
    } else {
        let one = scan_one(prev, ip, data);
        let t = scan(one.prev, one.ip, one.rest, true);
        let b = data[0];
        let m = k + one.decisions.len();
        assert(s.decisions == one.decisions + t.decisions);
        assert(all.skip(m) =~= t.decisions) by {
            assert(all.skip(k).skip(one.decisions.len() as int) =~= all.skip(m));
        }
        lemma_join(one.prev, one.ip, one.rest, all, m);
        assert(s.main.skip(1) =~= t.main);
        assert(s.main[0] == b);
        lemma_opcode(prev, b);
        assert(next_ip(ip, 1) == wrap32(ip + 1) && next_ip(ip, 5) == wrap32(ip + 5));
        if is_branch(prev, b) {
            assert(all[k] == all.skip(k)[0]);
            range_coder::lemma_decode_bit(all, k);
        }
        if one.decisions.len() > 0 && one.decisions[0].bit {
            let relative = le32(data.subrange(1, 5));
            let absolute = wrap32(relative + ip + 5);
            lemma_le32(absolute, data.subrange(1, 5));
            let from = if b == 0xE8 {
                s.call
            } else {
                s.jump
            };
            assert(from.take(4) =~= be32_bytes(absolute));
            lemma_operand(from, ip, data.subrange(1, 5));
            if b == 0xE8 {
                assert(s.call.skip(4) =~= t.call);
                assert(s.jump =~= t.jump);
            } else {
                assert(s.jump.skip(4) =~= t.jump);
                assert(s.call =~= t.call);
            }
            assert(data =~= seq![b] + data.subrange(1, 5) + data.skip(5));
        } else {
            assert(s.call =~= t.call);
            assert(s.jump =~= t.jump);
            assert(data =~= seq![b] + data.skip(1));
        }
    }
}

/// A decoder reads back what the encoder split: joining the four streams of any code gives the
/// code, with nothing left over in any of the streams.
pub proof fn law_join_reads_back_split(data: Seq<u8>)
    ensures
        unsplit(split(data)) == Some(data),
{
    let all = scan(0, 0, data, true).decisions;
    lemma_scan(0, 0, data, true);
    range_coder::lemma_decoder_start(all);
    assert(all.skip(0) =~= all);
    lemma_join(0, 0, data, all, 0);
}

/// Pieces of code, one after the other.
pub open spec fn concatenated(pieces: Seq<Seq<u8>>) -> Seq<u8>
    decreases pieces.len(),
{
    if pieces.len() == 0 {
        Seq::empty()
    } else {
        concatenated(pieces.drop_last()) + pieces.last()
    }
}

/// What an encoder has put out, and what it holds back, once it has been fed with `pieces`.
pub open spec fn fed(pieces: Seq<Seq<u8>>) -> Scan
    decreases pieces.len(),
{
    if pieces.len() == 0 {
        stopped(0, 0, Seq::empty())
    } else {
        let s = fed(pieces.drop_last());
        scan(s.prev, s.ip, s.rest + pieces.last(), false).after(s)
    }
}

proof fn lemma_fed(pieces: Seq<Seq<u8>>)
    ensures
        fed(pieces) == scan(0, 0, concatenated(pieces), false),
    decreases pieces.len(),
{
    if pieces.len() > 0 {
        lemma_fed(pieces.drop_last());
        law_scan_in_pieces(0, 0, concatenated(pieces.drop_last()), pieces.last(), false);
    }
}

/// However code is cut into pieces, feeding an encoder with them and finishing gives the streams
/// of the whole.
pub proof fn law_pieces_make_no_difference(pieces: Seq<Seq<u8>>)
    ensures
        ({
            let s = fed(pieces);
            let end = scan(s.prev, s.ip, s.rest, true);
            split(concatenated(pieces)) == Split {
                main: s.main + end.main,
                call: s.call + end.call,
                jump: s.jump + end.jump,
                rc: range_coder::coded(s.decisions + end.decisions),
            }
        }),
{
    let data = concatenated(pieces);
    lemma_fed(pieces);
    law_scan_in_pieces(0, 0, data, Seq::empty(), true);
    assert(data + Seq::empty() =~= data);
    let s = fed(pieces);
    assert(s.rest + Seq::empty() =~= s.rest);
}

/// Nothing is lost or added: the main, call and jump streams together are as long as the code,
/// and the call and jump streams hold whole addresses.
pub proof fn law_split_keeps_the_length(data: Seq<u8>)
    ensures
        split(data).main.len() + split(data).call.len() + split(data).jump.len() == data.len(),
        split(data).call.len() % 4 == 0,
        split(data).jump.len() % 4 == 0,
{
    lemma_scan(0, 0, data, true);
}

/// A byte that starts no branch stays in the main stream, and leaves everything else to what follows:
/// one that is neither 0xE8 nor 0xE9, nor comes from 0x80 to 0x8F behind a 0x0F.
pub proof fn law_other_bytes_stay(prev: u8, ip: u32, data: Seq<u8>, finishing: bool)
    requires
        data.len() > 0,
        data[0] != 0xE8,
        data[0] != 0xE9,
        prev == 0x0F ==> data[0] < 0x80 || data[0] > 0x8F,
    ensures
        ({
            let s = scan(prev, ip, data, finishing);
            let t = scan(data[0], ((ip + 1) % 0x1_0000_0000) as u32, data.skip(1), finishing);
            &&& s.decisions == t.decisions
            &&& s.main == seq![data[0]] + t.main
            &&& s.call == t.call
            &&& s.jump == t.jump
            &&& s.rest == t.rest
            &&& s.prev == t.prev
            &&& s.ip == t.ip
        }),
{
    let t = scan(data[0], ((ip + 1) % 0x1_0000_0000) as u32, data.skip(1), finishing);
    assert(Seq::<Decision>::empty() + t.decisions =~= t.decisions);
    assert(Seq::<u8>::empty() + t.call =~= t.call);
    assert(Seq::<u8>::empty() + t.jump =~= t.jump);
}

/// Every 0xE8, every 0xE9, and each of the sixteen bytes from 0x80 to 0x8F behind a 0x0F, has exactly
/// one decision, and stays in the main stream. With four bytes behind it that spell a distance of less
/// than 64 MiB either way, it is converted: the four bytes leave the main stream, and the address they
/// stand for, counted from behind them, goes to the call stream for 0xE8 and to the jump stream for
/// the others, the most significant byte first.
pub proof fn law_every_branch_is_decided(prev: u8, ip: u32, data: Seq<u8>, finishing: bool)
    requires
        data.len() > 0,
        data[0] == 0xE8 || data[0] == 0xE9 || (prev == 0x0F && 0x80 <= data[0] <= 0x8F),
        finishing || data.len() >= 5,
    ensures
        ({
            let s = scan(prev, ip, data, finishing);
            let b = data[0];
            let context = if b == 0xE8 {
                2 + prev as int
            } else if b == 0xE9 {
                1int
            } else {
                0int
            };
            let distance = data[1] + data[2] * 0x100 + data[3] * 0x1_0000 + data[4] * 0x100_0000;
            let near = data.len() >= 5 && (distance < 0x400_0000 || distance >= 0xFC00_0000);
            if near {
                let t = scan(
                    data[4],
                    ((ip + 5) % 0x1_0000_0000) as u32,
                    data.skip(5),
                    finishing,
                );
                let into = if b == 0xE8 {
                    s.call
                } else {
                    s.jump
                };
                &&& s.decisions == seq![Decision { context, bit: true }] + t.decisions
                &&& s.main == seq![b] + t.main
                &&& into.len() >= 4
                &&& into[0] * 0x100_0000 + into[1] * 0x1_0000 + into[2] * 0x100 + into[3] == (
                distance + ip + 5) % 0x1_0000_0000
                &&& s.call == if b == 0xE8 {
                    into.take(4) + t.call
                } else {
                    t.call
                }
                &&& s.jump == if b == 0xE8 {
                    t.jump
                } else {
                    into.take(4) + t.jump
                }
                &&& s.rest == t.rest
                &&& s.prev == t.prev
                &&& s.ip == t.ip
            } else {
                let t = scan(b, ((ip + 1) % 0x1_0000_0000) as u32, data.skip(1), finishing);
                &&& s.decisions == seq![Decision { context, bit: false }] + t.decisions
                &&& s.main == seq![b] + t.main
                &&& s.call == t.call
                &&& s.jump == t.jump
                &&& s.rest == t.rest
                &&& s.prev == t.prev
                &&& s.ip == t.ip
            }
        }),
{
    let s = scan(prev, ip, data, finishing);
    let one = scan_one(prev, ip, data);
    let t = scan(one.prev, one.ip, one.rest, finishing);
    assert(Seq::<u8>::empty() + t.call =~= t.call);
    assert(Seq::<u8>::empty() + t.jump =~= t.jump);
    if data.len() >= 5 {
        let operand = data.subrange(1, 5);
        let distance = data[1] + data[2] * 0x100 + data[3] * 0x1_0000 + data[4] * 0x100_0000;
        assert(le32(operand) == distance) by {
            reveal(le32);
            assert(operand[0] == data[1] && operand[1] == data[2]);
            assert(operand[2] == data[3] && operand[3] == data[4]);
        }
        if distance < 0x400_0000 || distance >= 0xFC00_0000 {
            let x = wrap32(distance + ip + 5);
            lemma_le32(x, operand);
            let a = be32_bytes(x);
            assert(a[0] * 0x100_0000 + a[1] * 0x1_0000 + a[2] * 0x100 + a[3] == x) by {
                reveal(le32_bytes);
            }
            if data[0] == 0xE8 {
                assert(s.call.take(4) =~= a);
                assert(s.call == a + t.call);
                assert(s.call[0] == a[0] && s.call[1] == a[1] && s.call[2] == a[2] && s.call[3]
                    == a[3]);
            } else {
                assert(s.jump.take(4) =~= a);
                assert(s.jump == a + t.jump);
                assert(s.jump[0] == a[0] && s.jump[1] == a[1] && s.jump[2] == a[2] && s.jump[3]
                    == a[3]);
            }
        }
    }
}

/// A branch whose four bytes have not all arrived waits for them, while more can come; and there is
/// nothing to do with nothing.
pub proof fn law_cut_off_branch_waits(prev: u8, ip: u32, data: Seq<u8>)
    requires
        data.len() > 0 ==> data.len() < 5 && (data[0] == 0xE8 || data[0] == 0xE9 || (prev == 0x0F
            && 0x80 <= data[0] <= 0x8F)),
    ensures
        ({
            let s = scan(prev, ip, data, false);
            &&& s.rest == data
            &&& s.prev == prev
            &&& s.ip == ip
            &&& s.decisions.len() == 0
            &&& s.main.len() == 0
            &&& s.call.len() == 0
            &&& s.jump.len() == 0
        }),
        data.len() == 0 ==> scan(prev, ip, data, true) == scan(prev, ip, data, false),
{
}

/// A whole is split as a scan from the start, behind no byte and at position nought, puts it out.
pub proof fn law_split_starts_from_nothing(data: Seq<u8>)
    ensures
        split(data).main == scan(0, 0, data, true).main,
        split(data).call == scan(0, 0, data, true).call,
        split(data).jump == scan(0, 0, data, true).jump,
        ({
            let ds = scan(0, 0, data, true).decisions;
            let (bits, end) = range_coder::decode_bits(
                split(data).rc,
                ds.map_values(|d: Decision| d.context),
            );
            &&& bits == ds.map_values(|d: Decision| d.bit)
            &&& end.taken == split(data).rc.len()
            &&& end.code == 0
        }),
{
    let ds = scan(0, 0, data, true).decisions;
    lemma_scan(0, 0, data, true);
    range_coder::law_decisions_are_taken_back(ds);
    assert(range_coder::contexts(ds) =~= ds.map_values(|d: Decision| d.context));
    assert(range_coder::bits(ds) =~= ds.map_values(|d: Decision| d.bit));
}

/// The number that four bytes spell, the least significant first.
fn from_le_bytes(b0: u8, b1: u8, b2: u8, b3: u8) -> (x: u32)
    ensures
        x == le32(seq![b0, b1, b2, b3]),
{
    reveal(le32);
    b0 as u32 + 256 * (b1 as u32 + 256 * (b2 as u32 + 256 * b3 as u32))
}

/// Appends the four bytes of `x` to `out`, the most significant first.
fn push_be_bytes(out: &mut Vec<u8>, x: u32)
    ensures
        final(out)@ == old(out)@ + be32_bytes(x),
{
    reveal(le32_bytes);
    out.push((x / 256 / 256 / 256) as u8);
    out.push((x / 256 / 256 % 256) as u8);
    out.push((x / 256 % 256) as u8);
    out.push((x % 256) as u8);
    assert(out@ =~= old(out)@ + be32_bytes(x));
}

/// The three byte streams an encoder writes into. The decision stream it keeps until the end (it
/// is small: a bit per branch opcode).
pub struct Bcj2Streams<'a> {
    pub main: &'a mut Vec<u8>,
    pub call: &'a mut Vec<u8>,
    pub jump: &'a mut Vec<u8>,
}

/// What an encoder has come to.
#[verifier::ext_equal]
pub struct Bcj2State {
    /// The input byte before the next one to scan.
    pub prev: u8,
    /// The number of input bytes scanned, modulo 2 to the power 32.
    pub ip: u32,
    /// Input held back: a branch opcode whose operand has not fully arrived.
    pub pending: Seq<u8>,
    /// The decisions so far.
    pub decisions: Seq<Decision>,
}

/// Splits x86 code into BCJ2's streams. Feed it with [`Bcj2Encoder::write`], then take the
/// decision stream with [`Bcj2Encoder::finish`].
pub struct Bcj2Encoder {
    rc: RangeEncoder,
    probs: [u16; 258],
    /// Bytes of the input consumed so far: the position the decoder computes addresses from.
    ip: u32,
    /// The input byte before the next one to scan.
    prev: u8,
    /// Input held back: a branch opcode whose operand has not fully arrived.
    pending: Vec<u8>,
    /// A branch is converted when its relative target is within this many bytes either way.
    relative_limit: u32,
    decisions: Ghost<Seq<Decision>>,
}

impl View for Bcj2Encoder {
    type V = Bcj2State;

    closed spec fn view(&self) -> Bcj2State {
        Bcj2State {
            prev: self.prev,
            ip: self.ip,
            pending: self.pending@,
            decisions: self.decisions@,
        }
    }
}

impl Default for Bcj2Encoder {
    fn default() -> (r: Self)
        ensures
            r.inv(),
            r@ == (Bcj2State {
                prev: 0,
                ip: 0,
                pending: Seq::empty(),
                decisions: Seq::empty(),
            }),
    {
        Self::new()
    }
}

impl Bcj2Encoder {
    /// The range coder and its probabilities are what the decisions so far have made them.
    pub closed spec fn inv(&self) -> bool {
        let s = range_coder::state_after(self.decisions@);
        &&& self.rc.inv()
        &&& self.rc.interval() == s.interval
        &&& self.probs@ == s.probs
        &&& range_coder::contexts_ok(self.decisions@)
        &&& self.relative_limit == RELATIVE_LIMIT
    }

    /// An encoder with 7-Zip's default relative limit, 64 MiB.
    pub fn new() -> (r: Self)
        ensures
            r.inv(),
            r@ == (Bcj2State {
                prev: 0,
                ip: 0,
                pending: Seq::empty(),
                decisions: Seq::empty(),
            }),
    {
        let r = Bcj2Encoder {
            rc: RangeEncoder::new(),
            probs: [1024u16; 258],
            ip: 0,
            prev: 0,
            pending: Vec::with_capacity(8),
            relative_limit: RELATIVE_LIMIT,
            decisions: Ghost(Seq::empty()),
        };
        assert(r.probs@ =~= range_coder::initial_state().probs);
        r
    }

    /// Encodes `data`, writing to the main, call and jump streams, which never fails: they are in
    /// memory.
    pub fn write(&mut self, data: &[u8], streams: &mut Bcj2Streams<'_>) -> (r: Result<
        (),
        std::io::Error,
    >)
        requires
            old(self).inv(),
            old(self)@.decisions.len() + old(self)@.pending.len() + data@.len() < u128::MAX - 8,
        ensures
            r is Ok,
            final(self).inv(),
            ({
                let from = old(self)@;
                let s = scan(from.prev, from.ip, from.pending + data@, false);
                &&& final(self)@ == (Bcj2State {
                    prev: s.prev,
                    ip: s.ip,
                    pending: s.rest,
                    decisions: from.decisions + s.decisions,
                })
                &&& final(self)@.decisions.len() + final(self)@.pending.len()
                    <= from.decisions.len() + from.pending.len() + data@.len()
                &&& final(streams).main@ == old(streams).main@ + s.main
                &&& final(streams).call@ == old(streams).call@ + s.call
                &&& final(streams).jump@ == old(streams).jump@ + s.jump
            }),
            *final(final(streams).main) == *final(old(streams).main),
            *final(final(streams).call) == *final(old(streams).call),
            *final(final(streams).jump) == *final(old(streams).jump),
    {
        proof {
            lemma_scan(self.prev, self.ip, self.pending@ + data@, false);
        }
        if self.pending.is_empty() {
            assert(self.pending@ + data@ =~= data@);
            let rest = self.scan(data, streams, false);
            self.pending.extend_from_slice(rest);
            assert(self.pending@ =~= rest@);
        } else {
            let mut buffer: Vec<u8> = Vec::new();
            std::mem::swap(&mut buffer, &mut self.pending);
            buffer.extend_from_slice(data);
            assert(buffer@ =~= old(self).pending@ + data@);
            let rest = self.scan(buffer.as_slice(), streams, false);
            self.pending.extend_from_slice(rest);
            assert(self.pending@ =~= rest@);
        }
        Ok(())
    }

    /// Encodes what was held back, and returns the decision stream, which never fails: the streams
    /// are in memory.
    pub fn finish(self, streams: &mut Bcj2Streams<'_>) -> (r: Result<Vec<u8>, std::io::Error>)
        requires
            self.inv(),
            self@.decisions.len() + self@.pending.len() < u128::MAX - 8,
        ensures
            ({
                let from = self@;
                let s = scan(from.prev, from.ip, from.pending, true);
                &&& r matches Ok(rc) && rc@ == range_coder::coded(from.decisions + s.decisions)
                &&& final(streams).main@ == old(streams).main@ + s.main
                &&& final(streams).call@ == old(streams).call@ + s.call
                &&& final(streams).jump@ == old(streams).jump@ + s.jump
            }),
            *final(final(streams).main) == *final(old(streams).main),
            *final(final(streams).call) == *final(old(streams).call),
            *final(final(streams).jump) == *final(old(streams).jump),
    {
        let mut this = self;
        let mut pending: Vec<u8> = Vec::new();
        std::mem::swap(&mut pending, &mut this.pending);
        proof {
            lemma_scan(this.prev, this.ip, pending@, true);
        }
        this.scan(pending.as_slice(), streams, true);
        proof {
            range_coder::lemma_state_after_ok(this.decisions@);
        }
        Ok(this.rc.finish())
    }

    /// Scans `data`, encoding every complete decision; returns the tail that needs more input
    /// (an opcode with fewer than four bytes after it), which `finishing` encodes as unconverted.
    #[verifier::spinoff_prover]
    #[verifier::rlimit(60)]
    fn scan<'d>(
        &mut self,
        data: &'d [u8],
        streams: &mut Bcj2Streams<'_>,
        finishing: bool,
    ) -> (rest: &'d [u8])
        requires
            old(self).inv(),
            old(self)@.decisions.len() + data@.len() < u128::MAX - 8,
        ensures
            final(self).inv(),
            ({
                let from = old(self)@;
                let s = scan(from.prev, from.ip, data@, finishing);
                &&& final(self)@ == (Bcj2State {
                    prev: s.prev,
                    ip: s.ip,
                    pending: from.pending,
                    decisions: from.decisions + s.decisions,
                })
                &&& rest@ == s.rest
                &&& final(streams).main@ == old(streams).main@ + s.main
                &&& final(streams).call@ == old(streams).call@ + s.call
                &&& final(streams).jump@ == old(streams).jump@ + s.jump
            }),
            *final(final(streams).main) == *final(old(streams).main),
            *final(final(streams).call) == *final(old(streams).call),
            *final(final(streams).jump) == *final(old(streams).jump),
    {
        let ghost from = self@;
        let ghost whole = scan(from.prev, from.ip, data@, finishing);
        let ghost mut done = stopped(from.prev, from.ip, data@);
        let mut i: usize = 0;
        let mut plain_from: usize = 0;
        proof {
            lemma_after_nothing(from.prev, from.ip, data@, whole);
            assert(data@.skip(0) =~= data@);
        }
        while i < data.len()
            invariant
                0 <= plain_from <= i <= data@.len(),
                self.inv(),
                from == old(self)@,
                from.decisions.len() + data@.len() < u128::MAX - 8,
                whole == scan(from.prev, from.ip, data@, finishing),
                whole == scan(self.prev, self.ip, data@.skip(i as int), finishing).after(done),
                done.decisions.len() <= i,
                self@ == (Bcj2State {
                    prev: done.prev,
                    ip: done.ip,
                    pending: from.pending,
                    decisions: from.decisions + done.decisions,
                }),
                streams.main@ + data@.subrange(plain_from as int, i as int) == old(streams).main@
                    + done.main,
                streams.call@ == old(streams).call@ + done.call,
                streams.jump@ == old(streams).jump@ + done.jump,
                *final(streams.main) == *final(old(streams).main),
                *final(streams.call) == *final(old(streams).call),
                *final(streams.jump) == *final(old(streams).jump),
            decreases data@.len() - i,
        {
            let b: u8 = data[i];
            let ghost left = data@.skip(i as int);
            let ghost one = scan_one(self.prev, self.ip, left);
            let ghost before = done;
            let prev: u8 = self.prev;
            proof {
                assert(left[0] == b);
                assert((b & 0xFE) == 0xE8 <==> (b == 0xE8 || b == 0xE9)) by (bit_vector);
                assert((b & 0xF0) == 0x80 <==> (0x80 <= b <= 0x8F)) by (bit_vector);
                lemma_after(before, one, scan(one.prev, one.ip, one.rest, finishing));
                assert(left.skip(1) =~= data@.skip(i + 1));
                assert(data@.subrange(plain_from as int, i + 1) =~= data@.subrange(
                    plain_from as int,
                    i as int,
                ).push(b));
                done = one.after(before);
                assert(streams.main@ + data@.subrange(plain_from as int, i + 1) =~= (streams.main@
                    + data@.subrange(plain_from as int, i as int)).push(b));
                assert(old(streams).main@ + done.main =~= (old(streams).main@ + before.main).push(
                    b,
                ));
            }
            let branch: bool = (b & 0xFE) == 0xE8 || (prev == 0x0F && (b & 0xF0) == 0x80);
            if !branch {
                self.prev = b;
                self.ip = self.ip.wrapping_add(1);
                i = i + 1;
                assert(self@.decisions =~= from.decisions + done.decisions);
                continue ;
            }
            if data.len() - i < 5 {
                if !finishing {
                    // Flush the plain bytes before the opcode; hold the rest back.
                    proof {
                        assert(operand_missing(self.prev, left));
                        assert(whole == stopped(self.prev, self.ip, left).after(before));
                        assert(whole.main =~= before.main);
                        assert(whole.call =~= before.call);
                        assert(whole.jump =~= before.jump);
                        assert(whole.decisions =~= before.decisions);
                    }
                    streams.main.extend_from_slice(&data[plain_from..i]);
                    return &data[i..data.len()];
                }
                // Too close to the end to carry an operand: kept as it is.
                self.encode_decision(b, false);
                self.prev = b;
                self.ip = self.ip.wrapping_add(1);
                i = i + 1;
                assert(self@.decisions =~= from.decisions + done.decisions);
                continue ;
            }
            let relative: u32 = from_le_bytes(data[i + 1], data[i + 2], data[i + 3], data[i + 4]);
            assert(left.subrange(1, 5) =~= seq![
                data@[i + 1],
                data@[i + 2],
                data@[i + 3],
                data@[i + 4],
            ]);
            // The address the decoder rebuilds: relative to the byte after the operand.
            let absolute: u32 = relative.wrapping_add(self.ip.wrapping_add(5));
            let convert: bool = relative.wrapping_add(self.relative_limit) < self.relative_limit * 2;
            assert(convert == is_near(relative));
            assert(absolute == wrap32(relative + self.ip + 5));
            self.encode_decision(b, convert);
            assert(self@.decisions =~= from.decisions + done.decisions);
            if convert {
                // The opcode stays in the main stream; the operand goes to its own.
                streams.main.extend_from_slice(&data[plain_from..i + 1]);
                if b == 0xE8 {
                    push_be_bytes(streams.call, absolute);
                } else {
                    push_be_bytes(streams.jump, absolute);
                }
                self.prev = data[i + 4];
                self.ip = self.ip.wrapping_add(5);
                proof {
                    assert(left.skip(5) =~= data@.skip(i + 5));
                }
                i = i + 5;
                plain_from = i;
            } else {
                self.prev = b;
                self.ip = self.ip.wrapping_add(1);
                i = i + 1;
            }
        }
        streams.main.extend_from_slice(&data[plain_from..data.len()]);
        &data[data.len()..data.len()]
    }

    /// The decision for the opcode `b`, in the context the decoder uses: the previous byte for
    /// a call, one context for every jump, another for every conditional jump.
    fn encode_decision(&mut self, b: u8, convert: bool)
        requires
            old(self).inv(),
            old(self)@.decisions.len() < u128::MAX - 8,
        ensures
            final(self).inv(),
            final(self)@ == (Bcj2State {
                decisions: old(self)@.decisions.push(
                    Decision { context: context_of(old(self)@.prev, b), bit: convert },
                ),
                ..old(self)@
            }),
    {
        let index: usize = if b == 0xE8 {
            2 + self.prev as usize
        } else if b == 0xE9 {
            1
        } else {
            0
        };
        let ghost d = Decision { context: context_of(self.prev, b), bit: convert };
        proof {
            range_coder::lemma_state_after_ok(self.decisions@);
            assert(self.decisions@.push(d).drop_last() =~= self.decisions@);
            self.rc.lemma_usable();
        }
        self.rc.encode_bit(&mut self.probs[index], convert);
        self.decisions = Ghost(self.decisions@.push(d));
        assert(self.probs@ =~= range_coder::state_after(self.decisions@).probs);
    }
}

} // verus!
