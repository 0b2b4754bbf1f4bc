//! How an archive spells things, byte by byte.

use crate::text;
use crate::wire;
use vstd::prelude::*;

verus! {

/// Four bytes and eight bytes of a number, the least significant first.
pub proof fn law_digits_in_numbers(v: nat)
    ensures
        ({
            let d = wire::le_digits(v, 4);
            &&& d.len() == 4
            &&& d[0] + d[1] * 0x100 + d[2] * 0x1_0000 + d[3] * 0x100_0000 == v % 0x1_0000_0000
        }),
        ({
            let d = wire::le_digits(v, 8);
            &&& d.len() == 8
            &&& v < 0x1_0000_0000 ==> d[4] == 0 && d[5] == 0 && d[6] == 0 && d[7] == 0 && d[0] + d[1]
                * 0x100 + d[2] * 0x1_0000 + d[3] * 0x100_0000 == v
            &&& v < 0x1_0000_0000_0000_0000 ==> d[0] + d[1] * 0x100 + d[2] * 0x1_0000 + d[3]
                * 0x100_0000 + d[4] * 0x1_0000_0000 + d[5] * 0x100_0000_0000 + d[6]
                * 0x1_0000_0000_0000 + d[7] * 0x100_0000_0000_0000 == v
        }),
{
    reveal_with_fuel(wire::le_digits, 9);
    let d = wire::le_digits(v, 4);
    let e = wire::le_digits(v, 8);
    let v1 = v / 256;
    let v2 = v1 / 256;
    let v3 = v2 / 256;
    let v4 = v3 / 256;
    let v5 = v4 / 256;
    let v6 = v5 / 256;
    let v7 = v6 / 256;
    assert(d =~= seq![(v % 256) as u8, (v1 % 256) as u8, (v2 % 256) as u8, (v3 % 256) as u8]);
    assert(e =~= seq![
        (v % 256) as u8,
        (v1 % 256) as u8,
        (v2 % 256) as u8,
        (v3 % 256) as u8,
        (v4 % 256) as u8,
        (v5 % 256) as u8,
        (v6 % 256) as u8,
        (v7 % 256) as u8,
    ]);
}

/// How many bytes a number takes: one below 2 to the power 7, and one more for each seven bits more, up
/// to nine.
pub proof fn law_length_of_a_number(v: u64)
    ensures
        ({
            let n = wire::number(v).len();
            &&& n == 1 <==> v < 0x80
            &&& n == 2 <==> 0x80 <= v < 0x4000
            &&& n == 3 <==> 0x4000 <= v < 0x20_0000
            &&& n == 4 <==> 0x20_0000 <= v < 0x1000_0000
            &&& n == 5 <==> 0x1000_0000 <= v < 0x8_0000_0000
            &&& n == 6 <==> 0x8_0000_0000 <= v < 0x400_0000_0000
            &&& n == 7 <==> 0x400_0000_0000 <= v < 0x2_0000_0000_0000
            &&& n == 8 <==> 0x2_0000_0000_0000 <= v < 0x100_0000_0000_0000
            &&& n == 9 <==> 0x100_0000_0000_0000 <= v
        }),
{
    reveal(wire::number);
    reveal_with_fuel(wire::extra_bytes_from, 10);
    reveal_with_fuel(wire::pow128, 10);
    wire::lemma_le_digits(v as nat, wire::extra_bytes(v));
}

/// What the bytes of a number are: as many ones as bytes follow, from the highest bit of the first on,
/// then the highest bits of the number; and its lowest bytes, the least significant first.
pub proof fn law_number_in_bytes(v: u64)
    ensures
        ({
            let b = wire::number(v);
            &&& b.len() == 1 ==> b[0] == v
            &&& b.len() == 2 ==> b[0] == 0x80 + v / 0x100 && b[1] == v % 0x100
            &&& b.len() == 3 ==> b[0] == 0xC0 + v / 0x1_0000 && b[1] + b[2] * 0x100 == v % 0x1_0000
            &&& b.len() == 4 ==> b[0] == 0xE0 + v / 0x100_0000 && b[1] + b[2] * 0x100 + b[3]
                * 0x1_0000 == v % 0x100_0000
            &&& b.len() == 5 ==> b[0] == 0xF0 + v / 0x1_0000_0000 && b[1] + b[2] * 0x100 + b[3]
                * 0x1_0000 + b[4] * 0x100_0000 == v % 0x1_0000_0000
            &&& b.len() == 6 ==> b[0] == 0xF8 + v / 0x100_0000_0000 && b[1] + b[2] * 0x100 + b[3]
                * 0x1_0000 + b[4] * 0x100_0000 + b[5] * 0x1_0000_0000 == v % 0x100_0000_0000
            &&& b.len() == 7 ==> b[0] == 0xFC + v / 0x1_0000_0000_0000 && b[1] + b[2] * 0x100 + b[3]
                * 0x1_0000 + b[4] * 0x100_0000 + b[5] * 0x1_0000_0000 + b[6] * 0x100_0000_0000 == v
                % 0x1_0000_0000_0000
            &&& b.len() == 8 ==> b[0] == 0xFE && b[1] + b[2] * 0x100 + b[3] * 0x1_0000 + b[4]
                * 0x100_0000 + b[5] * 0x1_0000_0000 + b[6] * 0x100_0000_0000 + b[7]
                * 0x1_0000_0000_0000 == v
            &&& b.len() == 9 ==> b[0] == 0xFF && b[1] + b[2] * 0x100 + b[3] * 0x1_0000 + b[4]
                * 0x100_0000 + b[5] * 0x1_0000_0000 + b[6] * 0x100_0000_0000 + b[7]
                * 0x1_0000_0000_0000 + b[8] * 0x100_0000_0000_0000 == v
        }),
{
    let b = wire::number(v);
    let n = (b.len() - 1) as nat;
    let d = wire::le_digits(v as nat, n);
    law_length_of_a_number(v);
    assert(b == seq![(wire::leading_ones(n) + v as nat / wire::pow256(n)) as u8] + d && d.len() == n)
        by {
        reveal(wire::number);
        wire::lemma_le_digits(v as nat, wire::extra_bytes(v));
    }
    lemma_low_bytes(v as nat, n);
    assert(n <= 8);
    assert(forall|i: int| 0 < i <= n ==> b[i] == d[i - 1]);
    assert(b[0] == (wire::leading_ones(n) + v as nat / wire::pow256(n)) as u8);
    lemma_pow256();
    let first = wire::leading_ones(n) + v as nat / wire::pow256(n);
    if n == 0 {
        assert(v as nat / 1 == v as nat);
        assert(first == v as nat);
    } else if n == 1 {
        assert(first == 0x80 + v as nat / 0x100);
    } else if n == 2 {
        assert(first == 0xC0 + v as nat / 0x1_0000);
    } else if n == 3 {
        assert(first == 0xE0 + v as nat / 0x100_0000);
    } else if n == 4 {
        assert(first == 0xF0 + v as nat / 0x1_0000_0000);
    } else if n == 5 {
        assert(first == 0xF8 + v as nat / 0x100_0000_0000);
    } else if n == 6 {
        assert(first == 0xFC + v as nat / 0x1_0000_0000_0000);
    } else if n == 7 {
        assert(first == 0xFE + v as nat / 0x100_0000_0000_0000);
    } else {
        assert(first == 0xFF);
    }
}

/// The first powers of 256.
proof fn lemma_pow256()
    ensures
        wire::pow256(0) == 1,
        wire::pow256(1) == 0x100,
        wire::pow256(2) == 0x1_0000,
        wire::pow256(3) == 0x100_0000,
        wire::pow256(4) == 0x1_0000_0000,
        wire::pow256(5) == 0x100_0000_0000,
        wire::pow256(6) == 0x1_0000_0000_0000,
        wire::pow256(7) == 0x100_0000_0000_0000,
        wire::pow256(8) == 0x1_0000_0000_0000_0000,
{
    reveal_with_fuel(wire::pow256, 9);
}

/// The lowest bytes of a number, summed up.
proof fn lemma_low_bytes(v: nat, n: nat)
    requires
        n <= 8,
        v < 0x1_0000_0000_0000_0000,
    ensures
        ({
            let d = wire::le_digits(v, n);
            &&& d.len() == n
            &&& n == 1 ==> d[0] == v % 0x100
            &&& n == 2 ==> d[0] + d[1] * 0x100 == v % 0x1_0000
            &&& n == 3 ==> d[0] + d[1] * 0x100 + d[2] * 0x1_0000 == v % 0x100_0000
            &&& n == 4 ==> d[0] + d[1] * 0x100 + d[2] * 0x1_0000 + d[3] * 0x100_0000 == v
                % 0x1_0000_0000
            &&& n == 5 ==> d[0] + d[1] * 0x100 + d[2] * 0x1_0000 + d[3] * 0x100_0000 + d[4]
                * 0x1_0000_0000 == v % 0x100_0000_0000
            &&& n == 6 ==> d[0] + d[1] * 0x100 + d[2] * 0x1_0000 + d[3] * 0x100_0000 + d[4]
                * 0x1_0000_0000 + d[5] * 0x100_0000_0000 == v % 0x1_0000_0000_0000
            &&& n == 7 ==> d[0] + d[1] * 0x100 + d[2] * 0x1_0000 + d[3] * 0x100_0000 + d[4]
                * 0x1_0000_0000 + d[5] * 0x100_0000_0000 + d[6] * 0x1_0000_0000_0000 == v
                % 0x100_0000_0000_0000
            &&& n == 8 ==> d[0] + d[1] * 0x100 + d[2] * 0x1_0000 + d[3] * 0x100_0000 + d[4]
                * 0x1_0000_0000 + d[5] * 0x100_0000_0000 + d[6] * 0x1_0000_0000_0000 + d[7]
                * 0x100_0000_0000_0000 == v
        }),
{
    let d = wire::le_digits(v, n);
    let e = wire::le_digits(v, 8);
    lemma_digits_prefix(v, n, 8);
    wire::lemma_le_digits(v, n);
    lemma_eight_digits(v);
    assert(forall|i: int| 0 <= i < n ==> d[i] == e[i]);
}

/// The first of more digits are fewer digits.
proof fn lemma_digits_prefix(v: nat, n: nat, m: nat)
    requires
        n <= m,
    ensures
        wire::le_digits(v, n) == wire::le_digits(v, m).take(n as int),
    decreases n,
{
    wire::lemma_le_digits(v, m);
    if n > 0 {
        lemma_digits_prefix(v / 256, (n - 1) as nat, (m - 1) as nat);
        wire::lemma_le_digits(v / 256, (m - 1) as nat);
        assert(wire::le_digits(v, n) =~= wire::le_digits(v, m).take(n as int));
    } else {
        assert(wire::le_digits(v, n) =~= wire::le_digits(v, m).take(n as int));
    }
}

/// Eight digits, and what the first of them sum up to.
proof fn lemma_eight_digits(v: nat)
    requires
        v < 0x1_0000_0000_0000_0000,
    ensures
        ({
            let d = wire::le_digits(v, 8);
            let s1 = d[0] as int;
            let s2 = s1 + d[1] * 0x100;
            let s3 = s2 + d[2] * 0x1_0000;
            let s4 = s3 + d[3] * 0x100_0000;
            let s5 = s4 + d[4] * 0x1_0000_0000;
            let s6 = s5 + d[5] * 0x100_0000_0000;
            let s7 = s6 + d[6] * 0x1_0000_0000_0000;
            let s8 = s7 + d[7] * 0x100_0000_0000_0000;
            &&& d.len() == 8
            &&& s1 == v % 0x100
            &&& s2 == v % 0x1_0000
            &&& s3 == v % 0x100_0000
            &&& s4 == v % 0x1_0000_0000
            &&& s5 == v % 0x100_0000_0000
            &&& s6 == v % 0x1_0000_0000_0000
            &&& s7 == v % 0x100_0000_0000_0000
            &&& s8 == v
        }),
{
    reveal_with_fuel(wire::le_digits, 9);
    let e = wire::le_digits(v, 8);
    let v1 = v / 256;
    let v2 = v1 / 256;
    let v3 = v2 / 256;
    let v4 = v3 / 256;
    let v5 = v4 / 256;
    let v6 = v5 / 256;
    let v7 = v6 / 256;
    assert(e =~= seq![
        (v % 256) as u8,
        (v1 % 256) as u8,
        (v2 % 256) as u8,
        (v3 % 256) as u8,
        (v4 % 256) as u8,
        (v5 % 256) as u8,
        (v6 % 256) as u8,
        (v7 % 256) as u8,
    ]);
}

/// Numbers stand one behind another, as each is spelt by itself.
pub proof fn law_numbers_in_parts(a: Seq<u64>, b: Seq<u64>, v: u64)
    ensures
        wire::numbers(Seq::empty()).len() == 0,
        wire::numbers(seq![v]) == wire::number(v),
        wire::numbers(a + b) == wire::numbers(a) + wire::numbers(b),
    decreases a.len(),
{
    reveal_with_fuel(wire::numbers, 2);
    assert(seq![v].skip(1) =~= Seq::<u64>::empty());
    assert(wire::numbers(seq![v]) =~= wire::number(v));
    if a.len() == 0 {
        assert(a + b =~= b);
        assert(wire::numbers(a + b) =~= wire::numbers(a) + wire::numbers(b));
    } else {
        law_numbers_in_parts(a.skip(1), b, v);
        assert((a + b).skip(1) =~= a.skip(1) + b);
        assert((a + b)[0] == a[0]);
        assert(wire::numbers(a + b) =~= wire::numbers(a) + wire::numbers(b));
    }
}

/// Words stand one behind another, each in four bytes, the least significant first.
pub proof fn law_words_in_parts(a: Seq<u32>, b: Seq<u32>, v: u32)
    ensures
        wire::words(Seq::empty()).len() == 0,
        wire::words(a + b) == wire::words(a) + wire::words(b),
        ({
            let w = wire::words(seq![v]);
            &&& w.len() == 4
            &&& w[0] + w[1] * 0x100 + w[2] * 0x1_0000 + w[3] * 0x100_0000 == v
        }),
    decreases a.len(),
{
    reveal_with_fuel(wire::words, 2);
    assert(seq![v].skip(1) =~= Seq::<u32>::empty());
    assert(wire::words(seq![v]) =~= wire::le_digits(v as nat, 4));
    law_digits_in_numbers(v as nat);
    if a.len() == 0 {
        assert(a + b =~= b);
        assert(wire::words(a + b) =~= wire::words(a) + wire::words(b));
    } else {
        law_words_in_parts(a.skip(1), b, v);
        assert((a + b).skip(1) =~= a.skip(1) + b);
        assert((a + b)[0] == a[0]);
        assert(wire::words(a + b) =~= wire::words(a) + wire::words(b));
    }
}

/// Bits stand eight to a byte, the first one as the highest; the last byte is filled up with noughts.
pub proof fn law_bits_in_bytes(bits: Seq<bool>, k: int)
    ensures
        8 * wire::bit_vector(bits).len() - 8 < bits.len() <= 8 * wire::bit_vector(bits).len(),
        0 <= k < wire::bit_vector(bits).len() ==> {
            let n = bits.len();
            let b = wire::bit_vector(bits)[k];
            &&& (b / 128 % 2 == 1) == (8 * k < n && bits[8 * k])
            &&& (b / 64 % 2 == 1) == (8 * k + 1 < n && bits[8 * k + 1])
            &&& (b / 32 % 2 == 1) == (8 * k + 2 < n && bits[8 * k + 2])
            &&& (b / 16 % 2 == 1) == (8 * k + 3 < n && bits[8 * k + 3])
            &&& (b / 8 % 2 == 1) == (8 * k + 4 < n && bits[8 * k + 4])
            &&& (b / 4 % 2 == 1) == (8 * k + 5 < n && bits[8 * k + 5])
            &&& (b / 2 % 2 == 1) == (8 * k + 6 < n && bits[8 * k + 6])
            &&& (b % 2 == 1) == (8 * k + 7 < n && bits[8 * k + 7])
        },
{
}

/// A character below 65536 is one unit of two bytes, the least significant first. Any other is two
/// units, of which each holds ten bits of what it is beyond that.
pub proof fn law_character_in_bytes(c: char)
    ensures
        ({
            let b = wire::utf16(seq![c]);
            let v = c as nat;
            let high = b[0] + b[1] * 0x100;
            let low = b[2] + b[3] * 0x100;
            &&& v < 0x1_0000 ==> b.len() == 2 && high == v
            &&& v >= 0x1_0000 ==> {
                &&& b.len() == 4
                &&& 0xD800 <= high < 0xDC00
                &&& 0xDC00 <= low < 0xE000
                &&& v == 0x1_0000 + (high - 0xD800) * 0x400 + (low - 0xDC00)
            }
        }),
{
    reveal_with_fuel(wire::utf16, 2);
    assert(seq![c].skip(1) =~= Seq::<char>::empty());
    assert(wire::utf16(seq![c]) =~= wire::char_bytes(c));
}

/// The characters of a text stand one behind another, and a name ends with a unit of nought.
pub proof fn law_text_in_parts(a: Seq<char>, b: Seq<char>)
    ensures
        wire::utf16(Seq::empty()).len() == 0,
        wire::utf16(a + b) == wire::utf16(a) + wire::utf16(b),
        wire::name_bytes(a).len() == wire::utf16(a).len() + 2,
        wire::name_bytes(a).take(wire::utf16(a).len() as int) == wire::utf16(a),
        wire::name_bytes(a)[wire::utf16(a).len() as int] == 0,
        wire::name_bytes(a)[(wire::utf16(a).len() + 1) as int] == 0,
    decreases a.len(),
{
    assert(wire::name_bytes(a).take(wire::utf16(a).len() as int) =~= wire::utf16(a));
    if a.len() == 0 {
        assert(a + b =~= b);
        assert(wire::utf16(a + b) =~= wire::utf16(a) + wire::utf16(b));
    } else {
        law_text_in_parts(a.skip(1), b);
        assert((a + b).skip(1) =~= a.skip(1) + b);
        assert((a + b)[0] == a[0]);
        assert(wire::utf16(a + b) =~= wire::utf16(a) + wire::utf16(b));
    }
}

/// A number in decimal ends in its last digit, and what stands before that is the number of its tens.
pub proof fn law_decimal_in_digits(n: nat)
    ensures
        ({
            let d = text::decimal_digits(n);
            let last = d.last();
            &&& n < 10 ==> d.len() == 1
            &&& n >= 10 ==> d.drop_last() == text::decimal_digits(n / 10)
            &&& n % 10 == 0 ==> last == '0'
            &&& n % 10 == 1 ==> last == '1'
            &&& n % 10 == 2 ==> last == '2'
            &&& n % 10 == 3 ==> last == '3'
            &&& n % 10 == 4 ==> last == '4'
            &&& n % 10 == 5 ==> last == '5'
            &&& n % 10 == 6 ==> last == '6'
            &&& n % 10 == 7 ==> last == '7'
            &&& n % 10 == 8 ==> last == '8'
            &&& n % 10 == 9 ==> last == '9'
        }),
{
    if n >= 10 {
        assert(text::decimal_digits(n).drop_last() =~= text::decimal_digits(n / 10));
    }
}

} // verus!
