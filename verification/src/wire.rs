//! How the header spells numbers, bit vectors and names.
//!
//! Every writer here has a reader beside it, as a specification: what a reader of the format does
//! with the bytes. A reader takes what it needs from the front and leaves the rest.

use vstd::prelude::*;

verus! {

/// The lowest `n` digits of `v` to the base 256, the least significant first.
pub open spec fn le_digits(v: nat, n: nat) -> Seq<u8>
    decreases n,
{
    if n == 0 {
        Seq::empty()
    } else {
        seq![(v % 256) as u8] + le_digits(v / 256, (n - 1) as nat)
    }
}

/// The number that bytes spell, the least significant first.
pub open spec fn le_value(bytes: Seq<u8>) -> nat
    decreases bytes.len(),
{
    if bytes.len() == 0 {
        0
    } else {
        bytes[0] as nat + 256 * le_value(bytes.skip(1))
    }
}

/// 256 to the power `n`.
pub open spec fn pow256(n: nat) -> nat
    decreases n,
{
    if n == 0 {
        1
    } else {
        256 * pow256((n - 1) as nat)
    }
}

/// The digits of a number, when there are enough of them, spell it.
pub proof fn lemma_le_digits(v: nat, n: nat)
    ensures
        le_digits(v, n).len() == n,
        v < pow256(n) ==> le_value(le_digits(v, n)) == v,
    decreases n,
{
    if n > 0 {
        lemma_le_digits(v / 256, (n - 1) as nat);
        assert(le_digits(v, n).skip(1) =~= le_digits(v / 256, (n - 1) as nat));
        assert(pow256(n) == 256 * pow256((n - 1) as nat));
    }
}

/// Appends the lowest `n` digits of `value`, the least significant first.
pub fn push_le(out: &mut Vec<u8>, value: u64, n: usize)
    ensures
        final(out)@ == old(out)@ + le_digits(value as nat, n as nat),
{
    let ghost start = out@;
    let mut rest: u64 = value;
    let mut i: usize = 0;
    while i < n
        invariant
            i <= n,
            start + le_digits(value as nat, n as nat) == out@ + le_digits(
                rest as nat,
                (n - i) as nat,
            ),
        decreases n - i,
    {
        let ghost more = le_digits((rest / 256) as nat, (n - i - 1) as nat);
        assert(out@ + (seq![(rest % 256) as u8] + more) =~= out@.push((rest % 256) as u8) + more);
        out.push((rest % 256) as u8);
        rest = rest / 256;
        i = i + 1;
    }
    assert(out@ + Seq::<u8>::empty() =~= out@);
}

/// Appends the four bytes of `value`, the least significant first.
pub fn push_u32(out: &mut Vec<u8>, value: u32)
    ensures
        final(out)@ == old(out)@ + le_digits(value as nat, 4),
{
    push_le(out, value as u64, 4);
}

/// Appends the eight bytes of `value`, the least significant first.
pub fn push_u64(out: &mut Vec<u8>, value: u64)
    ensures
        final(out)@ == old(out)@ + le_digits(value as nat, 8),
{
    push_le(out, value, 8);
}

/// However three pieces are put together, they come to the same.
pub proof fn lemma_assoc(a: Seq<u8>, b: Seq<u8>, c: Seq<u8>)
    ensures
        (a + b) + c == a + (b + c),
{
    assert((a + b) + c =~= a + (b + c));
}

/// The bytes behind an expected one.
pub open spec fn expect(bytes: Seq<u8>, byte: u8) -> Option<Seq<u8>> {
    if bytes.len() > 0 && bytes[0] == byte {
        Some(bytes.skip(1))
    } else {
        None
    }
}

/// Expects one byte, and then another.
pub open spec fn expect_two(bytes: Seq<u8>, first: u8, second: u8) -> Option<Seq<u8>> {
    match expect(bytes, first) {
        None => None,
        Some(rest) => expect(rest, second),
    }
}

/// An expected byte is found, whatever follows it.
pub proof fn lemma_expect(byte: u8, rest: Seq<u8>)
    ensures
        expect(seq![byte] + rest, byte) == Some(rest),
{
    assert((seq![byte] + rest).skip(1) =~= rest);
}

/// Two expected bytes are found, whatever follows them.
pub proof fn lemma_expect_two(first: u8, second: u8, rest: Seq<u8>)
    ensures
        expect_two(seq![first, second] + rest, first, second) == Some(rest),
{
    assert((seq![first, second] + rest).skip(1) =~= seq![second] + rest);
    lemma_expect(second, rest);
}

/// 128 to the power `n`.
pub open spec fn pow128(n: nat) -> nat
    decreases n,
{
    if n == 0 {
        1
    } else {
        128 * pow128((n - 1) as nat)
    }
}

/// The least of 0 to 8, from `n` on, so that seven bits for it and seven more hold `v`: how many
/// bytes follow the first one of a number.
pub open spec fn extra_bytes_from(v: u64, n: nat) -> nat
    decreases 8 - n,
{
    if n >= 8 || v < pow128(n + 1) {
        n
    } else {
        extra_bytes_from(v, n + 1)
    }
}

/// How many bytes follow the first one of the number `v`.
pub open spec fn extra_bytes(v: u64) -> nat {
    extra_bytes_from(v, 0)
}

/// A byte with the highest `n` bits set.
pub open spec fn leading_ones(n: nat) -> nat {
    if n == 0 {
        0
    } else if n == 1 {
        0x80
    } else if n == 2 {
        0xC0
    } else if n == 3 {
        0xE0
    } else if n == 4 {
        0xF0
    } else if n == 5 {
        0xF8
    } else if n == 6 {
        0xFC
    } else if n == 7 {
        0xFE
    } else {
        0xFF
    }
}

/// A number, as the header spells it: the first byte says by its leading ones how many bytes
/// follow, and holds the highest bits behind them; the bytes that follow hold the lowest bits, the
/// least significant first.
#[verifier::opaque]
pub open spec fn number(v: u64) -> Seq<u8> {
    let n = extra_bytes(v);
    seq![(leading_ones(n) + v as nat / pow256(n)) as u8] + le_digits(v as nat, n)
}

/// How many leading ones a byte has.
pub open spec fn count_leading_ones(b: u8) -> nat {
    if b < 0x80 {
        0
    } else if b < 0xC0 {
        1
    } else if b < 0xE0 {
        2
    } else if b < 0xF0 {
        3
    } else if b < 0xF8 {
        4
    } else if b < 0xFC {
        5
    } else if b < 0xFE {
        6
    } else if b < 0xFF {
        7
    } else {
        8
    }
}

/// Reads a number: its value, and the bytes behind it.
#[verifier::opaque]
pub open spec fn read_number(bytes: Seq<u8>) -> Option<(u64, Seq<u8>)> {
    if bytes.len() == 0 {
        None
    } else {
        let n = count_leading_ones(bytes[0]);
        if bytes.len() < 1 + n {
            None
        } else {
            let high = (bytes[0] - leading_ones(n)) as nat;
            let low = le_value(bytes.subrange(1, 1 + n as int));
            Some(((high * pow256(n) + low) as u64, bytes.skip(1 + n as int)))
        }
    }
}

proof fn lemma_extra_bytes_from(v: u64, n: nat)
    requires
        n <= 8,
        n > 0 ==> pow128(n) <= v,
    ensures
        ({
            let e = extra_bytes_from(v, n);
            &&& n <= e <= 8
            &&& e < 8 ==> v < pow128(e + 1)
            &&& e > 0 ==> pow128(e) <= v
        }),
    decreases 8 - n,
{
    if !(n >= 8 || v < pow128(n + 1)) {
        lemma_extra_bytes_from(v, n + 1);
    }
}

/// The powers that numbers are made of.
proof fn lemma_powers()
    ensures
        pow256(0) == 1,
        pow256(1) == 0x100,
        pow256(2) == 0x1_0000,
        pow256(3) == 0x100_0000,
        pow256(4) == 0x1_0000_0000,
        pow256(5) == 0x100_0000_0000,
        pow256(6) == 0x1_0000_0000_0000,
        pow256(7) == 0x100_0000_0000_0000,
        pow256(8) == 0x1_0000_0000_0000_0000,
        pow128(1) == 0x80,
        pow128(2) == 0x4000,
        pow128(3) == 0x20_0000,
        pow128(4) == 0x1000_0000,
        pow128(5) == 0x8_0000_0000,
        pow128(6) == 0x400_0000_0000,
        pow128(7) == 0x2_0000_0000_0000,
        pow128(8) == 0x100_0000_0000_0000,
        pow128(9) == 0x8000_0000_0000_0000,
{
    reveal_with_fuel(pow256, 9);
    reveal_with_fuel(pow128, 10);
}

/// What the first byte of a number holds.
proof fn lemma_first_byte(v: u64)
    ensures
        ({
            let n = extra_bytes(v);
            let first = leading_ones(n) + v as nat / pow256(n);
            &&& n <= 8
            &&& first <= 0xFF
            &&& count_leading_ones(first as u8) == n
        }),
{
    lemma_extra_bytes_from(v, 0);
    lemma_powers();
    let n = extra_bytes(v);
    if n == 0 {
        assert(v as nat / pow256(0) < 0x80);
    } else if n == 1 {
        assert(v as nat / pow256(1) < 0x40);
    } else if n == 2 {
        assert(v as nat / pow256(2) < 0x20);
    } else if n == 3 {
        assert(v as nat / pow256(3) < 0x10);
    } else if n == 4 {
        assert(v as nat / pow256(4) < 0x8);
    } else if n == 5 {
        assert(v as nat / pow256(5) < 0x4);
    } else if n == 6 {
        assert(v as nat / pow256(6) < 0x2);
    } else if n == 7 {
        assert(v as nat / pow256(7) == 0);
    } else {
        assert(v as nat / pow256(8) == 0);
    }
}

/// The lowest digits of a number spell it modulo their power.
proof fn lemma_le_digits_mod(v: nat, n: nat)
    ensures
        le_digits(v, n).len() == n,
        le_value(le_digits(v, n)) == v % pow256(n),
        pow256(n) > 0,
    decreases n,
{
    if n > 0 {
        let p = pow256((n - 1) as nat);
        lemma_le_digits_mod(v / 256, (n - 1) as nat);
        assert(le_digits(v, n).skip(1) =~= le_digits(v / 256, (n - 1) as nat));
        assert(v % 256 + 256 * (v / 256 % p) == v % (256 * p)) by {
            vstd::arithmetic::div_mod::lemma_mod_breakdown(v as int, 256, p as int);
        }
    }
}

/// A number reads back, whatever follows it.
pub proof fn law_number_reads_back(v: u64, rest: Seq<u8>)
    ensures
        read_number(number(v) + rest) == Some((v, rest)),
{
    reveal(number);
    reveal(read_number);
    let n = extra_bytes(v);
    let bytes = number(v) + rest;
    lemma_first_byte(v);
    lemma_le_digits_mod(v as nat, n);
    assert(bytes.subrange(1, 1 + n as int) =~= le_digits(v as nat, n));
    assert(bytes.skip(1 + n as int) =~= rest);
    let p = pow256(n);
    vstd::arithmetic::div_mod::lemma_fundamental_div_mod(v as int, p as int);
    assert((v as nat / p) * p == p * (v as nat / p)) by (nonlinear_arith);
}

/// Appends a number as the header spells it.
pub fn write_u64(header: &mut Vec<u8>, value: u64)
    ensures
        final(header)@ == old(header)@ + number(value),
{
    let ghost start = header@;
    proof {
        lemma_powers();
        lemma_first_byte(value);
    }
    let mut first: u64 = 0;
    let mut mask: u64 = 0x80;
    let mut limit: u64 = 0x80;
    let mut high: u64 = value;
    let mut i: usize = 0;
    while i < 8 && value >= limit
        invariant
            i <= 8,
            extra_bytes(value) == extra_bytes_from(value, i as nat),
            limit == pow128(i as nat + 1),
            first == leading_ones(i as nat),
            i < 8 ==> mask == leading_ones(i as nat + 1) - leading_ones(i as nat),
            high == value as nat / pow256(i as nat),
        decreases 8 - i,
    {
        proof {
            lemma_powers();
            let p = pow256(i as nat);
            vstd::arithmetic::div_mod::lemma_div_denominator(value as int, p as int, 256);
            assert(p * 256 == pow256(i as nat + 1));
        }
        first = first + mask;
        mask = mask / 2;
        limit = limit * 128;
        high = high / 256;
        i = i + 1;
    }
    header.push((first + high) as u8);
    push_le(header, value, i);
    assert(header@ =~= start + number(value)) by {
        reveal(number);
    }
}

/// Numbers, one after another.
pub open spec fn numbers(values: Seq<u64>) -> Seq<u8>
    decreases values.len(),
{
    if values.len() == 0 {
        Seq::empty()
    } else {
        number(values[0]) + numbers(values.skip(1))
    }
}

/// Reads `n` numbers: their values, and the bytes behind them.
pub open spec fn read_numbers(bytes: Seq<u8>, n: nat) -> Option<(Seq<u64>, Seq<u8>)>
    decreases n,
{
    if n == 0 {
        Some((Seq::empty(), bytes))
    } else {
        match read_number(bytes) {
            None => None,
            Some((v, rest)) => match read_numbers(rest, (n - 1) as nat) {
                None => None,
                Some((values, rest)) => Some((seq![v] + values, rest)),
            },
        }
    }
}

/// Numbers read back, whatever follows them.
pub proof fn law_numbers_read_back(values: Seq<u64>, rest: Seq<u8>)
    ensures
        read_numbers(numbers(values) + rest, values.len()) == Some((values, rest)),
    decreases values.len(),
{
    if values.len() == 0 {
        assert(numbers(values) + rest =~= rest);
        assert(values =~= Seq::empty());
    } else {
        let tail = values.skip(1);
        law_number_reads_back(values[0], numbers(tail) + rest);
        law_numbers_read_back(tail, rest);
        assert(numbers(values) + rest =~= number(values[0]) + (numbers(tail) + rest));
        assert(seq![values[0]] + tail =~= values);
    }
}

/// Appends the first `n` numbers of a list.
pub fn push_numbers(out: &mut Vec<u8>, values: &Vec<u64>, n: usize)
    requires
        n <= values@.len(),
    ensures
        final(out)@ == old(out)@ + numbers(values@.take(n as int)),
{
    let ghost before = out@;
    let ghost all = values@.take(n as int);
    let mut i: usize = 0;
    assert(all.skip(0) =~= all);
    while i < n
        invariant
            i <= n <= values@.len(),
            all == values@.take(n as int),
            before + numbers(all) == out@ + numbers(all.skip(i as int)),
        decreases n - i,
    {
        let ghost held = out@;
        let ghost tail = all.skip(i + 1);
        assert(all.skip(i as int).skip(1) =~= tail);
        assert(all.skip(i as int)[0] == values@[i as int]);
        write_u64(out, values[i]);
        assert(held + (number(values@[i as int]) + numbers(tail)) =~= out@ + numbers(tail));
        i = i + 1;
    }
    assert(all.skip(n as int) =~= Seq::empty());
    assert(out@ + Seq::<u8>::empty() =~= out@);
}

/// Words of four bytes, one after another.
pub open spec fn words(values: Seq<u32>) -> Seq<u8>
    decreases values.len(),
{
    if values.len() == 0 {
        Seq::empty()
    } else {
        le_digits(values[0] as nat, 4) + words(values.skip(1))
    }
}

/// Reads a word of four bytes: its value, and the bytes behind it.
pub open spec fn read_word(bytes: Seq<u8>) -> Option<(u32, Seq<u8>)> {
    if bytes.len() < 4 {
        None
    } else {
        Some((le_value(bytes.take(4)) as u32, bytes.skip(4)))
    }
}

/// Reads `n` words of four bytes: their values, and the bytes behind them.
pub open spec fn read_words(bytes: Seq<u8>, n: nat) -> Option<(Seq<u32>, Seq<u8>)>
    decreases n,
{
    if n == 0 {
        Some((Seq::empty(), bytes))
    } else {
        match read_word(bytes) {
            None => None,
            Some((v, rest)) => match read_words(rest, (n - 1) as nat) {
                None => None,
                Some((values, rest)) => Some((seq![v] + values, rest)),
            },
        }
    }
}

/// A word reads back, whatever follows it.
pub proof fn law_word_reads_back(v: u32, rest: Seq<u8>)
    ensures
        read_word(le_digits(v as nat, 4) + rest) == Some((v, rest)),
{
    lemma_powers();
    lemma_le_digits(v as nat, 4);
    let bytes = le_digits(v as nat, 4) + rest;
    assert(bytes.take(4) =~= le_digits(v as nat, 4));
    assert(bytes.skip(4) =~= rest);
}

/// Words read back, whatever follows them.
pub proof fn law_words_read_back(values: Seq<u32>, rest: Seq<u8>)
    ensures
        read_words(words(values) + rest, values.len()) == Some((values, rest)),
    decreases values.len(),
{
    if values.len() == 0 {
        assert(words(values) + rest =~= rest);
        assert(values =~= Seq::empty());
    } else {
        let tail = values.skip(1);
        law_word_reads_back(values[0], words(tail) + rest);
        law_words_read_back(tail, rest);
        assert(words(values) + rest =~= le_digits(values[0] as nat, 4) + (words(tail) + rest));
        assert(seq![values[0]] + tail =~= values);
    }
}

/// Appends a list of words of four bytes.
pub fn push_words(out: &mut Vec<u8>, values: &Vec<u32>)
    ensures
        final(out)@ == old(out)@ + words(values@),
{
    let ghost before = out@;
    let ghost all = values@;
    let mut i: usize = 0;
    assert(all.skip(0) =~= all);
    while i < values.len()
        invariant
            i <= values@.len(),
            all == values@,
            before + words(all) == out@ + words(all.skip(i as int)),
        decreases values@.len() - i,
    {
        let ghost held = out@;
        let ghost tail = all.skip(i + 1);
        let ghost word = le_digits(all[i as int] as nat, 4);
        assert(all.skip(i as int).skip(1) =~= tail);
        assert(all.skip(i as int)[0] == all[i as int]);
        push_u32(out, values[i]);
        assert(held + (word + words(tail)) =~= out@ + words(tail));
        i = i + 1;
    }
    assert(all.skip(all.len() as int) =~= Seq::empty());
    assert(out@ + Seq::<u8>::empty() =~= out@);
}

/// A bit as a number; nought behind the last one.
pub open spec fn bit_at(bits: Seq<bool>, i: int) -> nat {
    if 0 <= i < bits.len() && bits[i] {
        1
    } else {
        0
    }
}

/// Eight bits from `start` on, the first one highest.
pub open spec fn bit_byte(bits: Seq<bool>, start: int) -> u8 {
    (128 * bit_at(bits, start) + 64 * bit_at(bits, start + 1) + 32 * bit_at(bits, start + 2) + 16
        * bit_at(bits, start + 3) + 8 * bit_at(bits, start + 4) + 4 * bit_at(bits, start + 5) + 2
        * bit_at(bits, start + 6) + bit_at(bits, start + 7)) as u8
}

/// How many bytes hold `n` bits.
pub open spec fn bytes_for(n: nat) -> nat {
    (n + 7) / 8
}

/// A bit vector as the header spells it: eight bits to a byte, the first one highest, and noughts
/// up to a whole byte.
pub open spec fn bit_vector(bits: Seq<bool>) -> Seq<u8> {
    Seq::new(bytes_for(bits.len()), |i: int| bit_byte(bits, 8 * i))
}

/// The bit of a byte at a place, counted from the highest one.
pub open spec fn nth_bit(b: u8, place: int) -> bool {
    if place == 0 {
        b / 128 % 2 == 1
    } else if place == 1 {
        b / 64 % 2 == 1
    } else if place == 2 {
        b / 32 % 2 == 1
    } else if place == 3 {
        b / 16 % 2 == 1
    } else if place == 4 {
        b / 8 % 2 == 1
    } else if place == 5 {
        b / 4 % 2 == 1
    } else if place == 6 {
        b / 2 % 2 == 1
    } else {
        b % 2 == 1
    }
}

/// Reads a vector of `n` bits: the bits, and the bytes behind it.
pub open spec fn read_bit_vector(bytes: Seq<u8>, n: nat) -> Option<(Seq<bool>, Seq<u8>)> {
    if bytes.len() < bytes_for(n) {
        None
    } else {
        Some(
            (
                Seq::new(n, |i: int| nth_bit(bytes[i / 8], i % 8)),
                bytes.skip(bytes_for(n) as int),
            ),
        )
    }
}

/// A bit vector reads back, whatever follows it.
pub proof fn law_bit_vector_reads_back(bits: Seq<bool>, rest: Seq<u8>)
    ensures
        read_bit_vector(bit_vector(bits) + rest, bits.len()) == Some((bits, rest)),
{
    let bytes = bit_vector(bits) + rest;
    let n = bits.len();
    assert(bytes.skip(bytes_for(n) as int) =~= rest);
    let read = Seq::new(n, |i: int| nth_bit(bytes[i / 8], i % 8));
    assert forall|i: int| 0 <= i < n implies read[i] == bits[i] by {
        let start = 8 * (i / 8);
        assert(bytes[i / 8] == bit_byte(bits, start));
        assert(bits[i] <==> bit_at(bits, start + i % 8) == 1);
    }
    assert(read =~= bits);
}

/// The bit `offset` behind `start` as a number, nought behind the last one.
fn bit_value(bits: &Vec<bool>, start: usize, offset: usize) -> (r: u8)
    requires
        start <= bits@.len(),
    ensures
        r == bit_at(bits@, start + offset),
{
    if offset < bits.len() - start && bits[start + offset] {
        1
    } else {
        0
    }
}

/// Appends a bit vector as the header spells it.
pub fn write_bit_set(out: &mut Vec<u8>, bits: &Vec<bool>)
    ensures
        final(out)@ == old(out)@ + bit_vector(bits@),
{
    let ghost before = out@;
    let mut start: usize = 0;
    while start < bits.len()
        invariant
            start <= bits.len(),
            start % 8 == 0 || start == bits.len(),
            out@ == before + bit_vector(bits@).take(bytes_for(start as nat) as int),
        decreases bits.len() - start,
    {
        let byte: u8 = 128 * bit_value(bits, start, 0) + 64 * bit_value(bits, start, 1) + 32
            * bit_value(bits, start, 2) + 16 * bit_value(bits, start, 3) + 8 * bit_value(
            bits,
            start,
            4,
        ) + 4 * bit_value(bits, start, 5) + 2 * bit_value(bits, start, 6) + bit_value(
            bits,
            start,
            7,
        );
        let ghost k = bytes_for(start as nat) as int;
        out.push(byte);
        assert(byte == bit_vector(bits@)[k]);
        assert(bit_vector(bits@).take(k + 1) =~= bit_vector(bits@).take(k).push(byte));
        if bits.len() - start <= 8 {
            start = bits.len();
        } else {
            start = start + 8;
        }
    }
    assert(bit_vector(bits@).take(bytes_for(bits@.len()) as int) =~= bit_vector(bits@));
}

/// The UTF-16 form of a character: one unit, or two for those beyond the first 65536.
pub open spec fn utf16_units(c: char) -> Seq<u16> {
    let v = c as nat;
    if v < 0x1_0000 {
        seq![v as u16]
    } else {
        seq![(0xD800 + (v - 0x1_0000) / 0x400) as u16, (0xDC00 + (v - 0x1_0000) % 0x400) as u16]
    }
}

/// Two bytes, the least significant first.
pub open spec fn unit_bytes(u: u16) -> Seq<u8> {
    seq![(u % 256) as u8, (u / 256) as u8]
}

/// A character in UTF-16, in bytes.
pub open spec fn char_bytes(c: char) -> Seq<u8> {
    let units = utf16_units(c);
    if units.len() == 1 {
        unit_bytes(units[0])
    } else {
        unit_bytes(units[0]) + unit_bytes(units[1])
    }
}

/// A text in UTF-16, in bytes.
pub open spec fn utf16(text: Seq<char>) -> Seq<u8>
    decreases text.len(),
{
    if text.len() == 0 {
        Seq::empty()
    } else {
        char_bytes(text[0]) + utf16(text.skip(1))
    }
}

/// A name as the header spells it: UTF-16, ended by a unit of nought.
pub open spec fn name_bytes(name: Seq<char>) -> Seq<u8> {
    utf16(name) + seq![0u8, 0u8]
}

/// Whether a unit starts a pair.
pub open spec fn is_high_surrogate(u: nat) -> bool {
    0xD800 <= u < 0xDC00
}

/// Reads a name: its characters up to the unit of nought, and the bytes behind that. Nothing where
/// the bytes end first.
pub open spec fn read_name(bytes: Seq<u8>) -> Option<(Seq<char>, Seq<u8>)>
    decreases bytes.len(),
{
    if bytes.len() < 2 {
        None
    } else {
        let first = bytes[0] as nat + 256 * bytes[1] as nat;
        if first == 0 {
            Some((Seq::empty(), bytes.skip(2)))
        } else if is_high_surrogate(first) {
            if bytes.len() < 4 {
                None
            } else {
                let second = bytes[2] as nat + 256 * bytes[3] as nat;
                let c = (0x1_0000 + (first - 0xD800) * 0x400 + (second - 0xDC00)) as char;
                match read_name(bytes.skip(4)) {
                    None => None,
                    Some((name, rest)) => Some((seq![c] + name, rest)),
                }
            }
        } else {
            match read_name(bytes.skip(2)) {
                None => None,
                Some((name, rest)) => Some((seq![first as char] + name, rest)),
            }
        }
    }
}

/// Whether the end of a name can be told: no character of it is the nought that ends it.
pub open spec fn name_ok(name: Seq<char>) -> bool {
    forall|i: int| 0 <= i < name.len() ==> #[trigger] name[i] as nat != 0
}

/// What values a character has.
proof fn lemma_char(c: char)
    ensures
        c as nat <= 0x10_FFFF,
        (c as nat) < 0xD800 || c as nat >= 0xE000,
        (c as nat) as char == c,
        c as u32 == c as nat,
{
}

/// The form of a character takes two bytes or four, and gives it back.
proof fn lemma_char_bytes(c: char)
    ensures
        ({
            let b = char_bytes(c);
            let first = b[0] as nat + 256 * b[1] as nat;
            let second = b[2] as nat + 256 * b[3] as nat;
            &&& c as nat != 0 ==> first != 0
            &&& b.len() == if (c as nat) < 0x1_0000 {
                2nat
            } else {
                4
            }
            &&& is_high_surrogate(first) <==> b.len() == 4
            &&& b.len() == 2 ==> first as char == c
            &&& b.len() == 4 ==> (0x1_0000 + (first - 0xD800) * 0x400 + (second - 0xDC00)) as char
                == c
        }),
{
    lemma_char(c);
    let v = c as nat;
    if v >= 0x1_0000 {
        let x = (v - 0x1_0000) as nat;
        assert(x / 0x400 < 0x400);
        let first = (0xD800 + x / 0x400) as u16;
        let second = (0xDC00 + x % 0x400) as u16;
        assert(first as nat == (first % 256) as nat + 256 * ((first / 256) as nat));
        assert(second as nat == (second % 256) as nat + 256 * ((second / 256) as nat));
        assert(0x1_0000 + (first - 0xD800) * 0x400 + (second - 0xDC00) == v);
    } else {
        let first = v as u16;
        assert(first as nat == (first % 256) as nat + 256 * ((first / 256) as nat));
    }
}

/// A name without a nought in it reads back, whatever follows it.
pub proof fn law_name_reads_back(name: Seq<char>, rest: Seq<u8>)
    requires
        name_ok(name),
    ensures
        read_name(name_bytes(name) + rest) == Some((name, rest)),
    decreases name.len(),
{
    let bytes = name_bytes(name) + rest;
    if name.len() == 0 {
        assert(bytes.skip(2) =~= rest);
        assert(name =~= Seq::empty());
    } else {
        let c = name[0];
        let tail = name.skip(1);
        let n = char_bytes(c).len() as int;
        assert(name[0] as nat != 0);
        lemma_char_bytes(c);
        assert(name_ok(tail)) by {
            assert forall|i: int| 0 <= i < tail.len() implies #[trigger] tail[i] as nat != 0 by {
                assert(tail[i] == name[i + 1]);
            }
        }
        law_name_reads_back(tail, rest);
        assert(bytes.skip(n) =~= name_bytes(tail) + rest);
        assert(bytes.take(n) =~= char_bytes(c));
        assert(bytes[0] == bytes.take(n)[0] && bytes[1] == bytes.take(n)[1]);
        if n == 4 {
            assert(bytes[2] == bytes.take(n)[2] && bytes[3] == bytes.take(n)[3]);
        }
        assert(seq![c] + tail =~= name);
    }
}

/// Appends a unit of UTF-16.
fn push_unit(out: &mut Vec<u8>, unit: u32)
    requires
        unit < 0x1_0000,
    ensures
        final(out)@ == old(out)@ + unit_bytes(unit as u16),
{
    let ghost before = out@;
    out.push((unit % 256) as u8);
    out.push((unit / 256) as u8);
    assert(out@ =~= before + unit_bytes(unit as u16));
}

/// Appends a text in UTF-16.
pub fn push_utf16(out: &mut Vec<u8>, text: &str)
    ensures
        final(out)@ == old(out)@ + utf16(text@),
{
    let ghost before = out@;
    assert(text@.skip(0) =~= text@);
    for c in iter: text.chars()
        invariant
            iter.seq() == text@,
            before + utf16(text@) == out@ + utf16(text@.skip(iter.index())),
    {
        let ghost i = iter.index();
        let ghost held = out@;
        let ghost tail = text@.skip(i + 1);
        assert(text@.skip(i)[0] == c);
        assert(text@.skip(i).skip(1) =~= tail);
        proof {
            lemma_char(c);
        }
        let v: u32 = c as u32;
        if v < 0x1_0000 {
            push_unit(out, v);
        } else {
            push_unit(out, 0xD800 + (v - 0x1_0000) / 0x400);
            push_unit(out, 0xDC00 + (v - 0x1_0000) % 0x400);
        }
        assert(out@ =~= held + char_bytes(c));
        assert(held + (char_bytes(c) + utf16(tail)) =~= out@ + utf16(tail));
    }
    assert(text@.skip(text@.len() as int) =~= Seq::empty());
    assert(out@ + Seq::<u8>::empty() =~= out@);
}

/// Appends a name as the header spells it.
pub fn push_name(out: &mut Vec<u8>, name: &str)
    ensures
        final(out)@ == old(out)@ + name_bytes(name@),
{
    let ghost before = out@;
    push_utf16(out, name);
    out.push(0);
    out.push(0);
    assert(out@ =~= before + name_bytes(name@));
}

} // verus!
