//! How an archive is finished.

use crate::checksum;
use crate::encoder::EncodedModel;
use crate::encoder_options::{EncoderConfiguration, EncoderMethod};
use crate::wire;
use crate::writer;
use crate::writer::header;
use crate::writer::WriterModel;
use vstd::prelude::*;

verus! {

/// The first coder for AES among those before a place is none, or lies before it.
proof fn lemma_first_aes_at(methods: Seq<EncoderConfiguration>, i: int)
    requires
        0 <= i < methods.len(),
        methods[i].method is AES256_SHA256,
        forall|j: int| 0 <= j < i ==> (#[trigger] methods[j]).method !is AES256_SHA256,
    ensures
        writer::first_aes(methods) == Some(methods[i]),
    decreases i,
{
    if i > 0 {
        let rest = methods.skip(1);
        assert(methods[0].method !is AES256_SHA256);
        assert forall|j: int| 0 <= j < i - 1 implies (#[trigger] rest[j]).method
            !is AES256_SHA256 by {
            assert(rest[j] == methods[j + 1]);
        }
        lemma_first_aes_at(rest, i - 1);
    }
}

proof fn lemma_no_aes(methods: Seq<EncoderConfiguration>)
    requires
        forall|j: int| 0 <= j < methods.len() ==> (#[trigger] methods[j]).method !is AES256_SHA256,
    ensures
        writer::first_aes(methods) is None,
    decreases methods.len(),
{
    if methods.len() > 0 {
        let rest = methods.skip(1);
        assert(methods[0].method !is AES256_SHA256);
        assert forall|j: int| 0 <= j < rest.len() implies (#[trigger] rest[j]).method
            !is AES256_SHA256 by {
            assert(rest[j] == methods[j + 1]);
        }
        lemma_no_aes(rest);
    }
}

/// Where the header is not to be encrypted, it goes through LZMA alone, whatever the writer holds.
pub proof fn law_header_is_not_encrypted_where_it_is_not_to_be(m: WriterModel)
    requires
        !m.encrypt_header,
    ensures
        writer::header_methods_of(m) == seq![
            EncoderConfiguration { method: EncoderMethod::LZMA, options: None },
        ],
{
}

/// Where the header is to be encrypted and the data is, it goes through LZMA and then through the
/// first coder for AES that the data goes through.
pub proof fn law_header_is_encrypted_as_the_data_is(m: WriterModel, i: int)
    requires
        m.encrypt_header,
        0 <= i < m.methods.len(),
        m.methods[i].method is AES256_SHA256,
        forall|j: int| 0 <= j < i ==> (#[trigger] m.methods[j]).method !is AES256_SHA256,
    ensures
        writer::header_methods_of(m) == seq![
            m.methods[i],
            EncoderConfiguration { method: EncoderMethod::LZMA, options: None },
        ],
{
    lemma_first_aes_at(m.methods, i);
}

/// Where the data is not encrypted, neither is the header.
pub proof fn law_header_of_open_data_is_open(m: WriterModel)
    requires
        forall|j: int|
            0 <= j < m.methods.len() ==> (#[trigger] m.methods[j]).method !is AES256_SHA256,
    ensures
        writer::header_methods_of(m) == seq![
            EncoderConfiguration { method: EncoderMethod::LZMA, options: None },
        ],
{
    lemma_no_aes(m.methods);
}

/// The coders for the header depend on nothing but those for the data and whether the header is to be
/// encrypted.
pub proof fn law_header_coders_depend_on_the_settings_alone(m: WriterModel, n: WriterModel)
    requires
        m.methods == n.methods,
        m.encrypt_header == n.encrypt_header,
    ensures
        writer::header_methods_of(m) == writer::header_methods_of(n),
{
}

/// What is left to write of an archive is what was not handed on, then the encoded header where it is
/// used, then the header that the signature header leads to. The header is written as it is exactly
/// where it is not encrypted and its encoded form, with twenty bytes to describe it, is no shorter.
/// The signature header, of 32 bytes, says where the header starts behind itself and how long it is.
pub proof fn law_what_is_left_to_write(m: WriterModel, e: EncodedModel)
    requires
        m.position >= 32,
        writer::finished_end(m, e) <= u64::MAX,
    ensures
        writer::finished_end(m, e) == m.position + writer::finished(m, e).tail.len()
            - m.output.len(),
        ({
            let raw = header::header_bytes(m.files, m.pack, m.blocks);
            let encrypted = writer::header_methods_of(m).len() > 1;
            let f = writer::finished(m, e);
            let offset = |h: Seq<u8>| (f.end - h.len() - 32) as u64;
            if !encrypted && e.packed.len() + 20 >= raw.len() {
                &&& f.tail == m.output + raw
                &&& f.end == m.position + raw.len()
                &&& f.signature == header::signature_bytes(offset(raw), raw)
            } else {
                let described = header::encoded_header_bytes(
                    (m.position - 32) as u64,
                    e.packed,
                    writer::header_methods_of(m),
                    e.sizes,
                    checksum::crc32(raw),
                );
                &&& f.tail == m.output + e.packed + described
                &&& f.end == m.position + e.packed.len() + described.len()
                &&& f.signature == header::signature_bytes(offset(described), described)
            }
        }),
{
    let raw = header::header_bytes(m.files, m.pack, m.blocks);
    assert(m.output + Seq::<u8>::empty() + raw =~= m.output + raw);
}

/// The 32 bytes of the signature header: the signature, the version 0.4, the checksum of the rest,
/// where the header starts and how long it is in eight bytes each, and its checksum, all with the
/// least significant byte first.
#[verifier::rlimit(40)]
pub proof fn law_signature_header_in_bytes(offset: u64, head: Seq<u8>)
    ensures
        ({
            let s = header::signature_bytes(offset, head);
            &&& s.len() == 32
            &&& s.take(8) == seq![0x37u8, 0x7A, 0xBC, 0xAF, 0x27, 0x1C, 0x00, 0x04]
            &&& s[8] + s[9] * 0x100 + s[10] * 0x1_0000 + s[11] * 0x100_0000 == checksum::crc32(
                s.skip(12),
            )
            &&& s[12] + s[13] * 0x100 + s[14] * 0x1_0000 + s[15] * 0x100_0000 + s[16]
                * 0x1_0000_0000 + s[17] * 0x100_0000_0000 + s[18] * 0x1_0000_0000_0000 + s[19]
                * 0x100_0000_0000_0000 == offset
            &&& s[20] + s[21] * 0x100 + s[22] * 0x1_0000 + s[23] * 0x100_0000 == head.len()
                % 0x1_0000_0000
            &&& s[24] == 0 && s[25] == 0 && s[26] == 0 && s[27] == 0
            &&& s[28] + s[29] * 0x100 + s[30] * 0x1_0000 + s[31] * 0x100_0000 == checksum::crc32(
                head,
            )
        }),
{
    reveal(header::signature_bytes);
    let size = head.len() % 0x1_0000_0000;
    let crc = checksum::crc32(head) as nat;
    let start = header::start_bytes(offset, head);
    let start_crc = checksum::crc32(start) as nat;
    let s = header::signature_bytes(offset, head);
    let a = wire::le_digits(start_crc, 4);
    let b = wire::le_digits(offset as nat, 8);
    let c = wire::le_digits(size, 8);
    let d = wire::le_digits(crc, 4);
    super::format::law_digits_in_numbers(start_crc);
    super::format::law_digits_in_numbers(offset as nat);
    super::format::law_digits_in_numbers(size);
    super::format::law_digits_in_numbers(crc);
    assert(s.take(8) =~= seq![0x37u8, 0x7A, 0xBC, 0xAF, 0x27, 0x1C, 0x00, 0x04]);
    assert(s.skip(12) =~= start);
    assert(s.subrange(8, 12) =~= a);
    assert(s.subrange(12, 20) =~= b);
    assert(s.subrange(20, 28) =~= c);
    assert(s.subrange(28, 32) =~= d);
    assert forall|i: int| 0 <= i < 4 implies s[8 + i] == #[trigger] a[i] && s[28 + i] == d[i] by {
        assert(s.subrange(8, 12)[i] == s[8 + i]);
        assert(s.subrange(28, 32)[i] == s[28 + i]);
    }
    assert forall|i: int| 0 <= i < 8 implies s[12 + i] == #[trigger] b[i] && s[20 + i] == c[i] by {
        assert(s.subrange(12, 20)[i] == s[12 + i]);
        assert(s.subrange(20, 28)[i] == s[20 + i]);
    }
    assert(s[8] == a[0] && s[9] == a[1] && s[10] == a[2] && s[11] == a[3]);
    assert(s[28] == d[0] && s[29] == d[1] && s[30] == d[2] && s[31] == d[3]);
    assert(s[12] == b[0] && s[13] == b[1] && s[14] == b[2] && s[15] == b[3]);
    assert(s[16] == b[4] && s[17] == b[5] && s[18] == b[6] && s[19] == b[7]);
    assert(s[20] == c[0] && s[21] == c[1] && s[22] == c[2] && s[23] == c[3]);
    assert(s[24] == c[4] && s[25] == c[5] && s[26] == c[6] && s[27] == c[7]);
}

} // verus!
