//! What the coders are, how they are set, and what an archive says of them.

use crate::archive::ArchiveEntry;
use crate::checksum;
use crate::codec::bcj2;
use crate::encoder;
use crate::encoder_options;
use crate::encoder_options::{
    AesEncoderOptions, EncoderConfiguration, EncoderMethod, EncoderOptions, LzmaOptions,
    LzmaSettings, Password,
};
use crate::wire;
use crate::writer::graph;
use crate::writer::prepared;
use crate::writer::prepared::{Bcj2Aes, Bcj2Methods};
use crate::writer::source_reader;
use crate::writer::source_reader::SourceReader;
use crate::writer::unpack_info;
use vstd::prelude::*;

verus! {

/// The bytes that stand for each method, and for BCJ2.
pub proof fn law_ids_of_the_methods()
    ensures
        EncoderMethod::COPY.id_bytes() == seq![0x00u8],
        EncoderMethod::LZMA.id_bytes() == seq![0x03u8, 0x01, 0x01],
        EncoderMethod::LZMA2.id_bytes() == seq![0x21u8],
        EncoderMethod::AES256_SHA256.id_bytes() == seq![0x06u8, 0xF1, 0x07, 0x01],
        encoder_options::bcj2_id_bytes() == seq![0x03u8, 0x03, 0x01, 0x1B],
{
}

/// The settings of a level: three literal context bits, no literal position bits, two position bits,
/// and a dictionary of 256 KiB at level 0, and of 1, 2, 4, 4, 8, 8, 16, 32 and 64 MiB at the levels
/// from 1 on; a level beyond 9 is 9.
pub proof fn law_settings_of_the_levels(level: u32)
    ensures
        ({
            let s = encoder_options::level_settings(level);
            &&& s.level == if level > 9 {
                9
            } else {
                level
            }
            &&& s.lc == 3 && s.lp == 0 && s.pb == 2
            &&& level == 0 ==> s.dict_size == 262_144
            &&& level == 1 ==> s.dict_size == 1_048_576
            &&& level == 2 ==> s.dict_size == 2_097_152
            &&& level == 3 || level == 4 ==> s.dict_size == 4_194_304
            &&& level == 5 || level == 6 ==> s.dict_size == 8_388_608
            &&& level == 7 ==> s.dict_size == 16_777_216
            &&& level == 8 ==> s.dict_size == 33_554_432
            &&& level >= 9 ==> s.dict_size == 67_108_864
        }),
{
}

/// LZMA runs with the settings that are given, and with those of level 6 where none of its own are. LZMA2 runs
/// with them but for a dictionary of 64 KiB at least, and literal bits of four together at most.
pub proof fn law_coders_run_with_their_settings(
    o: LzmaOptions,
    aes: AesEncoderOptions,
    method: EncoderMethod,
)
    requires
        method is LZMA || method is LZMA2,
    ensures
        ({
            let given = EncoderConfiguration { method, options: Some(EncoderOptions::Lzma(o)) };
            let given2 = EncoderConfiguration { method, options: Some(EncoderOptions::Lzma2(o)) };
            let bare = EncoderConfiguration { method, options: None };
            let other = EncoderConfiguration { method, options: Some(EncoderOptions::Aes(aes)) };
            let s = given.lzma_settings();
            &&& given2.lzma_settings() == s
            &&& other.lzma_settings() == bare.lzma_settings()
            &&& bare.lzma_settings() == (LzmaSettings {
                level: 6,
                lc: 3,
                lp: 0,
                pb: 2,
                dict_size: 8_388_608,
            })
            &&& method is LZMA ==> s == o@
            &&& method is LZMA2 ==> {
                &&& s.level == o@.level
                &&& s.pb == o@.pb
                &&& s.dict_size >= 65_536
                &&& o@.dict_size >= 65_536 ==> s.dict_size == o@.dict_size
                &&& o@.dict_size <= 65_536 ==> s.dict_size == 65_536
                &&& s.lc + s.lp <= 4
                &&& s.lc <= o@.lc && s.lp <= o@.lp
                &&& o@.lc + o@.lp <= 4 ==> s.lc == o@.lc && s.lp == o@.lp
                &&& o@.lc <= 4 ==> s.lc == o@.lc
                &&& o@.lc + o@.lp >= 4 ==> s.lc + s.lp == 4
            }
        }),
{
}

/// A coder that copies changes nothing; LZMA and LZMA2 make what their encoders make with the settings
/// they run with, of every stream that they take; AES makes what its cipher makes, with the key of its
/// password and its initial vector.
pub proof fn law_what_each_coder_makes(
    c: EncoderConfiguration,
    o: AesEncoderOptions,
    data: Seq<u8>,
)
    ensures
        c.method is COPY ==> encoder::encoded(c, data) == Some(data),
        c.method is LZMA && data.len() <= 0xFFFF_FFFF ==> encoder::encoded(c, data) == Some(
            encoder::lzma_compressed(
                data,
                c.lzma_settings().level,
                c.lzma_settings().lc,
                c.lzma_settings().lp,
                c.lzma_settings().pb,
                c.lzma_settings().dict_size,
            ),
        ),
        c.method is LZMA2 && data.len() <= 0xFFFF_FFFF ==> encoder::encoded(c, data) == Some(
            encoder::lzma2_compressed(
                data,
                c.lzma_settings().level,
                c.lzma_settings().lc,
                c.lzma_settings().lp,
                c.lzma_settings().pb,
                c.lzma_settings().dict_size,
            ),
        ),
        encoder::encoded(
            EncoderConfiguration {
                method: EncoderMethod::AES256_SHA256,
                options: Some(EncoderOptions::Aes(o)),
            },
            data,
        ) == Some(
            encoder::aes256_cbc(
                encoder::sha256_digest(
                    encoder::key_material(o.salt@, wire::utf16(o.password.text@), 256),
                ),
                o.iv@,
                data,
            ),
        ),
        encoder::encoded(
            EncoderConfiguration { method: EncoderMethod::AES256_SHA256, options: None },
            data,
        ) is None,
{
}

/// The longest streams: 2 to the power 32 less one for LZMA, and for LZMA2 at levels 0 to 3; 16, 32 and
/// 64 times what a counter of 31 bits holds, less 4096, for LZMA2 beyond; the others take any.
pub proof fn law_what_is_too_long(c: EncoderConfiguration, data: Seq<u8>)
    ensures
        ({
            let level = c.lzma_settings().level;
            &&& encoder::too_long(c, data) ==> c.method is LZMA || c.method is LZMA2
            &&& c.method is LZMA ==> (encoder::too_long(c, data) <==> data.len() >= 0x1_0000_0000)
            &&& c.method is LZMA2 && level <= 3 ==> (encoder::too_long(c, data) <==> data.len()
                >= 0x1_0000_0000)
            &&& c.method is LZMA2 && level == 4 ==> (encoder::too_long(c, data) <==> data.len() > 16
                * (0x8000_0000 - 4096))
            &&& c.method is LZMA2 && level == 5 ==> (encoder::too_long(c, data) <==> data.len() > 32
                * (0x8000_0000 - 4096))
            &&& c.method is LZMA2 && level >= 6 ==> (encoder::too_long(c, data) <==> data.len() > 64
                * (0x8000_0000 - 4096))
        }),
{
}

/// What a key is hashed from: for each count from nought on, the salt, the password, and the count in
/// eight bytes, the least significant first.
pub proof fn law_key_material_in_bytes(salt: Seq<u8>, password: Seq<u8>, n: nat)
    ensures
        encoder::key_material(salt, password, 0).len() == 0,
        ({
            let all = encoder::key_material(salt, password, n + 1);
            let before = encoder::key_material(salt, password, n);
            let count = all.skip((before.len() + salt.len() + password.len()) as int);
            &&& all.len() == before.len() + salt.len() + password.len() + 8
            &&& all.take(before.len() as int) == before
            &&& all.subrange(before.len() as int, (before.len() + salt.len()) as int) == salt
            &&& all.subrange(
                (before.len() + salt.len()) as int,
                (before.len() + salt.len() + password.len()) as int,
            ) == password
            &&& n < 0x1_0000_0000 ==> count[0] + count[1] * 0x100 + count[2] * 0x1_0000 + count[3]
                * 0x100_0000 == n && count[4] == 0 && count[5] == 0 && count[6] == 0 && count[7]
                == 0
        }),
{
    let all = encoder::key_material(salt, password, n + 1);
    let before = encoder::key_material(salt, password, n);
    let d = wire::le_digits(n, 8);
    super::format::law_digits_in_numbers(n);
    assert(all == before + salt + password + d);
    assert(all.take(before.len() as int) =~= before);
    assert(all.subrange(before.len() as int, (before.len() + salt.len()) as int) =~= salt);
    assert(all.subrange(
        (before.len() + salt.len()) as int,
        (before.len() + salt.len() + password.len()) as int,
    ) =~= password);
    assert(all.skip((before.len() + salt.len() + password.len()) as int) =~= d);
}

/// What an archive keeps of the settings of each coder: nothing of one that copies; of LZMA the bits in
/// one byte and the dictionary in four; of LZMA2 one byte that stands for 2 or 3 times a power of two;
/// of AES, that the key is hashed 2 to the power 8 times, the salt and the initial vector.
pub proof fn law_properties_in_bytes(c: EncoderConfiguration, o: AesEncoderOptions)
    requires
        encoder_options::settings_ok(c.lzma_settings()),
    ensures
        ({
            let p = encoder_options::properties_of(c);
            let s = c.lzma_settings();
            &&& c.method is COPY ==> p.len() == 0
            &&& !encoder::supported(c) ==> p.len() == 0
            &&& c.method is LZMA ==> {
                &&& p.len() == 5
                &&& p[0] == (s.pb * 5 + s.lp) * 9 + s.lc
                &&& p[1] + p[2] * 0x100 + p[3] * 0x1_0000 + p[4] * 0x100_0000 == s.dict_size
            }
            &&& c.method is LZMA2 ==> {
                &&& p.len() == 1
                &&& p[0] <= 40
                &&& s.dict_size <= encoder_options::lzma2_dictionary(p[0] as nat)
                &&& p[0] > 0 ==> encoder_options::lzma2_dictionary((p[0] - 1) as nat) < s.dict_size
            }
        }),
        encoder_options::properties_of(
            EncoderConfiguration {
                method: EncoderMethod::AES256_SHA256,
                options: Some(EncoderOptions::Aes(o)),
            },
        ) == seq![0xC8u8, 0xFF] + o.salt@ + o.iv@,
        encoder_options::lzma2_dictionary(0) == 4096,
        encoder_options::lzma2_dictionary(1) == 6144,
        forall|n: nat|
            encoder_options::lzma2_dictionary(n + 2) == 2 * #[trigger]
            encoder_options::lzma2_dictionary(n),
{
    let p = encoder_options::properties_of(c);
    let s = c.lzma_settings();
    super::format::law_digits_in_numbers(s.dict_size as nat);
    encoder_options::law_lzma2_property_is_the_least(s.dict_size);
    if c.method is LZMA {
        let d = wire::le_digits(s.dict_size as nat, 4);
        assert(p.skip(1) =~= d);
        assert(p[1] == d[0] && p[2] == d[1] && p[3] == d[2] && p[4] == d[3]);
    }
}

/// A chain of coders: each as its method and settings have it, with one input; the output of each goes
/// into the next; and the packed stream goes into the first.
pub proof fn law_chain_in_parts(methods: Seq<EncoderConfiguration>, i: int)
    requires
        0 <= i < methods.len(),
        methods.len() <= u64::MAX,
    ensures
        ({
            let f = unpack_info::chain_folder(methods);
            &&& f.coders.len() == methods.len()
            &&& f.coders[i].id == methods[i].method.id_bytes()
            &&& f.coders[i].properties == encoder_options::properties_of(methods[i])
            &&& f.coders[i].num_in == 1
            &&& f.bonds.len() == methods.len() - 1
            &&& i > 0 ==> f.bonds[i - 1] == (i as u64, (i - 1) as u64)
            &&& f.packed == seq![0u64]
        }),
{
}

/// The coders of a BCJ2 block, as the header describes them: those of its configurations in their
/// order, with one input each, and BCJ2 with four as the last; and there are four packed streams.
pub proof fn law_bcj2_coders_in_parts(methods: Bcj2Methods, aes: Option<Bcj2Aes>, i: int)
    requires
        0 <= i < graph::bcj2_configurations(methods, aes).len(),
    ensures
        ({
            let f = prepared::bcj2_folder(methods, aes);
            let c = graph::bcj2_configurations(methods, aes);
            let n = c.len() as int;
            &&& f.coders.len() == n + 1
            &&& f.coders[i].id == c[i].method.id_bytes()
            &&& f.coders[i].properties == encoder_options::properties_of(c[i])
            &&& f.coders[i].num_in == 1
            &&& f.coders[n].id == seq![0x03u8, 0x03, 0x01, 0x1B]
            &&& f.coders[n].properties.len() == 0
            &&& f.coders[n].num_in == 4
            &&& f.bonds.len() == n
            &&& f.packed.len() == 4
            &&& aes is None ==> n == 3 && c[0] == methods.addresses && c[1] == methods.addresses
                && c[2] == methods.main
            &&& aes matches Some(a) ==> n == 7 && c[0] == a.jump && c[1] == a.call && c[2]
                == a.decisions && c[3] == a.main && c[4] == methods.addresses && c[5]
                == methods.addresses && c[6] == methods.main
        }),
{
}

/// The packed streams of a BCJ2 block are main, decisions, call and jump, each with its checksum; they,
/// and the outputs of the coders, go where they are read from again.
#[verifier::rlimit(40)]
pub proof fn law_bcj2_streams_in_parts(
    methods: Bcj2Methods,
    aes: Option<Bcj2Aes>,
    entries: Seq<ArchiveEntry>,
    readers: Seq<SourceReader>,
)
    ensures
        ({
            let b = prepared::bcj2_of(methods, aes, entries, readers);
            let plain = source_reader::all_content(readers);
            let e = prepared::bcj2_encoded_by(methods, aes, plain);
            let s = bcj2::split(plain);
            &&& b.packed == seq![
                (e.main.packed, checksum::crc32(e.main.packed)),
                (e.decisions.packed, checksum::crc32(e.decisions.packed)),
                (e.call.packed, checksum::crc32(e.call.packed)),
                (e.jump.packed, checksum::crc32(e.jump.packed)),
            ]
            &&& b.folder == prepared::bcj2_folder(methods, aes)
            &&& b.crc == checksum::crc32(plain)
            &&& b.sizes.last() == plain.len() as u64
            &&& b.file_sizes == readers.map_values(|r: SourceReader| r.content@.len() as u64)
            &&& b.file_crcs == readers.map_values(|r: SourceReader| checksum::crc32(r.content@))
            &&& aes is None ==> {
                &&& b.folder.bonds == seq![(5u64, 0u64), (4u64, 1u64), (3u64, 2u64)]
                &&& b.folder.packed == seq![2u64, 6, 1, 0]
                &&& e.main == encoder::encoded_by(seq![methods.main], s.main)
                &&& e.call == encoder::encoded_by(seq![methods.addresses], s.call)
                &&& e.jump == encoder::encoded_by(seq![methods.addresses], s.jump)
                &&& e.decisions.packed == s.rc
                &&& prepared::bcj2_encodes(methods, aes, plain) ==> b.sizes == seq![
                    s.jump.len() as u64,
                    s.call.len() as u64,
                    s.main.len() as u64,
                    plain.len() as u64,
                ]
            }
            &&& aes matches Some(a) ==> {
                &&& b.folder.bonds == seq![
                    (4u64, 0u64),
                    (5u64, 1u64),
                    (10u64, 2u64),
                    (6u64, 3u64),
                    (9u64, 4u64),
                    (8u64, 5u64),
                    (7u64, 6u64),
                ]
                &&& b.folder.packed == seq![3u64, 2, 1, 0]
                &&& e.main == encoder::encoded_by(seq![a.main, methods.main], s.main)
                &&& e.call == encoder::encoded_by(seq![a.call, methods.addresses], s.call)
                &&& e.jump == encoder::encoded_by(seq![a.jump, methods.addresses], s.jump)
                &&& e.decisions == encoder::encoded_by(seq![a.decisions], s.rc)
            }
        }),
{
    let b = prepared::bcj2_of(methods, aes, entries, readers);
    let plain = source_reader::all_content(readers);
    let s = bcj2::split(plain);
    assert(b.file_sizes =~= readers.map_values(|r: SourceReader| r.content@.len() as u64));
    assert(b.file_crcs =~= readers.map_values(|r: SourceReader| checksum::crc32(r.content@)));
    match aes {
        None => {
            assert(prepared::main_methods(methods, aes) =~= seq![methods.main]);
            assert(prepared::call_methods(methods, aes) =~= seq![methods.addresses]);
            assert(prepared::jump_methods(methods, aes) =~= seq![methods.addresses]);
            assert(prepared::decision_methods(aes) =~= Seq::<EncoderConfiguration>::empty());
            if prepared::bcj2_encodes(methods, aes, plain) {
                encoder::law_each_coder_takes_the_stage_behind_it(seq![methods.main], s.main);
                encoder::law_each_coder_takes_the_stage_behind_it(seq![methods.addresses], s.call);
                encoder::law_each_coder_takes_the_stage_behind_it(seq![methods.addresses], s.jump);
            }
        },
        Some(a) => {
            assert(prepared::main_methods(methods, aes) =~= seq![a.main, methods.main]);
            assert(prepared::call_methods(methods, aes) =~= seq![a.call, methods.addresses]);
            assert(prepared::jump_methods(methods, aes) =~= seq![a.jump, methods.addresses]);
            assert(prepared::decision_methods(aes) =~= seq![a.decisions]);
        },
    }
}

/// A BCJ2 block can be encoded exactly where each of its four streams can; where it cannot, that is for
/// its length where the first of them that cannot, of main, call, jump and decisions, is too long.
pub proof fn law_when_bcj2_is_encoded(methods: Bcj2Methods, aes: Option<Bcj2Aes>, plain: Seq<u8>)
    ensures
        ({
            let s = bcj2::split(plain);
            let none = Seq::<EncoderConfiguration>::empty();
            let main = match aes {
                Some(a) => seq![a.main, methods.main],
                None => seq![methods.main],
            };
            let call = match aes {
                Some(a) => seq![a.call, methods.addresses],
                None => seq![methods.addresses],
            };
            let jump = match aes {
                Some(a) => seq![a.jump, methods.addresses],
                None => seq![methods.addresses],
            };
            let decisions = match aes {
                Some(a) => seq![a.decisions],
                None => none,
            };
            let m = encoder::stages(main, s.main) is Some;
            let c = encoder::stages(call, s.call) is Some;
            let j = encoder::stages(jump, s.jump) is Some;
            let d = encoder::stages(decisions, s.rc) is Some;
            let too_long = prepared::bcj2_too_long(methods, aes, plain);
            &&& prepared::bcj2_encodes(methods, aes, plain) <==> m && c && j && d
            &&& !m ==> too_long == encoder::stage_too_long(main, s.main)
            &&& m && !c ==> too_long == encoder::stage_too_long(call, s.call)
            &&& m && c && !j ==> too_long == encoder::stage_too_long(jump, s.jump)
            &&& m && c && j && !d ==> too_long == encoder::stage_too_long(decisions, s.rc)
        }),
{
    match aes {
        None => {
            assert(prepared::main_methods(methods, aes) =~= seq![methods.main]);
            assert(prepared::call_methods(methods, aes) =~= seq![methods.addresses]);
            assert(prepared::jump_methods(methods, aes) =~= seq![methods.addresses]);
            assert(prepared::decision_methods(aes) =~= Seq::<EncoderConfiguration>::empty());
        },
        Some(a) => {
            assert(prepared::main_methods(methods, aes) =~= seq![a.main, methods.main]);
            assert(prepared::call_methods(methods, aes) =~= seq![a.call, methods.addresses]);
            assert(prepared::jump_methods(methods, aes) =~= seq![a.jump, methods.addresses]);
            assert(prepared::decision_methods(aes) =~= seq![a.decisions]);
        },
    }
}

/// Each of the four streams of a BCJ2 block is encrypted with the password, with an initial vector and a
/// salt that were drawn for it alone: main, call, jump, and decisions.
pub proof fn law_each_stream_has_its_own_draw(
    password: Password,
    draws: [(Option<[u8; 16]>, Option<[u8; 16]>); 4],
)
    ensures
        prepared::all_drawn(draws) <==> forall|k: int|
            0 <= k < 4 ==> (#[trigger] draws@[k]).0 is Some && draws@[k].1 is Some,
        ({
            let a = prepared::drawn_bcj2(password, draws);
            let options = |k: int|
                Some(
                    EncoderOptions::Aes(
                        AesEncoderOptions { password, iv: draws@[k].0->0, salt: draws@[k].1->0 },
                    ),
                );
            &&& a.main.options == options(0) && a.main.method is AES256_SHA256
            &&& a.call.options == options(1) && a.call.method is AES256_SHA256
            &&& a.jump.options == options(2) && a.jump.method is AES256_SHA256
            &&& a.decisions.options == options(3) && a.decisions.method is AES256_SHA256
        }),
{
    if forall|k: int| 0 <= k < 4 ==> (#[trigger] draws@[k]).0 is Some && draws@[k].1 is Some {
        assert(draws@[0].0 is Some && draws@[1].0 is Some);
        assert(draws@[2].0 is Some && draws@[3].0 is Some);
    }
    if prepared::all_drawn(draws) {
        assert forall|k: int| 0 <= k < 4 implies (#[trigger] draws@[k]).0 is Some
            && draws@[k].1 is Some by {
            assert(k == 0 || k == 1 || k == 2 || k == 3);
        }
    }
}

/// What settings of LZMA can be.
pub proof fn law_bounds_of_the_settings(s: LzmaSettings, a: u32, b: u32)
    ensures
        encoder_options::settings_ok(s) <==> s.level <= 9 && s.lc <= 8 && s.lp <= 4 && s.pb <= 4
            && 4096 <= s.dict_size <= 805_306_368,
        encoder_options::MIN_DICTIONARY_SIZE == 4096,
        encoder_options::MAX_DICTIONARY_SIZE == 805_306_368,
        encoder_options::least(a, b) <= a,
        encoder_options::least(a, b) <= b,
        encoder_options::least(a, b) == a || encoder_options::least(a, b) == b,
{
}

/// A coder can be used unless it is AES without a password; coders, where each can.
pub proof fn law_only_aes_without_a_password_is_no_use(
    c: EncoderConfiguration,
    methods: Seq<EncoderConfiguration>,
)
    ensures
        c.method !is AES256_SHA256 ==> encoder::supported(c),
        c.method is AES256_SHA256 ==> (encoder::supported(c) <==> exists|o: AesEncoderOptions|
            c.options == Some(EncoderOptions::Aes(o))),
        encoder::all_supported(methods) <==> !exists|i: int|
            0 <= i < methods.len() && !encoder::supported(#[trigger] methods[i]),
{
    match c.options {
        Some(EncoderOptions::Aes(o)) => {
            assert(c.options == Some(EncoderOptions::Aes(o)));
        },
        _ => {},
    }
}

/// The last coder is given the data, and each other what the one behind it makes. Where a coder cannot
/// take what it is given, those before it are given nothing, and it is that coder that decides why.
pub proof fn law_coders_from_the_last(
    c: EncoderConfiguration,
    rest: Seq<EncoderConfiguration>,
    plain: Seq<u8>,
)
    ensures
        encoder::stages(Seq::empty(), plain) == Some(seq![plain]),
        ({
            let all = seq![c] + rest;
            match encoder::stages(rest, plain) {
                None => {
                    &&& encoder::stages(all, plain) is None
                    &&& encoder::stage_too_long(all, plain) == encoder::stage_too_long(rest, plain)
                    &&& encoder::stage_unsupported(all, plain) == encoder::stage_unsupported(
                        rest,
                        plain,
                    )
                },
                Some(st) => match encoder::encoded(c, st[0]) {
                    None => {
                        &&& encoder::stages(all, plain) is None
                        &&& encoder::stage_too_long(all, plain) == encoder::too_long(c, st[0])
                        &&& encoder::stage_unsupported(all, plain) == !encoder::supported(c)
                    },
                    Some(packed) => {
                        &&& encoder::stages(all, plain) == Some(seq![packed] + st)
                        &&& !encoder::stage_too_long(all, plain)
                        &&& !encoder::stage_unsupported(all, plain)
                    },
                },
            }
        }),
{
    let all = seq![c] + rest;
    assert(all.skip(1) =~= rest);
    assert(all[0] == c);
}

/// A coder fails exactly where it cannot be used or is given too much.
pub proof fn law_when_a_coder_fails(c: EncoderConfiguration, data: Seq<u8>)
    ensures
        encoder::encoded(c, data) is None <==> !encoder::supported(c) || encoder::too_long(c, data),
{
}

} // verus!
