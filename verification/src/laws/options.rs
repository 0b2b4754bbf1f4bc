//! What the calls that set coders do.

use crate::encoder;
use crate::encoder_options;
use crate::encoder_options::{
    AesEncoderOptions, EncoderConfiguration, EncoderMethod, EncoderOptions, LzmaOptions, Password,
};
use crate::error::Error;
use vstd::prelude::*;

verus! {

/// The options of LZMA are those of a level, and of level 6 by themselves.
pub proof fn law_options_of_a_level(
    level: u32,
    o: LzmaOptions,
    d: LzmaOptions,
    six: LzmaOptions,
    parts: (u32, u32, u32, u32, u32),
)
    requires
        call_ensures(LzmaOptions::from_level, (level,), o),
        call_ensures(LzmaOptions::from_level, (6,), six),
        call_ensures(<LzmaOptions as Default>::default, (), d),
        call_ensures(LzmaOptions::parts, (&o,), parts),
    ensures
        d@ == six@,
        parts.0 == if level > 9 {
            9
        } else {
            level
        },
        parts.1 == 3 && parts.2 == 0 && parts.3 == 2,
        parts.4 == if level == 0 {
            262_144
        } else if level == 1 {
            1_048_576
        } else if level == 2 {
            2_097_152
        } else if level <= 4 {
            4_194_304
        } else if level <= 6 {
            8_388_608
        } else if level == 7 {
            16_777_216
        } else if level == 8 {
            33_554_432
        } else {
            67_108_864u32
        },
        o@.level == parts.0 && o@.lc == parts.1 && o@.lp == parts.2 && o@.pb == parts.3
            && o@.dict_size == parts.4,
{
}

/// The bits of the literals and the position are what they are set to, up to 8, 4 and 4, and nothing else
/// changes.
pub proof fn law_set_literal_bits(o: &mut LzmaOptions, lc: u32, lp: u32, pb: u32)
    requires
        call_ensures(LzmaOptions::set_literal_bits, (o, lc, lp, pb), ()),
    ensures
        lc <= 8 ==> final(o)@.lc == lc,
        lc > 8 ==> final(o)@.lc == 8,
        lp <= 4 ==> final(o)@.lp == lp,
        lp > 4 ==> final(o)@.lp == 4,
        pb <= 4 ==> final(o)@.pb == pb,
        pb > 4 ==> final(o)@.pb == 4,
        final(o)@.level == old(o)@.level,
        final(o)@.dict_size == old(o)@.dict_size,
{
}

/// The dictionary is as large as it is set to, from 4 KiB to 768 MiB, and nothing else changes.
pub proof fn law_set_dictionary_size(o: &mut LzmaOptions, size: u32)
    requires
        call_ensures(LzmaOptions::set_dictionary_size, (o, size), ()),
    ensures
        4096 <= size <= 805_306_368 ==> final(o)@.dict_size == size,
        size < 4096 ==> final(o)@.dict_size == 4096,
        size > 805_306_368 ==> final(o)@.dict_size == 805_306_368,
        final(o)@.level == old(o)@.level,
        final(o)@.lc == old(o)@.lc,
        final(o)@.lp == old(o)@.lp,
        final(o)@.pb == old(o)@.pb,
{
}

/// A coder is its method with the options that it is given, or none; and it runs with them.
pub proof fn law_configurations(
    method: EncoderMethod,
    options: EncoderOptions,
    bare: EncoderConfiguration,
    full: EncoderConfiguration,
    lzma: LzmaOptions,
    aes: AesEncoderOptions,
    of_lzma: EncoderConfiguration,
    of_aes: EncoderConfiguration,
    runs_with: LzmaOptions,
)
    requires
        call_ensures(EncoderConfiguration::new, (method,), bare),
        call_ensures(EncoderConfiguration::with_options, (bare, options), full),
        call_ensures(<EncoderConfiguration as From<LzmaOptions>>::from, (lzma,), of_lzma),
        call_ensures(<EncoderConfiguration as From<AesEncoderOptions>>::from, (aes,), of_aes),
        call_ensures(EncoderConfiguration::lzma_options, (&of_lzma,), runs_with),
    ensures
        bare.method == method && bare.options is None,
        full.method == method && full.options == Some(options),
        of_lzma.method is LZMA && of_lzma.options == Some(EncoderOptions::Lzma(lzma)),
        of_aes.method is AES256_SHA256 && of_aes.options == Some(EncoderOptions::Aes(aes)),
        runs_with@ == lzma@,
{
}

/// What stands for a method, and for the settings of a coder, in an archive.
pub proof fn law_what_stands_for_a_coder(
    c: EncoderConfiguration,
    id: Vec<u8>,
    bcj2: Vec<u8>,
    properties: Vec<u8>,
)
    requires
        call_ensures(EncoderMethod::id, (c.method,), id),
        call_ensures(encoder_options::bcj2_id, (), bcj2),
        call_ensures(encoder_options::get_options_as_properties, (&c,), properties),
    ensures
        c.method is COPY ==> id@ == seq![0x00u8] && properties@.len() == 0,
        c.method is LZMA ==> id@ == seq![0x03u8, 0x01, 0x01] && properties@.len() == 5,
        c.method is LZMA2 ==> id@ == seq![0x21u8] && properties@.len() == 1,
        c.method is AES256_SHA256 ==> id@ == seq![0x06u8, 0xF1, 0x07, 0x01],
        c.method is AES256_SHA256 ==> (c.options matches Some(EncoderOptions::Aes(o)) ==> properties@
            == seq![0xC8u8, 0xFF] + o.salt@ + o.iv@),
        bcj2@ == seq![0x03u8, 0x03, 0x01, 0x1B],
{
    if c.method is LZMA {
        crate::wire::lemma_le_digits(c.lzma_settings().dict_size as nat, 4);
    }
}

/// The options of AES are the password and what was drawn, or there are none.
pub proof fn law_aes_options(
    password: Password,
    iv: Option<[u8; 16]>,
    salt: Option<[u8; 16]>,
    r: Result<AesEncoderOptions, Error>,
    drawn: Result<AesEncoderOptions, Error>,
)
    requires
        call_ensures(AesEncoderOptions::from_random, (password, iv, salt), r),
        call_ensures(AesEncoderOptions::new, (password,), drawn),
    ensures
        r is Ok <==> iv is Some && salt is Some,
        r matches Ok(o) ==> o.password == password && o.iv == iv->0 && o.salt == salt->0,
        r matches Err(e) ==> e is Unsupported && e.text() == "no random numbers"@,
        drawn matches Ok(o) ==> o.password == password,
        drawn matches Err(e) ==> e is Unsupported && e.text() == "no random numbers"@,
{
}

/// The longest stream for LZMA2.
pub proof fn law_longest_for_lzma2(level: u32, r: u64)
    requires
        call_ensures(encoder::max_lzma2_len, (level,), r),
    ensures
        level <= 3 ==> r == 4_294_967_295,
        level == 4 ==> r == 34_359_672_832,
        level == 5 ==> r == 68_719_345_664,
        level >= 6 ==> r == 137_438_691_328,
{
}

/// A password is the text that it is given, and its copy is the same.
pub proof fn law_password(text: &str, p: Password, q: Password)
    requires
        call_ensures(Password::new, (text,), p),
        call_ensures(<Password as Clone>::clone, (&p,), q),
    ensures
        p.text@ == text@,
        q == p,
{
}

} // verus!
