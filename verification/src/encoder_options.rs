//! Which coders a stream goes through, and how they are set.

use crate::wire;
use vstd::prelude::*;

verus! {

/// The least dictionary of LZMA, in bytes.
pub const MIN_DICTIONARY_SIZE: u32 = 4096;

/// The least dictionary that LZMA2 runs with, in bytes: as much as one of its chunks can hold
/// uncompressed.
pub const MIN_LZMA2_DICTIONARY_SIZE: u32 = 0x1_0000;

/// The greatest dictionary of LZMA that the encoder takes, in bytes.
pub const MAX_DICTIONARY_SIZE: u32 = 0x3000_0000;

/// How often the key derivation of AES hashes: this power of two.
pub const NUM_CYCLES_POWER: u8 = 8;

/// The method of a coder.
#[derive(Clone, Copy, PartialEq, Eq, Debug, Structural)]
#[allow(non_camel_case_types)]
pub enum EncoderMethod {
    /// The bytes as they are.
    COPY,
    /// LZMA.
    LZMA,
    /// LZMA2.
    LZMA2,
    /// AES-256 in CBC mode, with a key derived by SHA-256.
    AES256_SHA256,
}

impl EncoderMethod {
    /// The bytes that stand for a method in an archive.
    pub open spec fn id_bytes(self) -> Seq<u8> {
        match self {
            EncoderMethod::COPY => seq![0x00u8],
            EncoderMethod::LZMA => seq![0x03u8, 0x01, 0x01],
            EncoderMethod::LZMA2 => seq![0x21u8],
            EncoderMethod::AES256_SHA256 => seq![0x06u8, 0xF1, 0x07, 0x01],
        }
    }

    /// The bytes that stand for a method in an archive.
    pub fn id(self) -> (r: Vec<u8>)
        ensures
            r@ == self.id_bytes(),
    {
        match self {
            EncoderMethod::COPY => vec![0x00],
            EncoderMethod::LZMA => vec![0x03, 0x01, 0x01],
            EncoderMethod::LZMA2 => vec![0x21],
            EncoderMethod::AES256_SHA256 => vec![0x06, 0xF1, 0x07, 0x01],
        }
    }
}

/// The bytes that stand for the BCJ2 filter in an archive.
pub open spec fn bcj2_id_bytes() -> Seq<u8> {
    seq![0x03u8, 0x03, 0x01, 0x1B]
}

/// The bytes that stand for the BCJ2 filter in an archive.
pub fn bcj2_id() -> (r: Vec<u8>)
    ensures
        r@ == bcj2_id_bytes(),
{
    vec![0x03, 0x03, 0x01, 0x1B]
}

/// A password.
#[derive(Debug)]
pub struct Password {
    /// Its characters.
    pub text: String,
}

impl View for Password {
    type V = Seq<char>;

    open spec fn view(&self) -> Seq<char> {
        self.text@
    }
}

impl Password {
    /// The password that a text spells.
    pub fn new(text: &str) -> (r: Self)
        ensures
            r@ == text@,
    {
        Password { text: text.to_string() }
    }
}

impl Clone for Password {
    fn clone(&self) -> (r: Self)
        ensures
            r == *self,
    {
        Password { text: self.text.clone() }
    }
}

/// How LZMA and LZMA2 are set.
pub ghost struct LzmaSettings {
    /// How much effort goes into finding matches: 0 to 9.
    pub level: u32,
    /// How many bits of the byte before choose the model of a literal.
    pub lc: u32,
    /// How many bits of the position choose the model of a literal.
    pub lp: u32,
    /// How many bits of the position choose the model of everything else.
    pub pb: u32,
    /// How far back a match can lie, in bytes.
    pub dict_size: u32,
}

/// The dictionary that goes with a level.
pub open spec fn level_dictionary(level: nat) -> u32 {
    if level == 0 {
        0x4_0000
    } else if level == 1 {
        0x10_0000
    } else if level == 2 {
        0x20_0000
    } else if level <= 4 {
        0x40_0000
    } else if level <= 6 {
        0x80_0000
    } else if level == 7 {
        0x100_0000
    } else if level == 8 {
        0x200_0000
    } else {
        0x400_0000
    }
}

/// The settings that go with a level; beyond 9 there is no more.
pub open spec fn level_settings(level: u32) -> LzmaSettings {
    let level = if level > 9 {
        9u32
    } else {
        level
    };
    LzmaSettings { level, lc: 3, lp: 0, pb: 2, dict_size: level_dictionary(level as nat) }
}

/// What every setting keeps to.
pub open spec fn settings_ok(s: LzmaSettings) -> bool {
    &&& s.level <= 9
    &&& s.lc <= 8
    &&& s.lp <= 4
    &&& s.pb <= 4
    &&& MIN_DICTIONARY_SIZE <= s.dict_size <= MAX_DICTIONARY_SIZE
}

/// The settings that LZMA2 runs with where these are given. Its dictionary holds a whole chunk, and
/// its literal bits are four at most, as many as the format has room for: the position gives way to
/// the context.
pub open spec fn lzma2_settings(s: LzmaSettings) -> LzmaSettings {
    let lc = least(s.lc, 4);
    LzmaSettings {
        lc,
        lp: least(s.lp, (4 - lc) as u32),
        dict_size: if s.dict_size < MIN_LZMA2_DICTIONARY_SIZE {
            MIN_LZMA2_DICTIONARY_SIZE
        } else {
            s.dict_size
        },
        ..s
    }
}

/// The lesser of two numbers.
pub open spec fn least(a: u32, b: u32) -> u32 {
    if a < b {
        a
    } else {
        b
    }
}

fn capped(value: u32, limit: u32) -> (r: u32)
    ensures
        r == least(value, limit),
{
    if value < limit {
        value
    } else {
        limit
    }
}

/// The settings of LZMA and LZMA2, always such that the encoder takes them.
#[derive(Clone, Copy, Debug)]
pub struct LzmaOptions {
    level: u32,
    lc: u32,
    lp: u32,
    pb: u32,
    dict_size: u32,
}

impl View for LzmaOptions {
    type V = LzmaSettings;

    closed spec fn view(&self) -> LzmaSettings {
        LzmaSettings {
            level: self.level,
            lc: self.lc,
            lp: self.lp,
            pb: self.pb,
            dict_size: self.dict_size,
        }
    }
}

impl Default for LzmaOptions {
    fn default() -> (r: Self)
        ensures
            r@ == level_settings(6),
    {
        Self::from_level(6)
    }
}

impl LzmaOptions {
    #[verifier::type_invariant]
    spec fn inv(&self) -> bool {
        settings_ok(self@)
    }

    /// The settings that go with a level of 0 to 9.
    pub fn from_level(level: u32) -> (r: Self)
        ensures
            r@ == level_settings(level),
    {
        let level: u32 = capped(level, 9);
        let dict_size: u32 = if level == 0 {
            0x4_0000
        } else if level == 1 {
            0x10_0000
        } else if level == 2 {
            0x20_0000
        } else if level <= 4 {
            0x40_0000
        } else if level <= 6 {
            0x80_0000
        } else if level == 7 {
            0x100_0000
        } else if level == 8 {
            0x200_0000
        } else {
            0x400_0000
        };
        LzmaOptions { level, lc: 3, lp: 0, pb: 2, dict_size }
    }

    /// Sets the bits that choose the models, each capped at what the format has room for.
    pub fn set_literal_bits(&mut self, lc: u32, lp: u32, pb: u32)
        ensures
            final(self)@ == (LzmaSettings {
                lc: least(lc, 8),
                lp: least(lp, 4),
                pb: least(pb, 4),
                ..old(self)@
            }),
    {
        proof {
            use_type_invariant(&*self);
        }
        *self = LzmaOptions { lc: capped(lc, 8), lp: capped(lp, 4), pb: capped(pb, 4), ..*self };
    }

    /// Sets the dictionary, brought into what the encoder takes.
    pub fn set_dictionary_size(&mut self, dict_size: u32)
        ensures
            final(self)@ == (LzmaSettings {
                dict_size: if dict_size < MIN_DICTIONARY_SIZE {
                    MIN_DICTIONARY_SIZE
                } else {
                    least(dict_size, MAX_DICTIONARY_SIZE)
                },
                ..old(self)@
            }),
    {
        proof {
            use_type_invariant(&*self);
        }
        let dict_size: u32 = if dict_size < MIN_DICTIONARY_SIZE {
            MIN_DICTIONARY_SIZE
        } else {
            capped(dict_size, MAX_DICTIONARY_SIZE)
        };
        *self = LzmaOptions { dict_size, ..*self };
    }

    /// The settings that LZMA2 runs with where these are given.
    pub fn for_lzma2(&self) -> (r: Self)
        ensures
            r@ == lzma2_settings(self@),
    {
        proof {
            use_type_invariant(self);
        }
        let lc: u32 = capped(self.lc, 4);
        let lp: u32 = capped(self.lp, 4 - lc);
        let dict_size: u32 = if self.dict_size < MIN_LZMA2_DICTIONARY_SIZE {
            MIN_LZMA2_DICTIONARY_SIZE
        } else {
            self.dict_size
        };
        LzmaOptions { lc, lp, dict_size, ..*self }
    }

    /// The settings one by one: level, literal context bits, literal position bits, position bits
    /// and dictionary.
    pub fn parts(&self) -> (r: (u32, u32, u32, u32, u32))
        ensures
            r == (self@.level, self@.lc, self@.lp, self@.pb, self@.dict_size),
            settings_ok(self@),
    {
        proof {
            use_type_invariant(self);
        }
        (self.level, self.lc, self.lp, self.pb, self.dict_size)
    }
}

/// The settings of AES-256: the password, and what is drawn at random for each stream.
#[derive(Debug)]
pub struct AesEncoderOptions {
    /// The password that the key is derived from.
    pub password: Password,
    /// What the first block is mixed with.
    pub iv: [u8; 16],
    /// What the password is mixed with.
    pub salt: [u8; 16],
}

impl Clone for AesEncoderOptions {
    fn clone(&self) -> (r: Self)
        ensures
            r == *self,
    {
        AesEncoderOptions { password: self.password.clone(), iv: self.iv, salt: self.salt }
    }
}

/// The settings of a coder.
#[derive(Debug)]
pub enum EncoderOptions {
    /// Those of LZMA.
    Lzma(LzmaOptions),
    /// Those of LZMA2.
    Lzma2(LzmaOptions),
    /// Those of AES-256.
    Aes(AesEncoderOptions),
}

impl Clone for EncoderOptions {
    fn clone(&self) -> (r: Self)
        ensures
            r == *self,
    {
        match self {
            EncoderOptions::Lzma(o) => EncoderOptions::Lzma(*o),
            EncoderOptions::Lzma2(o) => EncoderOptions::Lzma2(*o),
            EncoderOptions::Aes(o) => EncoderOptions::Aes(o.clone()),
        }
    }
}

/// A coder: its method, and its settings where they are not the default ones.
#[derive(Debug)]
pub struct EncoderConfiguration {
    /// The method.
    pub method: EncoderMethod,
    /// The settings.
    pub options: Option<EncoderOptions>,
}

impl Clone for EncoderConfiguration {
    fn clone(&self) -> (r: Self)
        ensures
            r == *self,
    {
        let options = match &self.options {
            None => None,
            Some(o) => Some(o.clone()),
        };
        EncoderConfiguration { method: self.method, options }
    }
}

impl EncoderConfiguration {
    /// A coder with its default settings.
    pub fn new(method: EncoderMethod) -> (r: Self)
        ensures
            r == (EncoderConfiguration { method, options: None }),
    {
        EncoderConfiguration { method, options: None }
    }

    /// The same coder, with these settings.
    pub fn with_options(self, options: EncoderOptions) -> (r: Self)
        ensures
            r == (EncoderConfiguration { method: self.method, options: Some(options) }),
    {
        EncoderConfiguration { method: self.method, options: Some(options) }
    }

    /// The settings that are given for LZMA or LZMA2, or the default ones.
    pub open spec fn given_settings(&self) -> LzmaSettings {
        match self.options {
            Some(EncoderOptions::Lzma(o)) => o@,
            Some(EncoderOptions::Lzma2(o)) => o@,
            _ => level_settings(6),
        }
    }

    /// The settings that LZMA or LZMA2 runs with.
    pub open spec fn lzma_settings(&self) -> LzmaSettings {
        if self.method is LZMA2 {
            lzma2_settings(self.given_settings())
        } else {
            self.given_settings()
        }
    }

    /// The settings that LZMA or LZMA2 runs with: those given, or the default ones, brought into what
    /// LZMA2 has room for where it is the method.
    pub fn lzma_options(&self) -> (r: LzmaOptions)
        ensures
            r@ == self.lzma_settings(),
    {
        let given = match &self.options {
            Some(EncoderOptions::Lzma(o)) => *o,
            Some(EncoderOptions::Lzma2(o)) => *o,
            _ => LzmaOptions::from_level(6),
        };
        match self.method {
            EncoderMethod::LZMA2 => given.for_lzma2(),
            _ => given,
        }
    }
}

impl vstd::std_specs::convert::FromSpecImpl<LzmaOptions> for EncoderConfiguration {
    open spec fn obeys_from_spec() -> bool {
        true
    }

    open spec fn from_spec(options: LzmaOptions) -> EncoderConfiguration {
        EncoderConfiguration {
            method: EncoderMethod::LZMA,
            options: Some(EncoderOptions::Lzma(options)),
        }
    }
}

impl From<LzmaOptions> for EncoderConfiguration {
    fn from(options: LzmaOptions) -> (r: EncoderConfiguration) {
        EncoderConfiguration {
            method: EncoderMethod::LZMA,
            options: Some(EncoderOptions::Lzma(options)),
        }
    }
}

impl vstd::std_specs::convert::FromSpecImpl<AesEncoderOptions> for EncoderConfiguration {
    open spec fn obeys_from_spec() -> bool {
        true
    }

    open spec fn from_spec(options: AesEncoderOptions) -> EncoderConfiguration {
        EncoderConfiguration {
            method: EncoderMethod::AES256_SHA256,
            options: Some(EncoderOptions::Aes(options)),
        }
    }
}

impl From<AesEncoderOptions> for EncoderConfiguration {
    fn from(options: AesEncoderOptions) -> (r: EncoderConfiguration) {
        EncoderConfiguration {
            method: EncoderMethod::AES256_SHA256,
            options: Some(EncoderOptions::Aes(options)),
        }
    }
}

/// The dictionary that a property byte of LZMA2 stands for: 4 KiB, 6 KiB, 8 KiB, 12 KiB and so on.
pub open spec fn lzma2_dictionary(property: nat) -> nat
    decreases property,
{
    if property == 0 {
        4096
    } else if property == 1 {
        6144
    } else {
        2 * lzma2_dictionary((property - 2) as nat)
    }
}

/// The least property byte, from `property` on, whose dictionary is large enough.
pub open spec fn lzma2_property_from(dict_size: nat, property: nat) -> nat
    decreases 40 - property,
{
    if property >= 40 || dict_size <= lzma2_dictionary(property) {
        property
    } else {
        lzma2_property_from(dict_size, property + 1)
    }
}

/// What an archive keeps of a coder's settings, for the reader.
pub open spec fn properties_of(c: EncoderConfiguration) -> Seq<u8> {
    match c.method {
        EncoderMethod::COPY => Seq::empty(),
        EncoderMethod::LZMA => {
            let s = c.lzma_settings();
            seq![((s.pb * 5 + s.lp) * 9 + s.lc) as u8] + wire::le_digits(s.dict_size as nat, 4)
        },
        EncoderMethod::LZMA2 => {
            seq![lzma2_property_from(c.lzma_settings().dict_size as nat, 0) as u8]
        },
        EncoderMethod::AES256_SHA256 => match c.options {
            Some(EncoderOptions::Aes(o)) => {
                seq![(0xC0 + NUM_CYCLES_POWER) as u8, 0xFF] + o.salt@ + o.iv@
            },
            _ => Seq::empty(),
        },
    }
}

proof fn lemma_lzma2_property_from(dict_size: nat, property: nat)
    requires
        property <= 40,
        property > 0 ==> lzma2_dictionary((property - 1) as nat) < dict_size,
        dict_size <= lzma2_dictionary(40),
    ensures
        ({
            let p = lzma2_property_from(dict_size, property);
            &&& p <= 40
            &&& dict_size <= lzma2_dictionary(p)
            &&& p > 0 ==> lzma2_dictionary((p - 1) as nat) < dict_size
        }),
    decreases 40 - property,
{
    if property < 40 && dict_size > lzma2_dictionary(property) {
        lemma_lzma2_property_from(dict_size, property + 1);
    }
}

/// The property byte of LZMA2 stands for a dictionary that is large enough, and is the least that
/// does.
pub proof fn law_lzma2_property_is_the_least(dict_size: u32)
    requires
        dict_size <= MAX_DICTIONARY_SIZE,
    ensures
        ({
            let p = lzma2_property_from(dict_size as nat, 0);
            &&& p <= 40
            &&& dict_size <= lzma2_dictionary(p)
            &&& p > 0 ==> lzma2_dictionary((p - 1) as nat) < dict_size
        }),
{
    assert(lzma2_dictionary(40) == 0x1_0000_0000) by {
        reveal_with_fuel(lzma2_dictionary, 21);
    }
    lemma_lzma2_property_from(dict_size as nat, 0);
}

/// What an archive keeps of the settings of LZMA2 stands for a dictionary that holds what its coder
/// looks back on, and a whole chunk besides; and its literal bits are as many as the format has room
/// for.
pub proof fn law_lzma2_reader_has_room(c: EncoderConfiguration)
    requires
        c.method is LZMA2,
        settings_ok(c.given_settings()),
    ensures
        ({
            let s = c.lzma_settings();
            let p = properties_of(c);
            &&& settings_ok(s)
            &&& s.lc + s.lp <= 4
            &&& p.len() == 1
            &&& p[0] <= 40
            &&& MIN_LZMA2_DICTIONARY_SIZE <= s.dict_size <= lzma2_dictionary(p[0] as nat)
        }),
{
    law_lzma2_property_is_the_least(c.lzma_settings().dict_size);
}

/// What an archive keeps of the settings of LZMA gives them back: the bits from the first byte, and
/// the dictionary from the four behind it.
pub proof fn law_lzma_properties_read_back(c: EncoderConfiguration)
    requires
        c.method is LZMA,
        settings_ok(c.lzma_settings()),
    ensures
        ({
            let s = c.lzma_settings();
            let p = properties_of(c);
            &&& p.len() == 5
            &&& p[0] % 9 == s.lc
            &&& p[0] / 9 % 5 == s.lp
            &&& p[0] / 45 == s.pb
            &&& wire::le_value(p.skip(1)) == s.dict_size
        }),
{
    let s = c.lzma_settings();
    let p = properties_of(c);
    wire::lemma_le_digits(s.dict_size as nat, 4);
    assert(wire::pow256(4) == 0x1_0000_0000) by {
        reveal_with_fuel(wire::pow256, 5);
    }
    assert(p.skip(1) =~= wire::le_digits(s.dict_size as nat, 4));
    let b = (s.pb * 5 + s.lp) * 9 + s.lc;
    assert(b == 9 * (5 * s.pb + s.lp) + s.lc);
    assert(b <= 224);
}

/// What an archive keeps of the settings of AES gives back the salt and the initial vector, and how
/// often the key derivation hashes.
pub proof fn law_aes_properties_read_back(o: AesEncoderOptions)
    ensures
        ({
            let c = EncoderConfiguration {
                method: EncoderMethod::AES256_SHA256,
                options: Some(EncoderOptions::Aes(o)),
            };
            let p = properties_of(c);
            &&& p.len() == 34
            &&& p[0] % 64 == NUM_CYCLES_POWER
            &&& p[0] / 64 == 3
            &&& p[1] == 0xFF
            &&& p.subrange(2, 18) == o.salt@
            &&& p.subrange(18, 34) == o.iv@
        }),
{
    let c = EncoderConfiguration {
        method: EncoderMethod::AES256_SHA256,
        options: Some(EncoderOptions::Aes(o)),
    };
    let p = properties_of(c);
    assert(p.subrange(2, 18) =~= o.salt@);
    assert(p.subrange(18, 34) =~= o.iv@);
}

fn lzma2_property(dict_size: u32) -> (r: u8)
    requires
        dict_size <= MAX_DICTIONARY_SIZE,
    ensures
        r == lzma2_property_from(dict_size as nat, 0),
{
    let mut this: u32 = 4096;
    let mut next: u32 = 6144;
    let mut property: u8 = 0;
    while property < 40 && dict_size > this
        invariant
            property <= 40,
            dict_size <= MAX_DICTIONARY_SIZE,
            this == lzma2_dictionary(property as nat),
            next == lzma2_dictionary((property + 1) as nat),
            lzma2_property_from(dict_size as nat, 0) == lzma2_property_from(
                dict_size as nat,
                property as nat,
            ),
        decreases 40 - property,
    {
        let after: u32 = 2 * this;
        this = next;
        next = after;
        property = property + 1;
    }
    property
}

/// What an archive keeps of a coder's settings, for the reader.
pub fn get_options_as_properties(c: &EncoderConfiguration) -> (r: Vec<u8>)
    ensures
        r@ == properties_of(*c),
        r@.len() <= 34,
{
    match c.method {
        EncoderMethod::COPY => Vec::new(),
        EncoderMethod::LZMA => {
            let o = c.lzma_options();
            let (_, lc, lp, pb, dict_size) = o.parts();
            let mut r = Vec::new();
            r.push(((pb * 5 + lp) * 9 + lc) as u8);
            wire::push_u32(&mut r, dict_size);
            proof {
                wire::lemma_le_digits(dict_size as nat, 4);
            }
            assert(r@ =~= properties_of(*c));
            r
        },
        EncoderMethod::LZMA2 => {
            let o = c.lzma_options();
            let (_, _, _, _, dict_size) = o.parts();
            let r = vec![lzma2_property(dict_size)];
            assert(r@ =~= properties_of(*c));
            r
        },
        EncoderMethod::AES256_SHA256 => match &c.options {
            Some(EncoderOptions::Aes(o)) => {
                let mut r = Vec::new();
                r.push(0xC0 + NUM_CYCLES_POWER);
                r.push(0xFF);
                r.extend_from_slice(o.salt.as_slice());
                r.extend_from_slice(o.iv.as_slice());
                assert(r@ =~= properties_of(*c));
                r
            },
            _ => Vec::new(),
        },
    }
}

} // verus!
