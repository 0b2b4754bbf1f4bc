//! Running a stream through its coders.

use crate::encoder_options;
use crate::encoder_options::{
    AesEncoderOptions, EncoderConfiguration, EncoderMethod, EncoderOptions, LzmaOptions, Password,
};
use crate::error::Error;
use crate::wire;
use vstd::prelude::*;

verus! {

/// How often the key derivation of AES hashes: two to the power of
/// [`encoder_options::NUM_CYCLES_POWER`].
pub const NUM_CYCLES: u64 = 256;

/// The longest stream that LZMA takes, in bytes: its encoder counts them in 32 bits.
pub const MAX_LZMA_LEN: u64 = 0xFFFF_FFFF;

/// The longest stream that LZMA2 takes at a level, in bytes. Its encoder counts in 32 bits, with a
/// sign, the matches since it last looked at what distances cost. At levels 0 to 3 it never looks, and
/// a match has two bytes or more. From level 4 on it looks before every match but the long ones, which
/// have 16 bytes or more at level 4, 32 at level 5 and 64 beyond, and but for those that it plans
/// together, which are fewer than 4096.
pub open spec fn lzma2_limit(level: u32) -> u64 {
    if level <= 3 {
        0xFFFF_FFFF
    } else if level == 4 {
        0x7_FFFF_0000
    } else if level == 5 {
        0xF_FFFE_0000
    } else {
        0x1F_FFFC_0000
    }
}

/// The longest stream that LZMA2 takes at a level, in bytes.
pub fn max_lzma2_len(level: u32) -> (r: u64)
    ensures
        r == lzma2_limit(level),
{
    if level <= 3 {
        0xFFFF_FFFF
    } else if level == 4 {
        0x7_FFFF_0000
    } else if level == 5 {
        0xF_FFFE_0000
    } else {
        0x1F_FFFC_0000
    }
}

/// What `lzma_rust2::LzmaWriter` makes of data, without a header and without an end marker, with the
/// settings: level, literal context bits, literal position bits, position bits, dictionary.
pub uninterp spec fn lzma_compressed(
    data: Seq<u8>,
    level: u32,
    lc: u32,
    lp: u32,
    pb: u32,
    dict_size: u32,
) -> Seq<u8>;

/// What `lzma_rust2::Lzma2Writer` makes of data, with the settings: level, literal context bits,
/// literal position bits, position bits, dictionary.
pub uninterp spec fn lzma2_compressed(
    data: Seq<u8>,
    level: u32,
    lc: u32,
    lp: u32,
    pb: u32,
    dict_size: u32,
) -> Seq<u8>;

/// What `sha2::Sha256` makes of a message.
pub uninterp spec fn sha256_digest(message: Seq<u8>) -> Seq<u8>;

/// What AES-256 in CBC mode makes of data, with noughts up to a whole block, for a key and an
/// initial vector.
pub uninterp spec fn aes256_cbc(key: Seq<u8>, iv: Seq<u8>, data: Seq<u8>) -> Seq<u8>;

/// Calls `lzma_rust2::LzmaWriter`, writing into memory. Without a header, an expected size or a preset
/// dictionary it fails only where its output does, and memory does not. What comes out depends on the
/// data and the settings alone, and that is all that is said of it: that a decoder gives the data back
/// is not, as none is called here. It counts what it has taken in 32 bits, so longer data is left out;
/// and it takes less than 2 GiB at a time, so the data goes in through a buffer.
#[verifier::external_body]
fn lzma_encode(
    data: &[u8],
    level: u32,
    lc: u32,
    lp: u32,
    pb: u32,
    dict_size: u32,
) -> (r: Result<Vec<u8>, std::io::Error>)
    requires
        data@.len() <= 0xFFFF_FFFF,
        level <= 9,
        lc <= 8,
        lp <= 4,
        pb <= 4,
        encoder_options::MIN_DICTIONARY_SIZE <= dict_size <= encoder_options::MAX_DICTIONARY_SIZE,
    ensures
        r is Ok,
        r matches Ok(v) ==> v@ == lzma_compressed(data@, level, lc, lp, pb, dict_size),
{
    let mut options = lzma_rust2::LzmaOptions::with_preset(level);
    options.lc = lc;
    options.lp = lp;
    options.pb = pb;
    options.dict_size = dict_size;
    let mut writer = lzma_rust2::LzmaWriter::new_no_header(Vec::new(), &options, false)?;
    std::io::copy(&mut std::io::BufReader::with_capacity(0x1_0000, data), &mut writer)?;
    writer.finish()
}

/// Calls `lzma_rust2::Lzma2Writer`, writing into memory. It fails only where its output or its buffer
/// for a chunk does: memory does not, and it ends a chunk while there is room in the buffer for one
/// more symbol, however long. What comes out depends on the data and the settings alone, and that is
/// all that is said of it: that a decoder gives the data back is not, as none is called here. It goes
/// back in its window for a chunk that it leaves uncompressed, so the dictionary is to hold a whole
/// chunk; it counts matches in 32 bits, so data that could hold more of them is left out, as
/// [`lzma2_limit`] has it; its format has room for four literal bits; and it takes less than 2 GiB at a
/// time, so the data goes in through a buffer.
#[verifier::external_body]
fn lzma2_encode(
    data: &[u8],
    level: u32,
    lc: u32,
    lp: u32,
    pb: u32,
    dict_size: u32,
) -> (r: Result<Vec<u8>, std::io::Error>)
    requires
        data@.len() <= lzma2_limit(level),
        level <= 9,
        lc + lp <= 4,
        pb <= 4,
        0x1_0000 <= dict_size <= encoder_options::MAX_DICTIONARY_SIZE,
    ensures
        r is Ok,
        r matches Ok(v) ==> v@ == lzma2_compressed(data@, level, lc, lp, pb, dict_size),
{
    let mut options = lzma_rust2::Lzma2Options::with_preset(level);
    options.lzma_options.lc = lc;
    options.lzma_options.lp = lp;
    options.lzma_options.pb = pb;
    options.lzma_options.dict_size = dict_size;
    let mut writer = lzma_rust2::Lzma2Writer::new(Vec::new(), options);
    std::io::copy(&mut std::io::BufReader::with_capacity(0x1_0000, data), &mut writer)?;
    writer.finish()
}

/// Calls `sha2::Sha256::digest`, the SHA-256 of a message: 32 bytes that depend on it alone.
#[verifier::external_body]
fn sha256(message: &[u8]) -> (r: [u8; 32])
    ensures
        r@ == sha256_digest(message@),
{
    <sha2::Sha256 as sha2::Digest>::digest(message).into()
}

/// Calls `cbc::Encryptor` over `aes::Aes256`, with noughts up to a whole block of 16 bytes and none
/// behind a whole one. What comes out depends on the key, the initial vector and the data alone.
#[verifier::external_body]
fn aes256_cbc_encrypt(key: &[u8; 32], iv: &[u8; 16], data: &[u8]) -> (r: Vec<u8>)
    ensures
        r@ == aes256_cbc(key@, iv@, data@),
        r@.len() == (data@.len() + 15) / 16 * 16,
{
    cbc::cipher::BlockEncryptMut::encrypt_padded_vec_mut::<cbc::cipher::block_padding::ZeroPadding>(
        <cbc::Encryptor<aes::Aes256> as cbc::cipher::KeyIvInit>::new(key.into(), iv.into()),
        data,
    )
}

/// Calls `getrandom::fill` for 16 bytes of the system's random numbers. Nothing is promised of
/// them, nor that there are any.
#[verifier::external_body]
pub(crate) fn random_block() -> (r: Option<[u8; 16]>) {
    let mut block = [0u8; 16];
    getrandom::fill(&mut block).ok()?;
    Some(block)
}

impl AesEncoderOptions {
    /// The settings for a password and two random blocks, refused where there are none.
    pub fn from_random(password: Password, iv: Option<[u8; 16]>, salt: Option<[u8; 16]>) -> (r:
        Result<Self, Error>)
        ensures
            r is Ok <==> iv is Some && salt is Some,
            r matches Ok(o) ==> o.password == password && Some(o.iv) == iv && Some(o.salt) == salt,
            r matches Err(e) ==> e is Unsupported && e.text() == "no random numbers"@,
    {
        match (iv, salt) {
            (Some(iv), Some(salt)) => Ok(AesEncoderOptions { password, iv, salt }),
            _ => Err(Error::unsupported("no random numbers".to_string())),
        }
    }

    /// The settings for a password, with what is drawn at random for one stream.
    pub fn new(password: Password) -> (r: Result<Self, Error>)
        ensures
            r matches Ok(o) ==> o.password == password,
            r matches Err(e) ==> e is Unsupported && e.text() == "no random numbers"@,
    {
        let iv = random_block();
        let salt = random_block();
        Self::from_random(password, iv, salt)
    }
}

/// What the key is hashed from: the salt, the password and a counter of eight bytes, for each count
/// below `n`.
pub open spec fn key_material(salt: Seq<u8>, password: Seq<u8>, n: nat) -> Seq<u8>
    decreases n,
{
    if n == 0 {
        Seq::empty()
    } else {
        key_material(salt, password, (n - 1) as nat) + salt + password + wire::le_digits(
            (n - 1) as nat,
            8,
        )
    }
}

/// The key derivation hashes as often as an archive says: what it keeps is the power of two.
pub proof fn law_cycles_are_the_power_that_is_kept()
    ensures
        NUM_CYCLES == vstd::arithmetic::power2::pow2(encoder_options::NUM_CYCLES_POWER as nat),
{
    vstd::arithmetic::power2::lemma2_to64();
}

/// The key that a password gives.
pub open spec fn aes_key(o: AesEncoderOptions) -> Seq<u8> {
    sha256_digest(key_material(o.salt@, wire::utf16(o.password@), NUM_CYCLES as nat))
}

/// Derives the key from the password: the hash of salt, password and counter, again and again.
fn derive_key(o: &AesEncoderOptions) -> (r: [u8; 32])
    ensures
        r@ == aes_key(*o),
{
    let mut password = Vec::new();
    wire::push_utf16(&mut password, o.password.text.as_str());
    assert(password@ =~= wire::utf16(o.password@));
    let mut message = Vec::new();
    let mut count: u64 = 0;
    while count < NUM_CYCLES
        invariant
            count <= NUM_CYCLES,
            password@ == wire::utf16(o.password@),
            message@ == key_material(o.salt@, password@, count as nat),
        decreases NUM_CYCLES - count,
    {
        message.extend_from_slice(o.salt.as_slice());
        message.extend_from_slice(password.as_slice());
        wire::push_u64(&mut message, count);
        count = count + 1;
    }
    sha256(message.as_slice())
}

/// Whether a coder has what it needs: AES does not run without its settings.
pub open spec fn supported(c: EncoderConfiguration) -> bool {
    c.method is AES256_SHA256 ==> c.options matches Some(EncoderOptions::Aes(_))
}

/// Whether every coder has what it needs.
pub open spec fn all_supported(methods: Seq<EncoderConfiguration>) -> bool {
    forall|i: int| 0 <= i < methods.len() ==> supported(#[trigger] methods[i])
}

/// Whether a coder has what it needs.
pub fn is_supported(c: &EncoderConfiguration) -> (r: bool)
    ensures
        r == supported(*c),
{
    match (c.method, &c.options) {
        (EncoderMethod::AES256_SHA256, Some(EncoderOptions::Aes(_))) => true,
        (EncoderMethod::AES256_SHA256, _) => false,
        _ => true,
    }
}

/// Whether a coder is handed more than it takes.
pub open spec fn too_long(c: EncoderConfiguration, data: Seq<u8>) -> bool {
    match c.method {
        EncoderMethod::LZMA => data.len() > MAX_LZMA_LEN,
        EncoderMethod::LZMA2 => data.len() > lzma2_limit(c.lzma_settings().level),
        _ => false,
    }
}

/// What a coder makes of data, if it can: it has what it needs, and takes that much.
pub open spec fn encoded(c: EncoderConfiguration, data: Seq<u8>) -> Option<Seq<u8>> {
    let s = c.lzma_settings();
    if !supported(c) || too_long(c, data) {
        None
    } else {
        Some(
            match c.method {
                EncoderMethod::COPY => data,
                EncoderMethod::LZMA => lzma_compressed(
                    data,
                    s.level,
                    s.lc,
                    s.lp,
                    s.pb,
                    s.dict_size,
                ),
                EncoderMethod::LZMA2 => lzma2_compressed(
                    data,
                    s.level,
                    s.lc,
                    s.lp,
                    s.pb,
                    s.dict_size,
                ),
                EncoderMethod::AES256_SHA256 => {
                    let o = c.options->0->Aes_0;
                    aes256_cbc(aes_key(o), o.iv@, data)
                },
            },
        )
    }
}

/// Why data could not be encoded.
#[derive(Debug)]
pub enum EncodeError {
    /// AES has no password.
    NoPassword,
    /// The stream is longer than its coder takes.
    TooLong,
    /// The coder failed.
    Failed(std::io::Error),
}

/// Runs data through one coder. It succeeds wherever the coder has what it needs and takes that much.
pub fn encode(c: &EncoderConfiguration, data: Vec<u8>) -> (r: Result<Vec<u8>, EncodeError>)
    ensures
        r is Ok <==> supported(*c) && !too_long(*c, data@),
        r matches Ok(v) ==> encoded(*c, data@) == Some(v@),
        r matches Err(e) ==> (e is NoPassword <==> !supported(*c)) && (e is TooLong <==> too_long(
            *c,
            data@,
        )),
{
    let (level, lc, lp, pb, dict_size) = c.lzma_options().parts();
    match c.method {
        EncoderMethod::COPY => Ok(data),
        EncoderMethod::LZMA => {
            if data.len() as u64 > MAX_LZMA_LEN {
                return Err(EncodeError::TooLong);
            }
            match lzma_encode(data.as_slice(), level, lc, lp, pb, dict_size) {
                Ok(v) => Ok(v),
                Err(e) => Err(EncodeError::Failed(e)),
            }
        },
        EncoderMethod::LZMA2 => {
            if data.len() as u64 > max_lzma2_len(level) {
                return Err(EncodeError::TooLong);
            }
            match lzma2_encode(data.as_slice(), level, lc, lp, pb, dict_size) {
                Ok(v) => Ok(v),
                Err(e) => Err(EncodeError::Failed(e)),
            }
        },
        EncoderMethod::AES256_SHA256 => match &c.options {
            Some(EncoderOptions::Aes(o)) => {
                let key = derive_key(o);
                Ok(aes256_cbc_encrypt(&key, &o.iv, data.as_slice()))
            },
            _ => Err(EncodeError::NoPassword),
        },
    }
}

/// What a stream is at each stage: packed, then what each coder was given in the order of the
/// coders, so plain at the end. The last coder takes the plain data, and each one before takes what
/// the one behind it made.
pub open spec fn stages(methods: Seq<EncoderConfiguration>, plain: Seq<u8>) -> Option<Seq<Seq<u8>>>
    decreases methods.len(),
{
    if methods.len() == 0 {
        Some(seq![plain])
    } else {
        match stages(methods.skip(1), plain) {
            None => None,
            Some(st) => match encoded(methods[0], st[0]) {
                None => None,
                Some(packed) => Some(seq![packed] + st),
            },
        }
    }
}

/// The coder that fails on the way, and what it was given.
pub open spec fn failing(methods: Seq<EncoderConfiguration>, plain: Seq<u8>) -> Option<
    (EncoderConfiguration, Seq<u8>),
>
    decreases methods.len(),
{
    if methods.len() == 0 {
        None
    } else {
        match stages(methods.skip(1), plain) {
            None => failing(methods.skip(1), plain),
            Some(st) => if encoded(methods[0], st[0]) is None {
                Some((methods[0], st[0]))
            } else {
                None
            },
        }
    }
}

/// Whether the coder that fails on the way is handed more than it takes.
pub open spec fn stage_too_long(methods: Seq<EncoderConfiguration>, plain: Seq<u8>) -> bool {
    failing(methods, plain) matches Some((c, data)) && too_long(c, data)
}

/// Whether the coder that fails on the way has not what it needs.
pub open spec fn stage_unsupported(methods: Seq<EncoderConfiguration>, plain: Seq<u8>) -> bool {
    failing(methods, plain) matches Some((c, _)) && !supported(c)
}

/// Nothing stops the coders but one that has not what it needs, or is handed more than it takes; so
/// where every coder has what it needs, only a stream that is too long.
pub proof fn law_only_length_stops_the_coders(methods: Seq<EncoderConfiguration>, plain: Seq<u8>)
    ensures
        stages(methods, plain) is None <==> stage_unsupported(methods, plain) || stage_too_long(
            methods,
            plain,
        ),
        all_supported(methods) ==> !stage_unsupported(methods, plain),
    decreases methods.len(),
{
    if methods.len() > 0 {
        let rest = methods.skip(1);
        law_only_length_stops_the_coders(rest, plain);
        if all_supported(methods) {
            assert(supported(methods[0]));
            assert forall|i: int| 0 <= i < rest.len() implies supported(#[trigger] rest[i]) by {
                assert(rest[i] == methods[i + 1]);
            }
        }
    }
}

/// How many bytes each coder was given, in the order of the coders; with no coder at all, how many
/// there are.
pub open spec fn unpack_sizes(st: Seq<Seq<u8>>) -> Seq<u64> {
    if st.len() == 1 {
        seq![st[0].len() as u64]
    } else {
        Seq::new((st.len() - 1) as nat, |i: int| st[i + 1].len() as u64)
    }
}

/// A stream behind its coders.
#[derive(Debug)]
pub struct Encoded {
    /// The bytes that go into the archive.
    pub packed: Vec<u8>,
    /// How many bytes each coder was given, in the order of the coders: the last one is how many
    /// there were to begin with.
    pub sizes: Vec<u64>,
}

/// A stream behind its coders: the packed bytes, and how many bytes each coder was given.
pub ghost struct EncodedModel {
    pub packed: Seq<u8>,
    pub sizes: Seq<u64>,
}

impl View for Encoded {
    type V = EncodedModel;

    open spec fn view(&self) -> EncodedModel {
        EncodedModel { packed: self.packed@, sizes: self.sizes@ }
    }
}

/// What the coders make of plain data, where none of them fails.
pub open spec fn encoded_by(methods: Seq<EncoderConfiguration>, plain: Seq<u8>) -> EncodedModel {
    let st = stages(methods, plain)->0;
    EncodedModel { packed: st[0], sizes: unpack_sizes(st) }
}

/// There is one stage more than there are coders.
pub proof fn lemma_stages(methods: Seq<EncoderConfiguration>, plain: Seq<u8>)
    ensures
        stages(methods, plain) matches Some(st) ==> st.len() == methods.len() + 1 && st.last()
            == plain,
    decreases methods.len(),
{
    if methods.len() > 0 {
        lemma_stages(methods.skip(1), plain);
    }
}

/// Each coder makes the stage before it out of the stage behind it, and the sizes that are kept are
/// those of the stages that the coders were given, so the last of them is the plain size.
pub proof fn law_each_coder_takes_the_stage_behind_it(
    methods: Seq<EncoderConfiguration>,
    plain: Seq<u8>,
)
    requires
        stages(methods, plain) is Some,
    ensures
        ({
            let st = stages(methods, plain)->0;
            let e = encoded_by(methods, plain);
            &&& st.len() == methods.len() + 1
            &&& st.last() == plain
            &&& e.packed == st[0]
            &&& forall|i: int|
                0 <= i < methods.len() ==> encoded(methods[i], st[i + 1]) == Some(
                    #[trigger] st[i],
                )
            &&& forall|i: int|
                0 <= i < methods.len() ==> #[trigger] e.sizes[i] == st[i + 1].len() as u64
            &&& e.sizes.last() == plain.len() as u64
            &&& e.sizes.len() == if methods.len() == 0 {
                1
            } else {
                methods.len()
            }
        }),
    decreases methods.len(),
{
    lemma_stages(methods, plain);
    if methods.len() > 0 {
        let rest = methods.skip(1);
        law_each_coder_takes_the_stage_behind_it(rest, plain);
        let st = stages(methods, plain)->0;
        let behind = stages(rest, plain)->0;
        assert forall|i: int| 0 <= i < methods.len() implies encoded(methods[i], st[i + 1]) == Some(
            #[trigger] st[i],
        ) by {
            if i > 0 {
                assert(methods[i] == rest[i - 1]);
                assert(encoded(rest[i - 1], behind[i - 1 + 1]) == Some(behind[i - 1]));
            }
        }
    }
}

/// Why the suffix of a failing chain that failed is where the whole chain fails.
proof fn lemma_failure_goes_up(methods: Seq<EncoderConfiguration>, plain: Seq<u8>, i: int)
    requires
        0 <= i <= methods.len(),
        stages(methods.skip(i), plain) is None,
    ensures
        stages(methods, plain) is None,
        failing(methods, plain) == failing(methods.skip(i), plain),
    decreases i,
{
    if i > 0 {
        assert(methods.skip(i - 1).skip(1) =~= methods.skip(i));
        lemma_failure_goes_up(methods, plain, i - 1);
    } else {
        assert(methods.skip(0) =~= methods);
    }
}

/// Runs plain data through a chain of coders, from the last one to the first.
pub fn encode_chain(methods: &Vec<EncoderConfiguration>, plain: Vec<u8>) -> (r: Result<
    Encoded,
    EncodeError,
>)
    ensures
        r is Ok <==> stages(methods@, plain@) is Some,
        r matches Ok(e) ==> e@ == encoded_by(methods@, plain@),
        r matches Err(e) ==> (e is NoPassword <==> stage_unsupported(methods@, plain@)) && (
        e is TooLong <==> stage_too_long(methods@, plain@)),
{
    let ghost all = methods@;
    let ghost start = plain@;
    let mut packed = plain;
    let mut sizes: Vec<u64> = Vec::new();
    let mut left: usize = methods.len();
    assert(all.skip(left as int) =~= Seq::empty());
    while left > 0
        invariant
            left <= all.len(),
            all == methods@,
            start == plain@,
            stages(all.skip(left as int), start) matches Some(st) && st.len() == all.len() - left
                + 1 && packed@ == st[0] && sizes@ == Seq::new(
                (st.len() - 1) as nat,
                |i: int| st[i + 1].len() as u64,
            ),
        decreases left,
    {
        let ghost st = stages(all.skip(left as int), start)->0;
        let ghost before = sizes@;
        sizes.insert(0, packed.len() as u64);
        left = left - 1;
        proof {
            assert(all.skip(left as int).skip(1) =~= all.skip(left + 1));
            assert(all.skip(left as int)[0] == all[left as int]);
        }
        match encode(&methods[left], packed) {
            Ok(v) => {
                packed = v;
            },
            Err(e) => {
                proof {
                    lemma_failure_goes_up(all, start, left as int);
                }
                return Err(e);
            },
        }
        proof {
            let grown = stages(all.skip(left as int), start)->0;
            assert(grown =~= seq![packed@] + st);
            assert forall|i: int| 0 <= i < sizes@.len() implies sizes@[i] == grown[i
                + 1].len() as u64 by {
                if i > 0 {
                    assert(sizes@[i] == before[i - 1]);
                }
            }
            assert(sizes@ =~= Seq::new(
                (grown.len() - 1) as nat,
                |i: int| grown[i + 1].len() as u64,
            ));
        }
    }
    assert(all.skip(0) =~= all);
    if methods.len() == 0 {
        sizes.push(packed.len() as u64);
    }
    assert(sizes@ =~= unpack_sizes(stages(all, start)->0));
    Ok(Encoded { packed, sizes })
}

} // verus!
