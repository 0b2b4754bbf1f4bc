//! Blocks compressed away from any writer.

use crate::archive::ArchiveEntry;
use crate::checksum;
use crate::codec::bcj2;
use crate::codec::bcj2::{Bcj2Encoder, Bcj2Streams};
use crate::encoder;
use crate::encoder::{EncodeError, Encoded, EncodedModel};
use crate::encoder_options;
use crate::encoder_options::{
    AesEncoderOptions, EncoderConfiguration, EncoderMethod, EncoderOptions, Password,
};
use crate::error::Error;
use crate::text;
use crate::writer::header;
use crate::writer::source_reader;
use crate::writer::source_reader::{Gathered, SourceReader};
use crate::writer::streams_reader;
use crate::writer::unpack_info;
use crate::writer::unpack_info::{BlockModel, CoderModel, Folder, FolderModel, GraphCoder};
use std::sync::Arc;
use vstd::prelude::*;

verus! {

/// A compressed block: its packed streams with their checksums, its members, its coders, what these
/// unpack to, the checksum of the data, and how it is cut into members.
pub ghost struct PreparedModel {
    pub packed: Seq<(Seq<u8>, u32)>,
    pub entries: Seq<ArchiveEntry>,
    pub folder: FolderModel,
    pub sizes: Seq<u64>,
    pub crc: u32,
    pub file_sizes: Seq<u64>,
    pub file_crcs: Seq<u32>,
}

/// A solid block compressed away from any writer, ready to be appended.
///
/// It holds the entire compressed block in memory until it is pushed.
#[derive(Debug)]
pub struct PreparedBlock {
    /// The packed streams with their checksums: one for a chain of coders, four for BCJ2.
    packed: Vec<(Vec<u8>, u32)>,
    /// The members.
    entries: Vec<ArchiveEntry>,
    /// The coders.
    folder: Folder,
    /// How many bytes each coder unpacks to.
    sizes: Vec<u64>,
    /// The checksum of the data.
    crc: u32,
    /// How long each member is.
    sub_stream_sizes: Vec<u64>,
    /// The checksum of each member.
    sub_stream_crcs: Vec<u32>,
}

/// Packed streams with their checksums.
pub open spec fn packed_view(packed: Seq<(Vec<u8>, u32)>) -> Seq<(Seq<u8>, u32)> {
    packed.map_values(|p: (Vec<u8>, u32)| (p.0@, p.1))
}

impl View for PreparedBlock {
    type V = PreparedModel;

    closed spec fn view(&self) -> PreparedModel {
        PreparedModel {
            packed: packed_view(self.packed@),
            entries: self.entries@,
            folder: self.folder@,
            sizes: self.sizes@,
            crc: self.crc,
            file_sizes: self.sub_stream_sizes@,
            file_crcs: self.sub_stream_crcs@,
        }
    }
}

/// The block that a compressed block becomes.
pub open spec fn block_of(b: PreparedModel) -> BlockModel {
    BlockModel {
        folder: b.folder,
        sizes: b.sizes,
        crc: b.crc,
        num_files: b.entries.len() as u64,
        file_sizes: b.file_sizes,
        file_crcs: b.file_crcs,
    }
}

/// Whether a compressed block can be appended: it is described in full, its packed streams are as
/// many as its coders take, and their checksums are right.
pub open spec fn prepared_ok(b: PreparedModel) -> bool {
    &&& streams_reader::block_ok(block_of(b))
    &&& b.packed.len() == b.folder.packed.len()
    &&& b.entries.len() <= u64::MAX
    &&& forall|i: int|
        0 <= i < b.packed.len() ==> (#[trigger] b.packed[i]).1 == checksum::crc32(b.packed[i].0)
}

/// The bytes of packed streams.
pub open spec fn stream_bytes(packed: Seq<(Seq<u8>, u32)>) -> Seq<Seq<u8>> {
    packed.map_values(|p: (Seq<u8>, u32)| p.0)
}

/// How many bytes packed streams have together.
pub open spec fn packed_len(packed: Seq<(Seq<u8>, u32)>) -> nat
    decreases packed.len(),
{
    if packed.len() == 0 {
        0
    } else {
        packed_len(packed.drop_last()) + packed.last().0.len()
    }
}

/// Some of the packed streams are no longer than all of them.
pub proof fn lemma_packed_len(packed: Seq<(Seq<u8>, u32)>, n: int)
    requires
        0 <= n <= packed.len(),
    ensures
        packed_len(packed.take(n)) <= packed_len(packed),
    decreases packed.len(),
{
    if n == packed.len() {
        assert(packed.take(n) =~= packed);
    } else {
        lemma_packed_len(packed.drop_last(), n);
        assert(packed.drop_last().take(n) =~= packed.take(n));
    }
}

/// One packed stream is as long as it is.
pub proof fn lemma_single_len(packed: Seq<(Seq<u8>, u32)>)
    requires
        packed.len() == 1,
    ensures
        packed_len(packed) == packed[0].0.len(),
{
    reveal_with_fuel(packed_len, 2);
    assert(packed.drop_last() =~= Seq::empty());
}

impl PreparedBlock {
    #[verifier::type_invariant]
    spec fn inv(&self) -> bool {
        packed_len(packed_view(self.packed@)) <= usize::MAX
    }

    /// A block of these packed streams with their checksums, these members, coders and sizes that
    /// they unpack to, with the checksum of the data, and the lengths and checksums of the members.
    pub(crate) fn from_parts(
        packed: Vec<(Vec<u8>, u32)>,
        entries: Vec<ArchiveEntry>,
        folder: Folder,
        sizes: Vec<u64>,
        crc: u32,
        sub_stream_sizes: Vec<u64>,
        sub_stream_crcs: Vec<u32>,
    ) -> (r: Self)
        requires
            packed_len(packed_view(packed@)) <= usize::MAX,
        ensures
            r@ == (PreparedModel {
                packed: packed_view(packed@),
                entries: entries@,
                folder: folder@,
                sizes: sizes@,
                crc,
                file_sizes: sub_stream_sizes@,
                file_crcs: sub_stream_crcs@,
            }),
    {
        PreparedBlock { packed, entries, folder, sizes, crc, sub_stream_sizes, sub_stream_crcs }
    }

    /// The packed streams with their checksums, the members, the coders, the sizes that they unpack
    /// to, the checksum of the data, and the lengths and checksums of the members.
    pub fn into_parts(self) -> (r: (
        Vec<(Vec<u8>, u32)>,
        Vec<ArchiveEntry>,
        Folder,
        Vec<u64>,
        u32,
        Vec<u64>,
        Vec<u32>,
    ))
        ensures
            self@ == (PreparedModel {
                packed: packed_view(r.0@),
                entries: r.1@,
                folder: r.2@,
                sizes: r.3@,
                crc: r.4,
                file_sizes: r.5@,
                file_crcs: r.6@,
            }),
    {
        (
            self.packed,
            self.entries,
            self.folder,
            self.sizes,
            self.crc,
            self.sub_stream_sizes,
            self.sub_stream_crcs,
        )
    }

    /// Compressed size in bytes, before it is appended.
    pub fn compressed_len(&self) -> (r: usize)
        ensures
            r == packed_len(self@.packed),
    {
        proof {
            use_type_invariant(self);
        }
        let ghost all = self@.packed;
        let mut total: usize = 0;
        let mut i: usize = 0;
        while i < self.packed.len()
            invariant
                i <= self.packed@.len(),
                all == self@.packed,
                packed_len(all) <= usize::MAX,
                total == packed_len(all.take(i as int)),
            decreases self.packed@.len() - i,
        {
            proof {
                lemma_packed_len(all, i + 1);
                assert(all.take(i + 1).drop_last() =~= all.take(i as int));
                assert(all.take(i + 1).last().0 == self.packed@[i as int].0@);
            }
            total = total + self.packed[i].0.len();
            i = i + 1;
        }
        assert(all.take(all.len() as int) =~= all);
        total
    }

    /// Number of members in the block.
    pub fn len(&self) -> (r: usize)
        ensures
            r == self@.entries.len(),
    {
        self.entries.len()
    }

    /// Whether the block holds no members.
    pub fn is_empty(&self) -> (r: bool)
        ensures
            r == (self@.entries.len() == 0),
    {
        self.entries.len() == 0
    }
}

/// The members, with how long each is and its checksum.
pub open spec fn described(
    entries: Seq<ArchiveEntry>,
    sizes: Seq<u64>,
    crcs: Seq<u32>,
) -> Seq<ArchiveEntry> {
    Seq::new(
        entries.len(),
        |i: int|
            ArchiveEntry { crc: crcs[i] as u64, size: sizes[i], has_crc: true, ..entries[i] },
    )
}

fn describe(entries: Vec<ArchiveEntry>, sizes: &Vec<u64>, crcs: &Vec<u32>) -> (r: Vec<ArchiveEntry>)
    requires
        entries@.len() == sizes@.len(),
        entries@.len() == crcs@.len(),
    ensures
        r@ == described(entries@, sizes@, crcs@),
{
    let ghost all = entries@;
    let mut entries = entries;
    let mut i: usize = 0;
    while i < entries.len()
        invariant
            i <= entries@.len(),
            entries@.len() == all.len(),
            all.len() == sizes@.len(),
            all.len() == crcs@.len(),
            forall|j: int|
                0 <= j < i ==> #[trigger] entries@[j] == described(all, sizes@, crcs@)[j],
            forall|j: int| i <= j < all.len() ==> #[trigger] entries@[j] == all[j],
        decreases entries@.len() - i,
    {
        entries[i].crc = crcs[i] as u64;
        entries[i].size = sizes[i];
        entries[i].has_crc = true;
        i = i + 1;
    }
    assert(entries@ =~= described(all, sizes@, crcs@));
    entries
}

/// What is said where a coder has no password.
pub open spec fn is_no_password(e: Error) -> bool {
    e is Unsupported && e.text() == "AES256_SHA256 needs a password"@
}

/// Whether an error says which members were being read, and is that of the first source that
/// failed.
pub open spec fn is_source_error(
    e: Error,
    message: Seq<char>,
    readers: Seq<SourceReader>,
) -> bool {
    &&& e matches Error::Io { error, .. }
    &&& e.text() == message
    &&& exists|i: int|
        source_reader::first_failure(readers, i) && (#[trigger] readers[i]).failure == Some(error)
}

/// Whether an error says that a stream was longer than its coder takes, or else that the coder
/// failed while doing what the message says.
pub open spec fn is_coding_error(e: Error, message: Seq<char>, too_long: bool) -> bool {
    if too_long {
        e is Unsupported && e.text() == "the stream is longer than its coder takes"@
    } else {
        e is Io && e.text() == message
    }
}

/// The error for a coder that has no password.
pub fn no_password() -> (r: Error)
    ensures
        is_no_password(r),
{
    Error::unsupported("AES256_SHA256 needs a password".to_string())
}

/// The error for a coder that failed while doing what the message says.
pub fn coding_error(e: EncodeError, message: String) -> (r: Error)
    ensures
        e is NoPassword ==> is_no_password(r),
        e !is NoPassword ==> is_coding_error(r, message@, e is TooLong),
{
    match e {
        EncodeError::NoPassword => no_password(),
        EncodeError::TooLong => Error::unsupported(
            "the stream is longer than its coder takes".to_string(),
        ),
        EncodeError::Failed(error) => Error::io_msg(error, message),
    }
}

/// Whether every coder has what it needs.
pub fn check_methods(methods: &Vec<EncoderConfiguration>) -> (r: bool)
    ensures
        r == encoder::all_supported(methods@),
{
    let mut i: usize = 0;
    while i < methods.len()
        invariant
            i <= methods@.len(),
            forall|j: int| 0 <= j < i ==> encoder::supported(#[trigger] methods@[j]),
        decreases methods@.len() - i,
    {
        if !encoder::is_supported(&methods[i]) {
            assert(!encoder::supported(methods@[i as int]));
            return false;
        }
        i = i + 1;
    }
    true
}

/// A block of members behind a chain of coders: the packed stream, what the coders unpack to, the
/// checksum of the data, and the members with how long each is and its checksum.
pub open spec fn solid_model(
    methods: Seq<EncoderConfiguration>,
    entries: Seq<ArchiveEntry>,
    file_sizes: Seq<u64>,
    file_crcs: Seq<u32>,
    crc: u32,
    packed: Seq<u8>,
    sizes: Seq<u64>,
) -> PreparedModel {
    PreparedModel {
        packed: seq![(packed, checksum::crc32(packed))],
        entries: described(entries, file_sizes, file_crcs),
        folder: unpack_info::chain_folder(methods),
        sizes,
        crc,
        file_sizes,
        file_crcs,
    }
}

/// Puts a block together from what its coders made of the data, and how that is cut into members.
pub fn solid_block(
    methods: Arc<Vec<EncoderConfiguration>>,
    entries: Vec<ArchiveEntry>,
    file_sizes: Vec<u64>,
    file_crcs: Vec<u32>,
    crc: u32,
    encoded: Encoded,
) -> (r: PreparedBlock)
    requires
        entries@.len() == file_sizes@.len(),
        entries@.len() == file_crcs@.len(),
    ensures
        r@ == solid_model(
            methods@,
            entries@,
            file_sizes@,
            file_crcs@,
            crc,
            encoded.packed@,
            encoded.sizes@,
        ),
{
    let packed_crc: u32 = checksum::hash(encoded.packed.as_slice());
    let entries = describe(entries, &file_sizes, &file_crcs);
    assert(encoded.packed@.len() == encoded.packed.len());
    let packed = vec![(encoded.packed, packed_crc)];
    proof {
        lemma_single_len(packed_view(packed@));
    }
    let r = PreparedBlock {
        packed,
        entries,
        folder: Folder::Chain(methods),
        sizes: encoded.sizes,
        crc,
        sub_stream_sizes: file_sizes,
        sub_stream_crcs: file_crcs,
    };
    assert(r@.packed =~= seq![(encoded.packed@, checksum::crc32(encoded.packed@))]);
    r
}

/// The block that a chain of coders makes of members and their sources, where no coder fails.
pub open spec fn solid_of(
    methods: Seq<EncoderConfiguration>,
    entries: Seq<ArchiveEntry>,
    readers: Seq<SourceReader>,
) -> PreparedModel {
    let plain = source_reader::all_content(readers);
    let e = encoder::encoded_by(methods, plain);
    solid_model(
        methods,
        entries,
        source_reader::lengths(readers),
        source_reader::crcs(readers),
        checksum::crc32(plain),
        e.packed,
        e.sizes,
    )
}

/// What sources hold is as long as they are together.
proof fn lemma_lengths(readers: Seq<SourceReader>)
    requires
        source_reader::all_content(readers).len() <= u64::MAX,
    ensures
        streams_reader::total(source_reader::lengths(readers)) == source_reader::all_content(
            readers,
        ).len(),
    decreases readers.len(),
{
    if readers.len() > 0 {
        lemma_lengths(readers.drop_last());
        assert(source_reader::lengths(readers).drop_last() =~= source_reader::lengths(
            readers.drop_last(),
        ));
    }
}

/// A block behind a chain of coders can be appended.
pub proof fn law_solid_block_is_complete(
    methods: Seq<EncoderConfiguration>,
    entries: Seq<ArchiveEntry>,
    readers: Seq<SourceReader>,
)
    requires
        1 <= methods.len() <= u64::MAX,
        entries.len() == readers.len(),
        entries.len() <= u64::MAX,
        source_reader::all_content(readers).len() <= u64::MAX,
        encoder::stages(methods, source_reader::all_content(readers)) is Some,
    ensures
        prepared_ok(solid_of(methods, entries, readers)),
{
    let plain = source_reader::all_content(readers);
    header::law_chain_is_wired(methods);
    encoder::law_each_coder_takes_the_stage_behind_it(methods, plain);
    lemma_lengths(readers);
}

/// Compresses members into one block, once the request is known to make sense. The messages say
/// what was being done.
pub(crate) fn compress_solid(
    methods: Arc<Vec<EncoderConfiguration>>,
    entries: Vec<ArchiveEntry>,
    reader: Vec<SourceReader>,
    reading: &str,
    encoding: &str,
) -> (r: Result<PreparedBlock, Error>)
    requires
        methods@.len() > 0,
        entries@.len() == reader@.len(),
    ensures
        r matches Ok(b) ==> prepared_ok(b@),
        ({
            let plain = source_reader::all_content(reader@);
            let names = source_reader::names_text(entries@);
            if !encoder::all_supported(methods@) {
                r matches Err(e) && is_no_password(e)
            } else if !source_reader::none_failed(reader@) {
                r matches Err(e) && is_source_error(e, reading@ + names, reader@)
            } else if encoder::stages(methods@, plain) is None {
                r matches Err(e) && is_coding_error(
                    e,
                    encoding@ + names,
                    encoder::stage_too_long(methods@, plain),
                )
            } else {
                r matches Ok(b) && b@ == solid_of(methods@, entries@, reader@)
            }
        }),
{
    if !check_methods(&methods) {
        return Err(no_password());
    }
    let names = source_reader::entries_names(&entries);
    let ghost readers = reader@;
    let g = match source_reader::gather(reader) {
        Ok(g) => g,
        Err(e) => {
            return Err(Error::io_msg(e, text::joined(reading, names.as_str())));
        },
    };
    let crc: u32 = checksum::hash(g.plain.as_slice());
    assert(g.plain@.len() == g.plain.len());
    assert(entries@.len() == entries.len());
    assert(methods@.len() == methods.len());
    proof {
        encoder::law_only_length_stops_the_coders(methods@, g.plain@);
    }
    let encoded = match encoder::encode_chain(&methods, g.plain) {
        Ok(encoded) => encoded,
        Err(e) => {
            return Err(coding_error(e, text::joined(encoding, names.as_str())));
        },
    };
    proof {
        law_solid_block_is_complete(methods@, entries@, readers);
    }
    Ok(solid_block(methods, entries, g.sizes, g.crcs, crc, encoded))
}

/// What is said where there is not one source for each member.
pub open spec fn mismatch_text(name: Seq<char>, entries: nat, readers: nat) -> Seq<char> {
    name + ": "@ + text::decimal_digits(entries) + " entries against "@ + text::decimal_digits(
        readers,
    ) + " readers"@
}

fn mismatch(name: &str, entries: usize, readers: usize) -> (r: Error)
    ensures
        r is Other,
        r.text() == mismatch_text(name@, entries as nat, readers as nat),
{
    let mut message = text::joined(name, ": ");
    message.append(text::decimal(entries).as_str());
    message.append(" entries against ");
    message.append(text::decimal(readers).as_str());
    message.append(" readers");
    Error::other(message)
}

/// Compresses members into one solid block behind a chain of coders, without a writer. It is
/// appended later, which is what fixes the order.
///
/// Refused are an empty list of coders, and other than one source for each member.
pub fn prepare_block(
    methods: Arc<Vec<EncoderConfiguration>>,
    entries: Vec<ArchiveEntry>,
    reader: Vec<SourceReader>,
) -> (r: Result<PreparedBlock, Error>)
    ensures
        r matches Ok(b) ==> prepared_ok(b@),
        ({
            let plain = source_reader::all_content(reader@);
            let names = source_reader::names_text(entries@);
            if methods@.len() == 0 {
                r matches Err(e) && e is Other && e.text()
                    == "prepare_block: `methods` must not be empty"@
            } else if entries@.len() != reader@.len() {
                r matches Err(e) && e is Other && e.text() == mismatch_text(
                    "prepare_block"@,
                    entries@.len(),
                    reader@.len(),
                )
            } else if !encoder::all_supported(methods@) {
                r matches Err(e) && is_no_password(e)
            } else if !source_reader::none_failed(reader@) {
                r matches Err(e) && is_source_error(
                    e,
                    "prepare_block: read source:"@ + names,
                    reader@,
                )
            } else if encoder::stages(methods@, plain) is None {
                r matches Err(e) && is_coding_error(
                    e,
                    "prepare_block: encode:"@ + names,
                    encoder::stage_too_long(methods@, plain),
                )
            } else {
                r matches Ok(b) && b@ == solid_of(methods@, entries@, reader@)
            }
        }),
{
    if methods.len() == 0 {
        return Err(Error::other("prepare_block: `methods` must not be empty".to_string()));
    }
    if reader.len() != entries.len() {
        return Err(mismatch("prepare_block", entries.len(), reader.len()));
    }
    compress_solid(
        methods,
        entries,
        reader,
        "prepare_block: read source:",
        "prepare_block: encode:",
    )
}

/// How the four streams of a BCJ2 block are compressed: the coder for the main stream (what the
/// files mostly are), the coder for the call and jump streams (32-bit addresses, which 7-Zip gives
/// LZMA with `lc0 lp2` and a 1 MiB dictionary), and AES around every stream when a password is
/// given.
#[derive(Debug)]
pub struct Bcj2Methods {
    /// The coder for the main stream: the code with its branch operands taken out.
    pub main: EncoderConfiguration,
    /// The coder for the call and jump streams: big-endian 32-bit addresses.
    pub addresses: EncoderConfiguration,
    /// AES-256 around every stream, when set.
    pub password: Option<Password>,
}

impl Clone for Bcj2Methods {
    fn clone(&self) -> (r: Self)
        ensures
            r == *self,
    {
        let password = match &self.password {
            None => None,
            Some(p) => Some(p.clone()),
        };
        Bcj2Methods { main: self.main.clone(), addresses: self.addresses.clone(), password }
    }
}

/// The settings of AES for each of the four streams of a BCJ2 block.
#[derive(Debug)]
pub struct Bcj2Aes {
    /// For the main stream.
    pub main: EncoderConfiguration,
    /// For the call stream.
    pub call: EncoderConfiguration,
    /// For the jump stream.
    pub jump: EncoderConfiguration,
    /// For the decisions.
    pub decisions: EncoderConfiguration,
}

/// A coder as it stands in a graph: one input.
fn coder_of(configuration: &EncoderConfiguration) -> (r: GraphCoder)
    ensures
        r@ == unpack_info::chain_coder(*configuration),
{
    GraphCoder {
        id: configuration.method.id(),
        properties: encoder_options::get_options_as_properties(configuration),
        num_in_streams: 1,
    }
}

/// The BCJ2 filter as it stands in a graph: it takes the main, call and jump streams and the
/// decisions.
pub open spec fn bcj2_coder() -> CoderModel {
    CoderModel { id: encoder_options::bcj2_id_bytes(), properties: Seq::empty(), num_in: 4 }
}

/// The coders of a BCJ2 block and their wiring, as 7-Zip lays them out: the coders of the jump, call
/// and main streams, then BCJ2; and before them one for AES for each stream where there is a
/// password. The packed streams come in the order main, decisions, call, jump.
pub open spec fn bcj2_folder(methods: Bcj2Methods, aes: Option<Bcj2Aes>) -> FolderModel {
    let main = unpack_info::chain_coder(methods.main);
    let addresses = unpack_info::chain_coder(methods.addresses);
    match aes {
        Some(aes) => FolderModel {
            coders: seq![
                unpack_info::chain_coder(aes.jump),
                unpack_info::chain_coder(aes.call),
                unpack_info::chain_coder(aes.decisions),
                unpack_info::chain_coder(aes.main),
                addresses,
                addresses,
                main,
                bcj2_coder(),
            ],
            bonds: seq![
                (4u64, 0u64),
                (5u64, 1u64),
                (10u64, 2u64),
                (6u64, 3u64),
                (9u64, 4u64),
                (8u64, 5u64),
                (7u64, 6u64),
            ],
            packed: seq![3u64, 2u64, 1u64, 0u64],
        },
        None => FolderModel {
            coders: seq![addresses, addresses, main, bcj2_coder()],
            bonds: seq![(5u64, 0u64), (4u64, 1u64), (3u64, 2u64)],
            packed: seq![2u64, 6u64, 1u64, 0u64],
        },
    }
}

/// The four streams of a BCJ2 block behind their coders.
#[derive(Debug)]
pub struct Bcj2Encoded {
    /// The main stream.
    pub main: Encoded,
    /// The call stream.
    pub call: Encoded,
    /// The jump stream.
    pub jump: Encoded,
    /// The decisions.
    pub decisions: Encoded,
}

/// The four streams of a BCJ2 block behind their coders.
pub ghost struct Bcj2EncodedModel {
    pub main: EncodedModel,
    pub call: EncodedModel,
    pub jump: EncodedModel,
    pub decisions: EncodedModel,
}

impl View for Bcj2Encoded {
    type V = Bcj2EncodedModel;

    open spec fn view(&self) -> Bcj2EncodedModel {
        Bcj2EncodedModel {
            main: self.main@,
            call: self.call@,
            jump: self.jump@,
            decisions: self.decisions@,
        }
    }
}

/// What the coders of a BCJ2 block unpack to: AES to the packed bytes it hides, the compressors to
/// their streams, BCJ2 to the whole.
pub open spec fn bcj2_sizes(e: Bcj2EncodedModel, encrypted: bool, size: u64) -> Seq<u64> {
    if encrypted {
        seq![
            e.jump.sizes[0],
            e.call.sizes[0],
            e.decisions.sizes[0],
            e.main.sizes[0],
            e.jump.sizes.last(),
            e.call.sizes.last(),
            e.main.sizes.last(),
            size,
        ]
    } else {
        seq![e.jump.sizes.last(), e.call.sizes.last(), e.main.sizes.last(), size]
    }
}

/// A packed stream with its checksum.
pub open spec fn with_crc(packed: Seq<u8>) -> (Seq<u8>, u32) {
    (packed, checksum::crc32(packed))
}

/// A block of members behind BCJ2: the four packed streams, what the coders unpack to, the checksum
/// of the data, and the members with how long each is and its checksum.
pub open spec fn bcj2_model(
    methods: Bcj2Methods,
    aes: Option<Bcj2Aes>,
    entries: Seq<ArchiveEntry>,
    file_sizes: Seq<u64>,
    file_crcs: Seq<u32>,
    size: u64,
    crc: u32,
    e: Bcj2EncodedModel,
) -> PreparedModel {
    PreparedModel {
        packed: seq![
            with_crc(e.main.packed),
            with_crc(e.decisions.packed),
            with_crc(e.call.packed),
            with_crc(e.jump.packed),
        ],
        entries: described(entries, file_sizes, file_crcs),
        folder: bcj2_folder(methods, aes),
        sizes: bcj2_sizes(e, aes is Some, size),
        crc,
        file_sizes,
        file_crcs,
    }
}

/// What is said where the packed streams of a block are more than memory has addresses for.
pub open spec fn is_block_too_large(e: Error) -> bool {
    e is Other && e.text() == "prepare_bcj2_block: the block would be too large"@
}

/// Whether four lengths together are a length.
fn fit_together(a: usize, b: usize, c: usize, d: usize) -> (r: bool)
    ensures
        r == (a + b + c + d <= usize::MAX),
{
    b <= usize::MAX - a && c <= usize::MAX - a - b && d <= usize::MAX - a - b - c
}

/// Four packed streams are as long as they are together.
proof fn lemma_four_len(packed: Seq<(Seq<u8>, u32)>)
    requires
        packed.len() == 4,
    ensures
        packed_len(packed) == packed[0].0.len() + packed[1].0.len() + packed[2].0.len()
            + packed[3].0.len(),
{
    reveal_with_fuel(packed_len, 5);
    assert(packed.drop_last().drop_last().drop_last().drop_last() =~= Seq::empty());
}

/// Puts a BCJ2 block together from what the coders made of its four streams, and how the data is
/// cut into members.
pub fn bcj2_block(
    methods: &Bcj2Methods,
    aes: &Option<Bcj2Aes>,
    entries: Vec<ArchiveEntry>,
    file_sizes: Vec<u64>,
    file_crcs: Vec<u32>,
    size: u64,
    crc: u32,
    encoded: Bcj2Encoded,
) -> (r: Result<PreparedBlock, Error>)
    requires
        entries@.len() == file_sizes@.len(),
        entries@.len() == file_crcs@.len(),
        encoded.main.sizes@.len() > 0,
        encoded.call.sizes@.len() > 0,
        encoded.jump.sizes@.len() > 0,
        encoded.decisions.sizes@.len() > 0,
    ensures
        ({
            let model = bcj2_model(
                *methods,
                *aes,
                entries@,
                file_sizes@,
                file_crcs@,
                size,
                crc,
                encoded@,
            );
            if packed_len(model.packed) <= usize::MAX {
                r matches Ok(b) && b@ == model
            } else {
                r matches Err(e) && is_block_too_large(e)
            }
        }),
{
    let ghost e = encoded@;
    let ghost streams = seq![
        with_crc(e.main.packed),
        with_crc(e.decisions.packed),
        with_crc(e.call.packed),
        with_crc(e.jump.packed),
    ];
    let Bcj2Encoded { main, call, jump, decisions } = encoded;
    proof {
        lemma_four_len(streams);
    }
    if !fit_together(
        main.packed.len(),
        decisions.packed.len(),
        call.packed.len(),
        jump.packed.len(),
    ) {
        return Err(
            Error::other("prepare_bcj2_block: the block would be too large".to_string()),
        );
    }
    let jump_size: u64 = jump.sizes[jump.sizes.len() - 1];
    let call_size: u64 = call.sizes[call.sizes.len() - 1];
    let main_size: u64 = main.sizes[main.sizes.len() - 1];
    let bcj2 = GraphCoder {
        id: encoder_options::bcj2_id(),
        properties: Vec::new(),
        num_in_streams: 4,
    };
    let (coders, sizes, bind_pairs, packed_streams) = match aes {
        Some(aes) => (
            vec![
                coder_of(&aes.jump),
                coder_of(&aes.call),
                coder_of(&aes.decisions),
                coder_of(&aes.main),
                coder_of(&methods.addresses),
                coder_of(&methods.addresses),
                coder_of(&methods.main),
                bcj2,
            ],
            vec![
                jump.sizes[0],
                call.sizes[0],
                decisions.sizes[0],
                main.sizes[0],
                jump_size,
                call_size,
                main_size,
                size,
            ],
            vec![(4u64, 0u64), (5, 1), (10, 2), (6, 3), (9, 4), (8, 5), (7, 6)],
            vec![3u64, 2, 1, 0],
        ),
        None => (
            vec![
                coder_of(&methods.addresses),
                coder_of(&methods.addresses),
                coder_of(&methods.main),
                bcj2,
            ],
            vec![jump_size, call_size, main_size, size],
            vec![(5u64, 0u64), (4, 1), (3, 2)],
            vec![2u64, 6, 1, 0],
        ),
    };
    let main_crc: u32 = checksum::hash(main.packed.as_slice());
    let decisions_crc: u32 = checksum::hash(decisions.packed.as_slice());
    let call_crc: u32 = checksum::hash(call.packed.as_slice());
    let jump_crc: u32 = checksum::hash(jump.packed.as_slice());
    let entries = describe(entries, &file_sizes, &file_crcs);
    let packed = vec![
        (main.packed, main_crc),
        (decisions.packed, decisions_crc),
        (call.packed, call_crc),
        (jump.packed, jump_crc),
    ];
    assert(packed_view(packed@) =~= streams);
    let r = PreparedBlock {
        packed,
        entries,
        folder: Folder::Graph { coders, bind_pairs, packed_streams },
        sizes,
        crc,
        sub_stream_sizes: file_sizes,
        sub_stream_crcs: file_crcs,
    };
    proof {
        let f = bcj2_folder(*methods, *aes);
        assert(r@.folder.coders =~= f.coders);
        assert(r@.folder.bonds =~= f.bonds);
        assert(r@.folder.packed =~= f.packed);
        assert(r@.sizes =~= bcj2_sizes(e, *aes is Some, size));
    }
    Ok(r)
}

/// The coders of one stream: AES where there is a password, then what else there is.
pub open spec fn stream_methods(
    aes: Option<EncoderConfiguration>,
    chain: Option<EncoderConfiguration>,
) -> Seq<EncoderConfiguration> {
    (match aes {
        Some(c) => seq![c],
        None => Seq::empty(),
    }) + (match chain {
        Some(c) => seq![c],
        None => Seq::empty(),
    })
}

/// Runs one stream through its coders.
fn compress(
    aes: Option<&EncoderConfiguration>,
    chain: Option<&EncoderConfiguration>,
    plain: Vec<u8>,
) -> (r: Result<Encoded, EncodeError>)
    requires
        aes matches Some(c) ==> encoder::supported(*c),
        chain matches Some(c) ==> encoder::supported(*c),
    ensures
        r matches Err(e) ==> e !is NoPassword,
        ({
            let methods = stream_methods(
                match aes {
                    Some(c) => Some(*c),
                    None => None,
                },
                match chain {
                    Some(c) => Some(*c),
                    None => None,
                },
            );
            &&& r is Ok <==> encoder::stages(methods, plain@) is Some
            &&& r matches Ok(e) ==> e@ == encoder::encoded_by(methods, plain@)
            &&& r matches Err(e) ==> (e is TooLong <==> encoder::stage_too_long(methods, plain@))
        }),
{
    let mut methods: Vec<EncoderConfiguration> = Vec::new();
    match aes {
        Some(c) => methods.push(c.clone()),
        None => {},
    }
    match chain {
        Some(c) => methods.push(c.clone()),
        None => {},
    }
    assert(methods@ =~= stream_methods(
        match aes {
            Some(c) => Some(*c),
            None => None,
        },
        match chain {
            Some(c) => Some(*c),
            None => None,
        },
    ));
    proof {
        encoder::law_only_length_stops_the_coders(methods@, plain@);
    }
    encoder::encode_chain(&methods, plain)
}

impl Bcj2Aes {
    /// Whether these are the settings of AES for every stream.
    pub open spec fn ok(&self) -> bool {
        &&& encoder::supported(self.main)
        &&& encoder::supported(self.call)
        &&& encoder::supported(self.jump)
        &&& encoder::supported(self.decisions)
    }
}

/// The coders of the main stream.
pub open spec fn main_methods(m: Bcj2Methods, aes: Option<Bcj2Aes>) -> Seq<EncoderConfiguration> {
    stream_methods(
        match aes {
            Some(a) => Some(a.main),
            None => None,
        },
        Some(m.main),
    )
}

/// The coders of the call stream.
pub open spec fn call_methods(m: Bcj2Methods, aes: Option<Bcj2Aes>) -> Seq<EncoderConfiguration> {
    stream_methods(
        match aes {
            Some(a) => Some(a.call),
            None => None,
        },
        Some(m.addresses),
    )
}

/// The coders of the jump stream.
pub open spec fn jump_methods(m: Bcj2Methods, aes: Option<Bcj2Aes>) -> Seq<EncoderConfiguration> {
    stream_methods(
        match aes {
            Some(a) => Some(a.jump),
            None => None,
        },
        Some(m.addresses),
    )
}

/// The coders of the decisions: they are packed already.
pub open spec fn decision_methods(aes: Option<Bcj2Aes>) -> Seq<EncoderConfiguration> {
    stream_methods(
        match aes {
            Some(a) => Some(a.decisions),
            None => None,
        },
        None,
    )
}

/// Whether no coder fails on the four streams of the data.
pub open spec fn bcj2_encodes(m: Bcj2Methods, aes: Option<Bcj2Aes>, plain: Seq<u8>) -> bool {
    let s = bcj2::split(plain);
    &&& encoder::stages(main_methods(m, aes), s.main) is Some
    &&& encoder::stages(call_methods(m, aes), s.call) is Some
    &&& encoder::stages(jump_methods(m, aes), s.jump) is Some
    &&& encoder::stages(decision_methods(aes), s.rc) is Some
}

/// Whether the first coder that fails is handed more than it takes.
pub open spec fn bcj2_too_long(m: Bcj2Methods, aes: Option<Bcj2Aes>, plain: Seq<u8>) -> bool {
    let s = bcj2::split(plain);
    if encoder::stages(main_methods(m, aes), s.main) is None {
        encoder::stage_too_long(main_methods(m, aes), s.main)
    } else if encoder::stages(call_methods(m, aes), s.call) is None {
        encoder::stage_too_long(call_methods(m, aes), s.call)
    } else if encoder::stages(jump_methods(m, aes), s.jump) is None {
        encoder::stage_too_long(jump_methods(m, aes), s.jump)
    } else {
        encoder::stage_too_long(decision_methods(aes), s.rc)
    }
}

/// The four streams of the data behind their coders.
pub open spec fn bcj2_encoded_by(
    m: Bcj2Methods,
    aes: Option<Bcj2Aes>,
    plain: Seq<u8>,
) -> Bcj2EncodedModel {
    let s = bcj2::split(plain);
    Bcj2EncodedModel {
        main: encoder::encoded_by(main_methods(m, aes), s.main),
        call: encoder::encoded_by(call_methods(m, aes), s.call),
        jump: encoder::encoded_by(jump_methods(m, aes), s.jump),
        decisions: encoder::encoded_by(decision_methods(aes), s.rc),
    }
}

/// Splits data into the main, call and jump streams and the decisions.
fn split_streams(plain: &Vec<u8>) -> (r: (Vec<u8>, Vec<u8>, Vec<u8>, Vec<u8>))
    ensures
        r.0@ == bcj2::split(plain@).main,
        r.1@ == bcj2::split(plain@).call,
        r.2@ == bcj2::split(plain@).jump,
        r.3@ == bcj2::split(plain@).rc,
{
    let mut main_plain: Vec<u8> = Vec::new();
    let mut call_plain: Vec<u8> = Vec::new();
    let mut jump_plain: Vec<u8> = Vec::new();
    let mut encoder = Bcj2Encoder::new();
    let mut streams = Bcj2Streams {
        main: &mut main_plain,
        call: &mut call_plain,
        jump: &mut jump_plain,
    };
    proof {
        let pieces = seq![plain@];
        bcj2::law_pieces_make_no_difference(pieces);
        assert(pieces.drop_last() =~= Seq::<Seq<u8>>::empty());
        reveal_with_fuel(bcj2::concatenated, 2);
        reveal_with_fuel(bcj2::fed, 2);
        assert(bcj2::concatenated(pieces) =~= plain@);
        assert(plain@.len() == plain.len());
    }
    let _ = encoder.write(plain.as_slice(), &mut streams);
    let rc = encoder.finish(&mut streams).unwrap();
    (main_plain, call_plain, jump_plain, rc)
}

/// Splits data, and runs each of its four streams through its coders.
fn encode_bcj2(methods: &Bcj2Methods, aes: &Option<Bcj2Aes>, plain: &Vec<u8>) -> (r: Result<
    Bcj2Encoded,
    EncodeError,
>)
    requires
        encoder::supported(methods.main),
        encoder::supported(methods.addresses),
        aes matches Some(a) ==> a.ok(),
    ensures
        r is Ok <==> bcj2_encodes(*methods, *aes, plain@),
        r matches Ok(e) ==> e@ == bcj2_encoded_by(*methods, *aes, plain@),
        r matches Err(e) ==> e !is NoPassword && (e is TooLong <==> bcj2_too_long(
            *methods,
            *aes,
            plain@,
        )),
{
    let (main_plain, call_plain, jump_plain, rc) = split_streams(plain);
    let (for_main, for_call, for_jump, for_decisions) = match aes {
        Some(a) => (Some(&a.main), Some(&a.call), Some(&a.jump), Some(&a.decisions)),
        None => (None, None, None, None),
    };
    let main = match compress(for_main, Some(&methods.main), main_plain) {
        Ok(e) => e,
        Err(e) => return Err(e),
    };
    let call = match compress(for_call, Some(&methods.addresses), call_plain) {
        Ok(e) => e,
        Err(e) => return Err(e),
    };
    let jump = match compress(for_jump, Some(&methods.addresses), jump_plain) {
        Ok(e) => e,
        Err(e) => return Err(e),
    };
    let decisions = match compress(for_decisions, None, rc) {
        Ok(e) => e,
        Err(e) => return Err(e),
    };
    Ok(Bcj2Encoded { main, call, jump, decisions })
}

/// The block that BCJ2 and the coders make of data that is cut into members, where no coder fails.
pub open spec fn bcj2_from(
    methods: Bcj2Methods,
    aes: Option<Bcj2Aes>,
    entries: Seq<ArchiveEntry>,
    plain: Seq<u8>,
    file_sizes: Seq<u64>,
    file_crcs: Seq<u32>,
) -> PreparedModel {
    bcj2_model(
        methods,
        aes,
        entries,
        file_sizes,
        file_crcs,
        plain.len() as u64,
        checksum::crc32(plain),
        bcj2_encoded_by(methods, aes, plain),
    )
}

/// The block that BCJ2 and the coders make of members and their sources, where no coder fails.
pub open spec fn bcj2_of(
    methods: Bcj2Methods,
    aes: Option<Bcj2Aes>,
    entries: Seq<ArchiveEntry>,
    readers: Seq<SourceReader>,
) -> PreparedModel {
    bcj2_from(
        methods,
        aes,
        entries,
        source_reader::all_content(readers),
        source_reader::lengths(readers),
        source_reader::crcs(readers),
    )
}

/// The coders of a BCJ2 block are wired into one.
pub proof fn law_bcj2_folder_is_wired(methods: Bcj2Methods, aes: Option<Bcj2Aes>)
    ensures
        streams_reader::folder_ok(bcj2_folder(methods, aes)),
{
    let f = bcj2_folder(methods, aes);
    let n = f.coders.len() as int;
    reveal_with_fuel(streams_reader::total_in, 9);
    header::lemma_properties_len(methods.main);
    header::lemma_properties_len(methods.addresses);
    if let Some(a) = aes {
        header::lemma_properties_len(a.main);
        header::lemma_properties_len(a.call);
        header::lemma_properties_len(a.jump);
        header::lemma_properties_len(a.decisions);
        let c = f.coders;
        assert(c.drop_last().drop_last().drop_last().drop_last().drop_last().drop_last().drop_last()
            .drop_last() =~= Seq::empty());
        assert(streams_reader::total_in(c) == 11);
    } else {
        let c = f.coders;
        assert(c.drop_last().drop_last().drop_last().drop_last() =~= Seq::empty());
        assert(streams_reader::total_in(c) == 7);
    }
}

/// A block behind BCJ2 can be appended.
pub proof fn law_bcj2_block_is_complete(
    methods: Bcj2Methods,
    aes: Option<Bcj2Aes>,
    entries: Seq<ArchiveEntry>,
    readers: Seq<SourceReader>,
)
    requires
        entries.len() == readers.len(),
        entries.len() <= u64::MAX,
        source_reader::all_content(readers).len() <= u64::MAX,
    ensures
        prepared_ok(bcj2_of(methods, aes, entries, readers)),
{
    law_bcj2_folder_is_wired(methods, aes);
    lemma_lengths(readers);
}

/// What compressing members behind BCJ2 comes to, with these settings of AES.
pub open spec fn bcj2_outcome(
    r: Result<PreparedBlock, Error>,
    methods: Bcj2Methods,
    aes: Option<Bcj2Aes>,
    entries: Seq<ArchiveEntry>,
    readers: Seq<SourceReader>,
) -> bool {
    let plain = source_reader::all_content(readers);
    if !source_reader::none_failed(readers) {
        r matches Err(e) && is_source_error(
            e,
            "prepare_bcj2_block: read source:"@ + source_reader::names_text(entries),
            readers,
        )
    } else if !encoder::supported(methods.main) || !encoder::supported(methods.addresses) {
        r matches Err(e) && is_no_password(e)
    } else if !bcj2_encodes(methods, aes, plain) {
        r matches Err(e) && is_coding_error(
            e,
            "prepare_bcj2_block: encode"@,
            bcj2_too_long(methods, aes, plain),
        )
    } else if packed_len(bcj2_of(methods, aes, entries, readers).packed) > usize::MAX {
        r matches Err(e) && is_block_too_large(e)
    } else {
        r matches Ok(b) && b@ == bcj2_of(methods, aes, entries, readers)
    }
}

/// Nothing stops the coders of a BCJ2 block that have what they need but a stream that is too long.
pub proof fn law_only_length_stops_bcj2(
    methods: Bcj2Methods,
    aes: Option<Bcj2Aes>,
    plain: Seq<u8>,
)
    requires
        encoder::supported(methods.main),
        encoder::supported(methods.addresses),
        aes matches Some(a) ==> a.ok(),
    ensures
        bcj2_encodes(methods, aes, plain) <==> !bcj2_too_long(methods, aes, plain),
{
    let s = bcj2::split(plain);
    encoder::law_only_length_stops_the_coders(main_methods(methods, aes), s.main);
    encoder::law_only_length_stops_the_coders(call_methods(methods, aes), s.call);
    encoder::law_only_length_stops_the_coders(jump_methods(methods, aes), s.jump);
    encoder::law_only_length_stops_the_coders(decision_methods(aes), s.rc);
}

/// Reads the sources of a BCJ2 block.
fn read_bcj2_sources(entries: &Vec<ArchiveEntry>, reader: Vec<SourceReader>) -> (r: Result<
    Gathered,
    Error,
>)
    ensures
        r is Ok <==> source_reader::none_failed(reader@),
        r matches Ok(g) ==> source_reader::is_gathered(g, reader@),
        r matches Err(e) ==> is_source_error(
            e,
            "prepare_bcj2_block: read source:"@ + source_reader::names_text(entries@),
            reader@,
        ),
{
    let names = source_reader::entries_names(entries);
    match source_reader::gather(reader) {
        Ok(g) => Ok(g),
        Err(e) => Err(
            Error::io_msg(e, text::joined("prepare_bcj2_block: read source:", names.as_str())),
        ),
    }
}

/// Compresses what the sources of a BCJ2 block hold.
fn compress_bcj2(
    methods: &Bcj2Methods,
    aes: &Option<Bcj2Aes>,
    entries: Vec<ArchiveEntry>,
    g: Gathered,
) -> (r: Result<PreparedBlock, Error>)
    requires
        entries@.len() == g.sizes@.len(),
        entries@.len() == g.crcs@.len(),
        aes matches Some(a) ==> a.ok(),
    ensures
        ({
            let plain = g.plain@;
            let block = bcj2_from(*methods, *aes, entries@, plain, g.sizes@, g.crcs@);
            if !encoder::supported(methods.main) || !encoder::supported(methods.addresses) {
                r matches Err(e) && is_no_password(e)
            } else if !bcj2_encodes(*methods, *aes, plain) {
                r matches Err(e) && is_coding_error(
                    e,
                    "prepare_bcj2_block: encode"@,
                    bcj2_too_long(*methods, *aes, plain),
                )
            } else if packed_len(block.packed) > usize::MAX {
                r matches Err(e) && is_block_too_large(e)
            } else {
                r matches Ok(b) && b@ == block
            }
        }),
{
    if !encoder::is_supported(&methods.main) || !encoder::is_supported(&methods.addresses) {
        return Err(no_password());
    }
    let crc: u32 = checksum::hash(g.plain.as_slice());
    let size: u64 = g.plain.len() as u64;
    let encoded = match encode_bcj2(methods, aes, &g.plain) {
        Ok(encoded) => encoded,
        Err(e) => {
            return Err(coding_error(e, "prepare_bcj2_block: encode".to_string()));
        },
    };
    proof {
        let s = bcj2::split(g.plain@);
        encoder::law_each_coder_takes_the_stage_behind_it(main_methods(*methods, *aes), s.main);
        encoder::law_each_coder_takes_the_stage_behind_it(call_methods(*methods, *aes), s.call);
        encoder::law_each_coder_takes_the_stage_behind_it(jump_methods(*methods, *aes), s.jump);
        encoder::law_each_coder_takes_the_stage_behind_it(decision_methods(*aes), s.rc);
    }
    bcj2_block(methods, aes, entries, g.sizes, g.crcs, size, crc, encoded)
}

/// Compresses members into one solid block behind the BCJ2 filter, with settings of AES for each
/// stream where they are given. Refused is a block whose packed streams together are longer than
/// memory has addresses for.
pub fn prepare_bcj2_block_with(
    methods: &Bcj2Methods,
    aes: Option<Bcj2Aes>,
    entries: Vec<ArchiveEntry>,
    reader: Vec<SourceReader>,
) -> (r: Result<PreparedBlock, Error>)
    requires
        entries@.len() == reader@.len(),
        aes matches Some(a) ==> a.ok(),
    ensures
        r matches Ok(b) ==> prepared_ok(b@),
        bcj2_outcome(r, *methods, aes, entries@, reader@),
{
    let ghost readers = reader@;
    let g = match read_bcj2_sources(&entries, reader) {
        Ok(g) => g,
        Err(e) => return Err(e),
    };
    assert(g.plain@.len() == g.plain.len());
    assert(entries@.len() == entries.len());
    proof {
        law_bcj2_block_is_complete(*methods, aes, entries@, readers);
    }
    compress_bcj2(methods, &aes, entries, g)
}

/// Whether both blocks for a stream were drawn, which go into AES.
pub open spec fn is_drawn(draw: (Option<[u8; 16]>, Option<[u8; 16]>)) -> bool {
    draw.0 is Some && draw.1 is Some
}

/// AES with a password and what was drawn for a stream: the initial vector and the salt.
pub open spec fn drawn_aes(password: Password, draw: (Option<[u8; 16]>, Option<[u8; 16]>)) ->
    EncoderConfiguration {
    EncoderConfiguration {
        method: EncoderMethod::AES256_SHA256,
        options: Some(
            EncoderOptions::Aes(
                AesEncoderOptions { password, iv: draw.0->0, salt: draw.1->0 },
            ),
        ),
    }
}

/// Whether everything was drawn for every stream.
pub open spec fn all_drawn(draws: [(Option<[u8; 16]>, Option<[u8; 16]>); 4]) -> bool {
    is_drawn(draws@[0]) && is_drawn(draws@[1]) && is_drawn(draws@[2]) && is_drawn(draws@[3])
}

/// The settings of AES for each stream, with a password and what was drawn: for the main stream, the
/// call stream, the jump stream and the decisions.
pub open spec fn drawn_bcj2(
    password: Password,
    draws: [(Option<[u8; 16]>, Option<[u8; 16]>); 4],
) -> Bcj2Aes {
    Bcj2Aes {
        main: drawn_aes(password, draws@[0]),
        call: drawn_aes(password, draws@[1]),
        jump: drawn_aes(password, draws@[2]),
        decisions: drawn_aes(password, draws@[3]),
    }
}

/// What is said where random numbers do not come.
pub open spec fn is_not_drawn(e: Error) -> bool {
    e is Unsupported && e.text() == "no random numbers"@
}

fn aes_from(password: &Password, draw: (Option<[u8; 16]>, Option<[u8; 16]>)) -> (r: Result<
    EncoderConfiguration,
    Error,
>)
    ensures
        r is Ok <==> is_drawn(draw),
        r matches Ok(c) ==> c == drawn_aes(*password, draw),
        r matches Err(e) ==> is_not_drawn(e),
{
    match AesEncoderOptions::from_random(password.clone(), draw.0, draw.1) {
        Ok(options) => Ok(EncoderConfiguration::from(options)),
        Err(e) => Err(e),
    }
}

/// The settings of AES for each stream, with a password and what was drawn: for the main stream, the
/// call stream, the jump stream and the decisions. Refused where something did not come.
pub fn bcj2_aes_from(
    password: &Password,
    draws: [(Option<[u8; 16]>, Option<[u8; 16]>); 4],
) -> (r: Result<Bcj2Aes, Error>)
    ensures
        r is Ok <==> all_drawn(draws),
        r matches Ok(a) ==> a == drawn_bcj2(*password, draws),
        r matches Err(e) ==> is_not_drawn(e),
{
    let main = match aes_from(password, draws[0]) {
        Ok(c) => c,
        Err(e) => return Err(e),
    };
    let call = match aes_from(password, draws[1]) {
        Ok(c) => c,
        Err(e) => return Err(e),
    };
    let jump = match aes_from(password, draws[2]) {
        Ok(c) => c,
        Err(e) => return Err(e),
    };
    let decisions = match aes_from(password, draws[3]) {
        Ok(c) => c,
        Err(e) => return Err(e),
    };
    Ok(Bcj2Aes { main, call, jump, decisions })
}

/// The settings of AES for each stream, with a password and what is drawn at random for each.
fn bcj2_aes(password: &Password) -> (r: Result<Bcj2Aes, Error>)
    ensures
        r matches Ok(a) ==> exists|draws: [(Option<[u8; 16]>, Option<[u8; 16]>); 4]|
            all_drawn(draws) && a == #[trigger] drawn_bcj2(*password, draws),
        r matches Err(e) ==> is_not_drawn(e),
{
    let draws = [
        (encoder::random_block(), encoder::random_block()),
        (encoder::random_block(), encoder::random_block()),
        (encoder::random_block(), encoder::random_block()),
        (encoder::random_block(), encoder::random_block()),
    ];
    bcj2_aes_from(password, draws)
}

/// Compresses members into one solid block behind the BCJ2 filter, as 7-Zip's `-mf=BCJ2` does for
/// x86 executables: the code split into a main stream, a call stream, a jump stream and the
/// range-coded decisions, the first three compressed with `methods`, and the folder written as a
/// graph of four packed streams (eight coders when encrypted, AES on each).
pub fn prepare_bcj2_block(
    methods: &Bcj2Methods,
    entries: Vec<ArchiveEntry>,
    reader: Vec<SourceReader>,
) -> (r: Result<PreparedBlock, Error>)
    ensures
        r matches Ok(b) ==> prepared_ok(b@),
        if entries@.len() != reader@.len() {
            r matches Err(e) && e is Other && e.text() == mismatch_text(
                "prepare_bcj2_block"@,
                entries@.len(),
                reader@.len(),
            )
        } else if !source_reader::none_failed(reader@) {
            r matches Err(e) && is_source_error(
                e,
                "prepare_bcj2_block: read source:"@ + source_reader::names_text(entries@),
                reader@,
            )
        } else {
            match methods.password {
                None => bcj2_outcome(r, *methods, None, entries@, reader@),
                Some(password) => {
                    ||| r matches Err(e) && is_not_drawn(e)
                    ||| exists|draws: [(Option<[u8; 16]>, Option<[u8; 16]>); 4]|
                        all_drawn(draws) && bcj2_outcome(
                            r,
                            *methods,
                            Some(#[trigger] drawn_bcj2(password, draws)),
                            entries@,
                            reader@,
                        )
                },
            }
        },
{
    if reader.len() != entries.len() {
        return Err(mismatch("prepare_bcj2_block", entries.len(), reader.len()));
    }
    let ghost readers = reader@;
    let g = match read_bcj2_sources(&entries, reader) {
        Ok(g) => g,
        Err(e) => return Err(e),
    };
    let aes = match &methods.password {
        None => None,
        Some(password) => match bcj2_aes(password) {
            Ok(aes) => Some(aes),
            Err(e) => return Err(e),
        },
    };
    assert(g.plain@.len() == g.plain.len());
    assert(entries@.len() == entries.len());
    proof {
        law_bcj2_block_is_complete(*methods, aes, entries@, readers);
    }
    compress_bcj2(methods, &aes, entries, g)
}

} // verus!
