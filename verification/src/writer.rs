//! Writing an archive.

pub mod append;
pub mod files_info;
pub mod files_reader;
pub mod graph;
pub mod header;
pub mod history;
pub mod pack_info;
pub mod prepared;
pub mod reader;
pub mod source_reader;
pub mod streams_reader;
pub mod unpack_info;

use crate::archive::{ArchiveEntry, SIGNATURE_HEADER_SIZE};
use crate::checksum;
use crate::encoder;
use crate::encoder::{Encoded, EncodedModel};
use crate::encoder_options::{EncoderConfiguration, EncoderMethod};
use crate::error::Error;
use crate::text;
use std::sync::Arc;
use vstd::prelude::*;

use self::append::Archive;
use self::pack_info::{PackInfo, PackModel};
use self::prepared::{PreparedBlock, PreparedModel};
use self::source_reader::SourceReader;
use self::unpack_info::{BlockModel, UnpackInfo};

verus! {

/// What a writer has come to.
pub ghost struct WriterModel {
    /// The packed streams that it has written, one behind another.
    pub written: Seq<u8>,
    /// What of them has not been handed on.
    pub output: Seq<u8>,
    /// Where the next byte goes in the archive.
    pub position: u64,
    /// How many packed streams were there before.
    pub found: nat,
    /// The members.
    pub files: Seq<ArchiveEntry>,
    /// The coders for the data of members.
    pub methods: Seq<EncoderConfiguration>,
    /// The packed streams.
    pub pack: PackModel,
    /// The blocks.
    pub blocks: Seq<BlockModel>,
    /// Whether the header is encrypted where the data is.
    pub encrypt_header: bool,
}

/// Whether bytes are packed streams of these lengths and checksums, one behind another.
pub open spec fn streams_match(written: Seq<u8>, sizes: Seq<u64>, crcs: Seq<u32>) -> bool
    decreases sizes.len(),
{
    if sizes.len() == 0 {
        written.len() == 0 && crcs.len() == 0
    } else {
        let start = written.len() - sizes.last();
        &&& start >= 0
        &&& crcs.len() > 0
        &&& checksum::crc32(written.skip(start)) == crcs.last()
        &&& streams_match(written.take(start), sizes.drop_last(), crcs.drop_last())
    }
}

/// How many packed streams blocks have together.
pub open spec fn packed_count(blocks: Seq<BlockModel>) -> nat
    decreases blocks.len(),
{
    if blocks.len() == 0 {
        0
    } else {
        packed_count(blocks.drop_last()) + blocks.last().folder.packed.len()
    }
}

impl WriterModel {
    /// What holds of every writer: there is a coder, the packed streams lie one behind another up
    /// to where the next byte goes, what is known of them is true of the bytes, and they are what
    /// the blocks are packed into.
    pub open spec fn ok(self) -> bool {
        &&& self.methods.len() > 0
        &&& header::streams_ok(self.pack, self.blocks)
        &&& self.position == SIGNATURE_HEADER_SIZE + self.pack.pos + streams_reader::total(
            self.pack.sizes,
        )
        &&& self.found <= self.pack.sizes.len()
        &&& streams_match(
            self.written,
            self.pack.sizes.skip(self.found as int),
            self.pack.crcs.skip(self.found as int),
        )
        &&& self.output.len() <= self.written.len()
        &&& self.output == self.written.skip(self.written.len() - self.output.len())
        &&& packed_count(self.blocks) == self.pack.sizes.len()
    }
}

/// A writer that has written nothing.
pub open spec fn fresh() -> WriterModel {
    WriterModel {
        written: Seq::empty(),
        output: Seq::empty(),
        position: SIGNATURE_HEADER_SIZE,
        found: 0,
        files: Seq::empty(),
        methods: seq![EncoderConfiguration { method: EncoderMethod::LZMA2, options: None }],
        pack: PackModel { pos: 0, sizes: Seq::empty(), crcs: Seq::empty() },
        blocks: Seq::empty(),
        encrypt_header: true,
    }
}

/// A writer that has written one more packed stream.
pub open spec fn with_stream(m: WriterModel, packed: Seq<u8>, crc: u32) -> WriterModel {
    WriterModel {
        written: m.written + packed,
        output: m.output + packed,
        position: (m.position + packed.len()) as u64,
        pack: PackModel {
            sizes: m.pack.sizes.push(packed.len() as u64),
            crcs: m.pack.crcs.push(crc),
            ..m.pack
        },
        ..m
    }
}

/// A writer that has written packed streams one after another.
pub open spec fn with_streams(m: WriterModel, packed: Seq<(Seq<u8>, u32)>) -> WriterModel
    decreases packed.len(),
{
    if packed.len() == 0 {
        m
    } else {
        with_stream(with_streams(m, packed.drop_last()), packed.last().0, packed.last().1)
    }
}

/// A writer that has appended a compressed block.
pub open spec fn with_block(m: WriterModel, b: PreparedModel) -> WriterModel {
    WriterModel {
        files: m.files + b.entries,
        blocks: m.blocks.push(prepared::block_of(b)),
        ..with_streams(m, b.packed)
    }
}

/// What is said where an archive would be longer than 64 bits can tell.
pub open spec fn is_too_large(e: Error) -> bool {
    e is Other && e.text() == "the archive would be too large"@
}

fn too_large() -> (r: Error)
    ensures
        is_too_large(r),
{
    Error::other("the archive would be too large".to_string())
}

/// A member with data, as it is after its data has been compressed.
pub open spec fn stored_entry(
    entry: ArchiveEntry,
    size: u64,
    crc: u32,
    packed: Seq<u8>,
) -> ArchiveEntry {
    ArchiveEntry {
        has_stream: true,
        size,
        crc: crc as u64,
        has_crc: true,
        compressed_crc: checksum::crc32(packed) as u64,
        compressed_size: packed.len() as u64,
        ..entry
    }
}

/// A member without data.
pub open spec fn empty_entry(entry: ArchiveEntry) -> ArchiveEntry {
    ArchiveEntry { has_stream: false, size: 0, compressed_size: 0, has_crc: false, ..entry }
}

/// A writer that has added a member without data.
pub open spec fn with_empty_entry(m: WriterModel, entry: ArchiveEntry) -> WriterModel {
    WriterModel { files: m.files.push(empty_entry(entry)), ..m }
}

/// A writer that has added a member with data, in a block of its own.
pub open spec fn with_entry(
    m: WriterModel,
    entry: ArchiveEntry,
    size: u64,
    crc: u32,
    e: EncodedModel,
) -> WriterModel {
    WriterModel {
        files: m.files.push(stored_entry(entry, size, crc, e.packed)),
        blocks: m.blocks.push(header::single_block(m.methods, e.sizes, crc)),
        ..with_stream(m, e.packed, checksum::crc32(e.packed))
    }
}

/// One more packed stream keeps what holds of the bytes.
proof fn lemma_streams_match(
    written: Seq<u8>,
    sizes: Seq<u64>,
    crcs: Seq<u32>,
    packed: Seq<u8>,
)
    requires
        streams_match(written, sizes, crcs),
        packed.len() <= u64::MAX,
    ensures
        streams_match(
            written + packed,
            sizes.push(packed.len() as u64),
            crcs.push(checksum::crc32(packed)),
        ),
{
    let all = written + packed;
    assert(all.skip(written.len() as int) =~= packed);
    assert(all.take(written.len() as int) =~= written);
    assert(sizes.push(packed.len() as u64).drop_last() =~= sizes);
    assert(crcs.push(checksum::crc32(packed)).drop_last() =~= crcs);
}

/// What one more packed stream keeps.
pub open spec fn bytes_ok(m: WriterModel) -> bool {
    &&& pack_info::pack_ok(m.pack)
    &&& m.position == SIGNATURE_HEADER_SIZE + m.pack.pos + streams_reader::total(m.pack.sizes)
    &&& m.found <= m.pack.sizes.len()
    &&& streams_match(
        m.written,
        m.pack.sizes.skip(m.found as int),
        m.pack.crcs.skip(m.found as int),
    )
    &&& m.output.len() <= m.written.len()
    &&& m.output == m.written.skip(m.written.len() - m.output.len())
}

proof fn lemma_with_stream(m: WriterModel, packed: Seq<u8>)
    requires
        bytes_ok(m),
        m.position + packed.len() <= u64::MAX,
        m.pack.sizes.len() < u64::MAX,
    ensures
        bytes_ok(with_stream(m, packed, checksum::crc32(packed))),
{
    let n = with_stream(m, packed, checksum::crc32(packed));
    let sizes = m.pack.sizes.skip(m.found as int);
    let crcs = m.pack.crcs.skip(m.found as int);
    lemma_streams_match(m.written, sizes, crcs, packed);
    assert(n.pack.sizes.skip(m.found as int) =~= sizes.push(packed.len() as u64));
    assert(n.pack.crcs.skip(m.found as int) =~= crcs.push(checksum::crc32(packed)));
    assert(n.pack.sizes.drop_last() =~= m.pack.sizes);
    assert(n.output =~= n.written.skip(n.written.len() - n.output.len()));
}

/// Packed streams change nothing but the bytes and what is known of them.
pub proof fn lemma_with_streams(m: WriterModel, packed: Seq<(Seq<u8>, u32)>)
    ensures
        ({
            let n = with_streams(m, packed);
            &&& n.found == m.found
            &&& n.files == m.files
            &&& n.methods == m.methods
            &&& n.blocks == m.blocks
            &&& n.encrypt_header == m.encrypt_header
            &&& n.pack.pos == m.pack.pos
            &&& n.pack.sizes.len() == m.pack.sizes.len() + packed.len()
        }),
    decreases packed.len(),
{
    if packed.len() > 0 {
        lemma_with_streams(m, packed.drop_last());
    }
}

/// A block keeps what holds of every writer.
proof fn lemma_with_block(m: WriterModel, b: PreparedModel)
    requires
        m.ok(),
        prepared::prepared_ok(b),
        bytes_ok(with_streams(m, b.packed)),
        m.blocks.len() < u64::MAX,
    ensures
        with_block(m, b).ok(),
{
    let n = with_block(m, b);
    lemma_with_streams(m, b.packed);
    assert forall|i: int| 0 <= i < n.blocks.len() implies streams_reader::block_ok(
        #[trigger] n.blocks[i],
    ) by {
        if i < m.blocks.len() {
            assert(n.blocks[i] == m.blocks[i]);
        }
    }
    assert(n.blocks.drop_last() =~= m.blocks);
}

/// A member with data keeps what holds of every writer.
proof fn lemma_with_entry(m: WriterModel, entry: ArchiveEntry, size: u64, crc: u32, e: EncodedModel)
    requires
        m.ok(),
        e.sizes.len() == m.methods.len(),
        m.methods.len() <= u64::MAX,
        m.position + e.packed.len() <= u64::MAX,
        m.pack.sizes.len() < u64::MAX,
        m.blocks.len() < u64::MAX,
    ensures
        with_entry(m, entry, size, crc, e).ok(),
{
    let n = with_entry(m, entry, size, crc, e);
    header::law_chain_is_wired(m.methods);
    lemma_with_stream(m, e.packed);
    assert forall|i: int| 0 <= i < n.blocks.len() implies streams_reader::block_ok(
        #[trigger] n.blocks[i],
    ) by {
        if i < m.blocks.len() {
            assert(n.blocks[i] == m.blocks[i]);
        }
    }
    assert(n.blocks.drop_last() =~= m.blocks);
}

/// The first coder for AES in a list.
pub open spec fn first_aes(methods: Seq<EncoderConfiguration>) -> Option<EncoderConfiguration>
    decreases methods.len(),
{
    if methods.len() == 0 {
        None
    } else if methods[0].method is AES256_SHA256 {
        Some(methods[0])
    } else {
        first_aes(methods.skip(1))
    }
}

/// The coders for the header: LZMA, and before it AES where the data is encrypted and the header is
/// to be.
pub open spec fn header_methods_of(m: WriterModel) -> Seq<EncoderConfiguration> {
    let lzma = EncoderConfiguration { method: EncoderMethod::LZMA, options: None };
    match first_aes(m.methods) {
        Some(aes) if m.encrypt_header => seq![aes, lzma],
        _ => seq![lzma],
    }
}

/// The first coder for AES is one for AES.
proof fn lemma_first_aes(methods: Seq<EncoderConfiguration>)
    ensures
        first_aes(methods) matches Some(c) ==> c.method is AES256_SHA256,
    decreases methods.len(),
{
    if methods.len() > 0 {
        lemma_first_aes(methods.skip(1));
    }
}

/// The coders for the header take every header that is no longer than LZMA takes, where AES has its
/// password.
pub proof fn law_header_is_encoded(m: WriterModel, raw: Seq<u8>)
    ensures
        encoder::stages(header_methods_of(m), raw) is Some <==> encoder::all_supported(
            header_methods_of(m),
        ) && raw.len() <= encoder::MAX_LZMA_LEN,
        encoder::all_supported(header_methods_of(m)) ==> (encoder::stage_too_long(
            header_methods_of(m),
            raw,
        ) <==> raw.len() > encoder::MAX_LZMA_LEN),
{
    let methods = header_methods_of(m);
    let last = methods.skip(methods.len() - 1);
    reveal_with_fuel(encoder::stages, 3);
    lemma_first_aes(m.methods);
    encoder::law_only_length_stops_the_coders(methods, raw);
    assert(last.skip(1) =~= Seq::empty());
    assert(methods[methods.len() - 1] == last[0]);
    assert(encoder::all_supported(methods) <==> encoder::supported(methods[0]));
    if methods.len() == 2 {
        assert(methods.skip(1) =~= last);
    } else {
        assert(methods =~= last);
    }
}

/// Whether the header is written as it is: it need not be encrypted, and what describes it encoded
/// would take up what is saved.
pub open spec fn keeps_raw_header(m: WriterModel, e: EncodedModel) -> bool {
    header_methods_of(m).len() == 1 && e.packed.len() + 20 >= header::header_bytes(
        m.files,
        m.pack,
        m.blocks,
    ).len()
}

/// What stands between the packed streams and the header: the encoded header, where it is used.
pub open spec fn finished_body(m: WriterModel, e: EncodedModel) -> Seq<u8> {
    if keeps_raw_header(m, e) {
        Seq::empty()
    } else {
        e.packed
    }
}

/// The header that the signature header leads to: the header itself, or the description of the
/// encoded one.
pub open spec fn finished_header(m: WriterModel, e: EncodedModel) -> Seq<u8> {
    let raw = header::header_bytes(m.files, m.pack, m.blocks);
    if keeps_raw_header(m, e) {
        raw
    } else {
        header::encoded_header_bytes(
            (m.position - SIGNATURE_HEADER_SIZE) as u64,
            e.packed,
            header_methods_of(m),
            e.sizes,
            checksum::crc32(raw),
        )
    }
}

/// How long the finished archive is.
pub open spec fn finished_end(m: WriterModel, e: EncodedModel) -> nat {
    m.position as nat + finished_body(m, e).len() + finished_header(m, e).len()
}

/// The end of an archive.
pub ghost struct FinishedModel {
    pub tail: Seq<u8>,
    pub signature: Seq<u8>,
    pub end: u64,
}

/// The end of an archive: what is left to write, the signature header that goes to its start once
/// that is written, and how long it is.
#[derive(Debug)]
pub struct Finished {
    /// What is left to write behind what has been handed on.
    pub tail: Vec<u8>,
    /// The signature header.
    pub signature: Vec<u8>,
    /// How long the archive is.
    pub end: u64,
}

impl View for Finished {
    type V = FinishedModel;

    open spec fn view(&self) -> FinishedModel {
        FinishedModel { tail: self.tail@, signature: self.signature@, end: self.end }
    }
}

/// The end of the archive of a writer, with what the coders have made of its header.
pub open spec fn finished(m: WriterModel, e: EncodedModel) -> FinishedModel {
    let body = finished_body(m, e);
    FinishedModel {
        tail: m.output + body + finished_header(m, e),
        signature: header::signature_bytes(
            (m.position + body.len() - SIGNATURE_HEADER_SIZE) as u64,
            finished_header(m, e),
        ),
        end: finished_end(m, e) as u64,
    }
}

/// Blocks that are described in full can be spelt.
proof fn lemma_ids_ok(blocks: Seq<BlockModel>)
    requires
        streams_reader::blocks_ok(blocks),
    ensures
        unpack_info::block_ids_ok(blocks),
{
    assert forall|i: int| 0 <= i < blocks.len() implies unpack_info::ids_ok(
        (#[trigger] blocks[i]).folder.coders,
    ) by {
        assert(streams_reader::block_ok(blocks[i]));
        let coders = blocks[i].folder.coders;
        assert forall|k: int| 0 <= k < coders.len() implies (#[trigger] coders[k]).id.len()
            <= 15 by {
            assert(streams_reader::coder_ok(coders[k]));
        }
    }
}

/// Writes a 7z archive.
pub struct ArchiveWriter {
    output: Vec<u8>,
    position: u64,
    files: Vec<ArchiveEntry>,
    content_methods: Arc<Vec<EncoderConfiguration>>,
    pack_info: PackInfo,
    unpack_info: UnpackInfo,
    encrypt_header: bool,
    written: Ghost<Seq<u8>>,
    found: Ghost<nat>,
}

impl View for ArchiveWriter {
    type V = WriterModel;

    closed spec fn view(&self) -> WriterModel {
        WriterModel {
            written: self.written@,
            output: self.output@,
            position: self.position,
            found: self.found@,
            files: self.files@,
            methods: self.content_methods@,
            pack: self.pack_info@,
            blocks: self.unpack_info@,
            encrypt_header: self.encrypt_header,
        }
    }
}

/// How far a writer had come, so that it can be brought back there.
pub struct Mark {
    files: usize,
    streams: usize,
    blocks: usize,
    position: u64,
    model: Ghost<WriterModel>,
}

impl View for Mark {
    type V = WriterModel;

    closed spec fn view(&self) -> WriterModel {
        self.model@
    }
}

impl Mark {
    #[verifier::type_invariant]
    spec fn inv(&self) -> bool {
        &&& self.files == self.model@.files.len()
        &&& self.streams == self.model@.pack.sizes.len()
        &&& self.streams == self.model@.pack.crcs.len()
        &&& self.blocks == self.model@.blocks.len()
        &&& self.position == self.model@.position
    }

    /// Where the next byte went in the archive.
    pub fn position(&self) -> (r: u64)
        ensures
            r == self@.position,
    {
        proof {
            use_type_invariant(self);
        }
        self.position
    }
}

/// Makes another handle to the same list of coders, by calling `Arc::clone`: it is the same list.
#[verifier::external_body]
fn share(methods: &Arc<Vec<EncoderConfiguration>>) -> (r: Arc<Vec<EncoderConfiguration>>)
    ensures
        r == *methods,
{
    Arc::clone(methods)
}

impl ArchiveWriter {
    /// A writer of a new archive, with LZMA2 for the data of members.
    pub fn new() -> (r: Self)
        ensures
            r@ == fresh(),
            r@.ok(),
    {
        let r = ArchiveWriter {
            output: Vec::new(),
            position: SIGNATURE_HEADER_SIZE,
            files: Vec::new(),
            content_methods: Arc::new(vec![EncoderConfiguration::new(EncoderMethod::LZMA2)]),
            pack_info: PackInfo::default(),
            unpack_info: UnpackInfo::default(),
            encrypt_header: true,
            written: Ghost(Seq::empty()),
            found: Ghost(0),
        };
        assert(r@.methods =~= fresh().methods);
        assert(r@.output =~= r@.written.skip(0));
        r
    }

    /// A writer that goes on behind the packed streams of an archive, which end there.
    fn going_on(archive: Archive, end: u64) -> (r: Self)
        requires
            end == append::packed_end_of(archive.pack_info@),
        ensures
            r@ == append::behind_streams(archive),
    {
        let Archive { files, pack_info, unpack_info } = archive;
        let found: Ghost<nat> = Ghost(pack_info@.sizes.len());
        let r = ArchiveWriter {
            output: Vec::new(),
            position: end,
            files,
            content_methods: Arc::new(vec![EncoderConfiguration::new(EncoderMethod::LZMA2)]),
            pack_info,
            unpack_info,
            encrypt_header: true,
            written: Ghost(Seq::empty()),
            found,
        };
        assert(r@.methods =~= fresh().methods);
        r
    }

    /// Sets the coders for the data of members from now on. An empty list changes nothing.
    pub fn set_content_methods(&mut self, content_methods: Vec<EncoderConfiguration>) -> (r:
        &mut Self)
        requires
            old(self)@.ok(),
        ensures
            r@ == (WriterModel {
                methods: if content_methods@.len() == 0 {
                    old(self)@.methods
                } else {
                    content_methods@
                },
                ..old(self)@
            }),
            r@.ok(),
            *final(self) == *final(r),
    {
        if content_methods.len() == 0 {
            return self;
        }
        self.content_methods = Arc::new(content_methods);
        self
    }

    /// Whether every coder for the data of members has what it needs. Where one has not, no source
    /// need be read: pushing it is refused.
    pub fn takes_data(&self) -> (r: bool)
        ensures
            r == encoder::all_supported(self@.methods),
    {
        prepared::check_methods(&self.content_methods)
    }

    /// Whether the header is to be encrypted where the data is. It is to begin with.
    pub fn set_encrypt_header(&mut self, enabled: bool)
        requires
            old(self)@.ok(),
        ensures
            final(self)@ == (WriterModel { encrypt_header: enabled, ..old(self)@ }),
            final(self)@.ok(),
    {
        self.encrypt_header = enabled;
    }

    /// Hands on what has been written since the last time.
    pub fn take_output(&mut self) -> (r: Vec<u8>)
        requires
            old(self)@.ok(),
        ensures
            r@ == old(self)@.output,
            final(self)@ == (WriterModel { output: Seq::empty(), ..old(self)@ }),
            final(self)@.ok(),
    {
        let mut r: Vec<u8> = Vec::new();
        std::mem::swap(&mut r, &mut self.output);
        assert(self@.output =~= self@.written.skip(self@.written.len() as int));
        r
    }

    /// Marks how far the writer has come.
    pub fn mark(&self) -> (r: Mark)
        requires
            self@.ok(),
        ensures
            r@ == self@,
    {
        let model: Ghost<WriterModel> = Ghost(self@);
        Mark {
            files: self.files.len(),
            streams: self.pack_info.sizes.len(),
            blocks: self.unpack_info.blocks.len(),
            position: self.position,
            model,
        }
    }

    /// Takes back what was pushed since a mark was made, where its bytes could not be written: its
    /// members and its blocks are left out, and the next byte goes where it went then. What was not
    /// handed on is dropped.
    pub fn take_back(&mut self, mark: &Mark)
        requires
            old(self)@.ok(),
            mark@.ok(),
            reader::goes_on(mark@, old(self)@),
        ensures
            final(self)@ == (WriterModel {
                output: Seq::empty(),
                methods: old(self)@.methods,
                encrypt_header: old(self)@.encrypt_header,
                ..mark@
            }),
            final(self)@.ok(),
    {
        proof {
            use_type_invariant(mark);
        }
        let ghost to = mark@;
        self.output = Vec::new();
        self.position = mark.position;
        self.files.truncate(mark.files);
        self.pack_info.sizes.truncate(mark.streams);
        self.pack_info.crcs.truncate(mark.streams);
        self.unpack_info.blocks.truncate(mark.blocks);
        self.written = Ghost(to.written);
        assert(self@.files =~= to.files);
        assert(self@.pack.sizes =~= to.pack.sizes);
        assert(self@.pack.crcs =~= to.pack.crcs);
        assert(self@.blocks =~= to.blocks);
        assert(self@.output =~= self@.written.skip(self@.written.len() as int));
    }

    /// Writes a packed stream.
    fn write_stream(&mut self, packed: &Vec<u8>, crc: u32)
        requires
            old(self)@.position + packed@.len() <= u64::MAX,
        ensures
            final(self)@ == with_stream(old(self)@, packed@, crc),
            final(self)@.pack.sizes.len() <= usize::MAX,
    {
        let ghost from = self@;
        self.output.extend_from_slice(packed.as_slice());
        self.position = self.position + packed.len() as u64;
        self.pack_info.add_stream(packed.len() as u64, crc);
        self.written = Ghost(self.written@ + packed@);
        assert(self.pack_info.sizes@.len() == self.pack_info.sizes.len());
        assert(self@.output =~= from.output + packed@);
        assert(self@ == with_stream(from, packed@, crc));
    }

    /// Writes packed streams one after another, where the archive has room for them.
    fn write_streams(&mut self, packed: &Vec<(Vec<u8>, u32)>) -> (r: bool)
        requires
            bytes_ok(old(self)@),
            forall|i: int|
                0 <= i < packed@.len() ==> (#[trigger] packed@[i]).1 == checksum::crc32(
                    packed@[i].0@,
                ),
        ensures
            r == (old(self)@.position + prepared::packed_len(prepared::packed_view(packed@))
                <= u64::MAX),
            r ==> final(self)@ == with_streams(old(self)@, prepared::packed_view(packed@))
                && bytes_ok(final(self)@),
            !r ==> final(self)@ == old(self)@,
    {
        let ghost all = prepared::packed_view(packed@);
        let ghost from = self@;
        let mut room: u64 = u64::MAX - self.position;
        let mut i: usize = 0;
        while i < packed.len()
            invariant
                i <= packed@.len(),
                all == prepared::packed_view(packed@),
                self@ == from,
                from == old(self)@,
                room == u64::MAX - from.position - prepared::packed_len(all.take(i as int)),
            decreases packed@.len() - i,
        {
            proof {
                prepared::lemma_packed_len(all, i + 1);
                assert(all.take(i + 1).drop_last() =~= all.take(i as int));
                assert(all.take(i + 1).last().0 == packed@[i as int].0@);
            }
            let n: u64 = packed[i].0.len() as u64;
            if n > room {
                return false;
            }
            room = room - n;
            i = i + 1;
        }
        assert(all.take(all.len() as int) =~= all);
        let mut k: usize = 0;
        assert(all.take(0) =~= Seq::empty());
        while k < packed.len()
            invariant
                k <= packed@.len(),
                all == prepared::packed_view(packed@),
                self@ == with_streams(from, all.take(k as int)),
                self@.position == from.position + prepared::packed_len(all.take(k as int)),
                bytes_ok(self@),
                from.position + prepared::packed_len(all) <= u64::MAX,
                forall|i: int|
                    0 <= i < packed@.len() ==> (#[trigger] packed@[i]).1 == checksum::crc32(
                        packed@[i].0@,
                    ),
            decreases packed@.len() - k,
        {
            let ghost here = self@;
            proof {
                prepared::lemma_packed_len(all, k + 1);
                assert(all.take(k + 1).drop_last() =~= all.take(k as int));
                assert(all.take(k + 1).last() == (packed@[k as int].0@, packed@[k as int].1));
            }
            self.write_stream(&packed[k].0, packed[k].1);
            proof {
                lemma_with_stream(here, packed@[k as int].0@);
            }
            k = k + 1;
        }
        assert(all.take(all.len() as int) =~= all);
        true
    }

    /// Appends a compressed block.
    fn append_block(&mut self, block: PreparedBlock) -> (r: Result<(), Error>)
        requires
            old(self)@.ok(),
            prepared::prepared_ok(block@),
        ensures
            if old(self)@.position + prepared::packed_len(block@.packed) <= u64::MAX {
                r is Ok && final(self)@ == with_block(old(self)@, block@) && final(self)@.ok()
            } else {
                r matches Err(e) && is_too_large(e) && final(self)@ == old(self)@
            },
    {
        let ghost from = self@;
        let ghost model = block@;
        let (packed, entries, folder, sizes, crc, sub_stream_sizes, sub_stream_crcs) =
            block.into_parts();
        assert forall|i: int| 0 <= i < packed@.len() implies (#[trigger] packed@[i]).1
            == checksum::crc32(packed@[i].0@) by {
            assert(model.packed[i] == (packed@[i].0@, packed@[i].1));
        }
        if !self.write_streams(&packed) {
            return Err(too_large());
        }
        let num_files: u64 = entries.len() as u64;
        self.unpack_info.add_multiple(
            folder,
            sizes,
            crc,
            num_files,
            sub_stream_sizes,
            sub_stream_crcs,
        );
        let mut entries = entries;
        self.files.append(&mut entries);
        proof {
            lemma_with_streams(from, model.packed);
            assert(self.unpack_info.blocks@.len() == self.unpack_info.blocks.len());
            assert(self.unpack_info@.len() == self.unpack_info.blocks@.len());
            assert(self.unpack_info@.len() == from.blocks.len() + 1);
            lemma_with_block(from, model);
            assert(self@ == with_block(from, model));
        }
        Ok(())
    }

    /// Appends a block compressed elsewhere.
    ///
    /// Only the parts that must happen in the order of the archive: write the bytes, record the
    /// packed streams and the block, take the members.
    ///
    /// A block holding no members is dropped rather than written, so an empty batch does not put a
    /// junk packed stream and a block of no files into the archive.
    pub fn push_prepared_block(&mut self, block: PreparedBlock) -> (r: Result<&mut Self, Error>)
        requires
            old(self)@.ok(),
            prepared::prepared_ok(block@),
        ensures
            if block@.entries.len() == 0 {
                r matches Ok(w) && w@ == old(self)@ && w@.ok() && *final(self) == *final(w)
            } else if old(self)@.position + prepared::packed_len(block@.packed) <= u64::MAX {
                r matches Ok(w) && w@ == with_block(old(self)@, block@) && w@.ok() && *final(self)
                    == *final(w)
            } else {
                r matches Err(e) && is_too_large(e) && final(self)@ == old(self)@
            },
    {
        if block.is_empty() {
            return Ok(self);
        }
        match self.append_block(block) {
            Ok(()) => Ok(self),
            Err(e) => Err(e),
        }
    }

    /// Solid compression: packs members into one block.
    pub fn push_archive_entries(
        &mut self,
        entries: Vec<ArchiveEntry>,
        reader: Vec<SourceReader>,
    ) -> (r: Result<&mut Self, Error>)
        requires
            old(self)@.ok(),
            entries@.len() == reader@.len(),
        ensures
            ({
                let from = old(self)@;
                let plain = source_reader::all_content(reader@);
                let message = "Encode entries:"@ + source_reader::names_text(entries@);
                let block = prepared::solid_of(from.methods, entries@, reader@);
                if !encoder::all_supported(from.methods) {
                    r matches Err(e) && prepared::is_no_password(e) && final(self)@ == from
                } else if !source_reader::none_failed(reader@) {
                    r matches Err(e) && prepared::is_source_error(e, message, reader@)
                        && final(self)@ == from
                } else if encoder::stages(from.methods, plain) is None {
                    r matches Err(e) && prepared::is_coding_error(
                        e,
                        message,
                        encoder::stage_too_long(from.methods, plain),
                    ) && final(self)@ == from
                } else if from.position + prepared::packed_len(block.packed) <= u64::MAX {
                    r matches Ok(w) && w@ == with_block(from, block) && w@.ok() && *final(self)
                        == *final(w)
                } else {
                    r matches Err(e) && is_too_large(e) && final(self)@ == from
                }
            }),
    {
        let methods = share(&self.content_methods);
        match prepared::compress_solid(
            methods,
            entries,
            reader,
            "Encode entries:",
            "Encode entries:",
        ) {
            Ok(block) => match self.append_block(block) {
                Ok(()) => Ok(self),
                Err(e) => Err(e),
            },
            Err(e) => Err(e),
        }
    }

    /// Adds a member with its data, which the coders have made into a packed stream.
    pub fn record_entry(
        &mut self,
        entry: ArchiveEntry,
        size: u64,
        crc: u32,
        encoded: Encoded,
    ) -> (r: Result<&ArchiveEntry, Error>)
        requires
            old(self)@.ok(),
            encoded@.sizes.len() == old(self)@.methods.len(),
        ensures
            if old(self)@.position + encoded@.packed.len() <= u64::MAX {
                r matches Ok(e) && *e == stored_entry(entry, size, crc, encoded@.packed)
                    && final(self)@ == with_entry(old(self)@, entry, size, crc, encoded@)
                    && final(self)@.ok()
            } else {
                r matches Err(e) && is_too_large(e) && final(self)@ == old(self)@
            },
    {
        let ghost from = self@;
        let Encoded { packed, sizes } = encoded;
        if packed.len() as u64 > u64::MAX - self.position {
            return Err(too_large());
        }
        let packed_crc: u32 = checksum::hash(packed.as_slice());
        self.write_stream(&packed, packed_crc);
        let mut entry = entry;
        entry.has_stream = true;
        entry.size = size;
        entry.crc = crc as u64;
        entry.has_crc = true;
        entry.compressed_crc = packed_crc as u64;
        entry.compressed_size = packed.len() as u64;
        let methods = share(&self.content_methods);
        assert(methods@.len() == methods.len());
        self.unpack_info.add(methods, sizes, crc);
        self.files.push(entry);
        proof {
            assert(self.unpack_info.blocks@.len() == self.unpack_info.blocks.len());
            assert(self.unpack_info@.len() == self.unpack_info.blocks@.len());
            assert(self.unpack_info@.len() == from.blocks.len() + 1);
            assert(self.pack_info.sizes@.len() == self.pack_info.sizes.len());
            assert(self.pack_info.sizes@.len() == from.pack.sizes.len() + 1);
            lemma_with_entry(from, entry, size, crc, encoded@);
            assert(self@ == with_entry(from, entry, size, crc, encoded@));
        }
        Ok(&self.files[self.files.len() - 1])
    }

    /// Non-solid compression: adds a member, with its data in a block of its own where it is no
    /// directory and there is a source.
    pub fn push_archive_entry(&mut self, entry: ArchiveEntry, reader: Option<SourceReader>) -> (r:
        Result<&ArchiveEntry, Error>)
        requires
            old(self)@.ok(),
        ensures
            ({
                let from = old(self)@;
                let message = "Encode entry:"@ + entry.name@;
                match reader {
                    Some(source) if !entry.is_directory => {
                        let plain = source.content@;
                        let e = encoder::encoded_by(from.methods, plain);
                        let size = plain.len() as u64;
                        let crc = checksum::crc32(plain);
                        if !encoder::all_supported(from.methods) {
                            r matches Err(x) && prepared::is_no_password(x) && final(self)@ == from
                        } else if source.failure is Some {
                            r matches Err(Error::Io { error, message: text }) && text@ == message
                                && source.failure == Some(error) && final(self)@ == from
                        } else if encoder::stages(from.methods, plain) is None {
                            r matches Err(x) && prepared::is_coding_error(
                                x,
                                message,
                                encoder::stage_too_long(from.methods, plain),
                            ) && final(self)@ == from
                        } else if from.position + e.packed.len() <= u64::MAX {
                            r matches Ok(added) && *added == stored_entry(
                                entry,
                                size,
                                crc,
                                e.packed,
                            ) && final(self)@ == with_entry(from, entry, size, crc, e)
                                && final(self)@.ok()
                        } else {
                            r matches Err(x) && is_too_large(x) && final(self)@ == from
                        }
                    },
                    _ => {
                        r matches Ok(added) && *added == empty_entry(entry) && final(self)@
                            == with_empty_entry(from, entry) && final(self)@.ok()
                    },
                }
            }),
    {
        if !entry.is_directory {
            if let Some(source) = reader {
                if !prepared::check_methods(&self.content_methods) {
                    return Err(prepared::no_password());
                }
                let message = text::joined("Encode entry:", entry.name.as_str());
                let SourceReader { content, failure } = source;
                if let Some(error) = failure {
                    return Err(Error::io_msg(error, message));
                }
                let size: u64 = content.len() as u64;
                let crc: u32 = checksum::hash(content.as_slice());
                let ghost plain = content@;
                proof {
                    encoder::law_only_length_stops_the_coders(self@.methods, plain);
                }
                let encoded = match encoder::encode_chain(&self.content_methods, content) {
                    Ok(encoded) => encoded,
                    Err(e) => {
                        return Err(prepared::coding_error(e, message));
                    },
                };
                proof {
                    encoder::law_each_coder_takes_the_stage_behind_it(self@.methods, plain);
                }
                return self.record_entry(entry, size, crc, encoded);
            }
        }
        let mut entry = entry;
        entry.has_stream = false;
        entry.size = 0;
        entry.compressed_size = 0;
        entry.has_crc = false;
        self.files.push(entry);
        Ok(&self.files[self.files.len() - 1])
    }

    /// The coders for the header.
    fn header_methods(&self) -> (r: Vec<EncoderConfiguration>)
        ensures
            r@ == header_methods_of(self@),
    {
        let mut methods: Vec<EncoderConfiguration> = Vec::new();
        if self.encrypt_header {
            let ghost all = self.content_methods@;
            let mut i: usize = 0;
            assert(all.skip(0) =~= all);
            while i < self.content_methods.len() && methods.len() == 0
                invariant
                    i <= all.len(),
                    all == self.content_methods@,
                    methods@.len() == 0 ==> first_aes(all) == first_aes(all.skip(i as int)),
                    methods@.len() > 0 ==> first_aes(all) == Some(methods@[0]) && methods@.len()
                        == 1,
                decreases all.len() - i,
            {
                let c = &self.content_methods[i];
                assert(all.skip(i as int)[0] == all[i as int]);
                assert(all.skip(i as int).skip(1) =~= all.skip(i + 1));
                if c.method == EncoderMethod::AES256_SHA256 {
                    methods.push(c.clone());
                }
                i = i + 1;
            }
            assert(all.skip(all.len() as int) =~= Seq::empty());
        }
        methods.push(EncoderConfiguration::new(EncoderMethod::LZMA));
        assert(methods@ =~= header_methods_of(self@));
        methods
    }

    /// Finishes the archive, with what the coders have made of the header.
    pub fn finish_with(self, encoded: Encoded) -> (r: Result<Finished, Error>)
        requires
            self@.ok(),
        ensures
            if finished_end(self@, encoded@) <= u64::MAX {
                r matches Ok(f) && f@ == finished(self@, encoded@)
            } else {
                r matches Err(e) && is_too_large(e)
            },
    {
        let ghost m = self@;
        proof {
            lemma_ids_ok(m.blocks);
        }
        let raw = header::write_header(&self.files, &self.pack_info, &self.unpack_info);
        let methods = self.header_methods();
        let must_encrypt: bool = methods.len() > 1;
        let raw_len: u64 = raw.len() as u64;
        let packed_len: u64 = encoded.packed.len() as u64;
        let mut tail = self.output;
        let mut header_pos: u64 = self.position;
        let header = if !must_encrypt && (packed_len >= raw_len || raw_len - packed_len <= 20) {
            raw
        } else {
            if packed_len > u64::MAX - header_pos {
                return Err(too_large());
            }
            let crc: u32 = checksum::hash(raw.as_slice());
            let described = header::write_encoded_header(
                header_pos - SIGNATURE_HEADER_SIZE,
                &encoded.packed,
                Arc::new(methods),
                encoded.sizes,
                crc,
            );
            tail.extend_from_slice(encoded.packed.as_slice());
            header_pos = header_pos + packed_len;
            described
        };
        if header.len() as u64 > u64::MAX - header_pos {
            return Err(too_large());
        }
        let signature = header::signature_header(header_pos - SIGNATURE_HEADER_SIZE, &header);
        let end: u64 = header_pos + header.len() as u64;
        tail.extend_from_slice(header.as_slice());
        assert(tail@ =~= m.output + finished_body(m, encoded@) + finished_header(m, encoded@));
        Ok(Finished { tail, signature, end })
    }

    /// Finishes the archive: compresses the header, or keeps it as it is where that would save
    /// nothing, and writes the signature header that leads to it.
    pub fn finish(self) -> (r: Result<Finished, Error>)
        requires
            self@.ok(),
        ensures
            ({
                let m = self@;
                let raw = header::header_bytes(m.files, m.pack, m.blocks);
                let methods = header_methods_of(m);
                let e = encoder::encoded_by(methods, raw);
                if !encoder::all_supported(methods) {
                    r matches Err(x) && prepared::is_no_password(x)
                } else if raw.len() > encoder::MAX_LZMA_LEN {
                    r matches Err(x) && prepared::is_coding_error(
                        x,
                        "finish: encode header"@,
                        true,
                    )
                } else if finished_end(m, e) <= u64::MAX {
                    r matches Ok(f) && f@ == finished(m, e)
                } else {
                    r matches Err(x) && is_too_large(x)
                }
            }),
    {
        let methods = self.header_methods();
        if !prepared::check_methods(&methods) {
            return Err(prepared::no_password());
        }
        proof {
            lemma_ids_ok(self@.blocks);
        }
        let raw = header::write_header(&self.files, &self.pack_info, &self.unpack_info);
        proof {
            encoder::law_only_length_stops_the_coders(methods@, raw@);
            law_header_is_encoded(self@, raw@);
        }
        match encoder::encode_chain(&methods, raw) {
            Ok(encoded) => self.finish_with(encoded),
            Err(e) => Err(prepared::coding_error(e, "finish: encode header".to_string())),
        }
    }

    /// Finishes the archive where it can be finished.
    pub fn finish_ignore_error(self) -> (r: Option<Finished>)
        requires
            self@.ok(),
        ensures
            ({
                let m = self@;
                let raw = header::header_bytes(m.files, m.pack, m.blocks);
                let methods = header_methods_of(m);
                let e = encoder::encoded_by(methods, raw);
                if encoder::all_supported(methods) && raw.len() <= encoder::MAX_LZMA_LEN
                    && finished_end(m, e) <= u64::MAX {
                    r matches Some(f) && f@ == finished(m, e)
                } else {
                    r is None
                }
            }),
    {
        match self.finish() {
            Ok(f) => Some(f),
            Err(_) => None,
        }
    }

    /// Wraps the writer in what finishes the archive when it is done with.
    pub fn auto_finish(self) -> (r: AutoFinisher)
        ensures
            r.writer == Some(self),
    {
        AutoFinisher { writer: Some(self) }
    }
}

/// A writer whose archive is finished when it is done with.
pub struct AutoFinisher {
    /// The writer, until then.
    pub writer: Option<ArchiveWriter>,
}

impl AutoFinisher {
    /// Finishes the archive, the first time and where it can be finished.
    pub fn finish_ignore_error(&mut self) -> (r: Option<Finished>)
        requires
            old(self).writer matches Some(w) ==> w@.ok(),
        ensures
            final(self).writer is None,
            match old(self).writer {
                None => r is None,
                Some(w) => {
                    let m = w@;
                    let raw = header::header_bytes(m.files, m.pack, m.blocks);
                    let methods = header_methods_of(m);
                    let e = encoder::encoded_by(methods, raw);
                    if encoder::all_supported(methods) && raw.len() <= encoder::MAX_LZMA_LEN
                        && finished_end(m, e) <= u64::MAX {
                        r matches Some(f) && f@ == finished(m, e)
                    } else {
                        r is None
                    }
                },
            },
    {
        match self.writer.take() {
            Some(w) => w.finish_ignore_error(),
            None => None,
        }
    }
}

} // verus!
