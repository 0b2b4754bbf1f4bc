//! How a reader takes a whole archive back, and what holds of the archives that are written.

use crate::archive::{ArchiveEntry, K_HEADER, SIGNATURE_HEADER_SIZE};
use crate::checksum;
use crate::encoder;
use crate::encoder::EncodedModel;
use crate::encoder_options::EncoderConfiguration;
use crate::writer;
use crate::writer::append;
use crate::writer::append::Archive;
use crate::writer::files_reader;
use crate::writer::header;
use crate::writer::header::{HeaderRead, StreamsRead};
use crate::writer::pack_info::PackModel;
use crate::writer::prepared;
use crate::writer::prepared::{Bcj2Aes, Bcj2Methods, PreparedModel};
use crate::writer::source_reader;
use crate::writer::source_reader::SourceReader;
use crate::writer::streams_reader;
use crate::writer::unpack_info::BlockModel;
use crate::writer::WriterModel;
use vstd::prelude::*;

verus! {

/// An archive, as a reader finds it: with its header, or with the description of an encoded one.
pub ghost enum ArchiveRead {
    Plain(HeaderRead),
    Encoded(StreamsRead),
}

/// The header that the signature header of an archive leads to, where it is there and its checksum
/// is right.
#[verifier::opaque]
pub open spec fn find_header(archive: Seq<u8>) -> Option<Seq<u8>> {
    match header::read_start(archive) {
        None => None,
        Some(s) => {
            let from = SIGNATURE_HEADER_SIZE + s.offset;
            if from + s.size > archive.len() {
                None
            } else {
                let found = archive.subrange(from as int, from + s.size);
                if checksum::crc32(found) as nat == s.crc {
                    Some(found)
                } else {
                    None
                }
            }
        },
    }
}

/// Reads an archive up to its header.
pub open spec fn read_archive(archive: Seq<u8>) -> Option<ArchiveRead> {
    match find_header(archive) {
        None => None,
        Some(found) => if found.len() > 0 && found[0] == K_HEADER {
            match header::read_header(found) {
                None => None,
                Some(h) => Some(ArchiveRead::Plain(h)),
            }
        } else {
            match header::read_encoded_header(found) {
                None => None,
                Some(s) => Some(ArchiveRead::Encoded(s)),
            }
        },
    }
}

/// The finished archive of a writer: the signature header, what lies between it and the first byte
/// that the writer has written or has found behind the packed streams, what was handed on before the
/// end, and the rest.
pub open spec fn whole(m: WriterModel, e: EncodedModel, before: Seq<u8>, sent: Seq<u8>) -> Seq<u8> {
    let f = writer::finished(m, e);
    f.signature + before + sent + f.tail
}

/// Whether a writer has handed on these bytes, and so many lie before them. In a new archive there
/// are none before; in one that is added to, there are the packed streams that were there.
pub open spec fn has_sent(m: WriterModel, before: Seq<u8>, sent: Seq<u8>) -> bool {
    m.written == sent + m.output && SIGNATURE_HEADER_SIZE + before.len() + m.written.len()
        == m.position
}

/// Packed streams are as long as their lengths together.
pub proof fn lemma_streams_len(written: Seq<u8>, sizes: Seq<u64>, crcs: Seq<u32>)
    requires
        writer::streams_match(written, sizes, crcs),
    ensures
        written.len() == streams_reader::total(sizes),
        sizes.len() == crcs.len(),
    decreases sizes.len(),
{
    if sizes.len() > 0 {
        let start = written.len() - sizes.last();
        lemma_streams_len(written.take(start), sizes.drop_last(), crcs.drop_last());
    }
}

/// A finished archive is as long as is said, holds the packed streams behind its signature header,
/// and its signature header leads to its header, which is the end of it.
pub proof fn law_signature_leads_to_the_header(
    m: WriterModel,
    e: EncodedModel,
    before: Seq<u8>,
    sent: Seq<u8>,
)
    requires
        m.ok(),
        has_sent(m, before, sent),
        writer::finished_end(m, e) <= u64::MAX,
        writer::finished_header(m, e).len() < 0x1_0000_0000,
    ensures
        whole(m, e, before, sent).len() == writer::finished(m, e).end,
        whole(m, e, before, sent).subrange(
            SIGNATURE_HEADER_SIZE as int,
            SIGNATURE_HEADER_SIZE + before.len(),
        ) == before,
        whole(m, e, before, sent).subrange(
            SIGNATURE_HEADER_SIZE + before.len(),
            m.position as int,
        ) == m.written,
        whole(m, e, before, sent).subrange(
            m.position as int,
            m.position + writer::finished_body(m, e).len(),
        ) == writer::finished_body(m, e),
        find_header(whole(m, e, before, sent)) == Some(writer::finished_header(m, e)),
{
    reveal(find_header);
    let f = writer::finished(m, e);
    let body = writer::finished_body(m, e);
    let head = writer::finished_header(m, e);
    let offset = (m.position + body.len() - SIGNATURE_HEADER_SIZE) as u64;
    header::law_signature_reads_back(offset, head, before + sent + f.tail);
    lemma_parts(f.signature, before, sent, m.output, body, head);
}

/// Where the parts of a finished archive lie.
proof fn lemma_parts(
    signature: Seq<u8>,
    before: Seq<u8>,
    sent: Seq<u8>,
    output: Seq<u8>,
    body: Seq<u8>,
    head: Seq<u8>,
)
    ensures
        ({
            let a = signature + before + sent + (output + body + head);
            let start = signature.len() as int;
            let from = start + before.len();
            let n = from + sent.len() + output.len();
            &&& a == signature + (before + sent + (output + body + head))
            &&& a.len() == n + body.len() + head.len()
            &&& a.subrange(start, from) == before
            &&& a.subrange(from, n) == sent + output
            &&& a.subrange(n, n + body.len()) == body
            &&& a.subrange(n + body.len(), n + body.len() + head.len()) == head
        }),
{
    let a = signature + before + sent + (output + body + head);
    let start = signature.len() as int;
    let from = start + before.len();
    let n = from + sent.len() + output.len();
    assert(a =~= signature + (before + sent + (output + body + head)));
    assert(a.subrange(start, from) =~= before);
    assert(a.subrange(from, n) =~= sent + output);
    assert(a.subrange(n, n + body.len()) =~= body);
    assert(a.subrange(n + body.len(), n + body.len() + head.len()) =~= head);
}

/// A finished archive reads back: its packed streams, its blocks and what its header keeps of its
/// members; or, where the header is encoded, where its packed stream lies and what it unpacks to.
pub proof fn law_archive_reads_back(
    m: WriterModel,
    e: EncodedModel,
    before: Seq<u8>,
    sent: Seq<u8>,
)
    requires
        m.ok(),
        has_sent(m, before, sent),
        files_reader::names_ok(m.files),
        e.sizes.len() == writer::header_methods_of(m).len(),
        writer::finished_end(m, e) <= u64::MAX,
        writer::finished_header(m, e).len() < 0x1_0000_0000,
    ensures
        read_archive(whole(m, e, before, sent)) == Some(
            if writer::keeps_raw_header(m, e) {
                ArchiveRead::Plain(
                    HeaderRead {
                        streams: StreamsRead {
                            pack: m.pack,
                            blocks: streams_reader::listed_blocks(m.blocks),
                        },
                        files: files_reader::listed_files(m.files),
                    },
                )
            } else {
                ArchiveRead::Encoded(
                    StreamsRead {
                        pack: PackModel {
                            pos: (m.position - SIGNATURE_HEADER_SIZE) as u64,
                            sizes: seq![e.packed.len() as u64],
                            crcs: seq![checksum::crc32(e.packed)],
                        },
                        blocks: streams_reader::listed_blocks(
                            seq![
                                header::single_block(
                                    writer::header_methods_of(m),
                                    e.sizes,
                                    checksum::crc32(
                                        header::header_bytes(m.files, m.pack, m.blocks),
                                    ),
                                ),
                            ],
                        ),
                    },
                )
            },
        ),
{
    law_signature_leads_to_the_header(m, e, before, sent);
    if writer::keeps_raw_header(m, e) {
        header::law_header_reads_back(m.files, m.pack, m.blocks);
    } else {
        header::law_encoded_header_reads_back(
            (m.position - SIGNATURE_HEADER_SIZE) as u64,
            e.packed,
            writer::header_methods_of(m),
            e.sizes,
            checksum::crc32(header::header_bytes(m.files, m.pack, m.blocks)),
        );
    }
}

proof fn lemma_stream_at(written: Seq<u8>, sizes: Seq<u64>, crcs: Seq<u32>, k: int)
    requires
        writer::streams_match(written, sizes, crcs),
        0 <= k < sizes.len(),
    ensures
        ({
            let start = streams_reader::total(sizes.take(k)) as int;
            &&& start + sizes[k] <= written.len()
            &&& crcs.len() == sizes.len()
            &&& checksum::crc32(written.subrange(start, start + sizes[k])) == crcs[k]
        }),
    decreases sizes.len(),
{
    let start = written.len() - sizes.last();
    lemma_streams_len(written, sizes, crcs);
    lemma_streams_len(written.take(start), sizes.drop_last(), crcs.drop_last());
    if k < sizes.len() - 1 {
        lemma_stream_at(written.take(start), sizes.drop_last(), crcs.drop_last(), k);
        let at = streams_reader::total(sizes.take(k)) as int;
        assert(sizes.drop_last().take(k) =~= sizes.take(k));
        assert(written.take(start).subrange(at, at + sizes[k]) =~= written.subrange(
            at,
            at + sizes[k],
        ));
    } else {
        assert(sizes.take(k) =~= sizes.drop_last());
        assert(written.skip(start) =~= written.subrange(start, start + sizes[k]));
    }
}

/// The sizes up to a place are those up to another before it, and those between.
pub proof fn lemma_total_split(sizes: Seq<u64>, n: int, k: int)
    requires
        0 <= n <= k <= sizes.len(),
    ensures
        streams_reader::total(sizes.take(k)) == streams_reader::total(sizes.take(n))
            + streams_reader::total(sizes.skip(n).take(k - n)),
    decreases k,
{
    if k > n {
        lemma_total_split(sizes, n, k - 1);
        assert(sizes.take(k).drop_last() =~= sizes.take(k - 1));
        assert(sizes.skip(n).take(k - n).drop_last() =~= sizes.skip(n).take(k - 1 - n));
    } else {
        assert(sizes.skip(n).take(0) =~= Seq::empty());
    }
}

/// Every packed stream that the writer has written lies in the finished archive where the header
/// says, and has the checksum that the header gives it.
pub proof fn law_packed_streams_are_where_the_header_says(
    m: WriterModel,
    e: EncodedModel,
    before: Seq<u8>,
    sent: Seq<u8>,
    k: int,
)
    requires
        m.ok(),
        has_sent(m, before, sent),
        writer::finished_end(m, e) <= u64::MAX,
        writer::finished_header(m, e).len() < 0x1_0000_0000,
        m.found <= k < m.pack.sizes.len(),
    ensures
        ({
            let start = SIGNATURE_HEADER_SIZE + m.pack.pos + streams_reader::total(
                m.pack.sizes.take(k),
            );
            &&& start + m.pack.sizes[k] <= whole(m, e, before, sent).len()
            &&& checksum::crc32(
                whole(m, e, before, sent).subrange(start, start + m.pack.sizes[k]),
            ) == m.pack.crcs[k]
        }),
{
    let found = m.found as int;
    let sizes = m.pack.sizes.skip(found);
    let crcs = m.pack.crcs.skip(found);
    let n = m.pack.sizes.len() as int;
    law_signature_leads_to_the_header(m, e, before, sent);
    lemma_stream_at(m.written, sizes, crcs, k - found);
    lemma_streams_len(m.written, sizes, crcs);
    lemma_total_split(m.pack.sizes, found, k);
    lemma_total_split(m.pack.sizes, found, n);
    assert(m.pack.sizes.take(n) =~= m.pack.sizes);
    assert(sizes.take(n - found) =~= sizes);
    let a = whole(m, e, before, sent);
    let at = streams_reader::total(sizes.take(k - found)) as int;
    let from = SIGNATURE_HEADER_SIZE + before.len();
    let held = a.subrange(from, m.position as int);
    assert(held.subrange(at, at + sizes[k - found]) =~= a.subrange(
        from + at,
        from + at + sizes[k - found],
    ));
}

/// Whatever follows a readable archive, it reads as it does without: what is added goes behind
/// everything, so an archive whose end is only partly written, with its signature header not yet
/// replaced, reads as it did before.
pub proof fn law_more_behind_an_archive_changes_nothing(archive: Seq<u8>, more: Seq<u8>)
    requires
        find_header(archive) is Some,
    ensures
        find_header(archive + more) == find_header(archive),
        read_archive(archive + more) == read_archive(archive),
{
    reveal(find_header);
    reveal(header::read_start);
    let a = archive + more;
    assert(a.take(8) =~= archive.take(8));
    assert(a.subrange(8, 12) =~= archive.subrange(8, 12));
    assert(a.subrange(12, 32) =~= archive.subrange(12, 32));
    assert(a.subrange(12, 20) =~= archive.subrange(12, 20));
    assert(a.subrange(20, 28) =~= archive.subrange(20, 28));
    assert(a.subrange(28, 32) =~= archive.subrange(28, 32));
    let s = header::read_start(archive)->0;
    let from = SIGNATURE_HEADER_SIZE + s.offset;
    assert(a.subrange(from as int, from + s.size) =~= archive.subrange(
        from as int,
        from + s.size,
    ));
}

/// What is pushed goes behind what is there: the packed streams that there were stay where they are,
/// with what is known of them, and so do their bytes, the members and the blocks.
pub proof fn law_pushing_keeps_what_is_there(
    m: WriterModel,
    entry: ArchiveEntry,
    size: u64,
    crc: u32,
    e: EncodedModel,
    b: PreparedModel,
)
    ensures
        goes_on(m, writer::with_empty_entry(m, entry)),
        goes_on(m, writer::with_entry(m, entry, size, crc, e)),
        goes_on(m, writer::with_block(m, b)),
{
    assert(m.files + b.entries =~= (m.files + b.entries).take(m.files.len() as int) + b.entries);
    lemma_streams_go_on(m, b.packed);
    lemma_blocks_kept(m, b.packed);
}

/// What a block is long, which can be told before it is appended, is how much longer the archive
/// grows with it.
pub proof fn law_archive_grows_by_the_compressed_length(m: WriterModel, b: PreparedModel)
    ensures
        ({
            let n = writer::with_block(m, b);
            &&& n.output.len() == m.output.len() + prepared::packed_len(b.packed)
            &&& n.written.len() == m.written.len() + prepared::packed_len(b.packed)
            &&& m.position + prepared::packed_len(b.packed) <= u64::MAX ==> n.position == m.position
                + prepared::packed_len(b.packed)
        }),
{
    lemma_streams_grow(m, b.packed);
}

/// Packed streams are as long as they are together.
pub proof fn lemma_streams_grow(m: WriterModel, packed: Seq<(Seq<u8>, u32)>)
    ensures
        ({
            let n = writer::with_streams(m, packed);
            &&& n.output.len() == m.output.len() + prepared::packed_len(packed)
            &&& n.written.len() == m.written.len() + prepared::packed_len(packed)
            &&& m.position + prepared::packed_len(packed) <= u64::MAX ==> n.position == m.position
                + prepared::packed_len(packed)
        }),
    decreases packed.len(),
{
    if packed.len() > 0 {
        lemma_streams_grow(m, packed.drop_last());
    }
}

/// Whether one writer is another that has gone on.
pub open spec fn goes_on(m: WriterModel, n: WriterModel) -> bool {
    &&& m.files.is_prefix_of(n.files)
    &&& m.blocks.is_prefix_of(n.blocks)
    &&& streams_go_on(m, n)
}

/// Whether the packed streams of one writer are those of another, and more behind them.
pub open spec fn streams_go_on(m: WriterModel, n: WriterModel) -> bool {
    &&& m.pack.pos == n.pack.pos
    &&& m.found == n.found
    &&& m.pack.sizes.is_prefix_of(n.pack.sizes)
    &&& m.pack.crcs.is_prefix_of(n.pack.crcs)
    &&& m.written.is_prefix_of(n.written)
}

/// What is written goes behind what there was.
pub proof fn lemma_streams_go_on(m: WriterModel, packed: Seq<(Seq<u8>, u32)>)
    ensures
        streams_go_on(m, writer::with_streams(m, packed)),
    decreases packed.len(),
{
    if packed.len() > 0 {
        lemma_streams_go_on(m, packed.drop_last());
    }
}

/// How long the members with data are and their checksums, in their order.
pub open spec fn stored(files: Seq<ArchiveEntry>) -> Seq<(u64, u64)>
    decreases files.len(),
{
    if files.len() == 0 {
        Seq::empty()
    } else if files.last().has_stream {
        stored(files.drop_last()).push((files.last().size, files.last().crc))
    } else {
        stored(files.drop_last())
    }
}

/// How long the files of blocks are and their checksums, in their order.
pub open spec fn unpacked(blocks: Seq<BlockModel>) -> Seq<(u64, u64)>
    decreases blocks.len(),
{
    if blocks.len() == 0 {
        Seq::empty()
    } else {
        let b = streams_reader::listed_block(blocks.last());
        unpacked(blocks.drop_last()) + Seq::new(
            b.num_files as nat,
            |i: int| (b.file_sizes[i], b.file_crcs[i] as u64),
        )
    }
}

/// Whether the members with data are the files of the blocks, one for one in their order, with the
/// same lengths and checksums.
pub open spec fn members_match(m: WriterModel) -> bool {
    stored(m.files) == unpacked(m.blocks)
}

proof fn lemma_stored(files: Seq<ArchiveEntry>, more: Seq<ArchiveEntry>)
    ensures
        stored(files + more) == stored(files) + stored(more),
    decreases more.len(),
{
    let all = files + more;
    if more.len() == 0 {
        assert(all =~= files);
        assert(stored(files) + stored(more) =~= stored(files));
    } else {
        lemma_stored(files, more.drop_last());
        assert(all.drop_last() =~= files + more.drop_last());
        assert(stored(all) =~= stored(files) + stored(more));
    }
}

proof fn lemma_stored_all(files: Seq<ArchiveEntry>)
    requires
        forall|i: int| 0 <= i < files.len() ==> (#[trigger] files[i]).has_stream,
    ensures
        stored(files) == Seq::new(files.len(), |i: int| (files[i].size, files[i].crc)),
    decreases files.len(),
{
    let pairs = Seq::new(files.len(), |i: int| (files[i].size, files[i].crc));
    if files.len() > 0 {
        lemma_stored_all(files.drop_last());
        assert(stored(files) =~= pairs);
    } else {
        assert(stored(files) =~= pairs);
    }
}

/// In a new archive the members with data match the files of the blocks: there are none.
pub proof fn law_new_archive_matches()
    ensures
        members_match(writer::fresh()),
{
}

/// Adding a member without data keeps the members matching the blocks.
pub proof fn law_empty_entry_keeps_matching(m: WriterModel, entry: ArchiveEntry)
    requires
        members_match(m),
    ensures
        members_match(writer::with_empty_entry(m, entry)),
{
    let n = writer::with_empty_entry(m, entry);
    assert(n.files.drop_last() =~= m.files);
}

/// Adding a member with data in a block of its own keeps the members matching the blocks.
pub proof fn law_entry_keeps_matching(
    m: WriterModel,
    entry: ArchiveEntry,
    size: u64,
    crc: u32,
    e: EncodedModel,
)
    requires
        members_match(m),
        e.sizes.len() > 0,
        e.sizes.last() == size,
    ensures
        members_match(writer::with_entry(m, entry, size, crc, e)),
{
    let n = writer::with_entry(m, entry, size, crc, e);
    assert(n.files.drop_last() =~= m.files);
    assert(n.blocks.drop_last() =~= m.blocks);
    assert(stored(n.files) =~= unpacked(n.blocks));
}

/// Whether the members of a block are its files: each is marked as having data, and carries the
/// length and the checksum that the block has for it. A member that is not so marked would leave a
/// file of the block that no member stands for.
pub open spec fn block_matches(b: PreparedModel) -> bool {
    &&& b.file_sizes.len() == b.entries.len()
    &&& b.file_crcs.len() == b.entries.len()
    &&& b.entries.len() <= u64::MAX
    &&& b.entries.len() == 1 ==> b.file_sizes[0] == b.sizes.last() && b.file_crcs[0] == b.crc
    &&& forall|i: int|
        0 <= i < b.entries.len() ==> (#[trigger] b.entries[i]).has_stream && b.entries[i].size
            == b.file_sizes[i] && b.entries[i].crc == b.file_crcs[i] as u64
}

/// Whether all members are marked as having data.
pub open spec fn all_stored(entries: Seq<ArchiveEntry>) -> bool {
    forall|i: int| 0 <= i < entries.len() ==> (#[trigger] entries[i]).has_stream
}

/// Appending a block keeps the members matching the blocks.
pub proof fn law_block_keeps_matching(m: WriterModel, b: PreparedModel)
    requires
        members_match(m),
        block_matches(b),
    ensures
        members_match(writer::with_block(m, b)),
{
    let n = writer::with_block(m, b);
    lemma_stored(m.files, b.entries);
    lemma_stored_all(b.entries);
    lemma_blocks_kept(m, b.packed);
    assert(n.blocks.drop_last() =~= m.blocks);
    assert(stored(n.files) =~= unpacked(n.blocks));
}

/// What one source holds is all there is.
pub proof fn lemma_single_content(readers: Seq<SourceReader>)
    requires
        readers.len() == 1,
    ensures
        source_reader::all_content(readers) == readers[0].content@,
{
    reveal_with_fuel(source_reader::all_content, 2);
    assert(readers.drop_last() =~= Seq::empty());
    assert(source_reader::all_content(readers) =~= readers[0].content@);
}

/// The members of a block behind a chain of coders are its files.
pub proof fn law_solid_block_matches(
    methods: Seq<EncoderConfiguration>,
    entries: Seq<ArchiveEntry>,
    readers: Seq<SourceReader>,
)
    requires
        all_stored(entries),
        entries.len() == readers.len(),
        entries.len() <= u64::MAX,
        encoder::stages(methods, source_reader::all_content(readers)) is Some,
    ensures
        block_matches(prepared::solid_of(methods, entries, readers)),
{
    encoder::law_each_coder_takes_the_stage_behind_it(methods, source_reader::all_content(readers));
    if entries.len() == 1 {
        lemma_single_content(readers);
    }
}

/// The members of a block behind BCJ2 are its files.
pub proof fn law_bcj2_block_matches(
    methods: Bcj2Methods,
    aes: Option<Bcj2Aes>,
    entries: Seq<ArchiveEntry>,
    readers: Seq<SourceReader>,
)
    requires
        all_stored(entries),
        entries.len() == readers.len(),
        entries.len() <= u64::MAX,
    ensures
        block_matches(prepared::bcj2_of(methods, aes, entries, readers)),
{
    if entries.len() == 1 {
        lemma_single_content(readers);
    }
}

/// Adding to an archive whose members match its blocks keeps them matching, and what is added goes
/// behind everything: behind the packed streams, which stay, and what lies behind them.
pub proof fn law_append_keeps_matching(a: Archive, gap: Seq<u8>, before: Seq<u8>)
    requires
        append::archive_ok(a),
        stored(a.files@) == unpacked(a.unpack_info@),
        SIGNATURE_HEADER_SIZE + before.len() == append::packed_end_of(a.pack_info@),
        append::packed_end_of(a.pack_info@) + gap.len() <= u64::MAX,
    ensures
        members_match(append::behind_archive(a, gap)),
        has_sent(append::behind_archive(a, gap), before, gap),
        append::behind_archive(a, gap).position == SIGNATURE_HEADER_SIZE + before.len()
            + gap.len(),
{
    let m = append::behind_streams(a);
    let b = append::gap_block(gap);
    if gap.len() > 0 {
        law_block_keeps_matching(m, b);
        reveal_with_fuel(writer::with_streams, 2);
        assert(b.packed.drop_last() =~= Seq::empty());
    }
    let n = append::behind_archive(a, gap);
    assert(n.written =~= gap);
    assert(gap + n.output =~= gap);
}

/// In a new archive nothing lies before what is written.
pub proof fn law_new_archive_starts_behind_the_signature_header()
    ensures
        has_sent(writer::fresh(), Seq::empty(), Seq::empty()),
{
    let m = writer::fresh();
    assert(m.written =~= Seq::empty() + m.output);
}

proof fn lemma_blocks_kept(m: WriterModel, packed: Seq<(Seq<u8>, u32)>)
    ensures
        writer::with_streams(m, packed).blocks == m.blocks,
        writer::with_streams(m, packed).files == m.files,
    decreases packed.len(),
{
    if packed.len() > 0 {
        lemma_blocks_kept(m, packed.drop_last());
    }
}

} // verus!
