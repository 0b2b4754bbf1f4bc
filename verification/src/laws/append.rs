//! Adding to an archive that is already written.

use crate::archive::ArchiveEntry;
use crate::checksum;
use crate::encoder_options::{EncoderConfiguration, EncoderMethod};
use crate::writer;
use crate::writer::append;
use crate::writer::append::Archive;
use crate::writer::header::HeaderRead;
use crate::writer::history;
use crate::writer::pack_info::PackModel;
use crate::writer::reader;
use crate::writer::streams_reader;
use crate::writer::unpack_info::{BlockModel, CoderModel};
use crate::writer::WriterModel;
use vstd::prelude::*;

verus! {

/// An archive is refused for a missing checksum exactly where a member with data has none.
pub proof fn law_only_data_without_a_checksum_is_refused(files: Seq<ArchiveEntry>)
    ensures
        !append::has_crcs(files) <==> exists|i: int|
            0 <= i < files.len() && (#[trigger] files[i]).has_stream && !files[i].has_crc,
{
}

/// Members without data do not decide whether an archive is refused for a missing checksum: whatever
/// else is known of them, two archives that agree on which members have data, and for those on whether
/// the checksum is known, fare alike.
pub proof fn law_members_without_data_do_not_decide(
    files: Seq<ArchiveEntry>,
    others: Seq<ArchiveEntry>,
)
    requires
        files.len() == others.len(),
        forall|i: int|
            0 <= i < files.len() ==> (#[trigger] files[i]).has_stream == others[i].has_stream && (
            files[i].has_stream ==> files[i].has_crc == others[i].has_crc),
    ensures
        append::has_crcs(files) == append::has_crcs(others),
{
    if append::has_crcs(files) {
        assert forall|i: int| 0 <= i < others.len() && (
        #[trigger] others[i]).has_stream implies others[i].has_crc by {
            assert(files[i].has_stream == others[i].has_stream);
        }
    } else {
        let i = choose|i: int|
            0 <= i < files.len() && (#[trigger] files[i]).has_stream && !files[i].has_crc;
        assert(others[i].has_stream && !others[i].has_crc);
    }
}

/// Whether an archive is what a reader makes of a header: the packed streams, the blocks and the
/// members that it lists; and the checksum is known of every member with data. Of the others it may
/// be known or not.
pub open spec fn is_found(a: Archive, head: HeaderRead) -> bool {
    &&& a.pack_info@ == head.streams.pack
    &&& a.unpack_info@ == head.streams.blocks
    &&& a.files@.len() == head.files.len()
    &&& forall|i: int|
        0 <= i < a.files@.len() ==> (#[trigger] a.files@[i]).name@ == head.files[i].name
            && a.files@[i].has_stream == head.files[i].has_stream && (head.files[i].has_stream
            ==> a.files@[i].has_crc)
}

/// Whatever was pushed onto a writer, members without data among it, the archive that a reader finds
/// in what it has written can be added to: no member with data lacks its checksum, and the archive is
/// described in full.
pub proof fn law_every_archive_can_be_added_to(m: WriterModel, a: Archive)
    requires
        m.ok(),
        is_found(a, history::head_of(m)),
    ensures
        append::has_crcs(a.files@),
        append::archive_ok(a),
        append::packed_end_of(a.pack_info@) == m.position,
{
    let shown = streams_reader::listed_blocks(m.blocks);
    assert forall|i: int| 0 <= i < shown.len() implies streams_reader::block_ok(
        #[trigger] shown[i],
    ) by {
        assert(streams_reader::block_ok(m.blocks[i]));
    }
    history::lemma_listed_count(m.blocks, m.blocks.len() as int);
    assert(shown.take(shown.len() as int) =~= shown);
    assert(m.blocks.take(m.blocks.len() as int) =~= m.blocks);
}

/// The packed streams of an archive end behind the 32 bytes of the signature header, where they start
/// behind it, and all of them.
pub proof fn law_where_the_packed_streams_end(pack: PackModel, more: u64, crc: u32)
    ensures
        append::packed_end_of(PackModel { sizes: Seq::empty(), ..pack }) == 32 + pack.pos,
        append::packed_end_of(
            PackModel { sizes: pack.sizes.push(more), crcs: pack.crcs.push(crc), ..pack },
        ) == append::packed_end_of(pack) + more,
{
    assert(pack.sizes.push(more).drop_last() =~= pack.sizes);
}

/// A writer that adds to an archive starts with what is in it, goes on behind it, has handed nothing
/// on, and compresses with LZMA2 until told otherwise. What lies behind the packed streams becomes one
/// packed stream more, of a block that holds it as it is and has no file.
pub proof fn law_adding_starts_from_what_is_there(a: Archive, gap: Seq<u8>)
    requires
        append::packed_end_of(a.pack_info@) + gap.len() <= u64::MAX,
    ensures
        ({
            let m = append::behind_archive(a, gap);
            &&& m.files == a.files@
            &&& m.pack.pos == a.pack_info@.pos
            &&& m.position == append::packed_end_of(a.pack_info@) + gap.len()
            &&& m.found == a.pack_info@.sizes.len()
            &&& m.written == gap
            &&& m.output.len() == 0
            &&& m.encrypt_header
            &&& m.methods == seq![
                EncoderConfiguration { method: EncoderMethod::LZMA2, options: None },
            ]
            &&& gap.len() == 0 ==> m.pack == a.pack_info@ && m.blocks == a.unpack_info@
            &&& gap.len() > 0 ==> {
                let b = m.blocks.last();
                &&& m.blocks.drop_last() == a.unpack_info@
                &&& m.blocks.len() == a.unpack_info@.len() + 1
                &&& m.pack.sizes == a.pack_info@.sizes.push(gap.len() as u64)
                &&& m.pack.crcs == a.pack_info@.crcs.push(checksum::crc32(gap))
                &&& b.num_files == 0
                &&& b.file_sizes.len() == 0
                &&& b.file_crcs.len() == 0
                &&& b.sizes == seq![gap.len() as u64]
                &&& b.crc == checksum::crc32(gap)
                &&& b.folder.coders.len() == 1
                &&& b.folder.coders[0].id == seq![0x00u8]
                &&& b.folder.coders[0].properties.len() == 0
            }
        }),
{
    let m = append::behind_archive(a, gap);
    if gap.len() > 0 {
        let b = append::gap_block(gap);
        reveal_with_fuel(writer::with_streams, 2);
        assert(b.packed.drop_last() =~= Seq::empty());
        assert(a.files@ + b.entries =~= a.files@);
        assert(m.blocks.drop_last() =~= a.unpack_info@);
    }
    assert(m.written =~= gap);
}

/// A new writer holds nothing, goes on behind the 32 bytes of the signature header, compresses with
/// LZMA2 until told otherwise, and encrypts the header where the data is.
pub proof fn law_new_writer_holds_nothing()
    ensures
        ({
            let m = writer::fresh();
            &&& m.position == 32
            &&& m.written.len() == 0
            &&& m.output.len() == 0
            &&& m.found == 0
            &&& m.files.len() == 0
            &&& m.blocks.len() == 0
            &&& m.pack.pos == 0
            &&& m.pack.sizes.len() == 0
            &&& m.pack.crcs.len() == 0
            &&& m.encrypt_header
            &&& m.methods == seq![
                EncoderConfiguration { method: EncoderMethod::LZMA2, options: None },
            ]
        }),
{
}

/// In a writer that has gone on from another, all that there was is there, where it was.
pub proof fn law_what_there_was_stays(m: WriterModel, n: WriterModel, i: int)
    requires
        reader::goes_on(m, n),
        i >= 0,
    ensures
        i < m.files.len() ==> i < n.files.len() && n.files[i] == m.files[i],
        i < m.blocks.len() ==> i < n.blocks.len() && n.blocks[i] == m.blocks[i],
        i < m.pack.sizes.len() ==> i < n.pack.sizes.len() && n.pack.sizes[i] == m.pack.sizes[i],
        i < m.pack.crcs.len() ==> i < n.pack.crcs.len() && n.pack.crcs[i] == m.pack.crcs[i],
        i < m.written.len() ==> i < n.written.len() && n.written[i] == m.written[i],
        m.pack.pos == n.pack.pos,
        m.found == n.found,
{
}

/// A block is described in full where what stands for each coder takes fifteen bytes at most; there is a
/// bond less than there are coders, and each input has a bond or a packed stream; a single packed stream
/// goes into the one input without a bond; there is a length for each coder; and unless it is one file,
/// there are a length and a checksum for each file, and the lengths add up.
pub proof fn law_what_is_said_of_a_block_in_full(b: BlockModel)
    ensures
        streams_reader::block_ok(b) <==> {
            let f = b.folder;
            let n = f.coders.len();
            let free = |i: int|
                0 <= i < streams_reader::total_in(f.coders) && forall|k: int|
                    0 <= k < f.bonds.len() ==> (#[trigger] f.bonds[k]).0 != i;
            &&& forall|i: int|
                0 <= i < n ==> (#[trigger] f.coders[i]).id.len() <= 15 && f.coders[i].properties.len()
                    <= 0xFFFF_FFFF_FFFF_FFFF
            &&& 1 <= n <= 0xFFFF_FFFF_FFFF_FFFF
            &&& f.bonds.len() == n - 1
            &&& f.packed.len() >= 1
            &&& f.packed.len() + f.bonds.len() == streams_reader::total_in(f.coders)
            &&& f.packed.len() == 1 ==> free(f.packed[0] as int) && forall|i: int| #[trigger]
                free(i) ==> i == f.packed[0]
            &&& b.sizes.len() == n
            &&& b.num_files == 1 ==> b.file_sizes.len() <= 1
            &&& b.num_files != 1 ==> b.file_sizes.len() == b.num_files && b.file_crcs.len()
                == b.num_files
            &&& b.num_files > 1 ==> streams_reader::total(b.file_sizes) == b.sizes.last()
        },
{
    let f = b.folder;
    let free = |i: int|
        0 <= i < streams_reader::total_in(f.coders) && forall|k: int|
            0 <= k < f.bonds.len() ==> (#[trigger] f.bonds[k]).0 != i;
    assert forall|i: int| #[trigger] free(i) == streams_reader::is_free(f, i) by {}
    if streams_reader::folder_ok(f) && f.packed.len() == 1 {
        assert(free(f.packed[0] as int));
        assert forall|i: int| #[trigger] free(i) implies i == f.packed[0] by {
            assert(streams_reader::is_free(f, i));
        }
    }
    if f.packed.len() == 1 && free(f.packed[0] as int) && (forall|i: int| #[trigger]
        free(i) ==> i == f.packed[0]) {
        assert forall|i: int| #[trigger] streams_reader::is_free(f, i) implies i == f.packed[0] by {
            assert(free(i));
        }
    }
    assert(streams_reader::coders_ok(f.coders) <==> forall|i: int|
        0 <= i < f.coders.len() ==> (#[trigger] f.coders[i]).id.len() <= 15
            && f.coders[i].properties.len() <= 0xFFFF_FFFF_FFFF_FFFF) by {
        if streams_reader::coders_ok(f.coders) {
            assert forall|i: int| 0 <= i < f.coders.len() implies (
            #[trigger] f.coders[i]).id.len() <= 15 && f.coders[i].properties.len()
                <= 0xFFFF_FFFF_FFFF_FFFF by {
                assert(streams_reader::coder_ok(f.coders[i]));
            }
        }
    }
}

/// Lengths add up, and so do inputs and the packed streams of blocks.
pub proof fn law_what_adds_up(
    sizes: Seq<u64>,
    size: u64,
    coders: Seq<CoderModel>,
    coder: CoderModel,
    blocks: Seq<BlockModel>,
    block: BlockModel,
)
    ensures
        streams_reader::total(Seq::empty()) == 0,
        streams_reader::total(sizes.push(size)) == streams_reader::total(sizes) + size,
        streams_reader::total_in(Seq::empty()) == 0,
        streams_reader::total_in(coders.push(coder)) == streams_reader::total_in(coders)
            + coder.num_in,
        writer::packed_count(Seq::empty()) == 0,
        writer::packed_count(blocks.push(block)) == writer::packed_count(blocks)
            + block.folder.packed.len(),
{
    assert(sizes.push(size).drop_last() =~= sizes);
    assert(coders.push(coder).drop_last() =~= coders);
    assert(blocks.push(block).drop_last() =~= blocks);
}

/// An archive is described in full where there is a checksum for each packed stream, each block is
/// described in full, each packed stream belongs to a block, and they end where 64 bits can tell. One
/// without a packed stream has no block.
pub proof fn law_what_is_said_of_an_archive_in_full(a: Archive)
    ensures
        append::archive_ok(a) <==> {
            let pack = a.pack_info@;
            let blocks = a.unpack_info@;
            &&& pack.sizes.len() == pack.crcs.len()
            &&& pack.sizes.len() <= 0xFFFF_FFFF_FFFF_FFFF
            &&& blocks.len() <= 0xFFFF_FFFF_FFFF_FFFF
            &&& forall|i: int|
                0 <= i < blocks.len() ==> streams_reader::block_ok(#[trigger] blocks[i])
            &&& writer::packed_count(blocks) == pack.sizes.len()
            &&& pack.sizes.len() == 0 ==> pack.pos == 0 && blocks.len() == 0
            &&& append::packed_end_of(pack) <= 0xFFFF_FFFF_FFFF_FFFF
        },
{
}

} // verus!
