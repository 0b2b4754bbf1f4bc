//! Adding to an archive that is already written.

use crate::archive::{ArchiveEntry, SIGNATURE_HEADER_SIZE};
use crate::checksum;
use crate::encoder_options::{EncoderConfiguration, EncoderMethod};
use crate::error::Error;
use crate::writer;
use crate::writer::header;
use crate::writer::pack_info::{PackInfo, PackModel};
use crate::writer::prepared;
use crate::writer::prepared::{PreparedBlock, PreparedModel};
use crate::writer::streams_reader;
use crate::writer::unpack_info;
use crate::writer::unpack_info::{
    BlockInfo, BlockModel, Folder, GraphCoder, UnpackInfo,
};
use crate::writer::{ArchiveWriter, WriterModel};
use std::sync::Arc;
use vstd::prelude::*;

verus! {

/// What a reader has found in an archive.
#[derive(Debug)]
pub struct Archive {
    /// The members.
    pub files: Vec<ArchiveEntry>,
    /// The packed streams.
    pub pack_info: PackInfo,
    /// The blocks.
    pub unpack_info: UnpackInfo,
}

/// Where the packed streams of an archive end.
pub open spec fn packed_end_of(pack: PackModel) -> nat {
    SIGNATURE_HEADER_SIZE as nat + pack.pos as nat + streams_reader::total(pack.sizes)
}

/// Whether an archive is described in full, and its packed streams are those of its blocks.
pub open spec fn archive_ok(a: Archive) -> bool {
    &&& header::streams_ok(a.pack_info@, a.unpack_info@)
    &&& writer::packed_count(a.unpack_info@) == a.pack_info@.sizes.len()
    &&& packed_end_of(a.pack_info@) <= u64::MAX
}

/// Whether the checksum of every member with data is known.
pub open spec fn has_crcs(files: Seq<ArchiveEntry>) -> bool {
    forall|i: int| 0 <= i < files.len() ==> (#[trigger] files[i]).has_stream ==> files[i].has_crc
}

/// A block for what lies between the packed streams and the end of the archive, so that the packed
/// streams go on there: it is kept as it is, and no file is in it.
pub open spec fn gap_block(gap: Seq<u8>) -> PreparedModel {
    PreparedModel {
        packed: seq![(gap, checksum::crc32(gap))],
        entries: Seq::empty(),
        folder: unpack_info::chain_folder(
            seq![EncoderConfiguration { method: EncoderMethod::COPY, options: None }],
        ),
        sizes: seq![gap.len() as u64],
        crc: checksum::crc32(gap),
        file_sizes: Seq::empty(),
        file_crcs: Seq::empty(),
    }
}

/// A writer that goes on behind the packed streams of an archive.
pub open spec fn behind_streams(a: Archive) -> WriterModel {
    WriterModel {
        position: packed_end_of(a.pack_info@) as u64,
        found: a.pack_info@.sizes.len(),
        files: a.files@,
        pack: a.pack_info@,
        blocks: a.unpack_info@,
        ..writer::fresh()
    }
}

/// A writer that goes on behind an archive, of which so much lies behind the packed streams.
pub open spec fn behind_archive(a: Archive, gap: Seq<u8>) -> WriterModel {
    if gap.len() == 0 {
        behind_streams(a)
    } else {
        WriterModel {
            output: Seq::empty(),
            ..writer::with_block(behind_streams(a), gap_block(gap))
        }
    }
}

/// The sum of some sizes is no more than that of all.
proof fn lemma_total(sizes: Seq<u64>, n: int)
    requires
        0 <= n <= sizes.len(),
    ensures
        streams_reader::total(sizes.take(n)) <= streams_reader::total(sizes),
    decreases sizes.len(),
{
    if n == sizes.len() {
        assert(sizes.take(n) =~= sizes);
    } else {
        lemma_total(sizes.drop_last(), n);
        assert(sizes.drop_last().take(n) =~= sizes.take(n));
    }
}

/// Where the packed streams of an archive end, if 64 bits can tell.
fn end_of(pack: &PackInfo) -> (r: Option<u64>)
    ensures
        r == if packed_end_of(pack@) <= u64::MAX {
            Some(packed_end_of(pack@) as u64)
        } else {
            None
        },
{
    if pack.pos > u64::MAX - SIGNATURE_HEADER_SIZE {
        return None;
    }
    let mut end: u64 = SIGNATURE_HEADER_SIZE + pack.pos;
    let mut i: usize = 0;
    while i < pack.sizes.len()
        invariant
            i <= pack.sizes@.len(),
            end == SIGNATURE_HEADER_SIZE + pack.pos + streams_reader::total(
                pack.sizes@.take(i as int),
            ),
        decreases pack.sizes@.len() - i,
    {
        proof {
            lemma_total(pack.sizes@, i + 1);
            assert(pack.sizes@.take(i + 1).drop_last() =~= pack.sizes@.take(i as int));
        }
        if pack.sizes[i] > u64::MAX - end {
            return None;
        }
        end = end + pack.sizes[i];
        i = i + 1;
    }
    assert(pack.sizes@.take(pack.sizes@.len() as int) =~= pack.sizes@);
    Some(end)
}

/// Whether an input takes an output.
fn is_bound(bonds: &Vec<(u64, u64)>, input: u64) -> (r: bool)
    ensures
        r == streams_reader::bound(bonds@, input as int),
{
    let mut i: usize = 0;
    while i < bonds.len()
        invariant
            i <= bonds@.len(),
            forall|k: int| 0 <= k < i ==> (#[trigger] bonds@[k]).0 != input,
        decreases bonds@.len() - i,
    {
        if bonds[i].0 == input {
            assert(bonds@[i as int].0 == input);
            return true;
        }
        i = i + 1;
    }
    false
}

/// How many inputs coders have together.
fn count_inputs(coders: &Vec<GraphCoder>) -> (r: u128)
    ensures
        r == streams_reader::total_in(coders@.map_values(|c: GraphCoder| c@)),
{
    let ghost all = coders@.map_values(|c: GraphCoder| c@);
    let mut count: u128 = 0;
    let mut i: usize = 0;
    while i < coders.len()
        invariant
            i <= coders@.len(),
            all == coders@.map_values(|c: GraphCoder| c@),
            count == streams_reader::total_in(all.take(i as int)),
            count <= i * 0xFFFF_FFFF_FFFF_FFFF,
        decreases coders@.len() - i,
    {
        assert(all.take(i + 1).drop_last() =~= all.take(i as int));
        assert(all.take(i + 1).last() == coders@[i as int]@);
        count = count + coders[i].num_in_streams as u128;
        i = i + 1;
    }
    assert(all.take(all.len() as int) =~= all);
    count
}

/// Whether what stands for the methods of coders has room in the header.
fn check_coders(coders: &Vec<GraphCoder>) -> (r: bool)
    ensures
        r == streams_reader::coders_ok(coders@.map_values(|c: GraphCoder| c@)),
{
    let ghost all = coders@.map_values(|c: GraphCoder| c@);
    let mut i: usize = 0;
    while i < coders.len()
        invariant
            i <= coders@.len(),
            all == coders@.map_values(|c: GraphCoder| c@),
            forall|k: int| 0 <= k < i ==> streams_reader::coder_ok(#[trigger] all[k]),
        decreases coders@.len() - i,
    {
        assert(all[i as int] == coders@[i as int]@);
        let n: usize = coders[i].properties.len();
        assert(all[i as int].properties.len() == n);
        if coders[i].id.len() > 15 {
            assert(!streams_reader::coder_ok(all[i as int]));
            return false;
        }
        i = i + 1;
    }
    true
}

/// Whether a single packed stream goes to the one input that takes no output.
fn check_single(inputs: u64, bonds: &Vec<(u64, u64)>, packed: u64) -> (r: bool)
    ensures
        r == (packed < inputs && !streams_reader::bound(bonds@, packed as int) && forall|i: int|
            0 <= i < inputs && !#[trigger] streams_reader::bound(bonds@, i) ==> i == packed),
{
    if packed >= inputs || is_bound(bonds, packed) {
        return false;
    }
    let mut i: u64 = 0;
    while i < inputs
        invariant
            i <= inputs,
            forall|k: int|
                0 <= k < i && !#[trigger] streams_reader::bound(bonds@, k) ==> k == packed,
        decreases inputs - i,
    {
        if i != packed && !is_bound(bonds, i) {
            assert(!streams_reader::bound(bonds@, i as int));
            return false;
        }
        i = i + 1;
    }
    true
}

/// Whether coders are wired into one.
fn check_folder(folder: &Folder) -> (r: bool)
    ensures
        r == streams_reader::folder_ok(folder@),
{
    match folder {
        Folder::Chain(methods) => {
            let n: usize = methods.len();
            if n > 0 {
                proof {
                    header::law_chain_is_wired(methods@);
                }
                true
            } else {
                false
            }
        },
        Folder::Graph { coders, bind_pairs, packed_streams } => {
            let ghost f = folder@;
            let inputs: u128 = count_inputs(coders);
            let num_coders: usize = coders.len();
            let num_bonds: usize = bind_pairs.len();
            let num_packed: usize = packed_streams.len();
            if !check_coders(coders) || num_coders == 0 || num_bonds != num_coders - 1 || num_packed
                == 0 || inputs != num_packed as u128 + num_bonds as u128 {
                return false;
            }
            if num_packed > 1 {
                return true;
            }
            let single: bool = check_single(inputs as u64, bind_pairs, packed_streams[0]);
            proof {
                let p = f.packed[0] as int;
                if single {
                    assert(streams_reader::is_free(f, p));
                    assert forall|i: int| #[trigger] streams_reader::is_free(f, i) implies i
                        == p by {
                        assert(!streams_reader::bound(f.bonds, i));
                    }
                } else if streams_reader::folder_ok(f) {
                    assert(streams_reader::is_free(f, p));
                    let i = choose|i: int|
                        0 <= i < inputs && !(#[trigger] streams_reader::bound(f.bonds, i)) && i
                            != p;
                    assert(streams_reader::is_free(f, i));
                }
            }
            single
        },
    }
}

/// Whether sizes add up to a number.
fn adds_up(sizes: &Vec<u64>, whole: u64) -> (r: bool)
    ensures
        r == (streams_reader::total(sizes@) == whole),
{
    let mut left: u64 = whole;
    let mut i: usize = 0;
    while i < sizes.len()
        invariant
            i <= sizes@.len(),
            left == whole - streams_reader::total(sizes@.take(i as int)),
        decreases sizes@.len() - i,
    {
        proof {
            lemma_total(sizes@, i + 1);
            assert(sizes@.take(i + 1).drop_last() =~= sizes@.take(i as int));
        }
        if sizes[i] > left {
            return false;
        }
        left = left - sizes[i];
        i = i + 1;
    }
    assert(sizes@.take(sizes@.len() as int) =~= sizes@);
    left == 0
}

/// Whether a block is described in full.
fn check_block(block: &BlockInfo) -> (r: bool)
    ensures
        r == streams_reader::block_ok(block@),
{
    if !check_folder(&block.folder) {
        return false;
    }
    let num_coders: usize = match &block.folder {
        Folder::Chain(methods) => methods.len(),
        Folder::Graph { coders, .. } => coders.len(),
    };
    if block.sizes.len() != num_coders {
        return false;
    }
    if block.num_sub_unpack_streams == 1 {
        return block.sub_stream_sizes.len() <= 1;
    }
    if block.sub_stream_sizes.len() as u64 != block.num_sub_unpack_streams
        || block.sub_stream_crcs.len() as u64 != block.num_sub_unpack_streams {
        return false;
    }
    block.num_sub_unpack_streams == 0 || adds_up(
        &block.sub_stream_sizes,
        block.sizes[block.sizes.len() - 1],
    )
}

/// How many packed streams some blocks have is no more than all have.
proof fn lemma_packed_count(blocks: Seq<BlockModel>, n: int)
    requires
        0 <= n <= blocks.len(),
    ensures
        writer::packed_count(blocks.take(n)) <= writer::packed_count(blocks),
    decreases blocks.len(),
{
    if n == blocks.len() {
        assert(blocks.take(n) =~= blocks);
    } else {
        lemma_packed_count(blocks.drop_last(), n);
        assert(blocks.drop_last().take(n) =~= blocks.take(n));
    }
}

/// Whether blocks are described in full, and have so many packed streams together.
fn check_blocks(unpack: &UnpackInfo, packed: usize) -> (r: bool)
    ensures
        r == (streams_reader::blocks_ok(unpack@) && writer::packed_count(unpack@) == packed),
{
    let ghost all = unpack@;
    let mut left: usize = packed;
    let mut i: usize = 0;
    while i < unpack.blocks.len()
        invariant
            i <= unpack.blocks@.len(),
            all == unpack@,
            left == packed - writer::packed_count(all.take(i as int)),
            forall|k: int| 0 <= k < i ==> streams_reader::block_ok(#[trigger] all[k]),
        decreases unpack.blocks@.len() - i,
    {
        proof {
            lemma_packed_count(all, i + 1);
            assert(all.take(i + 1).drop_last() =~= all.take(i as int));
            assert(all.take(i + 1).last() == unpack.blocks@[i as int]@);
        }
        let n: usize = match &unpack.blocks[i].folder {
            Folder::Chain(_) => 1,
            Folder::Graph { packed_streams, .. } => packed_streams.len(),
        };
        if !check_block(&unpack.blocks[i]) {
            assert(!streams_reader::block_ok(all[i as int]));
            return false;
        }
        if n > left {
            return false;
        }
        left = left - n;
        i = i + 1;
    }
    assert(all.take(all.len() as int) =~= all);
    left == 0
}

impl Archive {
    /// Whether the archive is described in full.
    pub fn is_complete(&self) -> (r: bool)
        ensures
            r == archive_ok(*self),
    {
        let n: usize = self.pack_info.sizes.len();
        let num_blocks: usize = self.unpack_info.blocks.len();
        assert(self.unpack_info@.len() == num_blocks);
        if self.pack_info.crcs.len() != n {
            return false;
        }
        if n == 0 && (self.pack_info.pos != 0 || num_blocks != 0) {
            return false;
        }
        if end_of(&self.pack_info).is_none() {
            return false;
        }
        check_blocks(&self.unpack_info, n)
    }

    /// Whether the checksum of every member with data is known.
    pub fn checks_every_file(&self) -> (r: bool)
        ensures
            r == has_crcs(self.files@),
    {
        let mut i: usize = 0;
        while i < self.files.len()
            invariant
                i <= self.files@.len(),
                forall|k: int|
                    0 <= k < i ==> (#[trigger] self.files@[k]).has_stream ==> self.files@[k].has_crc,
            decreases self.files@.len() - i,
        {
            if self.files[i].has_stream && !self.files[i].has_crc {
                assert(!has_crcs(self.files@));
                return false;
            }
            i = i + 1;
        }
        true
    }
}

/// What is said where the checksum of a member is not known. The header keeps one for every file
/// with data, so there is none to write for it.
pub open spec fn is_unchecked(e: Error) -> bool {
    e is Other && e.text() == "append_to: a file has no checksum"@
}

/// What is said where an archive is not described in full.
pub open spec fn is_incomplete(e: Error) -> bool {
    e is Other && e.text() == "append_to: the archive is not described in full"@
}

/// The block for what lies behind the packed streams can be appended.
proof fn lemma_gap(gap: Seq<u8>)
    requires
        gap.len() <= u64::MAX,
    ensures
        prepared::prepared_ok(gap_block(gap)),
{
    let b = gap_block(gap);
    header::law_chain_is_wired(
        seq![EncoderConfiguration { method: EncoderMethod::COPY, options: None }],
    );
    assert(streams_reader::block_ok(prepared::block_of(b)));
}

/// A writer that goes on behind an archive holds to what holds of every writer.
proof fn lemma_behind_streams(a: Archive)
    requires
        archive_ok(a),
    ensures
        behind_streams(a).ok(),
{
    let m = behind_streams(a);
    assert(m.pack.sizes.skip(m.found as int) =~= Seq::empty());
    assert(m.pack.crcs.skip(m.found as int) =~= Seq::empty());
    assert(m.written.skip(0) =~= m.output);
}

impl ArchiveWriter {
    /// Where the packed streams of an archive end, if 64 bits can tell.
    pub fn packed_end(archive: &Archive) -> (r: Option<u64>)
        ensures
            r == if packed_end_of(archive.pack_info@) <= u64::MAX {
                Some(packed_end_of(archive.pack_info@) as u64)
            } else {
                None
            },
    {
        end_of(&archive.pack_info)
    }

    /// A writer that adds to an archive. What is there stays where it is: what is added goes behind
    /// everything, so up to the moment that the signature header is replaced, the archive reads as
    /// it did. `gap` is what lies between the packed streams and the end of the archive.
    ///
    /// Refused are an archive with a file whose checksum is not known, and one that is not described
    /// in full.
    pub fn append_to(archive: Archive, gap: Vec<u8>) -> (r: Result<Self, Error>)
        ensures
            if !has_crcs(archive.files@) {
                r matches Err(e) && is_unchecked(e)
            } else if !archive_ok(archive) {
                r matches Err(e) && is_incomplete(e)
            } else if packed_end_of(archive.pack_info@) + gap@.len() <= u64::MAX {
                r matches Ok(w) && w@ == behind_archive(archive, gap@) && w@.ok()
            } else {
                r matches Err(e) && writer::is_too_large(e)
            },
    {
        if !archive.checks_every_file() {
            return Err(Error::other("append_to: a file has no checksum".to_string()));
        }
        let ghost found = archive;
        let end = match Self::packed_end(&archive) {
            Some(end) if archive.is_complete() => end,
            _ => {
                return Err(
                    Error::other("append_to: the archive is not described in full".to_string()),
                );
            },
        };
        let mut w = Self::going_on(archive, end);
        proof {
            lemma_behind_streams(found);
        }
        if gap.len() > 0 {
            let crc: u32 = checksum::hash(gap.as_slice());
            let size: u64 = gap.len() as u64;
            let ghost bytes = gap@;
            let folder = Folder::Chain(
                Arc::new(vec![EncoderConfiguration::new(EncoderMethod::COPY)]),
            );
            let packed = vec![(gap, crc)];
            proof {
                prepared::lemma_single_len(prepared::packed_view(packed@));
            }
            let block = PreparedBlock::from_parts(
                packed,
                Vec::new(),
                folder,
                vec![size],
                crc,
                Vec::new(),
                Vec::new(),
            );
            proof {
                let copy = EncoderConfiguration { method: EncoderMethod::COPY, options: None };
                let b = gap_block(bytes);
                assert(block@.packed =~= b.packed);
                assert(block@.entries =~= b.entries);
                assert(folder->Chain_0@ =~= seq![copy]);
                assert(block@.sizes =~= b.sizes);
                assert(block@.file_sizes =~= b.file_sizes);
                assert(block@.file_crcs =~= b.file_crcs);
                assert(block@ == b);
                lemma_gap(bytes);
                prepared::lemma_single_len(b.packed);
            }
            match w.append_block(block) {
                Ok(()) => {},
                Err(e) => return Err(e),
            }
            let _ = w.take_output();
        }
        Ok(w)
    }
}

/// Adding to an archive keeps its members, its blocks and its packed streams, where they are.
pub proof fn law_append_keeps_what_was_there(a: Archive, gap: Seq<u8>)
    ensures
        ({
            let m = behind_archive(a, gap);
            &&& m.files == a.files@
            &&& m.pack.pos == a.pack_info@.pos
            &&& a.pack_info@.sizes.is_prefix_of(m.pack.sizes)
            &&& a.pack_info@.crcs.is_prefix_of(m.pack.crcs)
            &&& a.unpack_info@.is_prefix_of(m.blocks)
            &&& m.position >= packed_end_of(a.pack_info@) || packed_end_of(a.pack_info@) + gap.len()
                > u64::MAX
            &&& m.output.len() == 0
        }),
{
    let m = behind_archive(a, gap);
    if gap.len() > 0 {
        let b = gap_block(gap);
        reveal_with_fuel(writer::with_streams, 2);
        assert(b.packed.drop_last() =~= Seq::empty());
        assert(a.files@ + b.entries =~= a.files@);
    }
}

} // verus!
