//! How a reader of the header takes the packed streams and the blocks back.

use crate::archive::{
    K_CODERS_UNPACK_SIZE, K_CRC, K_END, K_FOLDER, K_NUM_UNPACK_STREAM, K_SIZE, K_SUB_STREAMS_INFO,
    K_UNPACK_INFO,
};
use crate::wire;
use crate::writer::unpack_info;
use crate::writer::unpack_info::{BlockModel, CoderModel, FolderModel};
use vstd::prelude::*;

verus! {

/// Whether a coder can be spelt.
pub open spec fn coder_ok(c: CoderModel) -> bool {
    c.id.len() <= 15 && c.properties.len() <= u64::MAX
}

/// Reads a coder, and the bytes behind it. One with other than one output is not understood.
#[verifier::opaque]
pub open spec fn read_coder(bytes: Seq<u8>) -> Option<(CoderModel, Seq<u8>)> {
    if bytes.len() == 0 || bytes[0] >= 0x40 || bytes.len() < 1 + bytes[0] % 16 {
        None
    } else {
        let flags = bytes[0];
        let n = (flags % 16) as int;
        let id = bytes.subrange(1, 1 + n);
        let b = bytes.skip(1 + n);
        let inputs = if flags / 16 % 2 == 1 {
            match wire::read_numbers(b, 2) {
                None => None,
                Some((counts, b)) => if counts[1] == 1 {
                    Some((counts[0], b))
                } else {
                    None
                },
            }
        } else {
            Some((1u64, b))
        };
        match inputs {
            None => None,
            Some((num_in, b)) => if flags / 32 % 2 == 1 {
                match wire::read_number(b) {
                    None => None,
                    Some((len, b)) => if b.len() < len {
                        None
                    } else {
                        let properties = b.take(len as int);
                        Some((CoderModel { id, properties, num_in }, b.skip(len as int)))
                    },
                }
            } else {
                Some((CoderModel { id, properties: Seq::empty(), num_in }, b))
            },
        }
    }
}

/// A coder reads back, whatever follows it.
pub proof fn law_coder_reads_back(c: CoderModel, rest: Seq<u8>)
    requires
        coder_ok(c),
    ensures
        read_coder(unpack_info::coder_bytes(c) + rest) == Some((c, rest)),
{
    reveal(unpack_info::coder_bytes);
    reveal(read_coder);
    let complex = c.num_in != 1;
    let settings = c.properties.len() > 0;
    let bytes = unpack_info::coder_bytes(c) + rest;
    let n = c.id.len() as int;
    let flags = bytes[0];
    let pair = seq![c.num_in, 1u64];
    let inputs = if complex {
        wire::number(c.num_in) + wire::number(1)
    } else {
        Seq::empty()
    };
    let tail = if settings {
        wire::number(c.properties.len() as u64) + c.properties
    } else {
        Seq::empty()
    };
    let b1 = inputs + (tail + rest);
    assert(bytes =~= seq![flags] + c.id + b1);
    assert(bytes.subrange(1, 1 + n) =~= c.id);
    assert(bytes.skip(1 + n) =~= b1);
    if complex {
        lemma_pair(c.num_in, 1);
        wire::law_numbers_read_back(pair, tail + rest);
    } else {
        assert(b1 =~= tail + rest);
    }
    if settings {
        wire::lemma_assoc(wire::number(c.properties.len() as u64), c.properties, rest);
        wire::law_number_reads_back(c.properties.len() as u64, c.properties + rest);
        assert((c.properties + rest).take(c.properties.len() as int) =~= c.properties);
        assert((c.properties + rest).skip(c.properties.len() as int) =~= rest);
    } else {
        assert(tail + rest =~= rest);
        assert(c.properties =~= Seq::empty());
    }
}

proof fn lemma_pair(first: u64, second: u64)
    ensures
        wire::numbers(seq![first, second]) == wire::number(first) + wire::number(second),
{
    let pair = seq![first, second];
    reveal_with_fuel(wire::numbers, 3);
    assert(pair.skip(1)[0] == second);
    assert(pair.skip(1).skip(1) =~= Seq::empty());
    assert(wire::numbers(pair) =~= wire::number(first) + wire::number(second));
}

/// Reads `n` coders, and the bytes behind them.
pub open spec fn read_coders(bytes: Seq<u8>, n: nat) -> Option<(Seq<CoderModel>, Seq<u8>)>
    decreases n,
{
    if n == 0 {
        Some((Seq::empty(), bytes))
    } else {
        match read_coder(bytes) {
            None => None,
            Some((c, b)) => match read_coders(b, (n - 1) as nat) {
                None => None,
                Some((coders, b)) => Some((seq![c] + coders, b)),
            },
        }
    }
}

/// Whether all coders can be spelt.
pub open spec fn coders_ok(coders: Seq<CoderModel>) -> bool {
    forall|i: int| 0 <= i < coders.len() ==> coder_ok(#[trigger] coders[i])
}

proof fn lemma_coders(coders: Seq<CoderModel>, rest: Seq<u8>)
    requires
        coders_ok(coders),
    ensures
        read_coders(unpack_info::coders_bytes(coders) + rest, coders.len()) == Some((coders, rest)),
    decreases coders.len(),
{
    if coders.len() == 0 {
        assert(unpack_info::coders_bytes(coders) + rest =~= rest);
        assert(coders =~= Seq::empty());
    } else {
        let tail = coders.skip(1);
        assert(coder_ok(coders[0]));
        assert forall|i: int| 0 <= i < tail.len() implies coder_ok(#[trigger] tail[i]) by {
            assert(tail[i] == coders[i + 1]);
        }
        let b = unpack_info::coders_bytes(tail) + rest;
        law_coder_reads_back(coders[0], b);
        lemma_coders(tail, rest);
        assert(unpack_info::coders_bytes(coders) + rest =~= unpack_info::coder_bytes(coders[0])
            + b);
        assert(seq![coders[0]] + tail =~= coders);
    }
}

/// Reads `n` pairs of numbers, and the bytes behind them.
pub open spec fn read_pairs(bytes: Seq<u8>, n: nat) -> Option<(Seq<(u64, u64)>, Seq<u8>)>
    decreases n,
{
    if n == 0 {
        Some((Seq::empty(), bytes))
    } else {
        match wire::read_number(bytes) {
            None => None,
            Some((first, b)) => match wire::read_number(b) {
                None => None,
                Some((second, b)) => match read_pairs(b, (n - 1) as nat) {
                    None => None,
                    Some((pairs, b)) => Some((seq![(first, second)] + pairs, b)),
                },
            },
        }
    }
}

proof fn lemma_pairs(pairs: Seq<(u64, u64)>, rest: Seq<u8>)
    ensures
        read_pairs(unpack_info::pairs_bytes(pairs) + rest, pairs.len()) == Some((pairs, rest)),
    decreases pairs.len(),
{
    if pairs.len() == 0 {
        assert(unpack_info::pairs_bytes(pairs) + rest =~= rest);
        assert(pairs =~= Seq::empty());
    } else {
        let tail = pairs.skip(1);
        let b2 = unpack_info::pairs_bytes(tail) + rest;
        let b1 = wire::number(pairs[0].1) + b2;
        wire::law_number_reads_back(pairs[0].0, b1);
        wire::law_number_reads_back(pairs[0].1, b2);
        lemma_pairs(tail, rest);
        assert(unpack_info::pairs_bytes(pairs) + rest =~= wire::number(pairs[0].0) + b1);
        assert(seq![(pairs[0].0, pairs[0].1)] + tail =~= pairs);
    }
}

/// How many inputs coders have together.
pub open spec fn total_in(coders: Seq<CoderModel>) -> nat
    decreases coders.len(),
{
    if coders.len() == 0 {
        0
    } else {
        total_in(coders.drop_last()) + coders.last().num_in as nat
    }
}

/// Whether an input takes an output.
pub open spec fn bound(bonds: Seq<(u64, u64)>, input: int) -> bool {
    exists|k: int| 0 <= k < bonds.len() && (#[trigger] bonds[k]).0 == input
}

/// An input that takes no output.
pub open spec fn is_free(f: FolderModel, input: int) -> bool {
    0 <= input < total_in(f.coders) && !bound(f.bonds, input)
}

/// Whether coders are wired into one: all outputs but one are taken, and every input takes an
/// output or a packed stream.
pub open spec fn folder_ok(f: FolderModel) -> bool {
    &&& coders_ok(f.coders)
    &&& 1 <= f.coders.len() <= u64::MAX
    &&& f.bonds.len() + 1 == f.coders.len()
    &&& 1 <= f.packed.len()
    &&& f.packed.len() + f.bonds.len() == total_in(f.coders)
    &&& f.packed.len() == 1 ==> is_free(f, f.packed[0] as int) && forall|i: int|
        #[trigger] is_free(f, i) ==> i == f.packed[0]
}

/// Reads the coders of a block and their wiring, and the bytes behind them. Where there is one
/// packed stream, it goes where no output does.
#[verifier::opaque]
pub open spec fn read_folder(bytes: Seq<u8>) -> Option<(FolderModel, Seq<u8>)> {
    match wire::read_number(bytes) {
        None => None,
        Some((n, b)) => match read_coders(b, n as nat) {
            None => None,
            Some((coders, b)) => if n == 0 || total_in(coders) < n {
                None
            } else {
                match read_pairs(b, (n - 1) as nat) {
                    None => None,
                    Some((bonds, b)) => {
                        let num_packed = (total_in(coders) - (n - 1)) as nat;
                        if num_packed == 1 {
                            let f = FolderModel { coders, bonds, packed: Seq::empty() };
                            let free = choose|i: int| is_free(f, i);
                            Some((FolderModel { coders, bonds, packed: seq![free as u64] }, b))
                        } else {
                            match wire::read_numbers(b, num_packed) {
                                None => None,
                                Some((packed, b)) => Some((FolderModel { coders, bonds, packed }, b)),
                            }
                        }
                    },
                }
            },
        },
    }
}

/// The coders of a block and their wiring read back, whatever follows them.
pub proof fn law_folder_reads_back(f: FolderModel, rest: Seq<u8>)
    requires
        folder_ok(f),
    ensures
        read_folder(unpack_info::folder_bytes(f) + rest) == Some((f, rest)),
{
    reveal(unpack_info::folder_bytes);
    reveal(read_folder);
    let s1 = wire::number(f.coders.len() as u64);
    let s2 = unpack_info::coders_bytes(f.coders);
    let s3 = unpack_info::pairs_bytes(f.bonds);
    let s4 = if f.packed.len() > 1 {
        wire::numbers(f.packed)
    } else {
        Seq::empty()
    };
    let b3 = s4 + rest;
    let b2 = s3 + b3;
    let b1 = s2 + b2;
    wire::lemma_assoc(s1 + s2 + s3, s4, rest);
    wire::lemma_assoc(s1 + s2, s3, b3);
    wire::lemma_assoc(s1, s2, b2);
    wire::law_number_reads_back(f.coders.len() as u64, b1);
    lemma_coders(f.coders, b2);
    lemma_pairs(f.bonds, b3);
    if f.packed.len() > 1 {
        wire::law_numbers_read_back(f.packed, rest);
    } else {
        assert(b3 =~= rest);
        let bare = FolderModel { coders: f.coders, bonds: f.bonds, packed: Seq::empty() };
        assert(is_free(bare, f.packed[0] as int));
        let free = choose|i: int| is_free(bare, i);
        assert(is_free(f, free));
        assert(seq![free as u64] =~= f.packed);
    }
}

/// The sum of sizes.
pub open spec fn total(sizes: Seq<u64>) -> nat
    decreases sizes.len(),
{
    if sizes.len() == 0 {
        0
    } else {
        total(sizes.drop_last()) + sizes.last() as nat
    }
}

/// Whether a block is described in full: what each coder unpacks to, and where there is not just
/// one file how long each is, together as long as the data, and its checksum.
pub open spec fn block_ok(b: BlockModel) -> bool {
    &&& folder_ok(b.folder)
    &&& b.sizes.len() == b.folder.coders.len()
    &&& if b.num_files == 1 {
        b.file_sizes.len() <= 1
    } else {
        &&& b.file_sizes.len() == b.num_files
        &&& b.file_crcs.len() == b.num_files
        &&& b.num_files > 0 ==> total(b.file_sizes) == b.sizes.last()
    }
}

/// Whether all blocks are described in full.
pub open spec fn blocks_ok(blocks: Seq<BlockModel>) -> bool {
    forall|i: int| 0 <= i < blocks.len() ==> block_ok(#[trigger] blocks[i])
}

/// A block, with how long its file is and its checksum also where there is just one.
pub open spec fn listed_block(b: BlockModel) -> BlockModel {
    if b.num_files == 1 {
        BlockModel { file_sizes: seq![b.sizes.last()], file_crcs: seq![b.crc], ..b }
    } else {
        b
    }
}

/// Blocks, as a reader finds them.
pub open spec fn listed_blocks(blocks: Seq<BlockModel>) -> Seq<BlockModel> {
    blocks.map_values(|b: BlockModel| listed_block(b))
}

/// Reads the coders of `n` blocks, and the bytes behind them.
pub open spec fn read_folders(bytes: Seq<u8>, n: nat) -> Option<(Seq<FolderModel>, Seq<u8>)>
    decreases n,
{
    if n == 0 {
        Some((Seq::empty(), bytes))
    } else {
        match read_folder(bytes) {
            None => None,
            Some((f, b)) => match read_folders(b, (n - 1) as nat) {
                None => None,
                Some((folders, b)) => Some((seq![f] + folders, b)),
            },
        }
    }
}

/// Reads what the coders of blocks unpack to, and the bytes behind that.
pub open spec fn read_sizes(bytes: Seq<u8>, folders: Seq<FolderModel>) -> Option<
    (Seq<Seq<u64>>, Seq<u8>),
>
    decreases folders.len(),
{
    if folders.len() == 0 {
        Some((Seq::empty(), bytes))
    } else {
        match wire::read_numbers(bytes, folders[0].coders.len()) {
            None => None,
            Some((sizes, b)) => match read_sizes(b, folders.skip(1)) {
                None => None,
                Some((all, b)) => Some((seq![sizes] + all, b)),
            },
        }
    }
}

/// The coders of blocks.
pub open spec fn folders_of(blocks: Seq<BlockModel>) -> Seq<FolderModel> {
    blocks.map_values(|b: BlockModel| b.folder)
}

/// What the coders of blocks unpack to.
pub open spec fn sizes_of(blocks: Seq<BlockModel>) -> Seq<Seq<u64>> {
    blocks.map_values(|b: BlockModel| b.sizes)
}

/// The checksums of blocks.
pub open spec fn crcs_of(blocks: Seq<BlockModel>) -> Seq<u32> {
    blocks.map_values(|b: BlockModel| b.crc)
}

/// How many files blocks are cut into.
pub open spec fn counts_of(blocks: Seq<BlockModel>) -> Seq<u64> {
    blocks.map_values(|b: BlockModel| b.num_files)
}

proof fn lemma_tail(blocks: Seq<BlockModel>)
    requires
        blocks.len() > 0,
        blocks_ok(blocks),
    ensures
        blocks_ok(blocks.skip(1)),
        block_ok(blocks[0]),
        folders_of(blocks).skip(1) == folders_of(blocks.skip(1)),
        sizes_of(blocks).skip(1) == sizes_of(blocks.skip(1)),
        crcs_of(blocks).skip(1) == crcs_of(blocks.skip(1)),
        counts_of(blocks).skip(1) == counts_of(blocks.skip(1)),
        seq![blocks[0].folder] + folders_of(blocks.skip(1)) == folders_of(blocks),
        seq![blocks[0].sizes] + sizes_of(blocks.skip(1)) == sizes_of(blocks),
{
    let tail = blocks.skip(1);
    assert forall|i: int| 0 <= i < tail.len() implies block_ok(#[trigger] tail[i]) by {
        assert(tail[i] == blocks[i + 1]);
    }
    assert(folders_of(blocks).skip(1) =~= folders_of(tail));
    assert(sizes_of(blocks).skip(1) =~= sizes_of(tail));
    assert(crcs_of(blocks).skip(1) =~= crcs_of(tail));
    assert(counts_of(blocks).skip(1) =~= counts_of(tail));
    assert(seq![blocks[0].folder] + folders_of(tail) =~= folders_of(blocks));
    assert(seq![blocks[0].sizes] + sizes_of(tail) =~= sizes_of(blocks));
}

proof fn lemma_folders(blocks: Seq<BlockModel>, rest: Seq<u8>)
    requires
        blocks_ok(blocks),
    ensures
        read_folders(unpack_info::folders_bytes(blocks) + rest, blocks.len()) == Some(
            (folders_of(blocks), rest),
        ),
    decreases blocks.len(),
{
    if blocks.len() == 0 {
        assert(unpack_info::folders_bytes(blocks) + rest =~= rest);
        assert(folders_of(blocks) =~= Seq::empty());
    } else {
        let tail = blocks.skip(1);
        lemma_tail(blocks);
        let b = unpack_info::folders_bytes(tail) + rest;
        law_folder_reads_back(blocks[0].folder, b);
        lemma_folders(tail, rest);
        assert(unpack_info::folders_bytes(blocks) + rest =~= unpack_info::folder_bytes(
            blocks[0].folder,
        ) + b);
    }
}

proof fn lemma_sizes(blocks: Seq<BlockModel>, rest: Seq<u8>)
    requires
        blocks_ok(blocks),
    ensures
        read_sizes(unpack_info::sizes_bytes(blocks) + rest, folders_of(blocks)) == Some(
            (sizes_of(blocks), rest),
        ),
    decreases blocks.len(),
{
    if blocks.len() == 0 {
        assert(unpack_info::sizes_bytes(blocks) + rest =~= rest);
        assert(sizes_of(blocks) =~= Seq::empty());
    } else {
        let tail = blocks.skip(1);
        lemma_tail(blocks);
        let b = unpack_info::sizes_bytes(tail) + rest;
        wire::law_numbers_read_back(blocks[0].sizes, b);
        lemma_sizes(tail, rest);
        assert(unpack_info::sizes_bytes(blocks) + rest =~= wire::numbers(blocks[0].sizes) + b);
    }
}

proof fn lemma_crcs(blocks: Seq<BlockModel>)
    ensures
        unpack_info::crcs_bytes(blocks) == wire::words(crcs_of(blocks)),
    decreases blocks.len(),
{
    if blocks.len() > 0 {
        lemma_crcs(blocks.skip(1));
        assert(crcs_of(blocks).skip(1) =~= crcs_of(blocks.skip(1)));
    }
}

proof fn lemma_counts(blocks: Seq<BlockModel>)
    ensures
        unpack_info::file_counts_bytes(blocks) == wire::numbers(counts_of(blocks)),
    decreases blocks.len(),
{
    if blocks.len() > 0 {
        lemma_counts(blocks.skip(1));
        assert(counts_of(blocks).skip(1) =~= counts_of(blocks.skip(1)));
    }
}

/// The coders of all blocks, what they unpack to, and the checksums of the blocks.
pub ghost struct UnpackRead {
    pub folders: Seq<FolderModel>,
    pub sizes: Seq<Seq<u64>>,
    pub crcs: Seq<u32>,
}

/// Reads the blocks without their files, and the bytes behind them.
pub open spec fn read_unpack(bytes: Seq<u8>) -> Option<(UnpackRead, Seq<u8>)> {
    match wire::expect_two(bytes, K_UNPACK_INFO, K_FOLDER) {
        None => None,
        Some(b) => match wire::read_number(b) {
            None => None,
            Some((n, b)) => match wire::expect(b, 0) {
                None => None,
                Some(b) => match read_folders(b, n as nat) {
                    None => None,
                    Some((folders, b)) => match wire::expect(b, K_CODERS_UNPACK_SIZE) {
                        None => None,
                        Some(b) => match read_sizes(b, folders) {
                            None => None,
                            Some((sizes, b)) => match wire::expect_two(b, K_CRC, 1) {
                                None => None,
                                Some(b) => match wire::read_words(b, n as nat) {
                                    None => None,
                                    Some((crcs, b)) => match wire::expect(b, K_END) {
                                        None => None,
                                        Some(b) => Some((UnpackRead { folders, sizes, crcs }, b)),
                                    },
                                },
                            },
                        },
                    },
                },
            },
        },
    }
}

/// The blocks without their files read back, whatever follows them.
pub proof fn law_unpack_reads_back(blocks: Seq<BlockModel>, rest: Seq<u8>)
    requires
        blocks_ok(blocks),
        blocks.len() <= u64::MAX,
    ensures
        read_unpack(unpack_info::unpack_bytes(blocks) + rest) == Some(
            (
                UnpackRead {
                    folders: folders_of(blocks),
                    sizes: sizes_of(blocks),
                    crcs: crcs_of(blocks),
                },
                rest,
            ),
        ),
{
    let n = blocks.len() as u64;
    let s0 = seq![K_UNPACK_INFO, K_FOLDER];
    let s1 = wire::number(n);
    let s2 = seq![0u8];
    let s3 = unpack_info::folders_bytes(blocks);
    let s4 = seq![K_CODERS_UNPACK_SIZE];
    let s5 = unpack_info::sizes_bytes(blocks);
    let s6 = seq![K_CRC, 1u8];
    let s7 = wire::words(crcs_of(blocks));
    let s8 = seq![K_END];
    let b8 = s8 + rest;
    let b7 = s7 + b8;
    let b6 = s6 + b7;
    let b5 = s5 + b6;
    let b4 = s4 + b5;
    let b3 = s3 + b4;
    let b2 = s2 + b3;
    let b1 = s1 + b2;
    lemma_crcs(blocks);
    wire::lemma_assoc(s0 + s1 + s2 + s3 + s4 + s5 + s6 + s7, s8, rest);
    wire::lemma_assoc(s0 + s1 + s2 + s3 + s4 + s5 + s6, s7, b8);
    wire::lemma_assoc(s0 + s1 + s2 + s3 + s4 + s5, s6, b7);
    wire::lemma_assoc(s0 + s1 + s2 + s3 + s4, s5, b6);
    wire::lemma_assoc(s0 + s1 + s2 + s3, s4, b5);
    wire::lemma_assoc(s0 + s1 + s2, s3, b4);
    wire::lemma_assoc(s0 + s1, s2, b3);
    wire::lemma_assoc(s0, s1, b2);
    wire::lemma_expect_two(K_UNPACK_INFO, K_FOLDER, b1);
    wire::law_number_reads_back(n, b2);
    wire::lemma_expect(0, b3);
    lemma_folders(blocks, b4);
    wire::lemma_expect(K_CODERS_UNPACK_SIZE, b5);
    lemma_sizes(blocks, b6);
    wire::lemma_expect_two(K_CRC, 1, b7);
    wire::law_words_read_back(crcs_of(blocks), b8);
    wire::lemma_expect(K_END, rest);
}

/// How long the files of a block of that length are, from all but the last.
pub open spec fn completed(len: u64, first: Seq<u64>) -> Seq<u64> {
    first.push((len - total(first)) as u64)
}

/// Reads how long the files of blocks are, and the bytes behind that. The last file of each block
/// takes what is left of it.
pub open spec fn read_file_sizes(
    bytes: Seq<u8>,
    counts: Seq<u64>,
    sizes: Seq<Seq<u64>>,
) -> Option<(Seq<Seq<u64>>, Seq<u8>)>
    decreases counts.len(),
{
    if counts.len() == 0 {
        Some((Seq::empty(), bytes))
    } else {
        let first = if counts[0] == 0 {
            Some((Seq::<u64>::empty(), bytes))
        } else {
            match wire::read_numbers(bytes, (counts[0] - 1) as nat) {
                None => None,
                Some((first, b)) => Some((completed(sizes[0].last(), first), b)),
            }
        };
        match first {
            None => None,
            Some((files, b)) => match read_file_sizes(b, counts.skip(1), sizes.skip(1)) {
                None => None,
                Some((all, b)) => Some((seq![files] + all, b)),
            },
        }
    }
}

/// Reads the checksums of the files of blocks, and the bytes behind them. Where a block is one file,
/// its checksum is that of the block.
pub open spec fn read_file_crcs(bytes: Seq<u8>, counts: Seq<u64>, crcs: Seq<u32>) -> Option<
    (Seq<Seq<u32>>, Seq<u8>),
>
    decreases counts.len(),
{
    if counts.len() == 0 {
        Some((Seq::empty(), bytes))
    } else {
        let first = if counts[0] == 1 {
            Some((seq![crcs[0]], bytes))
        } else {
            wire::read_words(bytes, counts[0] as nat)
        };
        match first {
            None => None,
            Some((files, b)) => match read_file_crcs(b, counts.skip(1), crcs.skip(1)) {
                None => None,
                Some((all, b)) => Some((seq![files] + all, b)),
            },
        }
    }
}

/// How long the files of blocks are.
pub open spec fn file_sizes_of(blocks: Seq<BlockModel>) -> Seq<Seq<u64>> {
    blocks.map_values(|b: BlockModel| listed_block(b).file_sizes)
}

/// The checksums of the files of blocks.
pub open spec fn file_crcs_of(blocks: Seq<BlockModel>) -> Seq<Seq<u32>> {
    blocks.map_values(|b: BlockModel| listed_block(b).file_crcs)
}

proof fn lemma_file_sizes(blocks: Seq<BlockModel>, rest: Seq<u8>)
    requires
        blocks_ok(blocks),
    ensures
        read_file_sizes(
            unpack_info::file_sizes_bytes(blocks) + rest,
            counts_of(blocks),
            sizes_of(blocks),
        ) == Some((file_sizes_of(blocks), rest)),
    decreases blocks.len(),
{
    if blocks.len() == 0 {
        assert(unpack_info::file_sizes_bytes(blocks) + rest =~= rest);
        assert(file_sizes_of(blocks) =~= Seq::empty());
    } else {
        let tail = blocks.skip(1);
        let block = blocks[0];
        let spelt = unpack_info::all_but_last(block.file_sizes);
        lemma_tail(blocks);
        lemma_file_sizes(tail, rest);
        let b = unpack_info::file_sizes_bytes(tail) + rest;
        assert(unpack_info::file_sizes_bytes(blocks) + rest =~= wire::numbers(spelt) + b);
        wire::law_numbers_read_back(spelt, b);
        if block.num_files == 0 {
            assert(block.file_sizes =~= Seq::empty());
            assert(wire::numbers(spelt) + b =~= b);
        } else if block.num_files == 1 {
            assert(spelt =~= Seq::empty());
            assert(completed(block.sizes.last(), spelt) =~= seq![block.sizes.last()]);
        } else {
            assert(completed(block.sizes.last(), spelt) =~= block.file_sizes);
        }
        assert(seq![listed_block(block).file_sizes] + file_sizes_of(tail) =~= file_sizes_of(blocks));
    }
}

proof fn lemma_file_crcs(blocks: Seq<BlockModel>, rest: Seq<u8>)
    requires
        blocks_ok(blocks),
    ensures
        read_file_crcs(
            unpack_info::file_crcs_bytes(blocks) + rest,
            counts_of(blocks),
            crcs_of(blocks),
        ) == Some((file_crcs_of(blocks), rest)),
    decreases blocks.len(),
{
    if blocks.len() == 0 {
        assert(unpack_info::file_crcs_bytes(blocks) + rest =~= rest);
        assert(file_crcs_of(blocks) =~= Seq::empty());
    } else {
        let tail = blocks.skip(1);
        let block = blocks[0];
        lemma_tail(blocks);
        lemma_file_crcs(tail, rest);
        let b = unpack_info::file_crcs_bytes(tail) + rest;
        if block.num_files == 1 {
            assert(unpack_info::file_crcs_bytes(blocks) + rest =~= b);
        } else {
            assert(unpack_info::file_crcs_bytes(blocks) + rest =~= wire::words(block.file_crcs)
                + b);
            wire::law_words_read_back(block.file_crcs, b);
        }
        assert(seq![listed_block(block).file_crcs] + file_crcs_of(tail) =~= file_crcs_of(blocks));
    }
}

/// Reads how blocks are cut into files, and the bytes behind that: the blocks in full.
pub open spec fn read_substreams(bytes: Seq<u8>, u: UnpackRead) -> Option<
    (Seq<BlockModel>, Seq<u8>),
> {
    let n = u.folders.len();
    match wire::expect_two(bytes, K_SUB_STREAMS_INFO, K_NUM_UNPACK_STREAM) {
        None => None,
        Some(b) => match wire::read_numbers(b, n) {
            None => None,
            Some((counts, b)) => match wire::expect(b, K_SIZE) {
                None => None,
                Some(b) => match read_file_sizes(b, counts, u.sizes) {
                    None => None,
                    Some((file_sizes, b)) => match wire::expect_two(b, K_CRC, 1) {
                        None => None,
                        Some(b) => match read_file_crcs(b, counts, u.crcs) {
                            None => None,
                            Some((file_crcs, b)) => match wire::expect(b, K_END) {
                                None => None,
                                Some(b) => Some(
                                    (
                                        Seq::new(
                                            n,
                                            |i: int|
                                                BlockModel {
                                                    folder: u.folders[i],
                                                    sizes: u.sizes[i],
                                                    crc: u.crcs[i],
                                                    num_files: counts[i],
                                                    file_sizes: file_sizes[i],
                                                    file_crcs: file_crcs[i],
                                                },
                                        ),
                                        b,
                                    ),
                                ),
                            },
                        },
                    },
                },
            },
        },
    }
}

/// How blocks are cut into files reads back, whatever follows it.
pub proof fn law_substreams_read_back(blocks: Seq<BlockModel>, rest: Seq<u8>)
    requires
        blocks_ok(blocks),
    ensures
        read_substreams(
            unpack_info::substreams_bytes(blocks) + rest,
            UnpackRead {
                folders: folders_of(blocks),
                sizes: sizes_of(blocks),
                crcs: crcs_of(blocks),
            },
        ) == Some((listed_blocks(blocks), rest)),
{
    let s0 = seq![K_SUB_STREAMS_INFO, K_NUM_UNPACK_STREAM];
    let s1 = wire::numbers(counts_of(blocks));
    let s2 = seq![K_SIZE];
    let s3 = unpack_info::file_sizes_bytes(blocks);
    let s4 = seq![K_CRC, 1u8];
    let s5 = unpack_info::file_crcs_bytes(blocks);
    let s6 = seq![K_END];
    let b6 = s6 + rest;
    let b5 = s5 + b6;
    let b4 = s4 + b5;
    let b3 = s3 + b4;
    let b2 = s2 + b3;
    let b1 = s1 + b2;
    lemma_counts(blocks);
    wire::lemma_assoc(s0 + s1 + s2 + s3 + s4 + s5, s6, rest);
    wire::lemma_assoc(s0 + s1 + s2 + s3 + s4, s5, b6);
    wire::lemma_assoc(s0 + s1 + s2 + s3, s4, b5);
    wire::lemma_assoc(s0 + s1 + s2, s3, b4);
    wire::lemma_assoc(s0 + s1, s2, b3);
    wire::lemma_assoc(s0, s1, b2);
    wire::lemma_expect_two(K_SUB_STREAMS_INFO, K_NUM_UNPACK_STREAM, b1);
    wire::law_numbers_read_back(counts_of(blocks), b2);
    wire::lemma_expect(K_SIZE, b3);
    lemma_file_sizes(blocks, b4);
    wire::lemma_expect_two(K_CRC, 1, b5);
    lemma_file_crcs(blocks, b6);
    wire::lemma_expect(K_END, rest);
    let found = Seq::new(
        blocks.len(),
        |i: int|
            BlockModel {
                folder: folders_of(blocks)[i],
                sizes: sizes_of(blocks)[i],
                crc: crcs_of(blocks)[i],
                num_files: counts_of(blocks)[i],
                file_sizes: file_sizes_of(blocks)[i],
                file_crcs: file_crcs_of(blocks)[i],
            },
    );
    assert(found =~= listed_blocks(blocks));
}

} // verus!
