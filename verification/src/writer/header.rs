//! The header of an archive, and the signature header that leads to it.

use crate::archive::{
    ArchiveEntry, K_ENCODED_HEADER, K_END, K_HEADER, K_MAIN_STREAMS_INFO, K_PACK_INFO,
};
use crate::checksum;
use crate::encoder_options::EncoderConfiguration;
use crate::wire;
use crate::writer::files_info;
use crate::writer::files_reader;
use crate::writer::files_reader::ListedEntry;
use crate::writer::pack_info;
use crate::writer::pack_info::{PackInfo, PackModel};
use crate::writer::streams_reader;
use crate::writer::streams_reader::UnpackRead;
use crate::writer::unpack_info;
use crate::writer::unpack_info::{BlockModel, UnpackInfo};
use std::sync::Arc;
use vstd::prelude::*;

verus! {

/// The packed streams and the blocks, as the header spells them.
pub open spec fn streams_bytes(pack: PackModel, blocks: Seq<BlockModel>) -> Seq<u8> {
    (if pack.sizes.len() > 0 {
        pack_info::pack_bytes(pack) + unpack_info::unpack_bytes(blocks)
    } else {
        Seq::empty()
    }) + unpack_info::substreams_bytes(blocks) + seq![K_END]
}

/// The header.
#[verifier::opaque]
pub open spec fn header_bytes(
    files: Seq<ArchiveEntry>,
    pack: PackModel,
    blocks: Seq<BlockModel>,
) -> Seq<u8> {
    seq![K_HEADER, K_MAIN_STREAMS_INFO] + streams_bytes(pack, blocks) + files_info::files_bytes(
        files,
    ) + seq![K_END]
}

/// A block of one file behind a chain of coders.
pub open spec fn single_block(
    methods: Seq<EncoderConfiguration>,
    sizes: Seq<u64>,
    crc: u32,
) -> BlockModel {
    BlockModel {
        folder: unpack_info::chain_folder(methods),
        sizes,
        crc,
        num_files: 1,
        file_sizes: Seq::empty(),
        file_crcs: Seq::empty(),
    }
}

/// The description of a header that is itself encoded: where its packed stream starts, what that
/// is, and the block that it unpacks to.
#[verifier::opaque]
pub open spec fn encoded_header_bytes(
    pos: u64,
    packed: Seq<u8>,
    methods: Seq<EncoderConfiguration>,
    sizes: Seq<u64>,
    crc: u32,
) -> Seq<u8> {
    let blocks = seq![single_block(methods, sizes, crc)];
    seq![K_ENCODED_HEADER] + pack_info::pack_bytes(
        PackModel {
            pos,
            sizes: seq![packed.len() as u64],
            crcs: seq![checksum::crc32(packed)],
        },
    ) + unpack_info::unpack_bytes(blocks) + unpack_info::substreams_bytes(blocks) + seq![K_END]
}

/// The packed streams and the blocks, as a reader finds them.
pub ghost struct StreamsRead {
    pub pack: PackModel,
    pub blocks: Seq<BlockModel>,
}

/// Reads the packed streams and the blocks, and the bytes behind them.
pub open spec fn read_streams(bytes: Seq<u8>) -> Option<(StreamsRead, Seq<u8>)> {
    let packed = if bytes.len() > 0 && bytes[0] == K_PACK_INFO {
        match pack_info::read_pack(bytes) {
            None => None,
            Some((pack, b)) => match streams_reader::read_unpack(b) {
                None => None,
                Some((u, b)) => Some((pack, u, b)),
            },
        }
    } else {
        Some(
            (
                PackModel { pos: 0, sizes: Seq::empty(), crcs: Seq::empty() },
                UnpackRead { folders: Seq::empty(), sizes: Seq::empty(), crcs: Seq::empty() },
                bytes,
            ),
        )
    };
    match packed {
        None => None,
        Some((pack, u, b)) => match streams_reader::read_substreams(b, u) {
            None => None,
            Some((blocks, b)) => match wire::expect(b, K_END) {
                None => None,
                Some(b) => Some((StreamsRead { pack, blocks }, b)),
            },
        },
    }
}

/// Whether packed streams and blocks are described in full, and where there is no packed stream
/// there is no block either.
pub open spec fn streams_ok(pack: PackModel, blocks: Seq<BlockModel>) -> bool {
    &&& pack_info::pack_ok(pack)
    &&& streams_reader::blocks_ok(blocks)
    &&& blocks.len() <= u64::MAX
    &&& pack.sizes.len() == 0 ==> pack.pos == 0 && blocks.len() == 0
}

/// The packed streams and the blocks read back, whatever follows them.
pub proof fn law_streams_read_back(pack: PackModel, blocks: Seq<BlockModel>, rest: Seq<u8>)
    requires
        streams_ok(pack, blocks),
    ensures
        read_streams(streams_bytes(pack, blocks) + rest) == Some(
            (StreamsRead { pack, blocks: streams_reader::listed_blocks(blocks) }, rest),
        ),
{
    let u = UnpackRead {
        folders: streams_reader::folders_of(blocks),
        sizes: streams_reader::sizes_of(blocks),
        crcs: streams_reader::crcs_of(blocks),
    };
    let s1 = pack_info::pack_bytes(pack);
    let s2 = unpack_info::unpack_bytes(blocks);
    let s3 = unpack_info::substreams_bytes(blocks);
    let s4 = seq![K_END];
    let b4 = s4 + rest;
    let b3 = s3 + b4;
    wire::lemma_expect(K_END, rest);
    streams_reader::law_substreams_read_back(blocks, b4);
    if pack.sizes.len() > 0 {
        let b2 = s2 + b3;
        wire::lemma_assoc(s1 + s2 + s3, s4, rest);
        wire::lemma_assoc(s1 + s2, s3, b4);
        wire::lemma_assoc(s1, s2, b3);
        assert((s1 + b2)[0] == K_PACK_INFO);
        pack_info::law_pack_reads_back(pack, b2);
        streams_reader::law_unpack_reads_back(blocks, b3);
    } else {
        assert(streams_bytes(pack, blocks) + rest =~= b3);
        assert(b3[0] != K_PACK_INFO);
        assert(u.folders =~= Seq::empty());
        assert(u.sizes =~= Seq::empty());
        assert(u.crcs =~= Seq::empty());
        assert(pack.sizes =~= Seq::empty());
        assert(pack.crcs =~= Seq::empty());
    }
}

/// A header, as a reader finds it.
pub ghost struct HeaderRead {
    pub streams: StreamsRead,
    pub files: Seq<ListedEntry>,
}

/// Reads a header, with nothing behind it.
#[verifier::opaque]
pub open spec fn read_header(bytes: Seq<u8>) -> Option<HeaderRead> {
    match wire::expect_two(bytes, K_HEADER, K_MAIN_STREAMS_INFO) {
        None => None,
        Some(b) => match read_streams(b) {
            None => None,
            Some((streams, b)) => match files_reader::read_files(b) {
                None => None,
                Some((files, b)) => if b == seq![K_END] {
                    Some(HeaderRead { streams, files })
                } else {
                    None
                },
            },
        },
    }
}

/// A header reads back: its packed streams, its blocks, and what it keeps of its members.
pub proof fn law_header_reads_back(
    files: Seq<ArchiveEntry>,
    pack: PackModel,
    blocks: Seq<BlockModel>,
)
    requires
        streams_ok(pack, blocks),
        files_reader::names_ok(files),
        header_bytes(files, pack, blocks).len() <= u64::MAX,
    ensures
        read_header(header_bytes(files, pack, blocks)) == Some(
            HeaderRead {
                streams: StreamsRead { pack, blocks: streams_reader::listed_blocks(blocks) },
                files: files_reader::listed_files(files),
            },
        ),
        header_bytes(files, pack, blocks).len() > 0,
        header_bytes(files, pack, blocks)[0] == K_HEADER,
{
    reveal(header_bytes);
    reveal(read_header);
    let s0 = seq![K_HEADER, K_MAIN_STREAMS_INFO];
    let s1 = streams_bytes(pack, blocks);
    let s2 = files_info::files_bytes(files);
    let s3 = seq![K_END];
    wire::lemma_assoc(s0 + s1, s2, s3);
    wire::lemma_assoc(s0, s1, s2 + s3);
    wire::lemma_expect_two(K_HEADER, K_MAIN_STREAMS_INFO, s1 + (s2 + s3));
    law_streams_read_back(pack, blocks, s2 + s3);
    files_reader::law_files_read_back(files, s3);
}

/// Reads the description of an encoded header, with nothing behind it.
#[verifier::opaque]
pub open spec fn read_encoded_header(bytes: Seq<u8>) -> Option<StreamsRead> {
    match wire::expect(bytes, K_ENCODED_HEADER) {
        None => None,
        Some(b) => match read_streams(b) {
            None => None,
            Some((streams, b)) => if b.len() == 0 {
                Some(streams)
            } else {
                None
            },
        },
    }
}

/// A chain of coders is wired into one.
pub proof fn law_chain_is_wired(methods: Seq<EncoderConfiguration>)
    requires
        1 <= methods.len() <= u64::MAX,
    ensures
        streams_reader::folder_ok(unpack_info::chain_folder(methods)),
{
    let f = unpack_info::chain_folder(methods);
    assert forall|i: int| 0 <= i < f.coders.len() implies streams_reader::coder_ok(
        #[trigger] f.coders[i],
    ) by {
        lemma_properties_len(methods[i]);
    }
    lemma_chain_inputs(f.coders);
    assert forall|k: int| 0 <= k < f.bonds.len() implies (#[trigger] f.bonds[k]).0 != 0 by {}
    assert(streams_reader::is_free(f, 0));
    assert forall|i: int| #[trigger] streams_reader::is_free(f, i) implies i == 0 by {
        if i > 0 {
            assert(f.bonds[i - 1].0 == i);
        }
    }
}

/// What is kept of a coder's settings is short.
pub proof fn lemma_properties_len(c: EncoderConfiguration)
    ensures
        crate::encoder_options::properties_of(c).len() <= 34,
{
    wire::lemma_le_digits(c.lzma_settings().dict_size as nat, 4);
}

proof fn lemma_chain_inputs(coders: Seq<unpack_info::CoderModel>)
    requires
        forall|i: int| 0 <= i < coders.len() ==> (#[trigger] coders[i]).num_in == 1,
    ensures
        streams_reader::total_in(coders) == coders.len(),
    decreases coders.len(),
{
    if coders.len() > 0 {
        lemma_chain_inputs(coders.drop_last());
    }
}

/// The description of an encoded header reads back: where its packed stream lies, and the block
/// that it unpacks to.
pub proof fn law_encoded_header_reads_back(
    pos: u64,
    packed: Seq<u8>,
    methods: Seq<EncoderConfiguration>,
    sizes: Seq<u64>,
    crc: u32,
)
    requires
        1 <= methods.len() <= u64::MAX,
        sizes.len() == methods.len(),
    ensures
        read_encoded_header(encoded_header_bytes(pos, packed, methods, sizes, crc)) == Some(
            StreamsRead {
                pack: PackModel {
                    pos,
                    sizes: seq![packed.len() as u64],
                    crcs: seq![checksum::crc32(packed)],
                },
                blocks: streams_reader::listed_blocks(seq![single_block(methods, sizes, crc)]),
            },
        ),
        encoded_header_bytes(pos, packed, methods, sizes, crc)[0] == K_ENCODED_HEADER,
{
    reveal(encoded_header_bytes);
    reveal(read_encoded_header);
    let pack = PackModel {
        pos,
        sizes: seq![packed.len() as u64],
        crcs: seq![checksum::crc32(packed)],
    };
    let blocks = seq![single_block(methods, sizes, crc)];
    law_chain_is_wired(methods);
    assert(streams_reader::block_ok(blocks[0]));
    let s0 = seq![K_ENCODED_HEADER];
    let s1 = pack_info::pack_bytes(pack);
    let s2 = unpack_info::unpack_bytes(blocks);
    let s3 = unpack_info::substreams_bytes(blocks);
    let s4 = seq![K_END];
    let streams = streams_bytes(pack, blocks);
    assert(s0 + s1 + s2 + s3 + s4 =~= s0 + streams) by {
        wire::lemma_assoc(s0, s1, s2);
        wire::lemma_assoc(s0, s1 + s2, s3);
        wire::lemma_assoc(s0, s1 + s2 + s3, s4);
    }
    wire::lemma_expect(K_ENCODED_HEADER, streams);
    law_streams_read_back(pack, blocks, Seq::empty());
    assert(streams + Seq::empty() =~= streams);
}

/// What the signature header says of the header: how far behind itself it starts, how long it is as
/// far as 32 bits go, and its checksum.
pub open spec fn start_bytes(offset: u64, header: Seq<u8>) -> Seq<u8> {
    wire::le_digits(offset as nat, 8) + wire::le_digits(header.len() % 0x1_0000_0000, 8)
        + wire::le_digits(checksum::crc32(header) as nat, 4)
}

/// The signature header: the signature, the version, the checksum of what follows, and what it says
/// of the header.
#[verifier::opaque]
pub open spec fn signature_bytes(offset: u64, header: Seq<u8>) -> Seq<u8> {
    let start = start_bytes(offset, header);
    seq![0x37u8, 0x7A, 0xBC, 0xAF, 0x27, 0x1C, 0, 4] + wire::le_digits(
        checksum::crc32(start) as nat,
        4,
    ) + start
}

/// What a signature header says of the header.
pub ghost struct StartRead {
    pub offset: nat,
    pub size: nat,
    pub crc: nat,
}

/// Reads the signature header at the start of an archive.
#[verifier::opaque]
pub open spec fn read_start(archive: Seq<u8>) -> Option<StartRead> {
    if archive.len() < 32 || archive.take(8) != seq![0x37u8, 0x7A, 0xBC, 0xAF, 0x27, 0x1C, 0, 4]
        || wire::le_value(archive.subrange(8, 12)) != checksum::crc32(archive.subrange(12, 32)) {
        None
    } else {
        Some(
            StartRead {
                offset: wire::le_value(archive.subrange(12, 20)),
                size: wire::le_value(archive.subrange(20, 28)),
                crc: wire::le_value(archive.subrange(28, 32)),
            },
        )
    }
}

/// The signature header is 32 bytes long, and reads back.
pub proof fn law_signature_reads_back(offset: u64, header: Seq<u8>, rest: Seq<u8>)
    ensures
        signature_bytes(offset, header).len() == 32,
        read_start(signature_bytes(offset, header) + rest) == Some(
            StartRead {
                offset: offset as nat,
                size: header.len() % 0x1_0000_0000,
                crc: checksum::crc32(header) as nat,
            },
        ),
{
    reveal(signature_bytes);
    reveal(read_start);
    let start = start_bytes(offset, header);
    let size = header.len() % 0x1_0000_0000;
    let crc = checksum::crc32(header) as nat;
    let start_crc = checksum::crc32(start) as nat;
    let archive = signature_bytes(offset, header) + rest;
    reveal_with_fuel(wire::pow256, 9);
    assert(wire::pow256(8) == 0x1_0000_0000_0000_0000);
    assert(wire::pow256(4) == 0x1_0000_0000);
    wire::lemma_le_digits(offset as nat, 8);
    wire::lemma_le_digits(size, 8);
    wire::lemma_le_digits(crc, 4);
    wire::lemma_le_digits(start_crc, 4);
    assert(archive.take(8) =~= seq![0x37u8, 0x7A, 0xBC, 0xAF, 0x27, 0x1C, 0, 4]);
    assert(archive.subrange(8, 12) =~= wire::le_digits(start_crc, 4));
    assert(archive.subrange(12, 32) =~= start);
    assert(archive.subrange(12, 20) =~= wire::le_digits(offset as nat, 8));
    assert(archive.subrange(20, 28) =~= wire::le_digits(size, 8));
    assert(archive.subrange(28, 32) =~= wire::le_digits(crc, 4));
}

/// Appends the packed streams and the blocks.
pub fn write_streams_info(header: &mut Vec<u8>, pack: &PackInfo, unpack: &UnpackInfo)
    requires
        unpack_info::block_ids_ok(unpack@),
    ensures
        final(header)@ == old(header)@ + streams_bytes(pack@, unpack@),
{
    let ghost before = header@;
    if pack.len() > 0 {
        pack.write_to(header);
        unpack.write_to(header);
    }
    unpack.write_substreams(header);
    header.push(K_END);
    assert(header@ =~= before + streams_bytes(pack@, unpack@));
}

/// Writes the header.
pub fn write_header(files: &Vec<ArchiveEntry>, pack: &PackInfo, unpack: &UnpackInfo) -> (r: Vec<u8>)
    requires
        unpack_info::block_ids_ok(unpack@),
    ensures
        r@ == header_bytes(files@, pack@, unpack@),
{
    let mut header: Vec<u8> = Vec::new();
    header.push(K_HEADER);
    header.push(K_MAIN_STREAMS_INFO);
    write_streams_info(&mut header, pack, unpack);
    files_info::write_files_info(files, &mut header);
    header.push(K_END);
    assert(header@ =~= header_bytes(files@, pack@, unpack@)) by {
        reveal(header_bytes);
    }
    header
}

/// Writes the description of an encoded header.
pub fn write_encoded_header(
    pos: u64,
    packed: &Vec<u8>,
    methods: Arc<Vec<EncoderConfiguration>>,
    sizes: Vec<u64>,
    crc: u32,
) -> (r: Vec<u8>)
    ensures
        r@ == encoded_header_bytes(pos, packed@, methods@, sizes@, crc),
{
    let mut pack = PackInfo::default();
    pack.pos = pos;
    pack.add_stream(packed.len() as u64, checksum::hash(packed.as_slice()));
    assert(pack@.sizes =~= seq![packed@.len() as u64]);
    assert(pack@.crcs =~= seq![checksum::crc32(packed@)]);
    let ghost blocks = seq![single_block(methods@, sizes@, crc)];
    let mut unpack = UnpackInfo::default();
    unpack.add(methods, sizes, crc);
    assert(unpack@ =~= blocks);
    let mut header: Vec<u8> = Vec::new();
    header.push(K_ENCODED_HEADER);
    pack.write_to(&mut header);
    unpack.write_to(&mut header);
    unpack.write_substreams(&mut header);
    header.push(K_END);
    assert(header@ =~= encoded_header_bytes(pos, packed@, methods@, sizes@, crc)) by {
        reveal(encoded_header_bytes);
    }
    header
}

/// Writes the signature header for a header that starts so far behind it.
pub fn signature_header(offset: u64, header: &Vec<u8>) -> (r: Vec<u8>)
    ensures
        r@ == signature_bytes(offset, header@),
        r@.len() == 32,
{
    let mut start: Vec<u8> = Vec::new();
    wire::push_u64(&mut start, offset);
    wire::push_u64(&mut start, header.len() as u64 % 0x1_0000_0000);
    wire::push_u32(&mut start, checksum::hash(header.as_slice()));
    assert(start@ =~= start_bytes(offset, header@));
    let mut r: Vec<u8> = vec![0x37, 0x7A, 0xBC, 0xAF, 0x27, 0x1C, 0, 4];
    wire::push_u32(&mut r, checksum::hash(start.as_slice()));
    r.append(&mut start);
    assert(r@ =~= signature_bytes(offset, header@)) by {
        reveal(signature_bytes);
    }
    proof {
        law_signature_reads_back(offset, header@, Seq::empty());
    }
    r
}

} // verus!
