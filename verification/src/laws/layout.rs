//! What stands where in a header.

use crate::archive::ArchiveEntry;
use crate::checksum;
use crate::encoder_options::EncoderConfiguration;
use crate::wire;
use crate::writer::files_info;
use crate::writer::header;
use crate::writer::pack_info;
use crate::writer::pack_info::PackModel;
use crate::writer::unpack_info;
use crate::writer::unpack_info::{BlockModel, CoderModel, FolderModel};
use vstd::prelude::*;

verus! {

/// The packed streams: that they follow, where the first starts, how many there are, how long each is,
/// and that the checksum of each is known, and what it is.
pub proof fn law_packed_streams_in_bytes(p: PackModel)
    ensures
        pack_info::pack_bytes(p) == seq![0x06u8] + wire::number(p.pos) + wire::number(
            p.sizes.len() as u64,
        ) + seq![0x09u8] + wire::numbers(p.sizes) + seq![0x0Au8, 0x01] + wire::words(p.crcs)
            + seq![0x00u8],
{
}

/// The blocks: that they follow, how many there are, that they are described here, the coders of each,
/// how much each coder unpacks to, and that the checksum of each block is known, and what it is.
pub proof fn law_blocks_in_bytes(blocks: Seq<BlockModel>)
    ensures
        unpack_info::unpack_bytes(blocks) == seq![0x07u8, 0x0B] + wire::number(blocks.len() as u64)
            + seq![0x00u8] + unpack_info::folders_bytes(blocks) + seq![0x0Cu8]
            + unpack_info::sizes_bytes(blocks) + seq![0x0Au8, 0x01] + unpack_info::crcs_bytes(blocks)
            + seq![0x00u8],
{
}

/// The files of the blocks: that they follow, how many each block holds, how long they are, and that
/// their checksums are known, and what they are.
pub proof fn law_files_of_blocks_in_bytes(blocks: Seq<BlockModel>)
    ensures
        unpack_info::substreams_bytes(blocks) == seq![0x08u8, 0x0D] + unpack_info::file_counts_bytes(
            blocks,
        ) + seq![0x09u8] + unpack_info::file_sizes_bytes(blocks) + seq![0x0Au8, 0x01]
            + unpack_info::file_crcs_bytes(blocks) + seq![0x00u8],
{
}

/// What is said of blocks is said of one behind another.
pub proof fn law_blocks_in_parts(a: Seq<BlockModel>, b: Seq<BlockModel>)
    ensures
        unpack_info::folders_bytes(a + b) == unpack_info::folders_bytes(a)
            + unpack_info::folders_bytes(b),
        unpack_info::sizes_bytes(a + b) == unpack_info::sizes_bytes(a) + unpack_info::sizes_bytes(b),
        unpack_info::crcs_bytes(a + b) == unpack_info::crcs_bytes(a) + unpack_info::crcs_bytes(b),
        unpack_info::file_counts_bytes(a + b) == unpack_info::file_counts_bytes(a)
            + unpack_info::file_counts_bytes(b),
        unpack_info::file_sizes_bytes(a + b) == unpack_info::file_sizes_bytes(a)
            + unpack_info::file_sizes_bytes(b),
        unpack_info::file_crcs_bytes(a + b) == unpack_info::file_crcs_bytes(a)
            + unpack_info::file_crcs_bytes(b),
    decreases a.len(),
{
    let all = a + b;
    if a.len() == 0 {
        assert(all =~= b);
        assert(unpack_info::folders_bytes(a) + unpack_info::folders_bytes(b)
            =~= unpack_info::folders_bytes(b));
        assert(unpack_info::sizes_bytes(a) + unpack_info::sizes_bytes(b) =~= unpack_info::sizes_bytes(
            b,
        ));
        assert(unpack_info::crcs_bytes(a) + unpack_info::crcs_bytes(b) =~= unpack_info::crcs_bytes(
            b,
        ));
        assert(unpack_info::file_counts_bytes(a) + unpack_info::file_counts_bytes(b)
            =~= unpack_info::file_counts_bytes(b));
        assert(unpack_info::file_sizes_bytes(a) + unpack_info::file_sizes_bytes(b)
            =~= unpack_info::file_sizes_bytes(b));
        assert(unpack_info::file_crcs_bytes(a) + unpack_info::file_crcs_bytes(b)
            =~= unpack_info::file_crcs_bytes(b));
    } else {
        let t = a.skip(1);
        law_blocks_in_parts(t, b);
        assert(all.skip(1) =~= t + b);
        assert(all[0] == a[0]);
        assert(unpack_info::folders_bytes(all) =~= unpack_info::folders_bytes(a)
            + unpack_info::folders_bytes(b));
        assert(unpack_info::sizes_bytes(all) =~= unpack_info::sizes_bytes(a)
            + unpack_info::sizes_bytes(b));
        assert(unpack_info::crcs_bytes(all) =~= unpack_info::crcs_bytes(a) + unpack_info::crcs_bytes(
            b,
        ));
        assert(unpack_info::file_counts_bytes(all) =~= unpack_info::file_counts_bytes(a)
            + unpack_info::file_counts_bytes(b));
        assert(unpack_info::file_sizes_bytes(all) =~= unpack_info::file_sizes_bytes(a)
            + unpack_info::file_sizes_bytes(b));
        assert(unpack_info::file_crcs_bytes(all) =~= unpack_info::file_crcs_bytes(a)
            + unpack_info::file_crcs_bytes(b));
    }
}

/// What is said of one block: its coders, what each of them unpacks to, its checksum, how many files it
/// holds, how long each is but for the last, which takes the rest, and the checksum of each but where
/// there is just one, whose checksum is that of the block.
pub proof fn law_one_block_in_bytes(b: BlockModel)
    ensures
        unpack_info::folders_bytes(seq![b]) == unpack_info::folder_bytes(b.folder),
        unpack_info::sizes_bytes(seq![b]) == wire::numbers(b.sizes),
        unpack_info::crcs_bytes(seq![b]) == wire::words(seq![b.crc]),
        unpack_info::file_counts_bytes(seq![b]) == wire::number(b.num_files),
        b.file_sizes.len() <= 1 ==> unpack_info::file_sizes_bytes(seq![b]).len() == 0,
        b.file_sizes.len() >= 1 ==> unpack_info::file_sizes_bytes(seq![b]) == wire::numbers(
            b.file_sizes.take(b.file_sizes.len() - 1),
        ),
        b.num_files == 1 ==> unpack_info::file_crcs_bytes(seq![b]).len() == 0,
        b.num_files != 1 ==> unpack_info::file_crcs_bytes(seq![b]) == wire::words(b.file_crcs),
{
    reveal_with_fuel(unpack_info::folders_bytes, 2);
    reveal_with_fuel(unpack_info::sizes_bytes, 2);
    reveal_with_fuel(unpack_info::crcs_bytes, 2);
    reveal_with_fuel(unpack_info::file_counts_bytes, 2);
    reveal_with_fuel(unpack_info::file_sizes_bytes, 2);
    reveal_with_fuel(unpack_info::file_crcs_bytes, 2);
    reveal_with_fuel(wire::words, 2);
    assert(seq![b].skip(1) =~= Seq::<BlockModel>::empty());
    assert(seq![b.crc].skip(1) =~= Seq::<u32>::empty());
    assert(unpack_info::folders_bytes(seq![b]) =~= unpack_info::folder_bytes(b.folder));
    assert(unpack_info::sizes_bytes(seq![b]) =~= wire::numbers(b.sizes));
    assert(unpack_info::crcs_bytes(seq![b]) =~= wire::words(seq![b.crc]));
    assert(unpack_info::file_counts_bytes(seq![b]) =~= wire::number(b.num_files));
    assert(unpack_info::file_sizes_bytes(seq![b]) =~= wire::numbers(
        unpack_info::all_but_last(b.file_sizes),
    ));
    if b.file_sizes.len() > 0 {
        assert(b.file_sizes.drop_last() =~= b.file_sizes.take(b.file_sizes.len() - 1));
    }
    assert(unpack_info::file_crcs_bytes(seq![b]) =~= if b.num_files == 1 {
        Seq::empty()
    } else {
        wire::words(b.file_crcs)
    });
}

/// The coders of a block: how many there are, each of them, which input takes which output, and, where
/// there is more than one packed stream, which inputs these go into.
pub proof fn law_coders_of_a_block_in_bytes(f: FolderModel)
    ensures
        f.packed.len() <= 1 ==> unpack_info::folder_bytes(f) == wire::number(f.coders.len() as u64)
            + unpack_info::coders_bytes(f.coders) + unpack_info::pairs_bytes(f.bonds),
        f.packed.len() > 1 ==> unpack_info::folder_bytes(f) == wire::number(f.coders.len() as u64)
            + unpack_info::coders_bytes(f.coders) + unpack_info::pairs_bytes(f.bonds)
            + wire::numbers(f.packed),
{
    reveal(unpack_info::folder_bytes);
}

/// Coders stand one behind another, and so do bonds, the input first.
pub proof fn law_coders_in_parts(
    a: Seq<CoderModel>,
    b: Seq<CoderModel>,
    c: CoderModel,
    p: Seq<(u64, u64)>,
    q: Seq<(u64, u64)>,
    bond: (u64, u64),
)
    ensures
        unpack_info::coders_bytes(Seq::empty()).len() == 0,
        unpack_info::coders_bytes(seq![c]) == unpack_info::coder_bytes(c),
        unpack_info::coders_bytes(a + b) == unpack_info::coders_bytes(a) + unpack_info::coders_bytes(
            b,
        ),
        unpack_info::pairs_bytes(Seq::empty()).len() == 0,
        unpack_info::pairs_bytes(seq![bond]) == wire::number(bond.0) + wire::number(bond.1),
        unpack_info::pairs_bytes(p + q) == unpack_info::pairs_bytes(p) + unpack_info::pairs_bytes(q),
    decreases a.len() + p.len(),
{
    reveal_with_fuel(unpack_info::coders_bytes, 2);
    reveal_with_fuel(unpack_info::pairs_bytes, 2);
    assert(seq![c].skip(1) =~= Seq::<CoderModel>::empty());
    assert(seq![bond].skip(1) =~= Seq::<(u64, u64)>::empty());
    assert(unpack_info::coders_bytes(seq![c]) =~= unpack_info::coder_bytes(c));
    assert(unpack_info::pairs_bytes(seq![bond]) =~= wire::number(bond.0) + wire::number(bond.1));
    if a.len() == 0 {
        assert(a + b =~= b);
        assert(unpack_info::coders_bytes(a) + unpack_info::coders_bytes(b)
            =~= unpack_info::coders_bytes(b));
    } else {
        law_coders_in_parts(a.skip(1), b, c, p, q, bond);
        assert((a + b).skip(1) =~= a.skip(1) + b);
        assert((a + b)[0] == a[0]);
        assert(unpack_info::coders_bytes(a + b) =~= unpack_info::coders_bytes(a)
            + unpack_info::coders_bytes(b));
    }
    if p.len() == 0 {
        assert(p + q =~= q);
        assert(unpack_info::pairs_bytes(p) + unpack_info::pairs_bytes(q)
            =~= unpack_info::pairs_bytes(q));
    } else {
        law_coders_in_parts(a, b, c, p.skip(1), q, bond);
        assert((p + q).skip(1) =~= p.skip(1) + q);
        assert((p + q)[0] == p[0]);
        assert(unpack_info::pairs_bytes(p + q) =~= unpack_info::pairs_bytes(p)
            + unpack_info::pairs_bytes(q));
    }
}

/// A coder: in one byte how long what stands for its method is, with 16 more where it has other than one
/// input, and 32 more where it has settings; then what stands for its method; how many inputs it has,
/// and its one output, where that was said; and how long its settings are, and these, where there are
/// any.
pub proof fn law_coder_in_bytes(c: CoderModel)
    requires
        c.id.len() <= 15,
    ensures
        ({
            let b = unpack_info::coder_bytes(c);
            let n = c.id.len() as int;
            let rest = b.skip(1 + n);
            &&& c.num_in == 1 && c.properties.len() == 0 ==> b[0] == n
            &&& c.num_in != 1 && c.properties.len() == 0 ==> b[0] == n + 16
            &&& c.num_in == 1 && c.properties.len() > 0 ==> b[0] == n + 32
            &&& c.num_in != 1 && c.properties.len() > 0 ==> b[0] == n + 48
            &&& b.len() >= 1 + n
            &&& b.subrange(1, 1 + n) == c.id
            &&& c.num_in == 1 && c.properties.len() == 0 ==> rest.len() == 0
            &&& c.num_in != 1 && c.properties.len() == 0 ==> rest == wire::number(c.num_in)
                + wire::number(1)
            &&& c.num_in == 1 && c.properties.len() > 0 ==> rest == wire::number(
                c.properties.len() as u64,
            ) + c.properties
            &&& c.num_in != 1 && c.properties.len() > 0 ==> rest == wire::number(c.num_in)
                + wire::number(1) + wire::number(c.properties.len() as u64) + c.properties
        }),
{
    reveal(unpack_info::coder_bytes);
    let b = unpack_info::coder_bytes(c);
    let n = c.id.len() as int;
    let inputs = if c.num_in != 1 {
        wire::number(c.num_in) + wire::number(1)
    } else {
        Seq::empty()
    };
    let settings = if c.properties.len() > 0 {
        wire::number(c.properties.len() as u64) + c.properties
    } else {
        Seq::empty()
    };
    assert(b == seq![b[0]] + c.id + inputs + settings);
    assert(b.subrange(1, 1 + n) =~= c.id);
    assert(b.skip(1 + n) =~= inputs + settings);
    if c.num_in != 1 && c.properties.len() > 0 {
        assert(inputs + settings =~= wire::number(c.num_in) + wire::number(1) + wire::number(
            c.properties.len() as u64,
        ) + c.properties);
    }
}

/// Where there is a packed stream, the packed streams and the blocks are described; how blocks are cut
/// into files always is.
pub proof fn law_streams_in_bytes(pack: PackModel, blocks: Seq<BlockModel>)
    ensures
        pack.sizes.len() > 0 ==> header::streams_bytes(pack, blocks) == pack_info::pack_bytes(pack)
            + unpack_info::unpack_bytes(blocks) + unpack_info::substreams_bytes(blocks) + seq![
            0x00u8,
        ],
        pack.sizes.len() == 0 ==> header::streams_bytes(pack, blocks)
            == unpack_info::substreams_bytes(blocks) + seq![0x00u8],
{
    assert(Seq::<u8>::empty() + unpack_info::substreams_bytes(blocks)
        =~= unpack_info::substreams_bytes(blocks));
}

/// The header: that it is one, what is said of the streams, and what is said of the members.
pub proof fn law_header_in_bytes(
    files: Seq<ArchiveEntry>,
    pack: PackModel,
    blocks: Seq<BlockModel>,
)
    ensures
        header::header_bytes(files, pack, blocks) == seq![0x01u8, 0x04] + header::streams_bytes(
            pack,
            blocks,
        ) + files_info::files_bytes(files) + seq![0x00u8],
{
    reveal(header::header_bytes);
}

/// The description of an encoded header: that it is one; one packed stream, at the place that is given,
/// of the length and checksum of what the header was encoded to; and one block of one file behind the
/// coders.
pub proof fn law_encoded_header_in_bytes(
    pos: u64,
    packed: Seq<u8>,
    methods: Seq<EncoderConfiguration>,
    sizes: Seq<u64>,
    crc: u32,
)
    ensures
        ({
            let block = header::single_block(methods, sizes, crc);
            &&& header::encoded_header_bytes(pos, packed, methods, sizes, crc) == seq![0x17u8]
                + pack_info::pack_bytes(
                PackModel {
                    pos,
                    sizes: seq![packed.len() as u64],
                    crcs: seq![checksum::crc32(packed)],
                },
            ) + unpack_info::unpack_bytes(seq![block]) + unpack_info::substreams_bytes(seq![block])
                + seq![0x00u8]
            &&& block.folder == unpack_info::chain_folder(methods)
            &&& block.sizes == sizes
            &&& block.crc == crc
            &&& block.num_files == 1
            &&& block.file_sizes.len() == 0
            &&& block.file_crcs.len() == 0
        }),
{
    reveal(header::encoded_header_bytes);
}

/// The members: that they follow, how many there are, and what is said of them, each thing behind the
/// number that stands for it: which have no data, and of those which are files and which say that a
/// file is to be removed; what they are called; when they were created, last read and last changed; and
/// their attributes.
pub proof fn law_members_in_bytes(files: Seq<ArchiveEntry>)
    ensures
        files_info::files_bytes(files) == seq![0x05u8] + wire::number(files.len() as u64)
            + files_info::flags_bytes(0x0E, files_info::empty_streams(files))
            + files_info::flags_bytes(0x0F, files_info::empty_files(files))
            + files_info::flags_bytes(0x10, files_info::anti_items(files)) + files_info::names_bytes(
            files,
        ) + files_info::values_bytes(0x12, files_info::creation_dates_of(files), 8)
            + files_info::values_bytes(0x13, files_info::access_dates_of(files), 8)
            + files_info::values_bytes(0x14, files_info::modified_dates_of(files), 8)
            + files_info::values_bytes(0x15, files_info::attributes_of(files), 4) + seq![0x00u8],
{
}

/// One thing that is said of members: the number that stands for it, how long it is, and what it is.
pub proof fn law_property_in_bytes(id: u8, body: Seq<u8>)
    ensures
        ({
            let b = files_info::section(id, body);
            let n = wire::number(body.len() as u64).len() as int;
            &&& b.len() == 1 + n + body.len()
            &&& b[0] == id
            &&& b.subrange(1, 1 + n) == wire::number(body.len() as u64)
            &&& b.skip(1 + n) == body
        }),
{
    let b = files_info::section(id, body);
    let n = wire::number(body.len() as u64).len() as int;
    assert(b.subrange(1, 1 + n) =~= wire::number(body.len() as u64));
    assert(b.skip(1 + n) =~= body);
}

/// A bit for each member is left out where none is set.
pub proof fn law_flags_in_bytes(id: u8, bits: Seq<bool>)
    ensures
        (forall|i: int| 0 <= i < bits.len() ==> !bits[i]) ==> files_info::flags_bytes(id, bits).len()
            == 0,
        (exists|i: int| 0 <= i < bits.len() && bits[i]) ==> files_info::flags_bytes(id, bits)
            == files_info::section(id, wire::bit_vector(bits)),
{
    if exists|i: int| 0 <= i < bits.len() && bits[i] {
        let i = choose|i: int| 0 <= i < bits.len() && bits[i];
        assert(bits[i] == true);
    }
}

/// Which bits are set: for each member whether it has no data; and for each that has none whether it is
/// a file, and whether it says that a file is to be removed.
pub proof fn law_flags_of_members(files: Seq<ArchiveEntry>, e: ArchiveEntry, i: int)
    ensures
        files_info::empty_streams(files).len() == files.len(),
        0 <= i < files.len() ==> files_info::empty_streams(files)[i] == !files[i].has_stream,
        files_info::empty_files(Seq::empty()).len() == 0,
        files_info::anti_items(Seq::empty()).len() == 0,
        e.has_stream ==> files_info::empty_files(files.push(e)) == files_info::empty_files(files),
        !e.has_stream ==> files_info::empty_files(files.push(e)) == files_info::empty_files(
            files,
        ).push(!e.is_directory),
        e.has_stream ==> files_info::anti_items(files.push(e)) == files_info::anti_items(files),
        !e.has_stream ==> files_info::anti_items(files.push(e)) == files_info::anti_items(
            files,
        ).push(e.is_anti_item),
{
    assert(files.push(e).drop_last() =~= files);
    assert(files.push(e).last() == e);
    if !e.has_stream {
        assert(files_info::empty_files(files.push(e)) =~= files_info::empty_files(files).push(
            !e.is_directory,
        ));
        assert(files_info::anti_items(files.push(e)) =~= files_info::anti_items(files).push(
            e.is_anti_item,
        ));
    }
}

/// The names of members: that they are here, and each behind another.
pub proof fn law_names_in_bytes(a: Seq<ArchiveEntry>, b: Seq<ArchiveEntry>, e: ArchiveEntry)
    ensures
        files_info::names_bytes(a) == files_info::section(
            0x11,
            seq![0x00u8] + files_info::names_body(a),
        ),
        files_info::names_body(Seq::empty()).len() == 0,
        files_info::names_body(seq![e]) == wire::name_bytes(e.name@),
        files_info::names_body(a + b) == files_info::names_body(a) + files_info::names_body(b),
    decreases a.len(),
{
    reveal_with_fuel(files_info::names_body, 2);
    assert(seq![e].skip(1) =~= Seq::<ArchiveEntry>::empty());
    assert(files_info::names_body(seq![e]) =~= wire::name_bytes(e.name@));
    if a.len() == 0 {
        assert(a + b =~= b);
        assert(files_info::names_body(a) + files_info::names_body(b) =~= files_info::names_body(b));
    } else {
        law_names_in_bytes(a.skip(1), b, e);
        assert((a + b).skip(1) =~= a.skip(1) + b);
        assert((a + b)[0] == a[0]);
        assert(files_info::names_body(a + b) =~= files_info::names_body(a) + files_info::names_body(
            b,
        ));
    }
}

/// What is said of the dates and the attributes of a member is what the member says, where it says so.
pub proof fn law_values_of_members(files: Seq<ArchiveEntry>, i: int)
    requires
        0 <= i < files.len(),
    ensures
        ({
            let e = files[i];
            let created = files_info::creation_dates_of(files);
            let read = files_info::access_dates_of(files);
            let changed = files_info::modified_dates_of(files);
            let attributes = files_info::attributes_of(files);
            &&& created.len() == files.len() && read.len() == files.len()
            &&& changed.len() == files.len() && attributes.len() == files.len()
            &&& created[i] is Some == e.has_creation_date
            &&& e.has_creation_date ==> created[i] == Some(e.creation_date)
            &&& read[i] is Some == e.has_access_date
            &&& e.has_access_date ==> read[i] == Some(e.access_date)
            &&& changed[i] is Some == e.has_last_modified_date
            &&& e.has_last_modified_date ==> changed[i] == Some(e.last_modified_date)
            &&& attributes[i] is Some == e.has_windows_attributes
            &&& e.has_windows_attributes ==> attributes[i] == Some(e.windows_attributes as u64)
        }),
{
}

/// A value for each member is left out where no member has one. Else there is a byte of one where all
/// have one, and else a byte of nought and a bit for each member that says whether it has one; then a
/// byte of nought, for that they are here, and the values.
pub proof fn law_values_in_bytes(id: u8, values: Seq<Option<u64>>, width: nat, bits: Seq<bool>)
    requires
        bits.len() == values.len(),
        forall|i: int| 0 <= i < bits.len() ==> #[trigger] bits[i] == values[i] is Some,
    ensures
        (forall|i: int| 0 <= i < values.len() ==> values[i] is None) ==> files_info::values_bytes(
            id,
            values,
            width,
        ).len() == 0,
        values.len() > 0 && (forall|i: int| 0 <= i < values.len() ==> values[i] is Some)
            ==> files_info::values_bytes(id, values, width) == files_info::section(
            id,
            seq![0x01u8, 0x00] + files_info::present(values, width),
        ),
        (exists|i: int| 0 <= i < values.len() && values[i] is Some) && (exists|i: int|
            0 <= i < values.len() && values[i] is None) ==> files_info::values_bytes(
            id,
            values,
            width,
        ) == files_info::section(
            id,
            seq![0x00u8] + wire::bit_vector(bits) + seq![0x00u8] + files_info::present(
                values,
                width,
            ),
        ),
{
    let d = files_info::defined(values);
    assert(d =~= bits);
    if exists|i: int| 0 <= i < values.len() && values[i] is Some {
        let i = choose|i: int| 0 <= i < values.len() && values[i] is Some;
        assert(d[i] == true);
    }
    if exists|i: int| 0 <= i < values.len() && values[i] is None {
        let i = choose|i: int| 0 <= i < values.len() && values[i] is None;
        assert(d[i] == false);
    } else if values.len() > 0 {
        assert(values[0] is Some);
        assert(d[0] == true);
        assert(seq![1u8] + seq![0u8] =~= seq![0x01u8, 0x00]);
    }
}

/// The values that there are stand one behind another, in so many bytes each, the least significant
/// first.
pub proof fn law_present_values_in_bytes(
    a: Seq<Option<u64>>,
    b: Seq<Option<u64>>,
    v: u64,
    width: nat,
)
    ensures
        files_info::present(a + b, width) == files_info::present(a, width) + files_info::present(
            b,
            width,
        ),
        files_info::present(Seq::empty(), width).len() == 0,
        files_info::present(seq![None], width).len() == 0,
        files_info::present(seq![Some(v)], width).len() == width,
        files_info::present(seq![Some(v)], width) == wire::le_digits(v as nat, width),
    decreases a.len(),
{
    reveal_with_fuel(files_info::present, 2);
    assert(seq![Some(v)].skip(1) =~= Seq::<Option<u64>>::empty());
    assert(seq![None::<u64>].skip(1) =~= Seq::<Option<u64>>::empty());
    assert(files_info::present(seq![Some(v)], width) =~= wire::le_digits(v as nat, width));
    assert(files_info::present(seq![None], width) =~= Seq::<u8>::empty());
    wire::lemma_le_digits(v as nat, width);
    if a.len() == 0 {
        assert(a + b =~= b);
        assert(files_info::present(a, width) + files_info::present(b, width)
            =~= files_info::present(b, width));
    } else {
        law_present_values_in_bytes(a.skip(1), b, v, width);
        assert((a + b).skip(1) =~= a.skip(1) + b);
        assert((a + b)[0] == a[0]);
        assert(files_info::present(a + b, width) =~= files_info::present(a, width)
            + files_info::present(b, width));
    }
}

} // verus!
