//! What has been pushed onto a writer, and that its archive gives it all back.

use crate::archive::{ArchiveEntry, SIGNATURE_HEADER_SIZE};
use crate::checksum;
use crate::encoder;
use crate::encoder::EncodedModel;
use crate::encoder_options::EncoderConfiguration;
use crate::writer;
use crate::writer::files_reader;
use crate::writer::files_reader::ListedEntry;
use crate::writer::graph;
use crate::writer::header;
use crate::writer::header::{HeaderRead, StreamsRead};
use crate::writer::pack_info::PackModel;
use crate::writer::prepared;
use crate::writer::prepared::{Bcj2Aes, Bcj2Methods};
use crate::writer::reader;
use crate::writer::reader::ArchiveRead;
use crate::writer::source_reader;
use crate::writer::source_reader::SourceReader;
use crate::writer::streams_reader;
use crate::writer::unpack_info;
use crate::writer::unpack_info::BlockModel;
use crate::writer::WriterModel;
use vstd::prelude::*;

verus! {

/// What is pushed onto a writer, with the coders it goes through.
pub ghost enum Push {
    /// A member without data.
    Empty { entry: ArchiveEntry },
    /// A member with its data, in a block of its own.
    Single { methods: Seq<EncoderConfiguration>, entry: ArchiveEntry, content: Seq<u8> },
    /// Members with their data, in one block behind a chain of coders.
    Solid {
        methods: Seq<EncoderConfiguration>,
        entries: Seq<ArchiveEntry>,
        readers: Seq<SourceReader>,
    },
    /// Members with their data, in one block behind BCJ2.
    Bcj2 {
        bcj2: Bcj2Methods,
        aes: Option<Bcj2Aes>,
        entries: Seq<ArchiveEntry>,
        readers: Seq<SourceReader>,
    },
}

/// Whether members and sources make a block: there is one source for each, and each member is marked
/// as having data.
pub open spec fn sources_ok(entries: Seq<ArchiveEntry>, readers: Seq<SourceReader>) -> bool {
    &&& entries.len() == readers.len()
    &&& entries.len() <= u64::MAX
    &&& reader::all_stored(entries)
    &&& source_reader::all_content(readers).len() <= u64::MAX
}

/// Whether a push succeeds, as far as the coders are concerned.
pub open spec fn push_ok(p: Push) -> bool {
    match p {
        Push::Empty { .. } => true,
        Push::Single { methods, content, .. } => {
            &&& content.len() <= u64::MAX
            &&& encoder::stages(methods, content) is Some
        },
        Push::Solid { methods, entries, readers } => {
            &&& sources_ok(entries, readers)
            &&& encoder::stages(methods, source_reader::all_content(readers)) is Some
        },
        Push::Bcj2 { bcj2, aes, entries, readers } => {
            &&& sources_ok(entries, readers)
            &&& prepared::bcj2_encodes(bcj2, aes, source_reader::all_content(readers))
        },
    }
}

/// Whether every push succeeds.
pub open spec fn pushes_ok(h: Seq<Push>) -> bool {
    forall|i: int| 0 <= i < h.len() ==> push_ok(#[trigger] h[i])
}

/// A writer once this is pushed onto it.
pub open spec fn pushed(m: WriterModel, p: Push) -> WriterModel {
    match p {
        Push::Empty { entry } => writer::with_empty_entry(m, entry),
        Push::Single { methods, entry, content } => WriterModel {
            methods: m.methods,
            ..writer::with_entry(
                WriterModel { methods, ..m },
                entry,
                content.len() as u64,
                checksum::crc32(content),
                encoder::encoded_by(methods, content),
            )
        },
        Push::Solid { methods, entries, readers } => writer::with_block(
            m,
            prepared::solid_of(methods, entries, readers),
        ),
        Push::Bcj2 { bcj2, aes, entries, readers } => writer::with_block(
            m,
            prepared::bcj2_of(bcj2, aes, entries, readers),
        ),
    }
}

/// A writer once all of this is pushed onto it, one after another.
pub open spec fn run(from: WriterModel, h: Seq<Push>) -> WriterModel
    decreases h.len(),
{
    if h.len() == 0 {
        from
    } else {
        pushed(run(from, h.drop_last()), h.last())
    }
}

/// Whether a writer is what another has become by these pushes. How it is set may differ, and how
/// much of its output it has handed on.
pub open spec fn made_by(m: WriterModel, from: WriterModel, h: Seq<Push>) -> bool {
    let n = run(from, h);
    &&& m.written == n.written
    &&& m.position == n.position
    &&& m.found == n.found
    &&& m.files == n.files
    &&& m.pack == n.pack
    &&& m.blocks == n.blocks
}

/// A member: what is listed of it, and its data where it has any.
pub ghost struct Member {
    pub listed: ListedEntry,
    pub content: Option<Seq<u8>>,
}

/// What is to be listed of a member that was given: its name, its times and its attributes; and of one
/// without data whether it is a directory, and whether it says that a file is to be removed.
pub open spec fn as_given(e: ArchiveEntry, has_data: bool) -> ListedEntry {
    ListedEntry {
        name: e.name@,
        has_stream: has_data,
        is_directory: !has_data && e.is_directory,
        is_anti_item: !has_data && e.is_anti_item,
        created: if e.has_creation_date {
            Some(e.creation_date)
        } else {
            None
        },
        accessed: if e.has_access_date {
            Some(e.access_date)
        } else {
            None
        },
        modified: if e.has_last_modified_date {
            Some(e.last_modified_date)
        } else {
            None
        },
        attributes: if e.has_windows_attributes {
            Some(e.windows_attributes as u64)
        } else {
            None
        },
    }
}

/// The data of each member of a push that has any.
pub open spec fn contents_of(p: Push) -> Seq<Seq<u8>> {
    match p {
        Push::Empty { .. } => Seq::empty(),
        Push::Single { content, .. } => seq![content],
        Push::Solid { readers, .. } => readers.map_values(|s: SourceReader| s.content@),
        Push::Bcj2 { readers, .. } => readers.map_values(|s: SourceReader| s.content@),
    }
}

/// The members of a push.
pub open spec fn members_of(p: Push) -> Seq<Member> {
    match p {
        Push::Empty { entry } => seq![Member { listed: as_given(entry, false), content: None }],
        Push::Single { entry, content, .. } => {
            seq![Member { listed: as_given(entry, true), content: Some(content) }]
        },
        Push::Solid { entries, readers, .. } => Seq::new(
            entries.len(),
            |i: int|
                Member { listed: as_given(entries[i], true), content: Some(readers[i].content@) },
        ),
        Push::Bcj2 { entries, readers, .. } => Seq::new(
            entries.len(),
            |i: int|
                Member { listed: as_given(entries[i], true), content: Some(readers[i].content@) },
        ),
    }
}

/// The members of all pushes, in their order.
pub open spec fn members(h: Seq<Push>) -> Seq<Member>
    decreases h.len(),
{
    if h.len() == 0 {
        Seq::empty()
    } else {
        members(h.drop_last()) + members_of(h.last())
    }
}

/// The pushes that make a block.
pub open spec fn filled(h: Seq<Push>) -> Seq<Push>
    decreases h.len(),
{
    if h.len() == 0 {
        Seq::empty()
    } else if h.last() is Empty {
        filled(h.drop_last())
    } else {
        filled(h.drop_last()).push(h.last())
    }
}

/// The data of the block that a push makes.
pub open spec fn data_of(p: Push) -> Seq<u8> {
    match p {
        Push::Empty { .. } => Seq::empty(),
        Push::Single { content, .. } => content,
        Push::Solid { readers, .. } => source_reader::all_content(readers),
        Push::Bcj2 { readers, .. } => source_reader::all_content(readers),
    }
}

/// The data of the blocks that pushes make.
pub open spec fn plains(h: Seq<Push>) -> Seq<Seq<u8>> {
    filled(h).map_values(|p: Push| data_of(p))
}

/// Where a packed stream starts in an archive.
pub open spec fn stream_start(pack: PackModel, k: int) -> int {
    SIGNATURE_HEADER_SIZE + pack.pos + streams_reader::total(pack.sizes.take(k))
}

/// The packed streams of a block, at the places in an archive that its header gives: they follow
/// those of the blocks before.
pub open spec fn block_streams(archive: Seq<u8>, s: StreamsRead, j: int) -> Seq<Seq<u8>> {
    let first = writer::packed_count(s.blocks.take(j)) as int;
    Seq::new(
        s.blocks[j].folder.packed.len(),
        |i: int|
            archive.subrange(
                stream_start(s.pack, first + i),
                stream_start(s.pack, first + i) + s.pack.sizes[first + i],
            ),
    )
}

/// Whether a block behind a chain of coders unpacks to data: its packed stream is the first of the
/// stages that its coders bring the data through, the data is the last, each coder unpacks to as many
/// bytes as the stage behind it has, and the checksum is that of the data.
pub open spec fn chain_unpacks(
    b: BlockModel,
    methods: Seq<EncoderConfiguration>,
    packed: Seq<Seq<u8>>,
    plain: Seq<u8>,
) -> bool {
    &&& b.folder == unpack_info::chain_folder(methods)
    &&& encoder::stages(methods, plain) matches Some(st) && {
        &&& packed == seq![st[0]]
        &&& st.last() == plain
        &&& b.sizes == encoder::unpack_sizes(st)
    }
    &&& b.crc == checksum::crc32(plain)
}

/// Whether a block behind BCJ2 unpacks to data along its wiring, and the checksum is that of the
/// data.
pub open spec fn bcj2_unpacks(
    b: BlockModel,
    methods: Bcj2Methods,
    aes: Option<Bcj2Aes>,
    packed: Seq<Seq<u8>>,
    plain: Seq<u8>,
) -> bool {
    &&& b.folder == prepared::bcj2_folder(methods, aes)
    &&& exists|inputs: Seq<Seq<u8>>, outputs: Seq<Seq<u8>>| #[trigger]
        graph::unpacks_to(
            b.folder,
            b.sizes,
            packed,
            graph::bcj2_configurations(methods, aes),
            inputs,
            outputs,
            plain,
        )
    &&& b.crc == checksum::crc32(plain)
}

/// Data, cut into files of these lengths.
pub open spec fn cut(plain: Seq<u8>, sizes: Seq<u64>) -> Seq<Seq<u8>> {
    Seq::new(
        sizes.len(),
        |i: int|
            plain.subrange(
                streams_reader::total(sizes.take(i)) as int,
                streams_reader::total(sizes.take(i)) + sizes[i],
            ),
    )
}

/// Whether a block, with these packed streams, is the one that a push makes: it unpacks to the data
/// of the push, and its files are the data of the members, with their checksums.
pub open spec fn unpacks_as(p: Push, b: BlockModel, packed: Seq<Seq<u8>>) -> bool {
    &&& match p {
        Push::Empty { .. } => false,
        Push::Single { methods, .. } => chain_unpacks(b, methods, packed, data_of(p)),
        Push::Solid { methods, .. } => chain_unpacks(b, methods, packed, data_of(p)),
        Push::Bcj2 { bcj2, aes, .. } => bcj2_unpacks(b, bcj2, aes, packed, data_of(p)),
    }
    &&& cut(data_of(p), b.file_sizes) == contents_of(p)
    &&& b.file_crcs == contents_of(p).map_values(|c: Seq<u8>| checksum::crc32(c))
}

/// The files of blocks that unpack to this, in their order.
pub open spec fn files_in(blocks: Seq<BlockModel>, data: Seq<Seq<u8>>) -> Seq<Seq<u8>>
    decreases blocks.len(),
{
    if blocks.len() == 0 {
        Seq::empty()
    } else {
        files_in(blocks.drop_last(), data.drop_last()) + cut(data.last(), blocks.last().file_sizes)
    }
}

/// The members of an archive, as a reader takes them out: each member with data takes the next of
/// the files of the blocks, and none is left over.
pub open spec fn taken_out(listed: Seq<ListedEntry>, data: Seq<Seq<u8>>) -> Option<Seq<Member>>
    decreases listed.len(),
{
    if listed.len() == 0 {
        if data.len() == 0 {
            Some(Seq::empty())
        } else {
            None
        }
    } else if !listed.last().has_stream {
        match taken_out(listed.drop_last(), data) {
            None => None,
            Some(before) => Some(
                before.push(Member { listed: listed.last(), content: None }),
            ),
        }
    } else if data.len() == 0 {
        None
    } else {
        match taken_out(listed.drop_last(), data.drop_last()) {
            None => None,
            Some(before) => Some(
                before.push(Member { listed: listed.last(), content: Some(data.last()) }),
            ),
        }
    }
}

/// The members of two lists are taken out one list after the other.
proof fn lemma_taken_out(
    first: Seq<ListedEntry>,
    second: Seq<ListedEntry>,
    first_data: Seq<Seq<u8>>,
    second_data: Seq<Seq<u8>>,
)
    requires
        taken_out(first, first_data) is Some,
        taken_out(second, second_data) is Some,
    ensures
        taken_out(first + second, first_data + second_data) == Some(
            taken_out(first, first_data)->0 + taken_out(second, second_data)->0,
        ),
    decreases second.len(),
{
    let all = first + second;
    let data = first_data + second_data;
    let out = taken_out(first, first_data)->0;
    if second.len() == 0 {
        assert(all =~= first);
        assert(data =~= first_data);
        assert(out + Seq::<Member>::empty() =~= out);
    } else {
        assert(all.drop_last() =~= first + second.drop_last());
        assert(all.last() == second.last());
        if !second.last().has_stream {
            lemma_taken_out(first, second.drop_last(), first_data, second_data);
        } else {
            assert(data.drop_last() =~= first_data + second_data.drop_last());
            assert(data.last() == second_data.last());
            lemma_taken_out(first, second.drop_last(), first_data, second_data.drop_last());
        }
        assert(taken_out(all, data)->0 =~= out + taken_out(second, second_data)->0);
    }
}

/// Where all members of a list have data, each takes one file.
proof fn lemma_all_taken_out(listed: Seq<ListedEntry>, data: Seq<Seq<u8>>)
    requires
        listed.len() == data.len(),
        forall|i: int| 0 <= i < listed.len() ==> (#[trigger] listed[i]).has_stream,
    ensures
        taken_out(listed, data) == Some(
            Seq::new(
                listed.len(),
                |i: int| Member { listed: listed[i], content: Some(data[i]) },
            ),
        ),
    decreases listed.len(),
{
    let out = Seq::new(
        listed.len(),
        |i: int| Member { listed: listed[i], content: Some(data[i]) },
    );
    if listed.len() == 0 {
        assert(out =~= Seq::empty());
    } else {
        lemma_all_taken_out(listed.drop_last(), data.drop_last());
        assert(taken_out(listed, data)->0 =~= out);
    }
}

/// What sources hold together, cut where each ends, is what each holds.
proof fn lemma_cut(readers: Seq<SourceReader>)
    requires
        source_reader::all_content(readers).len() <= u64::MAX,
    ensures
        cut(source_reader::all_content(readers), source_reader::lengths(readers))
            == readers.map_values(|s: SourceReader| s.content@),
        streams_reader::total(source_reader::lengths(readers)) == source_reader::all_content(
            readers,
        ).len(),
    decreases readers.len(),
{
    let plain = source_reader::all_content(readers);
    let sizes = source_reader::lengths(readers);
    let held = readers.map_values(|s: SourceReader| s.content@);
    if readers.len() == 0 {
        assert(cut(plain, sizes) =~= held);
    } else {
        let less = readers.drop_last();
        let before = source_reader::all_content(less);
        lemma_cut(less);
        assert(sizes.drop_last() =~= source_reader::lengths(less));
        assert forall|i: int| 0 <= i < readers.len() implies #[trigger] cut(plain, sizes)[i]
            == held[i] by {
            if i < less.len() {
                let at = streams_reader::total(sizes.take(i)) as int;
                assert(cut(before, sizes.drop_last())[i] == less[i].content@);
                assert(sizes.drop_last().take(i) =~= sizes.take(i));
                lemma_total_take(sizes.drop_last(), i);
                assert(before.subrange(at, at + sizes[i]) =~= plain.subrange(at, at + sizes[i]));
            } else {
                assert(sizes.take(i) =~= sizes.drop_last());
                assert(plain.subrange(before.len() as int, plain.len() as int)
                    =~= readers[i].content@);
            }
        }
        assert(cut(plain, sizes) =~= held);
    }
}

/// Some of the sizes and the next come to no more than all.
proof fn lemma_total_take(sizes: Seq<u64>, i: int)
    requires
        0 <= i < sizes.len(),
    ensures
        streams_reader::total(sizes.take(i)) + sizes[i] <= streams_reader::total(sizes),
    decreases sizes.len(),
{
    if i == sizes.len() - 1 {
        assert(sizes.take(i) =~= sizes.drop_last());
    } else {
        lemma_total_take(sizes.drop_last(), i);
        assert(sizes.drop_last().take(i) =~= sizes.take(i));
    }
}

/// The packed streams that a push writes.
pub open spec fn packed_of(p: Push) -> Seq<(Seq<u8>, u32)> {
    match p {
        Push::Empty { .. } => Seq::empty(),
        Push::Single { methods, content, .. } => {
            seq![prepared::with_crc(encoder::encoded_by(methods, content).packed)]
        },
        Push::Solid { methods, entries, readers } => {
            prepared::solid_of(methods, entries, readers).packed
        },
        Push::Bcj2 { bcj2, aes, entries, readers } => {
            prepared::bcj2_of(bcj2, aes, entries, readers).packed
        },
    }
}

/// The blocks that a push adds: one, or none where it has no data.
pub open spec fn blocks_of(p: Push) -> Seq<BlockModel> {
    match p {
        Push::Empty { .. } => Seq::empty(),
        Push::Single { methods, content, .. } => seq![
            header::single_block(
                methods,
                encoder::encoded_by(methods, content).sizes,
                checksum::crc32(content),
            ),
        ],
        Push::Solid { methods, entries, readers } => {
            seq![prepared::block_of(prepared::solid_of(methods, entries, readers))]
        },
        Push::Bcj2 { bcj2, aes, entries, readers } => {
            seq![prepared::block_of(prepared::bcj2_of(bcj2, aes, entries, readers))]
        },
    }
}

/// The members that a push adds, as the writer keeps them.
pub open spec fn entries_of(p: Push) -> Seq<ArchiveEntry> {
    match p {
        Push::Empty { entry } => seq![writer::empty_entry(entry)],
        Push::Single { methods, entry, content } => seq![
            writer::stored_entry(
                entry,
                content.len() as u64,
                checksum::crc32(content),
                encoder::encoded_by(methods, content).packed,
            ),
        ],
        Push::Solid { methods, entries, readers } => {
            prepared::solid_of(methods, entries, readers).entries
        },
        Push::Bcj2 { bcj2, aes, entries, readers } => {
            prepared::bcj2_of(bcj2, aes, entries, readers).entries
        },
    }
}

/// A push writes its packed streams, and adds its blocks and its members.
pub proof fn lemma_pushed(m: WriterModel, p: Push)
    ensures
        ({
            let n = pushed(m, p);
            let w = writer::with_streams(m, packed_of(p));
            &&& n.written == w.written
            &&& n.output == w.output
            &&& n.position == w.position
            &&& n.found == m.found
            &&& n.pack == w.pack
            &&& n.blocks == m.blocks + blocks_of(p)
            &&& n.files == m.files + entries_of(p)
        }),
{
    let n = pushed(m, p);
    let packed = packed_of(p);
    writer::lemma_with_streams(m, packed);
    if let Push::Single { methods, content, .. } = p {
        reveal_with_fuel(writer::with_streams, 2);
        assert(packed.drop_last() =~= Seq::empty());
    }
    assert(n.blocks =~= m.blocks + blocks_of(p));
    assert(n.files =~= m.files + entries_of(p));
}

/// The block of a single member unpacks to its data.
proof fn lemma_single_unpacks(p: Push)
    requires
        push_ok(p),
        p is Single,
    ensures
        unpacks_as(
            p,
            streams_reader::listed_block(blocks_of(p)[0]),
            prepared::stream_bytes(packed_of(p)),
        ),
{
    let shown = streams_reader::listed_block(blocks_of(p)[0]);
    let packed = prepared::stream_bytes(packed_of(p));
    let plain = data_of(p);
    let held = contents_of(p);
    if let Push::Single { methods, content, .. } = p {
        encoder::law_each_coder_takes_the_stage_behind_it(methods, content);
        assert(packed =~= seq![encoder::encoded_by(methods, content).packed]);
        assert(shown.file_sizes.take(0) =~= Seq::empty());
        assert(content.subrange(0, content.len() as int) =~= content);
        assert(cut(plain, shown.file_sizes) =~= held);
        assert(shown.file_crcs =~= held.map_values(|c: Seq<u8>| checksum::crc32(c)));
        assert(chain_unpacks(shown, methods, packed, plain));
    }
}

/// A block behind a chain of coders unpacks to what its sources hold.
proof fn lemma_solid_unpacks(p: Push)
    requires
        push_ok(p),
        p is Solid,
    ensures
        unpacks_as(
            p,
            streams_reader::listed_block(blocks_of(p)[0]),
            prepared::stream_bytes(packed_of(p)),
        ),
{
    let b = blocks_of(p)[0];
    let shown = streams_reader::listed_block(b);
    let packed = prepared::stream_bytes(packed_of(p));
    let plain = data_of(p);
    if let Push::Solid { methods, entries, readers } = p {
        encoder::law_each_coder_takes_the_stage_behind_it(methods, plain);
        assert(packed =~= seq![encoder::encoded_by(methods, plain).packed]);
        lemma_files_of_block(entries, readers, b);
        assert(chain_unpacks(shown, methods, packed, plain));
    }
}

/// A block behind BCJ2 unpacks to what its sources hold.
#[verifier::rlimit(30)]
proof fn lemma_bcj2_unpacks(p: Push)
    requires
        push_ok(p),
        p is Bcj2,
    ensures
        unpacks_as(
            p,
            streams_reader::listed_block(blocks_of(p)[0]),
            prepared::stream_bytes(packed_of(p)),
        ),
{
    let b = blocks_of(p)[0];
    let shown = streams_reader::listed_block(b);
    let packed = prepared::stream_bytes(packed_of(p));
    let plain = data_of(p);
    if let Push::Bcj2 { bcj2, aes, entries, readers } = p {
        graph::law_bcj2_block_unpacks_to_its_data(bcj2, aes, entries, readers);
        lemma_files_of_block(entries, readers, b);
        let made = prepared::bcj2_of(bcj2, aes, entries, readers);
        let coders = graph::bcj2_configurations(bcj2, aes);
        let (inputs, outputs) = choose|inputs: Seq<Seq<u8>>, outputs: Seq<Seq<u8>>| #[trigger]
            graph::unpacks_to(made.folder, made.sizes, packed, coders, inputs, outputs, plain);
        assert(graph::unpacks_to(
            shown.folder,
            shown.sizes,
            packed,
            coders,
            inputs,
            outputs,
            plain,
        ));
        assert(bcj2_unpacks(shown, bcj2, aes, packed, plain));
    }
}

/// The members of a push are taken out of its data.
proof fn lemma_members_of_push(p: Push)
    requires
        push_ok(p),
        p !is Empty,
    ensures
        taken_out(files_reader::listed_files(entries_of(p)), contents_of(p)) == Some(members_of(p)),
{
    let shown = files_reader::listed_files(entries_of(p));
    lemma_all_taken_out(shown, contents_of(p));
    assert(taken_out(shown, contents_of(p))->0 =~= members_of(p));
}

/// A block that a push makes unpacks to what was pushed, and has as many packed streams as its coders
/// take.
proof fn lemma_block_of_push(p: Push)
    requires
        push_ok(p),
        p !is Empty,
    ensures
        blocks_of(p).len() == 1,
        blocks_of(p)[0].folder.packed.len() == packed_of(p).len(),
        unpacks_as(
            p,
            streams_reader::listed_block(blocks_of(p)[0]),
            prepared::stream_bytes(packed_of(p)),
        ),
{
    match p {
        Push::Empty { .. } => {},
        Push::Single { .. } => lemma_single_unpacks(p),
        Push::Solid { .. } => lemma_solid_unpacks(p),
        Push::Bcj2 { .. } => lemma_bcj2_unpacks(p),
    }
}

/// The files of a block are what its sources hold.
proof fn lemma_files_of_block(
    entries: Seq<ArchiveEntry>,
    readers: Seq<SourceReader>,
    b: BlockModel,
)
    requires
        sources_ok(entries, readers),
        b.num_files == entries.len(),
        b.sizes.last() == source_reader::all_content(readers).len() as u64,
        b.crc == checksum::crc32(source_reader::all_content(readers)),
        b.file_sizes == source_reader::lengths(readers),
        b.file_crcs == source_reader::crcs(readers),
    ensures
        ({
            let shown = streams_reader::listed_block(b);
            let held = readers.map_values(|s: SourceReader| s.content@);
            &&& cut(source_reader::all_content(readers), shown.file_sizes) == held
            &&& shown.file_crcs == held.map_values(|c: Seq<u8>| checksum::crc32(c))
        }),
{
    let shown = streams_reader::listed_block(b);
    let held = readers.map_values(|s: SourceReader| s.content@);
    lemma_cut(readers);
    if entries.len() == 1 {
        reader::lemma_single_content(readers);
        assert(shown.file_sizes =~= source_reader::lengths(readers));
    }
    assert(shown.file_crcs =~= held.map_values(|c: Seq<u8>| checksum::crc32(c)));
}

/// Packed streams are as long as they are said to be.
proof fn lemma_streams_total(m: WriterModel, packed: Seq<(Seq<u8>, u32)>)
    requires
        writer::with_streams(m, packed).written.len() <= u64::MAX,
    ensures
        ({
            let n = writer::with_streams(m, packed);
            &&& streams_reader::total(n.pack.sizes) == streams_reader::total(m.pack.sizes)
                + prepared::packed_len(packed)
            &&& n.written.len() == m.written.len() + prepared::packed_len(packed)
        }),
    decreases packed.len(),
{
    reader::lemma_streams_grow(m, packed);
    if packed.len() > 0 {
        let less = writer::with_streams(m, packed.drop_last());
        lemma_streams_total(m, packed.drop_last());
        assert(writer::with_streams(m, packed).pack.sizes.drop_last() =~= less.pack.sizes);
    }
}

/// Each of the packed streams that are written lies behind those before it.
proof fn lemma_stream_written(m: WriterModel, packed: Seq<(Seq<u8>, u32)>, i: int)
    requires
        writer::with_streams(m, packed).written.len() <= u64::MAX,
        0 <= i < packed.len(),
    ensures
        ({
            let n = writer::with_streams(m, packed);
            let k = m.pack.sizes.len() + i;
            let at = (m.written.len() + prepared::packed_len(packed.take(i))) as int;
            &&& n.pack.sizes.len() == m.pack.sizes.len() + packed.len()
            &&& n.pack.sizes[k] == packed[i].0.len()
            &&& streams_reader::total(n.pack.sizes.take(k)) == streams_reader::total(m.pack.sizes)
                + prepared::packed_len(packed.take(i))
            &&& at + packed[i].0.len() <= n.written.len()
            &&& n.written.subrange(at, at + packed[i].0.len()) == packed[i].0
        }),
    decreases packed.len(),
{
    let n = writer::with_streams(m, packed);
    let less = writer::with_streams(m, packed.drop_last());
    let k = m.pack.sizes.len() + i;
    let at = (m.written.len() + prepared::packed_len(packed.take(i))) as int;
    writer::lemma_with_streams(m, packed);
    writer::lemma_with_streams(m, packed.drop_last());
    lemma_streams_total(m, packed.drop_last());
    if i == packed.len() - 1 {
        assert(packed.take(i) =~= packed.drop_last());
        assert(n.pack.sizes.take(k) =~= less.pack.sizes);
        assert(n.written.subrange(at, at + packed[i].0.len()) =~= packed[i].0);
    } else {
        lemma_stream_written(m, packed.drop_last(), i);
        assert(packed.drop_last().take(i) =~= packed.take(i));
        assert(n.pack.sizes.take(k) =~= less.pack.sizes.take(k));
        assert(n.written.subrange(at, at + packed[i].0.len()) =~= less.written.subrange(
            at,
            at + packed[i].0.len(),
        ));
    }
}

/// Whether the packed streams that a writer has written are as long as is said, and all its packed
/// streams are those of its blocks.
pub open spec fn laid_out(m: WriterModel) -> bool {
    &&& m.found <= m.pack.sizes.len()
    &&& m.written.len() == streams_reader::total(m.pack.sizes) - streams_reader::total(
        m.pack.sizes.take(m.found as int),
    )
    &&& writer::packed_count(m.blocks) == m.pack.sizes.len()
}

/// Where a packed stream starts in what a writer has written.
pub open spec fn written_start(m: WriterModel, k: int) -> int {
    streams_reader::total(m.pack.sizes.take(k)) - streams_reader::total(
        m.pack.sizes.take(m.found as int),
    )
}

/// The packed streams of a block, in what a writer has written.
pub open spec fn written_streams(m: WriterModel, j: int) -> Seq<Seq<u8>> {
    let first = writer::packed_count(m.blocks.take(j)) as int;
    Seq::new(
        m.blocks[j].folder.packed.len(),
        |i: int|
            m.written.subrange(
                written_start(m, first + i),
                written_start(m, first + i) + m.pack.sizes[first + i],
            ),
    )
}

/// Whether a block of a writer is the one that a push makes.
pub open spec fn written_as(m: WriterModel, j: int, p: Push) -> bool {
    unpacks_as(p, streams_reader::listed_block(m.blocks[j]), written_streams(m, j))
}

/// Where the packed streams of a block lie among all.
proof fn lemma_block_place(blocks: Seq<BlockModel>, j: int)
    requires
        0 <= j < blocks.len(),
    ensures
        writer::packed_count(blocks.take(j)) + blocks[j].folder.packed.len()
            <= writer::packed_count(blocks),
    decreases blocks.len(),
{
    if j == blocks.len() - 1 {
        assert(blocks.take(j) =~= blocks.drop_last());
    } else {
        lemma_block_place(blocks.drop_last(), j);
        assert(blocks.drop_last().take(j) =~= blocks.take(j));
    }
}

/// What is written behind them changes nothing of the packed streams of a block.
proof fn lemma_written_streams_stay(m: WriterModel, n: WriterModel, j: int)
    requires
        laid_out(m),
        reader::goes_on(m, n),
        0 <= j < m.blocks.len(),
        m.found <= writer::packed_count(m.blocks.take(j)),
    ensures
        written_streams(n, j) == written_streams(m, j),
{
    let first = writer::packed_count(m.blocks.take(j)) as int;
    let found = m.found as int;
    assert(n.blocks.take(j) =~= m.blocks.take(j));
    lemma_block_place(m.blocks, j);
    assert(n.pack.sizes.take(found) =~= m.pack.sizes.take(found));
    assert forall|i: int| 0 <= i < m.blocks[j].folder.packed.len() implies #[trigger]
        written_streams(n, j)[i] == written_streams(m, j)[i] by {
        let k = first + i;
        assert(n.pack.sizes.take(k) =~= m.pack.sizes.take(k));
        lemma_total_take(m.pack.sizes, k);
        reader::lemma_total_split(m.pack.sizes, found, k);
        let at = written_start(m, k);
        assert(n.written.subrange(at, at + m.pack.sizes[k]) =~= m.written.subrange(
            at,
            at + m.pack.sizes[k],
        ));
    }
    assert(written_streams(n, j) =~= written_streams(m, j));
}

/// A push keeps what is laid out, and lays its own block out behind it.
#[verifier::rlimit(30)]
proof fn lemma_push_laid_out(m: WriterModel, p: Push)
    requires
        laid_out(m),
        push_ok(p),
        pushed(m, p).written.len() <= u64::MAX,
    ensures
        laid_out(pushed(m, p)),
        reader::goes_on(m, pushed(m, p)),
        pushed(m, p).blocks.len() == m.blocks.len() + blocks_of(p).len(),
        p !is Empty ==> blocks_of(p).len() == 1 && written_as(pushed(m, p), m.blocks.len() as int, p),
{
    let n = pushed(m, p);
    let found = m.found as int;
    let packed = packed_of(p);
    lemma_pushed(m, p);
    reader::lemma_streams_go_on(m, packed);
    assert(reader::goes_on(m, n));
    assert(n.pack.sizes.take(found) =~= m.pack.sizes.take(found));
    writer::lemma_with_streams(m, packed);
    if p is Empty {
        assert(n.blocks =~= m.blocks);
    } else {
        lemma_block_of_push(p);
        lemma_streams_total(m, packed);
        let j = m.blocks.len() as int;
        assert(n.blocks.drop_last() =~= m.blocks);
        assert(n.blocks.take(j) =~= m.blocks);
        assert forall|i: int| 0 <= i < packed.len() implies #[trigger] written_streams(n, j)[i]
            == prepared::stream_bytes(packed)[i] by {
            lemma_stream_written(m, packed, i);
        }
        assert(written_streams(n, j) =~= prepared::stream_bytes(packed));
    }
}

/// Whether the blocks of a writer from one place on are those that pushes make.
pub open spec fn all_written_as(m: WriterModel, first: int, h: Seq<Push>) -> bool {
    forall|j: int| 0 <= j < h.len() ==> #[trigger] written_as(m, first + j, h[j])
}

/// Pushes keep what is laid out, and lay out their blocks behind it.
proof fn lemma_run(from: WriterModel, h: Seq<Push>)
    requires
        laid_out(from),
        pushes_ok(h),
        run(from, h).written.len() <= u64::MAX,
    ensures
        laid_out(run(from, h)),
        reader::goes_on(from, run(from, h)),
        run(from, h).blocks.len() == from.blocks.len() + filled(h).len(),
        all_written_as(run(from, h), from.blocks.len() as int, filled(h)),
    decreases h.len(),
{
    if h.len() > 0 {
        let m = run(from, h.drop_last());
        let p = h.last();
        let n = run(from, h);
        let first = from.blocks.len() as int;
        lemma_pushed(m, p);
        reader::lemma_streams_go_on(m, packed_of(p));
        assert forall|i: int| 0 <= i < h.drop_last().len() implies push_ok(
            #[trigger] h.drop_last()[i],
        ) by {
            assert(h.drop_last()[i] == h[i]);
        }
        assert(push_ok(h[h.len() - 1]));
        lemma_run(from, h.drop_last());
        lemma_push_laid_out(m, p);
        assert forall|j: int| 0 <= j < filled(h).len() implies #[trigger] written_as(
            n,
            first + j,
            filled(h)[j],
        ) by {
            if j < filled(h.drop_last()).len() {
                assert(written_as(m, first + j, filled(h.drop_last())[j]));
                lemma_found_before(from, m, first + j);
                lemma_written_streams_stay(m, n, first + j);
            }
        }
    }
}

/// The packed streams that were found come before those of the blocks that are added.
proof fn lemma_found_before(from: WriterModel, m: WriterModel, j: int)
    requires
        laid_out(from),
        reader::goes_on(from, m),
        from.blocks.len() <= j <= m.blocks.len(),
    ensures
        m.found <= writer::packed_count(m.blocks.take(j)),
    decreases j,
{
    if j == from.blocks.len() {
        assert(m.blocks.take(j) =~= from.blocks);
    } else {
        lemma_found_before(from, m, j - 1);
        assert(m.blocks.take(j).drop_last() =~= m.blocks.take(j - 1));
    }
}

/// The members that are pushed are taken out behind those that there were.
#[verifier::rlimit(30)]
proof fn lemma_members(from: WriterModel, h: Seq<Push>, data: Seq<Seq<u8>>)
    requires
        pushes_ok(h),
        data.len() == from.blocks.len(),
        taken_out(
            files_reader::listed_files(from.files),
            files_in(streams_reader::listed_blocks(from.blocks), data),
        ) is Some,
    ensures
        ({
            let n = run(from, h);
            &&& n.blocks.len() == data.len() + plains(h).len()
            &&& taken_out(
                files_reader::listed_files(n.files),
                files_in(streams_reader::listed_blocks(n.blocks), data + plains(h)),
            ) == Some(
                taken_out(
                    files_reader::listed_files(from.files),
                    files_in(streams_reader::listed_blocks(from.blocks), data),
                )->0 + members(h),
            )
        }),
    decreases h.len(),
{
    let out = taken_out(
        files_reader::listed_files(from.files),
        files_in(streams_reader::listed_blocks(from.blocks), data),
    )->0;
    if h.len() == 0 {
        assert(data + plains(h) =~= data);
        assert(out + members(h) =~= out);
    } else {
        let less = h.drop_last();
        let m = run(from, less);
        let p = h.last();
        let n = run(from, h);
        assert forall|i: int| 0 <= i < less.len() implies push_ok(#[trigger] less[i]) by {
            assert(less[i] == h[i]);
        }
        assert(push_ok(h[h.len() - 1]));
        lemma_members(from, less, data);
        lemma_pushed(m, p);
        let before = files_reader::listed_files(m.files);
        let added = files_reader::listed_files(entries_of(p));
        let files_before = files_in(streams_reader::listed_blocks(m.blocks), data + plains(less));
        assert(files_reader::listed_files(n.files) =~= before + added);
        if p is Empty {
            assert(n.blocks =~= m.blocks);
            assert(plains(h) =~= plains(less));
            reveal_with_fuel(taken_out, 2);
            assert(added.drop_last() =~= Seq::empty());
            assert(taken_out(added, Seq::empty())->0 =~= members_of(p));
            assert(files_before + Seq::<Seq<u8>>::empty() =~= files_before);
            lemma_taken_out(before, added, files_before, Seq::empty());
        } else {
            lemma_block_of_push(p);
            lemma_members_of_push(p);
            let blocks = streams_reader::listed_blocks(n.blocks);
            let all = data + plains(h);
            assert(plains(h) =~= plains(less).push(data_of(p)));
            assert(blocks.drop_last() =~= streams_reader::listed_blocks(m.blocks));
            assert(all.drop_last() =~= data + plains(less));
            lemma_taken_out(before, added, files_before, contents_of(p));
        }
        assert(out + members(less) + members_of(p) =~= out + members(h));
    }
}

/// The header of the archive of a writer, as a reader finds it.
pub open spec fn head_of(m: WriterModel) -> HeaderRead {
    HeaderRead {
        streams: StreamsRead { pack: m.pack, blocks: streams_reader::listed_blocks(m.blocks) },
        files: files_reader::listed_files(m.files),
    }
}

/// Whether a reader comes from an archive to this header: the archive has it as it is, or has it
/// behind these coders, where the description of its block says.
pub open spec fn leads_to(
    archive: Seq<u8>,
    methods: Seq<EncoderConfiguration>,
    head: HeaderRead,
) -> bool {
    match reader::read_archive(archive) {
        None => false,
        Some(ArchiveRead::Plain(found)) => found == head,
        Some(ArchiveRead::Encoded(s)) => {
            &&& s.blocks.len() == 1
            &&& exists|raw: Seq<u8>| #[trigger]
                chain_unpacks(s.blocks[0], methods, block_streams(archive, s, 0), raw)
                    && header::read_header(raw) == Some(head)
        },
    }
}

/// Whether the blocks of an archive from one place on are those that pushes make: the bytes at the
/// places that the header gives for them unpack to what was pushed.
pub open spec fn blocks_hold(archive: Seq<u8>, s: StreamsRead, first: int, h: Seq<Push>) -> bool {
    &&& s.blocks.len() == first + h.len()
    &&& forall|j: int|
        0 <= j < h.len() ==> unpacks_as(
            #[trigger] h[j],
            s.blocks[first + j],
            block_streams(archive, s, first + j),
        )
}

/// Listing blocks keeps how many packed streams they have.
pub proof fn lemma_listed_count(blocks: Seq<BlockModel>, j: int)
    requires
        0 <= j <= blocks.len(),
    ensures
        writer::packed_count(streams_reader::listed_blocks(blocks).take(j))
            == writer::packed_count(blocks.take(j)),
    decreases j,
{
    if j > 0 {
        let shown = streams_reader::listed_blocks(blocks);
        lemma_listed_count(blocks, j - 1);
        assert(shown.take(j).drop_last() =~= shown.take(j - 1));
        assert(blocks.take(j).drop_last() =~= blocks.take(j - 1));
    }
}

proof fn lemma_ok_is_laid_out(m: WriterModel)
    requires
        m.ok(),
    ensures
        laid_out(m),
{
    let n = m.pack.sizes.len() as int;
    let found = m.found as int;
    reader::lemma_streams_len(m.written, m.pack.sizes.skip(found), m.pack.crcs.skip(found));
    reader::lemma_total_split(m.pack.sizes, found, n);
    assert(m.pack.sizes.take(n) =~= m.pack.sizes);
    assert(m.pack.sizes.skip(found).take(n - found) =~= m.pack.sizes.skip(found));
}

/// What a writer has written of a block lies in its archive where the header says.
proof fn lemma_block_streams(
    m: WriterModel,
    e: EncodedModel,
    before: Seq<u8>,
    sent: Seq<u8>,
    j: int,
)
    requires
        m.ok(),
        reader::has_sent(m, before, sent),
        writer::finished_end(m, e) <= u64::MAX,
        writer::finished_header(m, e).len() < 0x1_0000_0000,
        0 <= j < m.blocks.len(),
        m.found <= writer::packed_count(m.blocks.take(j)),
    ensures
        block_streams(reader::whole(m, e, before, sent), head_of(m).streams, j) == written_streams(
            m,
            j,
        ),
{
    let archive = reader::whole(m, e, before, sent);
    let s = head_of(m).streams;
    let first = writer::packed_count(m.blocks.take(j)) as int;
    let found = m.found as int;
    let from = SIGNATURE_HEADER_SIZE + before.len();
    reader::law_signature_leads_to_the_header(m, e, before, sent);
    lemma_ok_is_laid_out(m);
    lemma_listed_count(m.blocks, j);
    lemma_block_place(m.blocks, j);
    let held = archive.subrange(from, m.position as int);
    assert forall|i: int| 0 <= i < m.blocks[j].folder.packed.len() implies #[trigger] block_streams(
        archive,
        s,
        j,
    )[i] == written_streams(m, j)[i] by {
        let k = first + i;
        let at = written_start(m, k);
        lemma_total_take(m.pack.sizes, k);
        reader::lemma_total_split(m.pack.sizes, found, k);
        assert(stream_start(s.pack, k) == from + at);
        assert(held.subrange(at, at + m.pack.sizes[k]) =~= archive.subrange(
            from + at,
            from + at + m.pack.sizes[k],
        ));
    }
    assert(block_streams(archive, s, j) =~= written_streams(m, j));
}

/// A finished archive leads a reader to its header, which is encoded or not.
pub proof fn law_archive_leads_to_its_header(
    m: WriterModel,
    e: EncodedModel,
    before: Seq<u8>,
    sent: Seq<u8>,
)
    requires
        m.ok(),
        reader::has_sent(m, before, sent),
        files_reader::names_ok(m.files),
        encoder::all_supported(writer::header_methods_of(m)),
        header::header_bytes(m.files, m.pack, m.blocks).len() <= encoder::MAX_LZMA_LEN,
        e == encoder::encoded_by(
            writer::header_methods_of(m),
            header::header_bytes(m.files, m.pack, m.blocks),
        ),
        writer::finished_end(m, e) <= u64::MAX,
        writer::finished_header(m, e).len() < 0x1_0000_0000,
    ensures
        leads_to(
            reader::whole(m, e, before, sent),
            writer::header_methods_of(m),
            head_of(m),
        ),
{
    let archive = reader::whole(m, e, before, sent);
    let methods = writer::header_methods_of(m);
    let raw = header::header_bytes(m.files, m.pack, m.blocks);
    writer::law_header_is_encoded(m, raw);
    encoder::law_each_coder_takes_the_stage_behind_it(methods, raw);
    reader::law_archive_reads_back(m, e, before, sent);
    if !writer::keeps_raw_header(m, e) {
        reader::law_signature_leads_to_the_header(m, e, before, sent);
        header::law_header_reads_back(m.files, m.pack, m.blocks);
        let s = reader::read_archive(archive)->0->Encoded_0;
        let b = header::single_block(methods, e.sizes, checksum::crc32(raw));
        assert(s.blocks[0] == streams_reader::listed_block(b));
        assert(s.blocks.take(0) =~= Seq::empty());
        assert(s.pack.sizes.take(0) =~= Seq::empty());
        assert(block_streams(archive, s, 0)[0] == e.packed);
        assert(block_streams(archive, s, 0) =~= seq![e.packed]);
        encoder::lemma_stages(methods, raw);
        assert(chain_unpacks(s.blocks[0], methods, block_streams(archive, s, 0), raw));
    }
}

/// A finished archive gives back what was pushed, behind what the writer started from: a reader comes
/// to its header; the bytes at the places that the header gives for the blocks added are what their
/// coders made of the data pushed, and unpack to it, with the lengths and checksums that the header
/// gives; and where the blocks that there were unpack to such data that their members can be taken
/// out, the members pushed are taken out behind those, in the order of the pushes, each with what
/// was given of it and its data.
pub proof fn law_archive_gives_back_what_was_pushed(
    from: WriterModel,
    h: Seq<Push>,
    m: WriterModel,
    e: EncodedModel,
    before: Seq<u8>,
    sent: Seq<u8>,
    data: Seq<Seq<u8>>,
)
    requires
        from.ok(),
        pushes_ok(h),
        made_by(m, from, h),
        m.ok(),
        reader::has_sent(m, before, sent),
        files_reader::names_ok(m.files),
        encoder::all_supported(writer::header_methods_of(m)),
        header::header_bytes(m.files, m.pack, m.blocks).len() <= encoder::MAX_LZMA_LEN,
        e == encoder::encoded_by(
            writer::header_methods_of(m),
            header::header_bytes(m.files, m.pack, m.blocks),
        ),
        writer::finished_end(m, e) <= u64::MAX,
        writer::finished_header(m, e).len() < 0x1_0000_0000,
        data.len() == from.blocks.len(),
        taken_out(head_of(from).files, files_in(head_of(from).streams.blocks, data)) is Some,
    ensures
        ({
            let archive = reader::whole(m, e, before, sent);
            let head = head_of(m);
            &&& leads_to(archive, writer::header_methods_of(m), head)
            &&& blocks_hold(archive, head.streams, from.blocks.len() as int, filled(h))
            &&& taken_out(head.files, files_in(head.streams.blocks, data + plains(h))) == Some(
                taken_out(head_of(from).files, files_in(head_of(from).streams.blocks, data))->0
                    + members(h),
            )
        }),
{
    let archive = reader::whole(m, e, before, sent);
    let head = head_of(m);
    let n = run(from, h);
    let first = from.blocks.len() as int;
    law_archive_leads_to_its_header(m, e, before, sent);
    lemma_ok_is_laid_out(from);
    lemma_run(from, h);
    lemma_members(from, h, data);
    assert forall|j: int| 0 <= j < filled(h).len() implies unpacks_as(
        #[trigger] filled(h)[j],
        head.streams.blocks[first + j],
        block_streams(archive, head.streams, first + j),
    ) by {
        assert(written_as(n, first + j, filled(h)[j]));
        lemma_found_before(from, n, first + j);
        lemma_block_streams(m, e, before, sent, first + j);
        assert(written_streams(m, first + j) =~= written_streams(n, first + j));
    }
}

/// A new archive gives back what was pushed: a reader comes to its header, the bytes at the places
/// that the header gives for the blocks unpack to the data pushed, and the members are taken out of
/// it in the order of the pushes, each with what was given of it and its data.
pub proof fn law_new_archive_gives_back_what_was_pushed(
    h: Seq<Push>,
    m: WriterModel,
    e: EncodedModel,
    sent: Seq<u8>,
)
    requires
        pushes_ok(h),
        made_by(m, writer::fresh(), h),
        m.ok(),
        reader::has_sent(m, Seq::empty(), sent),
        files_reader::names_ok(m.files),
        encoder::all_supported(writer::header_methods_of(m)),
        header::header_bytes(m.files, m.pack, m.blocks).len() <= encoder::MAX_LZMA_LEN,
        e == encoder::encoded_by(
            writer::header_methods_of(m),
            header::header_bytes(m.files, m.pack, m.blocks),
        ),
        writer::finished_end(m, e) <= u64::MAX,
        writer::finished_header(m, e).len() < 0x1_0000_0000,
    ensures
        ({
            let archive = reader::whole(m, e, Seq::empty(), sent);
            let head = head_of(m);
            &&& leads_to(archive, writer::header_methods_of(m), head)
            &&& blocks_hold(archive, head.streams, 0, filled(h))
            &&& taken_out(head.files, files_in(head.streams.blocks, plains(h))) == Some(members(h))
        }),
{
    let from = writer::fresh();
    assert(from.output =~= from.written.skip(0));
    assert(from.ok());
    law_archive_gives_back_what_was_pushed(from, h, m, e, Seq::empty(), sent, Seq::empty());
    assert(Seq::<Seq<u8>>::empty() + plains(h) =~= plains(h));
    assert(Seq::<Member>::empty() + members(h) =~= members(h));
}

/// A writer that is what pushes have made of another is, once more is pushed, what those pushes and
/// that make of it.
pub proof fn law_push_joins_the_history(from: WriterModel, h: Seq<Push>, m: WriterModel, p: Push)
    requires
        made_by(m, from, h),
    ensures
        made_by(pushed(m, p), from, h.push(p)),
{
    let n = run(from, h);
    assert(h.push(p).drop_last() =~= h);
    lemma_pushed(m, p);
    lemma_pushed(n, p);
    lemma_same_streams(m, n, packed_of(p));
}

proof fn lemma_same_streams(m: WriterModel, n: WriterModel, packed: Seq<(Seq<u8>, u32)>)
    requires
        m.written == n.written,
        m.position == n.position,
        m.pack == n.pack,
    ensures
        ({
            let a = writer::with_streams(m, packed);
            let b = writer::with_streams(n, packed);
            a.written == b.written && a.position == b.position && a.pack == b.pack
        }),
    decreases packed.len(),
{
    if packed.len() > 0 {
        lemma_same_streams(m, n, packed.drop_last());
    }
}

/// What the pushing functions make of a writer is what a push makes of it: the coders that are set for
/// a single member and for members in one block, and those of a block compressed elsewhere.
pub proof fn law_pushing_functions_push(
    m: WriterModel,
    entry: ArchiveEntry,
    content: Seq<u8>,
    methods: Seq<EncoderConfiguration>,
    bcj2: Bcj2Methods,
    aes: Option<Bcj2Aes>,
    entries: Seq<ArchiveEntry>,
    readers: Seq<SourceReader>,
)
    ensures
        writer::with_empty_entry(m, entry) == pushed(m, Push::Empty { entry }),
        writer::with_entry(
            m,
            entry,
            content.len() as u64,
            checksum::crc32(content),
            encoder::encoded_by(m.methods, content),
        ) == pushed(m, Push::Single { methods: m.methods, entry, content }),
        writer::with_block(m, prepared::solid_of(methods, entries, readers)) == pushed(
            m,
            Push::Solid { methods, entries, readers },
        ),
        writer::with_block(m, prepared::bcj2_of(bcj2, aes, entries, readers)) == pushed(
            m,
            Push::Bcj2 { bcj2, aes, entries, readers },
        ),
{
}

/// A writer onto which nothing is pushed is made by no pushes; and setting its coders, setting whether
/// its header is encrypted and handing its output on change nothing of what it was made by.
pub proof fn law_settings_leave_the_history(
    from: WriterModel,
    h: Seq<Push>,
    m: WriterModel,
    methods: Seq<EncoderConfiguration>,
    encrypt_header: bool,
    output: Seq<u8>,
)
    requires
        made_by(m, from, h),
    ensures
        made_by(from, from, Seq::empty()),
        made_by(WriterModel { methods, encrypt_header, output, ..m }, from, h),
{
}

/// Packed streams, one behind another.
pub open spec fn joined(packed: Seq<(Seq<u8>, u32)>) -> Seq<u8>
    decreases packed.len(),
{
    if packed.len() == 0 {
        Seq::empty()
    } else {
        joined(packed.drop_last()) + packed.last().0
    }
}

/// What is written is put out.
pub proof fn lemma_joined(m: WriterModel, packed: Seq<(Seq<u8>, u32)>)
    ensures
        writer::with_streams(m, packed).written == m.written + joined(packed),
        writer::with_streams(m, packed).output == m.output + joined(packed),
    decreases packed.len(),
{
    let n = writer::with_streams(m, packed);
    if packed.len() > 0 {
        lemma_joined(m, packed.drop_last());
    }
    assert(n.written =~= m.written + joined(packed));
    assert(n.output =~= m.output + joined(packed));
}

/// What is pushed changes nothing of what was handed on, and what is handed on goes behind it.
pub proof fn law_what_was_sent(m: WriterModel, p: Push, before: Seq<u8>, sent: Seq<u8>)
    requires
        reader::has_sent(m, before, sent),
        m.position + prepared::packed_len(packed_of(p)) <= u64::MAX,
    ensures
        reader::has_sent(pushed(m, p), before, sent),
        reader::has_sent(WriterModel { output: Seq::empty(), ..m }, before, sent + m.output),
{
    lemma_pushed(m, p);
    lemma_joined(m, packed_of(p));
    reader::lemma_streams_grow(m, packed_of(p));
    let n = pushed(m, p);
    assert(n.written =~= sent + n.output);
    assert(m.written =~= sent + m.output + Seq::<u8>::empty());
}

} // verus!
