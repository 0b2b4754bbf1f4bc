//! What becomes of the members that are pushed.

use crate::archive::ArchiveEntry;
use crate::checksum;
use crate::encoder;
use crate::encoder::EncodedModel;
use crate::encoder_options::EncoderConfiguration;
use crate::writer;
use crate::writer::history;
use crate::writer::history::Push;
use crate::writer::prepared;
use crate::writer::prepared::{Bcj2Aes, Bcj2Methods};
use crate::writer::source_reader;
use crate::writer::source_reader::SourceReader;
use crate::writer::WriterModel;
use vstd::prelude::*;

verus! {

/// Of a new member nothing is known but its name and whether it is a directory; a file is expected to
/// have data.
pub proof fn law_of_a_new_member_nothing_is_known(name: String, is_directory: bool)
    ensures
        ({
            let e = ArchiveEntry::named(name, is_directory);
            &&& e.name == name
            &&& e.is_directory == is_directory
            &&& e.has_stream == !is_directory
            &&& !e.is_anti_item
            &&& !e.has_creation_date
            &&& !e.has_access_date
            &&& !e.has_last_modified_date
            &&& !e.has_windows_attributes
            &&& !e.has_crc
            &&& e.size == 0
            &&& e.compressed_size == 0
            &&& e.crc == 0
            &&& e.compressed_crc == 0
            &&& e.creation_date == 0
            &&& e.access_date == 0
            &&& e.last_modified_date == 0
            &&& e.windows_attributes == 0
        }),
{
}

/// A member that is pushed without data keeps all that was said of it, but that it has data.
pub proof fn law_member_without_data_is_kept(m: WriterModel, entry: ArchiveEntry)
    ensures
        ({
            let n = writer::with_empty_entry(m, entry);
            let e = n.files.last();
            &&& n.files.drop_last() == m.files
            &&& n.files.len() == m.files.len() + 1
            &&& e == writer::empty_entry(entry)
            &&& !e.has_stream && e.size == 0 && e.compressed_size == 0 && !e.has_crc
            &&& e == (ArchiveEntry {
                has_stream: e.has_stream,
                size: e.size,
                compressed_size: e.compressed_size,
                has_crc: e.has_crc,
                ..entry
            })
            &&& n == WriterModel { files: n.files, ..m }
        }),
{
    let n = writer::with_empty_entry(m, entry);
    assert(n.files.drop_last() =~= m.files);
}

/// A member that is pushed with its data tells, and so does the archive, what its packed stream is:
/// it is as long as the archive has grown, and its checksum is that of the bytes by which it has. All
/// else that was said of the member is kept.
pub proof fn law_member_tells_its_packed_stream(
    m: WriterModel,
    entry: ArchiveEntry,
    size: u64,
    crc: u32,
    e: EncodedModel,
)
    requires
        m.position + e.packed.len() <= u64::MAX,
    ensures
        ({
            let n = writer::with_entry(m, entry, size, crc, e);
            let added = writer::stored_entry(entry, size, crc, e.packed);
            let grown = n.written.skip(m.written.len() as int);
            &&& n.files.last() == added
            &&& n.files.drop_last() == m.files
            &&& n.files.len() == m.files.len() + 1
            &&& m.written.is_prefix_of(n.written)
            &&& n.output == m.output + grown
            &&& added.compressed_size == n.position - m.position
            &&& added.compressed_size == grown.len()
            &&& added.compressed_size == n.pack.sizes.last()
            &&& added.compressed_crc == checksum::crc32(grown) as u64
            &&& added.compressed_crc == n.pack.crcs.last() as u64
            &&& n.pack.sizes.drop_last() == m.pack.sizes
            &&& n.pack.crcs.drop_last() == m.pack.crcs
            &&& n.pack.sizes.len() == m.pack.sizes.len() + 1
            &&& n.pack.crcs.len() == m.pack.crcs.len() + 1
            &&& grown == e.packed
            &&& added.has_stream && added.has_crc && added.size == size && added.crc == crc as u64
            &&& added == (ArchiveEntry {
                has_stream: true,
                has_crc: true,
                size: added.size,
                crc: added.crc,
                compressed_size: added.compressed_size,
                compressed_crc: added.compressed_crc,
                ..entry
            })
        }),
{
    let n = writer::with_entry(m, entry, size, crc, e);
    assert(n.written.skip(m.written.len() as int) =~= e.packed);
    assert(n.files.drop_last() =~= m.files);
    assert(n.pack.sizes.drop_last() =~= m.pack.sizes);
    assert(n.pack.crcs.drop_last() =~= m.pack.crcs);
    assert(m.written =~= n.written.take(m.written.len() as int));
}

/// The block that a member pushed with its data gets is one of one file, with its checksum.
pub proof fn law_member_gets_a_block_of_its_own(
    m: WriterModel,
    entry: ArchiveEntry,
    size: u64,
    crc: u32,
    e: EncodedModel,
)
    ensures
        ({
            let n = writer::with_entry(m, entry, size, crc, e);
            let b = n.blocks.last();
            &&& n.blocks.len() == m.blocks.len() + 1
            &&& n.blocks.drop_last() == m.blocks
            &&& b.num_files == 1
            &&& b.crc == crc
            &&& b.sizes == e.sizes
            &&& b.file_sizes.len() == 0
            &&& b.file_crcs.len() == 0
            &&& b.folder.coders.len() == m.methods.len()
            &&& n.methods == m.methods
            &&& n.encrypt_header == m.encrypt_header
            &&& n.found == m.found
            &&& n.pack.pos == m.pack.pos
        }),
{
    let n = writer::with_entry(m, entry, size, crc, e);
    assert(n.blocks.drop_last() =~= m.blocks);
}

/// The members of a solid block, and of one behind BCJ2, keep all that was said of them but how long
/// they are and their checksums, which are those of their data.
pub proof fn law_members_of_a_block_are_kept(
    methods: Seq<EncoderConfiguration>,
    bcj2: Bcj2Methods,
    aes: Option<Bcj2Aes>,
    entries: Seq<ArchiveEntry>,
    readers: Seq<SourceReader>,
    i: int,
)
    requires
        0 <= i < entries.len(),
        entries.len() == readers.len(),
    ensures
        prepared::solid_of(methods, entries, readers).entries.len() == entries.len(),
        prepared::bcj2_of(bcj2, aes, entries, readers).entries.len() == entries.len(),
        prepared::solid_of(methods, entries, readers).entries[i] == (ArchiveEntry {
            size: readers[i].content@.len() as u64,
            crc: checksum::crc32(readers[i].content@) as u64,
            has_crc: true,
            ..entries[i]
        }),
        prepared::bcj2_of(bcj2, aes, entries, readers).entries[i] == (ArchiveEntry {
            size: readers[i].content@.len() as u64,
            crc: checksum::crc32(readers[i].content@) as u64,
            has_crc: true,
            ..entries[i]
        }),
{
}

/// What is pushed, as it was given.
pub open spec fn given(p: Push) -> Seq<ArchiveEntry> {
    match p {
        Push::Empty { entry } => seq![entry],
        Push::Single { entry, .. } => seq![entry],
        Push::Solid { entries, .. } => entries,
        Push::Bcj2 { entries, .. } => entries,
    }
}

/// What all pushes were given, in their order.
pub open spec fn all_given(h: Seq<Push>) -> Seq<ArchiveEntry>
    decreases h.len(),
{
    if h.len() == 0 {
        Seq::empty()
    } else {
        all_given(h.drop_last()) + given(h.last())
    }
}

/// What the writer keeps of all pushes, in their order.
spec fn all_kept(h: Seq<Push>) -> Seq<ArchiveEntry>
    decreases h.len(),
{
    if h.len() == 0 {
        Seq::empty()
    } else {
        all_kept(h.drop_last()) + history::entries_of(h.last())
    }
}

proof fn lemma_all_kept(from: WriterModel, h: Seq<Push>)
    ensures
        history::run(from, h).files == from.files + all_kept(h),
    decreases h.len(),
{
    if h.len() == 0 {
        assert(from.files + all_kept(h) =~= from.files);
    } else {
        let m = history::run(from, h.drop_last());
        lemma_all_kept(from, h.drop_last());
        history::lemma_pushed(m, h.last());
        assert(from.files + all_kept(h) =~= from.files + all_kept(h.drop_last())
            + history::entries_of(h.last()));
    }
}

/// Whether what is kept of a member says of it what was given, and says that it has data where it has.
spec fn said_of(kept: ArchiveEntry, given: ArchiveEntry, member: history::Member) -> bool {
    &&& kept.name == given.name
    &&& member.listed == history::as_given(given, member.content is Some)
    &&& kept.has_stream == (member.content is Some)
    &&& kept.is_directory == given.is_directory
    &&& kept.is_anti_item == given.is_anti_item
    &&& kept.has_creation_date == given.has_creation_date
    &&& kept.creation_date == given.creation_date
    &&& kept.has_access_date == given.has_access_date
    &&& kept.access_date == given.access_date
    &&& kept.has_last_modified_date == given.has_last_modified_date
    &&& kept.last_modified_date == given.last_modified_date
    &&& kept.has_windows_attributes == given.has_windows_attributes
    &&& kept.windows_attributes == given.windows_attributes
    &&& kept.has_stream ==> kept.has_crc
    &&& member.content matches Some(c) ==> kept.size == c.len() as u64 && kept.crc
        == checksum::crc32(c) as u64
}

proof fn lemma_said(h: Seq<Push>)
    requires
        history::pushes_ok(h),
    ensures
        all_kept(h).len() == all_given(h).len(),
        all_kept(h).len() == history::members(h).len(),
        forall|k: int|
            0 <= k < all_kept(h).len() ==> said_of(
                #[trigger] all_kept(h)[k],
                all_given(h)[k],
                history::members(h)[k],
            ),
    decreases h.len(),
{
    if h.len() > 0 {
        let less = h.drop_last();
        let p = h.last();
        assert forall|i: int| 0 <= i < less.len() implies history::push_ok(#[trigger] less[i]) by {
            assert(less[i] == h[i]);
        }
        assert(history::push_ok(h[h.len() - 1]));
        lemma_said(less);
        let n = all_kept(less).len();
        assert(history::entries_of(p).len() == given(p).len());
        assert(history::members_of(p).len() == given(p).len());
        assert forall|k: int| 0 <= k < all_kept(h).len() implies said_of(
            #[trigger] all_kept(h)[k],
            all_given(h)[k],
            history::members(h)[k],
        ) by {
            if k < n {
                assert(said_of(all_kept(less)[k], all_given(less)[k], history::members(less)[k]));
            } else {
                assert(all_kept(h)[k] == history::entries_of(p)[k - n]);
                assert(all_given(h)[k] == given(p)[k - n]);
                assert(history::members(h)[k] == history::members_of(p)[k - n]);
            }
        }
    }
}

/// What a reader lists of each member that was pushed is what was given of it: its name, its times and
/// its attributes; and of one without data whether it is a directory, and whether it says that a file
/// is to be removed. The members are listed in the order of the pushes, behind those that there were.
pub proof fn law_archive_lists_what_was_given(
    from: WriterModel,
    h: Seq<Push>,
    m: WriterModel,
    k: int,
)
    requires
        history::pushes_ok(h),
        history::made_by(m, from, h),
        0 <= k < all_given(h).len(),
    ensures
        ({
            let listed = history::head_of(m).files;
            let l = listed[from.files.len() + k];
            let e = all_given(h)[k];
            &&& listed.len() == from.files.len() + all_given(h).len()
            &&& l.name == e.name@
            &&& l.created == if e.has_creation_date {
                Some(e.creation_date)
            } else {
                None
            }
            &&& l.accessed == if e.has_access_date {
                Some(e.access_date)
            } else {
                None
            }
            &&& l.modified == if e.has_last_modified_date {
                Some(e.last_modified_date)
            } else {
                None
            }
            &&& l.attributes == if e.has_windows_attributes {
                Some(e.windows_attributes as u64)
            } else {
                None
            }
            &&& l.has_stream == (history::members(h)[k].content is Some)
            &&& l.is_directory == (!l.has_stream && e.is_directory)
            &&& l.is_anti_item == (!l.has_stream && e.is_anti_item)
            &&& history::members(h).len() == all_given(h).len()
            &&& history::members(h)[k].listed == l
        }),
{
    lemma_all_kept(from, h);
    lemma_said(h);
    let kept = all_kept(h)[k];
    assert(said_of(kept, all_given(h)[k], history::members(h)[k]));
    assert(m.files[from.files.len() + k] == kept);
}

/// What a writer keeps of each member that was pushed says of it what was given, and how long its data
/// is and its checksum.
pub proof fn law_writer_keeps_what_was_given(
    from: WriterModel,
    h: Seq<Push>,
    m: WriterModel,
    k: int,
)
    requires
        history::pushes_ok(h),
        history::made_by(m, from, h),
        0 <= k < all_given(h).len(),
    ensures
        ({
            let e = all_given(h)[k];
            let f = m.files[from.files.len() + k];
            &&& from.files.is_prefix_of(m.files)
            &&& f.name == e.name
            &&& f.is_directory == e.is_directory
            &&& f.is_anti_item == e.is_anti_item
            &&& f.has_creation_date == e.has_creation_date && f.creation_date == e.creation_date
            &&& f.has_access_date == e.has_access_date && f.access_date == e.access_date
            &&& f.has_last_modified_date == e.has_last_modified_date && f.last_modified_date
                == e.last_modified_date
            &&& f.has_windows_attributes == e.has_windows_attributes && f.windows_attributes
                == e.windows_attributes
            &&& history::members(h)[k].content matches Some(c) ==> f.has_stream && f.has_crc
                && f.size == c.len() as u64 && f.crc == checksum::crc32(c) as u64
            &&& history::members(h)[k].content is None ==> !f.has_stream
        }),
{
    lemma_all_kept(from, h);
    lemma_said(h);
    assert(said_of(all_kept(h)[k], all_given(h)[k], history::members(h)[k]));
    assert(m.files[from.files.len() + k] == all_kept(h)[k]);
    assert(from.files =~= m.files.take(from.files.len() as int));
}

/// Of a member pushed alone, the data that the coders are given is its own; of several, theirs one
/// behind another; and what is recorded of how long each is adds up to the whole.
pub proof fn law_block_holds_the_data_of_its_members(
    readers: Seq<SourceReader>,
    more: SourceReader,
)
    ensures
        source_reader::all_content(Seq::<SourceReader>::empty()).len() == 0,
        source_reader::all_content(readers.push(more))
            == source_reader::all_content(readers) + more.content@,
        source_reader::lengths(readers.push(more))
            == source_reader::lengths(readers).push(more.content@.len() as u64),
        source_reader::crcs(readers.push(more))
            == source_reader::crcs(readers).push(checksum::crc32(more.content@)),
        source_reader::lengths(readers).len() == readers.len(),
        source_reader::crcs(readers).len() == readers.len(),
{
    let all = readers.push(more);
    assert(all.drop_last() =~= readers);
    assert(source_reader::lengths(all)
        =~= source_reader::lengths(readers).push(more.content@.len() as u64));
    assert(source_reader::crcs(all) =~= source_reader::crcs(
        readers,
    ).push(checksum::crc32(more.content@)));
}

/// A block that is pushed adds its members behind those that there are, one block behind the others,
/// and its packed streams, each with its length and its checksum, behind what is written; and nothing
/// else changes.
pub proof fn law_block_is_added_behind(m: WriterModel, b: prepared::PreparedModel)
    ensures
        ({
            let n = writer::with_block(m, b);
            let last = n.blocks.last();
            &&& n.files == m.files + b.entries
            &&& n.blocks.len() == m.blocks.len() + 1
            &&& n.blocks.drop_last() == m.blocks
            &&& last.folder == b.folder
            &&& last.sizes == b.sizes
            &&& last.crc == b.crc
            &&& last.num_files == b.entries.len() as u64
            &&& last.file_sizes == b.file_sizes
            &&& last.file_crcs == b.file_crcs
            &&& n.methods == m.methods
            &&& n.encrypt_header == m.encrypt_header
            &&& n.found == m.found
            &&& n.pack.pos == m.pack.pos
            &&& n.pack.sizes == m.pack.sizes + b.packed.map_values(
                |p: (Seq<u8>, u32)| p.0.len() as u64,
            )
            &&& n.pack.crcs == m.pack.crcs + b.packed.map_values(|p: (Seq<u8>, u32)| p.1)
            &&& n.written == m.written + history::joined(b.packed)
            &&& n.output == m.output + history::joined(b.packed)
        }),
{
    let n = writer::with_block(m, b);
    writer::lemma_with_streams(m, b.packed);
    history::lemma_joined(m, b.packed);
    lemma_streams_recorded(m, b.packed);
    assert(n.blocks.drop_last() =~= m.blocks);
}

proof fn lemma_streams_recorded(m: WriterModel, packed: Seq<(Seq<u8>, u32)>)
    ensures
        writer::with_streams(m, packed).pack.sizes == m.pack.sizes + packed.map_values(
            |p: (Seq<u8>, u32)| p.0.len() as u64,
        ),
        writer::with_streams(m, packed).pack.crcs == m.pack.crcs + packed.map_values(
            |p: (Seq<u8>, u32)| p.1,
        ),
    decreases packed.len(),
{
    let n = writer::with_streams(m, packed);
    if packed.len() > 0 {
        lemma_streams_recorded(m, packed.drop_last());
    }
    assert(n.pack.sizes =~= m.pack.sizes + packed.map_values(
        |p: (Seq<u8>, u32)| p.0.len() as u64,
    ));
    assert(n.pack.crcs =~= m.pack.crcs + packed.map_values(|p: (Seq<u8>, u32)| p.1));
}

/// Packed streams together are as long as each of them, added up.
pub proof fn law_packed_length_adds_up(packed: Seq<(Seq<u8>, u32)>, more: (Seq<u8>, u32))
    ensures
        prepared::packed_len(Seq::empty()) == 0,
        prepared::packed_len(packed.push(more)) == prepared::packed_len(packed) + more.0.len(),
        history::joined(packed).len() == prepared::packed_len(packed),
    decreases packed.len(),
{
    assert(packed.push(more).drop_last() =~= packed);
    if packed.len() > 0 {
        law_packed_length_adds_up(packed.drop_last(), more);
    }
}

/// The packed stream of a solid block is the first stage of its data, with its checksum; what its
/// coders unpack to is what they were given; and the block has the checksum of the data, and the
/// lengths and checksums of its members.
#[verifier::rlimit(40)]
pub proof fn law_solid_block_in_parts(
    methods: Seq<EncoderConfiguration>,
    entries: Seq<ArchiveEntry>,
    readers: Seq<SourceReader>,
)
    requires
        encoder::stages(
            methods,
            source_reader::all_content(readers),
        ) is Some,
    ensures
        ({
            let plain = source_reader::all_content(readers);
            let st = encoder::stages(methods, plain)->0;
            let b = prepared::solid_of(methods, entries, readers);
            &&& b.packed == seq![(st[0], checksum::crc32(st[0]))]
            &&& b.crc == checksum::crc32(plain)
            &&& b.file_sizes == readers.map_values(|s: SourceReader| s.content@.len() as u64)
            &&& b.file_crcs == readers.map_values(|s: SourceReader| checksum::crc32(s.content@))
            &&& b.folder.coders.len() == methods.len()
            &&& methods.len() > 0 ==> b.sizes.len() == methods.len()
            &&& forall|i: int|
                0 <= i < methods.len() ==> #[trigger] b.sizes[i] == st[i + 1].len() as u64
        }),
{
    let plain = source_reader::all_content(readers);
    let b = prepared::solid_of(methods, entries, readers);
    encoder::law_each_coder_takes_the_stage_behind_it(methods, plain);
    assert(b.file_sizes =~= readers.map_values(|s: SourceReader| s.content@.len() as u64));
    assert(b.file_crcs =~= readers.map_values(|s: SourceReader| checksum::crc32(s.content@)));
}

} // verus!
