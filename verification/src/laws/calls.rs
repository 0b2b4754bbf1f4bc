//! What the calls of a writer do, one after another.

use crate::archive::ArchiveEntry;
use crate::checksum;
use crate::encoder;
use crate::encoder::Encoded;
use crate::encoder_options::{EncoderConfiguration, EncoderMethod, EncoderOptions};
use crate::error::Error;
use crate::writer;
use crate::writer::append;
use crate::writer::append::Archive;
use crate::writer::header;
use crate::writer::history;
use crate::writer::prepared;
use crate::writer::prepared::PreparedBlock;
use crate::writer::reader;
use crate::writer::source_reader;
use crate::writer::source_reader::SourceReader;
use crate::writer::unpack_info;
use crate::writer::{ArchiveWriter, AutoFinisher, Finished, Mark, WriterModel};
use vstd::prelude::*;

verus! {

/// A new writer has nothing in it.
pub proof fn law_new(w: ArchiveWriter)
    requires
        call_ensures(ArchiveWriter::new, (), w),
    ensures
        w@.files.len() == 0,
        w@.blocks.len() == 0,
        w@.pack.sizes.len() == 0,
        w@.written.len() == 0,
        w@.output.len() == 0,
        w@.position == 32,
        w@.encrypt_header,
        w@.methods == seq![EncoderConfiguration { method: EncoderMethod::LZMA2, options: None }],
        w@.ok(),
{
}

/// Whether the header is to be encrypted is what it is set to, and setting it changes nothing else.
pub proof fn law_set_encrypt_header(w: &mut ArchiveWriter, enabled: bool)
    requires
        call_requires(ArchiveWriter::set_encrypt_header, (w, enabled)),
        call_ensures(ArchiveWriter::set_encrypt_header, (w, enabled), ()),
        old(w)@.ok(),
    ensures
        final(w)@.encrypt_header == enabled,
        final(w)@ == (WriterModel { encrypt_header: enabled, ..old(w)@ }),
        final(w)@.ok(),
{
}

/// The coders are what they are set to, unless that is none at all, and setting them changes nothing
/// else.
pub proof fn law_set_content_methods(
    w: &mut ArchiveWriter,
    methods: Vec<EncoderConfiguration>,
    r: &mut ArchiveWriter,
)
    requires
        call_ensures(ArchiveWriter::set_content_methods, (w, methods), r),
        old(w)@.ok(),
        *final(r) == *old(r),
    ensures
        methods@.len() > 0 ==> final(w)@.methods == methods@,
        methods@.len() == 0 ==> final(w)@.methods == old(w)@.methods,
        final(w)@ == (WriterModel { methods: final(w)@.methods, ..old(w)@ }),
        final(w)@.ok(),
{
}

/// What has been written and not handed on is handed on, once, and nothing else changes.
pub proof fn law_take_output(w: &mut ArchiveWriter, r: Vec<u8>)
    requires
        call_ensures(ArchiveWriter::take_output, (w,), r),
        old(w)@.ok(),
    ensures
        r@ == old(w)@.output,
        final(w)@.output.len() == 0,
        final(w)@ == (WriterModel { output: final(w)@.output, ..old(w)@ }),
        final(w)@.ok(),
{
}

/// Whatever was pushed behind a mark can be taken back: the writer is then as it was, but for the
/// settings, which stay, and what was not handed on, which is gone.
pub proof fn law_take_back(before: ArchiveWriter, mark: Mark, w: &mut ArchiveWriter, at: u64)
    requires
        before@.ok(),
        call_ensures(ArchiveWriter::mark, (&before,), mark),
        call_ensures(Mark::position, (&mark,), at),
        old(w)@.ok(),
        reader::goes_on(before@, old(w)@),
        call_ensures(ArchiveWriter::take_back, (w, &mark), ()),
    ensures
        at == before@.position,
        final(w)@.files == before@.files,
        final(w)@.blocks == before@.blocks,
        final(w)@.pack == before@.pack,
        final(w)@.written == before@.written,
        final(w)@.position == before@.position,
        final(w)@.found == before@.found,
        final(w)@.output.len() == 0,
        final(w)@.methods == old(w)@.methods,
        final(w)@.encrypt_header == old(w)@.encrypt_header,
        final(w)@.ok(),
{
}

/// A directory, and a file without a source, is added without data; its source is not read, and nothing
/// is written.
pub proof fn law_push_without_data(
    w: &mut ArchiveWriter,
    entry: ArchiveEntry,
    reader: Option<SourceReader>,
    r: Result<&ArchiveEntry, Error>,
)
    requires
        old(w)@.ok(),
        entry.is_directory || reader is None,
        call_ensures(ArchiveWriter::push_archive_entry, (w, entry, reader), r),
    ensures
        r matches Ok(added) && {
            &&& final(w)@.files == old(w)@.files.push(*added)
            &&& *added == (ArchiveEntry {
                has_stream: false,
                size: 0,
                compressed_size: 0,
                has_crc: false,
                ..entry
            })
        },
        final(w)@ == (WriterModel { files: final(w)@.files, ..old(w)@ }),
        final(w)@.ok(),
{
}

/// A file with a source is added with its data: what the archive grows by is what the coders make of it,
/// and the member tells how much that is, how long its data is, and the checksums of both.
#[verifier::rlimit(40)]
pub proof fn law_push_with_data(
    w: &mut ArchiveWriter,
    entry: ArchiveEntry,
    source: SourceReader,
    r: Result<&ArchiveEntry, Error>,
)
    requires
        old(w)@.ok(),
        !entry.is_directory,
        call_ensures(ArchiveWriter::push_archive_entry, (w, entry, Some(source)), r),
        r is Ok,
    ensures
        ({
            let plain = source.content@;
            let added = *r->Ok_0;
            let st = encoder::stages(old(w)@.methods, plain)->0;
            let grown = final(w)@.written.skip(old(w)@.written.len() as int);
            let b = final(w)@.blocks.last();
            &&& source.failure is None
            &&& final(w)@.files == old(w)@.files.push(added)
            &&& old(w)@.written.is_prefix_of(final(w)@.written)
            &&& grown == st[0]
            &&& st.last() == plain
            &&& final(w)@.output == old(w)@.output + grown
            &&& final(w)@.position == old(w)@.position + grown.len()
            &&& final(w)@.pack.sizes == old(w)@.pack.sizes.push(grown.len() as u64)
            &&& final(w)@.pack.crcs == old(w)@.pack.crcs.push(checksum::crc32(grown))
            &&& final(w)@.blocks.drop_last() == old(w)@.blocks
            &&& b.num_files == 1
            &&& b.crc == checksum::crc32(plain)
            &&& b.sizes.last() == plain.len() as u64
            &&& added == (ArchiveEntry {
                has_stream: true,
                size: plain.len() as u64,
                crc: checksum::crc32(plain) as u64,
                has_crc: true,
                compressed_size: grown.len() as u64,
                compressed_crc: checksum::crc32(grown) as u64,
                ..entry
            })
            &&& final(w)@.methods == old(w)@.methods
            &&& final(w)@.encrypt_header == old(w)@.encrypt_header
            &&& final(w)@.ok()
        }),
{
    let plain = source.content@;
    let st = encoder::stages(old(w)@.methods, plain)->0;
    encoder::law_each_coder_takes_the_stage_behind_it(old(w)@.methods, plain);
    assert(final(w)@.written.skip(old(w)@.written.len() as int) =~= st[0]);
    assert(old(w)@.written =~= final(w)@.written.take(old(w)@.written.len() as int));
    assert(final(w)@.blocks.drop_last() =~= old(w)@.blocks);
}

/// A file with a source is refused, with nothing changed, exactly where a coder for AES has no password,
/// the source fails, a coder cannot take what it is given, or the archive would be too large, and it is
/// told which, in this order.
pub proof fn law_push_refused(
    w: &mut ArchiveWriter,
    entry: ArchiveEntry,
    source: SourceReader,
    r: Result<&ArchiveEntry, Error>,
)
    requires
        old(w)@.ok(),
        !entry.is_directory,
        call_ensures(ArchiveWriter::push_archive_entry, (w, entry, Some(source)), r),
    ensures
        ({
            let plain = source.content@;
            let usable = encoder::all_supported(old(w)@.methods);
            let read = source.failure is None;
            let st = encoder::stages(old(w)@.methods, plain);
            let fits = old(w)@.position + st->0[0].len() <= 0xFFFF_FFFF_FFFF_FFFF;
            let message = "Encode entry:"@ + entry.name@;
            &&& r is Ok <==> usable && read && st is Some && fits
            &&& r is Err ==> final(w)@ == old(w)@
            &&& !usable ==> r->Err_0 is Unsupported && r->Err_0.text()
                == "AES256_SHA256 needs a password"@
            &&& usable && !read ==> {
                &&& r->Err_0 matches Error::Io { error, .. }
                &&& source.failure == Some(error)
                &&& r->Err_0.text() == message
            }
            &&& usable && read && st is None ==> r->Err_0 is Unsupported && r->Err_0.text()
                == "the stream is longer than its coder takes"@
            &&& usable && read && st is Some && !fits ==> r->Err_0 is Other && r->Err_0.text()
                == "the archive would be too large"@
        }),
{
    encoder::law_only_length_stops_the_coders(old(w)@.methods, source.content@);
}

/// Files that are pushed together are refused, with nothing changed, exactly where a coder for AES has no
/// password, a source fails, a coder cannot take what it is given, or the archive would be too large,
/// and it is told which, in this order. Else they are added behind the others, with how long each is and
/// its checksum, as one block; and nothing else that was said of them changes.
pub proof fn law_push_together(
    w: &mut ArchiveWriter,
    entries: Vec<ArchiveEntry>,
    readers: Vec<SourceReader>,
    r: Result<&mut ArchiveWriter, Error>,
)
    requires
        old(w)@.ok(),
        entries@.len() == readers@.len(),
        call_ensures(ArchiveWriter::push_archive_entries, (w, entries, readers), r),
        r matches Ok(x) ==> *final(x) == *x,
    ensures
        ({
            let plain = source_reader::all_content(readers@);
            let usable = encoder::all_supported(old(w)@.methods);
            let read = forall|i: int|
                0 <= i < readers@.len() ==> (#[trigger] readers@[i]).failure is None;
            let st = encoder::stages(old(w)@.methods, plain);
            let fits = old(w)@.position + st->0[0].len() <= 0xFFFF_FFFF_FFFF_FFFF;
            let message = "Encode entries:"@ + source_reader::names_text(entries@);
            let b = final(w)@.blocks.last();
            let n = old(w)@.files.len();
            &&& r is Ok <==> usable && read && st is Some && fits
            &&& r is Err ==> final(w)@ == old(w)@
            &&& !usable ==> r->Err_0 is Unsupported && r->Err_0.text()
                == "AES256_SHA256 needs a password"@
            &&& usable && !read ==> r->Err_0 is Io && r->Err_0.text() == message
            &&& usable && read && st is None ==> r->Err_0 is Unsupported && r->Err_0.text()
                == "the stream is longer than its coder takes"@
            &&& usable && read && st is Some && !fits ==> r->Err_0 is Other && r->Err_0.text()
                == "the archive would be too large"@
            &&& r is Ok ==> {
                &&& final(w)@.ok()
                &&& final(w)@.files.len() == n + entries@.len()
                &&& final(w)@.files.take(n as int) == old(w)@.files
                &&& forall|i: int|
                    0 <= i < entries@.len() ==> #[trigger] final(w)@.files[n + i] == (
                    ArchiveEntry {
                        size: readers@[i].content@.len() as u64,
                        crc: checksum::crc32(readers@[i].content@) as u64,
                        has_crc: true,
                        ..entries@[i]
                    })
                &&& final(w)@.written == old(w)@.written + st->0[0]
                &&& final(w)@.output == old(w)@.output + st->0[0]
                &&& final(w)@.position == old(w)@.position + st->0[0].len()
                &&& final(w)@.blocks.drop_last() == old(w)@.blocks
                &&& b.num_files == entries@.len()
                &&& b.crc == checksum::crc32(plain)
                &&& final(w)@.methods == old(w)@.methods
                &&& final(w)@.encrypt_header == old(w)@.encrypt_header
            }
        }),
{
    let from = old(w)@;
    let plain = source_reader::all_content(readers@);
    let st = encoder::stages(from.methods, plain);
    let block = prepared::solid_of(from.methods, entries@, readers@);
    encoder::law_only_length_stops_the_coders(from.methods, plain);
    super::sources::law_first_failure_counts(readers@, 0);
    reveal_with_fuel(prepared::packed_len, 2);
    reveal_with_fuel(writer::with_streams, 2);
    assert(block.packed.drop_last() =~= Seq::empty());
    if r is Ok {
        let n = from.files.len();
        assert(final(w)@.files.take(n as int) =~= from.files);
        assert(final(w)@.blocks.drop_last() =~= from.blocks);
    }
}

/// A block that was prepared adds to a writer what pushing its members together would have, where it was
/// prepared with the coders of the writer.
pub proof fn law_prepared_or_together(
    methods: std::sync::Arc<Vec<EncoderConfiguration>>,
    entries: Vec<ArchiveEntry>,
    readers: Vec<SourceReader>,
    block: PreparedBlock,
    one: &mut ArchiveWriter,
    two: &mut ArchiveWriter,
    first: Result<&mut ArchiveWriter, Error>,
    second: Result<&mut ArchiveWriter, Error>,
)
    requires
        old(one)@.ok(),
        old(two)@ == old(one)@,
        methods@ == old(one)@.methods,
        entries@.len() == readers@.len(),
        entries@.len() > 0,
        call_ensures(prepared::prepare_block, (methods, entries, readers), Ok(block)),
        call_ensures(ArchiveWriter::push_prepared_block, (one, block), first),
        call_ensures(ArchiveWriter::push_archive_entries, (two, entries, readers), second),
        first matches Ok(x) ==> *final(x) == *x,
        second matches Ok(x) ==> *final(x) == *x,
    ensures
        first is Ok == second is Ok,
        final(one)@ == final(two)@,
{
}

/// A block without members adds nothing; another its members, its streams and itself.
pub proof fn law_push_prepared_block(
    w: &mut ArchiveWriter,
    block: PreparedBlock,
    r: Result<&mut ArchiveWriter, Error>,
    members: usize,
    empty: bool,
    packed: usize,
)
    requires
        old(w)@.ok(),
        prepared::prepared_ok(block@),
        call_ensures(PreparedBlock::len, (&block,), members),
        call_ensures(PreparedBlock::is_empty, (&block,), empty),
        call_ensures(PreparedBlock::compressed_len, (&block,), packed),
        call_ensures(ArchiveWriter::push_prepared_block, (w, block), r),
        r matches Ok(x) ==> *final(x) == *x,
    ensures
        empty <==> members == 0,
        r is Ok <==> empty || old(w)@.position + packed <= 0xFFFF_FFFF_FFFF_FFFF,
        r is Err || empty ==> final(w)@ == old(w)@,
        r is Err ==> r->Err_0 is Other && r->Err_0.text() == "the archive would be too large"@,
        r is Ok && !empty ==> {
            &&& final(w)@.ok()
            &&& final(w)@.files == old(w)@.files + block@.entries
            &&& final(w)@.files.len() == old(w)@.files.len() + members
            &&& final(w)@.blocks.len() == old(w)@.blocks.len() + 1
            &&& final(w)@.position == old(w)@.position + packed
            &&& final(w)@.written.len() == old(w)@.written.len() + packed
        },
{
    super::entries::law_block_is_added_behind(old(w)@, block@);
    super::entries::law_packed_length_adds_up(block@.packed, (Seq::empty(), 0));
    if r is Ok && !empty {
        lemma_streams_position(old(w)@, block@.packed);
    }
}

proof fn lemma_streams_position(m: WriterModel, packed: Seq<(Seq<u8>, u32)>)
    requires
        m.position + prepared::packed_len(packed) <= u64::MAX,
    ensures
        writer::with_streams(m, packed).position == m.position + prepared::packed_len(packed),
    decreases packed.len(),
{
    if packed.len() > 0 {
        lemma_streams_position(m, packed.drop_last());
    }
}

/// An archive is finished unless the coder for AES that the data goes through has no password, the header
/// is longer than its coder takes, or the archive would be too large; and it is told which, in this
/// order. Where errors are to be ignored, it is finished just the same, or not.
pub proof fn law_finish(
    w: ArchiveWriter,
    r: Result<Finished, Error>,
    ignored: Option<Finished>,
    auto: AutoFinisher,
    dropped: &mut AutoFinisher,
    last: Option<Finished>,
)
    requires
        w@.ok(),
        call_ensures(ArchiveWriter::finish, (w,), r),
        call_ensures(ArchiveWriter::finish_ignore_error, (w,), ignored),
        call_ensures(ArchiveWriter::auto_finish, (w,), auto),
        *old(dropped) == auto,
        call_ensures(AutoFinisher::finish_ignore_error, (dropped,), last),
    ensures
        ({
            let raw = header::header_bytes(w@.files, w@.pack, w@.blocks);
            let methods = writer::header_methods_of(w@);
            let usable = encoder::all_supported(methods);
            let e = encoder::encoded_by(methods, raw);
            let end = writer::finished_end(w@, e);
            &&& r is Ok <==> usable && raw.len() <= 0xFFFF_FFFF && end <= 0xFFFF_FFFF_FFFF_FFFF
            &&& r matches Ok(f) ==> f@ == writer::finished(w@, e)
            &&& !usable ==> r->Err_0 is Unsupported && r->Err_0.text()
                == "AES256_SHA256 needs a password"@
            &&& usable && raw.len() > 0xFFFF_FFFF ==> r->Err_0 is Unsupported && r->Err_0.text()
                == "the stream is longer than its coder takes"@
            &&& usable && raw.len() <= 0xFFFF_FFFF && end > 0xFFFF_FFFF_FFFF_FFFF ==> r->Err_0
                is Other && r->Err_0.text() == "the archive would be too large"@
        }),
        r is Ok <==> ignored is Some,
        r is Ok ==> r->Ok_0@ == ignored->0@,
        r is Ok <==> last is Some,
        r is Ok ==> r->Ok_0@ == last->0@,
        final(dropped).writer is None,
{
}

/// What was finished once is not finished again.
pub proof fn law_finished_once(a: &mut AutoFinisher, r: Option<Finished>)
    requires
        old(a).writer is None,
        call_ensures(AutoFinisher::finish_ignore_error, (a,), r),
    ensures
        r is None,
        final(a).writer is None,
{
}

/// An archive can be added to exactly where no member with data lacks its checksum, it is described in
/// full, and what lies behind its packed streams leaves it small enough; else it is told which, in this
/// order. The writer then goes on behind that.
pub proof fn law_append_to(
    a: Archive,
    gap: Vec<u8>,
    checked: bool,
    complete: bool,
    end: Option<u64>,
    r: Result<ArchiveWriter, Error>,
)
    requires
        call_ensures(Archive::checks_every_file, (&a,), checked),
        call_ensures(Archive::is_complete, (&a,), complete),
        call_ensures(ArchiveWriter::packed_end, (&a,), end),
        call_ensures(ArchiveWriter::append_to, (a, gap), r),
    ensures
        checked <==> !exists|i: int|
            0 <= i < a.files@.len() && (#[trigger] a.files@[i]).has_stream && !a.files@[i].has_crc,
        complete ==> end is Some,
        end matches Some(p) ==> p == append::packed_end_of(a.pack_info@),
        end is None <==> append::packed_end_of(a.pack_info@) > 0xFFFF_FFFF_FFFF_FFFF,
        r is Ok <==> checked && complete && end->0 + gap@.len() <= 0xFFFF_FFFF_FFFF_FFFF,
        !checked ==> r->Err_0 is Other && r->Err_0.text() == "append_to: a file has no checksum"@,
        checked && !complete ==> r->Err_0 is Other && r->Err_0.text()
            == "append_to: the archive is not described in full"@,
        checked && complete && r is Err ==> r->Err_0 is Other && r->Err_0.text()
            == "the archive would be too large"@,
        r matches Ok(w) ==> {
            &&& w@.ok()
            &&& w@.files == a.files@
            &&& w@.position == end->0 + gap@.len()
            &&& w@.written == gap@
            &&& w@.output.len() == 0
        },
{
    if r is Ok {
        super::append::law_adding_starts_from_what_is_there(a, gap@);
    }
}

/// A writer takes data exactly where none of its coders is AES without a password.
pub proof fn law_takes_data(w: ArchiveWriter, r: bool)
    requires
        call_ensures(ArchiveWriter::takes_data, (&w,), r),
    ensures
        r <==> !exists|i: int|
            0 <= i < w@.methods.len() && (#[trigger] w@.methods[i]).method is AES256_SHA256
                && !(w@.methods[i].options matches Some(EncoderOptions::Aes(_))),
{
    if !r {
        let i = choose|i: int|
            0 <= i < w@.methods.len() && !encoder::supported(#[trigger] w@.methods[i]);
        assert(w@.methods[i].method is AES256_SHA256);
    }
}

/// A file whose data was encoded elsewhere is added as one that is pushed with its data is: the archive
/// grows by its packed stream, and the member tells how much that is, how long its data is, and the
/// checksums of both. It is refused, with nothing changed, exactly where the archive would be too large.
pub proof fn law_record_entry(
    w: &mut ArchiveWriter,
    entry: ArchiveEntry,
    size: u64,
    crc: u32,
    encoded: Encoded,
    r: Result<&ArchiveEntry, Error>,
)
    requires
        old(w)@.ok(),
        encoded@.sizes.len() == old(w)@.methods.len(),
        call_ensures(ArchiveWriter::record_entry, (w, entry, size, crc, encoded), r),
    ensures
        r is Ok <==> old(w)@.position + encoded.packed@.len() <= 0xFFFF_FFFF_FFFF_FFFF,
        r is Err ==> final(w)@ == old(w)@ && r->Err_0 is Other && r->Err_0.text()
            == "the archive would be too large"@,
        r is Ok ==> {
            let packed = encoded.packed@;
            let added = *r->Ok_0;
            let b = final(w)@.blocks.last();
            &&& final(w)@.files == old(w)@.files.push(added)
            &&& added == (ArchiveEntry {
                has_stream: true,
                size,
                crc: crc as u64,
                has_crc: true,
                compressed_size: packed.len() as u64,
                compressed_crc: checksum::crc32(packed) as u64,
                ..entry
            })
            &&& final(w)@.written == old(w)@.written + packed
            &&& final(w)@.output == old(w)@.output + packed
            &&& final(w)@.position == old(w)@.position + packed.len()
            &&& final(w)@.pack.sizes == old(w)@.pack.sizes.push(packed.len() as u64)
            &&& final(w)@.pack.crcs == old(w)@.pack.crcs.push(checksum::crc32(packed))
            &&& final(w)@.pack.pos == old(w)@.pack.pos
            &&& final(w)@.blocks.drop_last() == old(w)@.blocks
            &&& b.num_files == 1 && b.crc == crc && b.sizes == encoded.sizes@
            &&& b.folder == unpack_info::chain_folder(old(w)@.methods)
            &&& final(w)@.ok()
        },
{
    if r is Ok {
        assert(final(w)@.blocks.drop_last() =~= old(w)@.blocks);
    }
}

/// An archive whose header was encoded elsewhere is finished unless it would be too large. What is left to
/// write is what was not handed on and the header, with its encoded form before it where that is used;
/// and the signature header, which goes to the start, leads to the header.
pub proof fn law_finish_with(w: ArchiveWriter, encoded: Encoded, r: Result<Finished, Error>)
    requires
        w@.ok(),
        call_ensures(ArchiveWriter::finish_with, (w, encoded), r),
    ensures
        ({
            let raw = header::header_bytes(w@.files, w@.pack, w@.blocks);
            let methods = writer::header_methods_of(w@);
            let packed = encoded.packed@;
            let as_it_is = methods.len() == 1 && packed.len() + 20 >= raw.len();
            let body = if as_it_is {
                Seq::empty()
            } else {
                packed
            };
            let head = if as_it_is {
                raw
            } else {
                header::encoded_header_bytes(
                    (w@.position - 32) as u64,
                    packed,
                    methods,
                    encoded.sizes@,
                    checksum::crc32(raw),
                )
            };
            let end = w@.position + body.len() + head.len();
            &&& r is Ok <==> end <= 0xFFFF_FFFF_FFFF_FFFF
            &&& r is Err ==> r->Err_0 is Other && r->Err_0.text()
                == "the archive would be too large"@
            &&& r matches Ok(f) ==> {
                &&& f.tail@ == w@.output + body + head
                &&& f.end == end
                &&& f.signature@ == header::signature_bytes(
                    (w@.position + body.len() - 32) as u64,
                    head,
                )
            }
        }),
{
}

/// Whatever a writer was pushed, members without data among it, the archive that a reader finds in what it
/// has written is accepted where it is to be added to, and the new writer holds its members.
pub proof fn law_what_was_written_can_be_added_to(
    w: ArchiveWriter,
    a: Archive,
    gap: Vec<u8>,
    r: Result<ArchiveWriter, Error>,
)
    requires
        w@.ok(),
        super::append::is_found(a, history::head_of(w@)),
        w@.position + gap@.len() <= 0xFFFF_FFFF_FFFF_FFFF,
        call_ensures(ArchiveWriter::append_to, (a, gap), r),
    ensures
        r is Ok,
        r->Ok_0@.files.len() == w@.files.len(),
        r->Ok_0@.position == w@.position + gap@.len(),
        forall|i: int|
            0 <= i < w@.files.len() ==> (#[trigger] r->Ok_0@.files[i]).name@ == w@.files[i].name@,
{
    super::append::law_every_archive_can_be_added_to(w@, a);
    super::append::law_adding_starts_from_what_is_there(a, gap@);
}

} // verus!
