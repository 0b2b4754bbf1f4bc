//! Where data comes from, and what is said when something goes wrong.

use crate::archive::ArchiveEntry;
use crate::checksum;
use crate::error::Error;
use crate::text;
use crate::writer;
use crate::writer::append;
use crate::writer::prepared;
use crate::writer::source_reader;
use crate::writer::source_reader::{Gathered, SourceReader};
use vstd::prelude::*;
use vstd::utf8;

verus! {

/// Sources have failed where one of them has, and the first that has is the one that counts.
pub proof fn law_first_failure_counts(readers: Seq<SourceReader>, i: int)
    ensures
        source_reader::none_failed(readers) <==> !exists|k: int|
            0 <= k < readers.len() && (#[trigger] readers[k]).failure is Some,
        source_reader::first_failure(readers, i) <==> {
            &&& 0 <= i < readers.len()
            &&& readers[i].failure is Some
            &&& forall|k: int| 0 <= k < i ==> (#[trigger] readers[k]).failure is None
        },
{
    let before = readers.take(i);
    if 0 <= i < readers.len() {
        if source_reader::none_failed(before) {
            assert forall|k: int| 0 <= k < i implies (#[trigger] readers[k]).failure is None by {
                assert(before[k] == readers[k]);
            }
        }
        if forall|k: int| 0 <= k < i ==> (#[trigger] readers[k]).failure is None {
            assert forall|k: int| 0 <= k < before.len() implies (#[trigger] before[k]).failure
                is None by {
                assert(before[k] == readers[k]);
            }
        }
    }
    if !source_reader::none_failed(readers) {
        let k = choose|k: int| 0 <= k < readers.len() && (#[trigger] readers[k]).failure is Some;
        assert(readers[k].failure is Some);
    }
}

/// What is gathered of sources is their data, one behind another, and how long each is and its checksum.
pub proof fn law_what_is_gathered(g: Gathered, readers: Seq<SourceReader>, i: int)
    requires
        source_reader::is_gathered(g, readers),
    ensures
        g.plain@ == source_reader::all_content(readers),
        g.sizes@.len() == readers.len(),
        g.crcs@.len() == readers.len(),
        0 <= i < readers.len() ==> g.sizes@[i] == readers[i].content@.len() as u64 && g.crcs@[i]
            == checksum::crc32(readers[i].content@),
{
}

/// The names for a message: each with a semicolon behind it, up to the first with which they take more
/// than 512 bytes.
pub proof fn law_names_for_a_message(entries: Seq<ArchiveEntry>, e: ArchiveEntry)
    ensures
        source_reader::all_names(Seq::empty()).len() == 0,
        source_reader::all_names(entries.push(e)) == source_reader::all_names(entries) + e.name@
            + seq![';'],
        exists|k: int|
            {
                let text = source_reader::names_text(entries);
                &&& 0 <= k <= entries.len()
                &&& text == source_reader::all_names(#[trigger] entries.take(k))
                &&& k < entries.len() ==> utf8::encode_utf8(text).len() > 512
                &&& k > 0 ==> utf8::encode_utf8(
                    source_reader::all_names(entries.take(k - 1)),
                ).len() <= 512
            },
{
    source_reader::law_names_are_cut_off(entries);
    let text = source_reader::names_text(entries);
    let k = choose|k: int| #[trigger] source_reader::cut_off_at(entries, text, k);
    assert(text == source_reader::all_names(entries.take(k)));
    assert(entries.push(e).drop_last() =~= entries);
}

/// What is said of a number of members that is not that of the sources.
pub proof fn law_mismatch_in_words(name: Seq<char>, entries: nat, readers: nat)
    ensures
        prepared::mismatch_text(name, entries, readers) == name + ": "@ + text::decimal_digits(
            entries,
        ) + " entries against "@ + text::decimal_digits(readers) + " readers"@,
{
}

/// What each error is, and what it says.
pub proof fn law_errors_in_words(
    e: Error,
    message: Seq<char>,
    long: bool,
    readers: Seq<SourceReader>,
)
    ensures
        writer::is_too_large(e) <==> e is Other && e.text() == "the archive would be too large"@,
        prepared::is_no_password(e) <==> e is Unsupported && e.text()
            == "AES256_SHA256 needs a password"@,
        prepared::is_block_too_large(e) <==> e is Other && e.text()
            == "prepare_bcj2_block: the block would be too large"@,
        prepared::is_not_drawn(e) <==> e is Unsupported && e.text() == "no random numbers"@,
        prepared::is_coding_error(e, message, true) <==> e is Unsupported && e.text()
            == "the stream is longer than its coder takes"@,
        prepared::is_coding_error(e, message, false) <==> e is Io && e.text() == message,
        append::is_unchecked(e) <==> e is Other && e.text() == "append_to: a file has no checksum"@,
        append::is_incomplete(e) <==> e is Other && e.text()
            == "append_to: the archive is not described in full"@,
        prepared::is_source_error(e, message, readers) ==> e is Io && e.text() == message,
        e matches Error::Other(m) ==> e.text() == m@,
        e matches Error::Unsupported(m) ==> e.text() == m@,
        e matches Error::Io { message: m, .. } ==> e.text() == m@,
{
}

/// A source tells how much it read, and the checksum of that, whether it failed or not.
pub proof fn law_source_tells_what_it_read(
    content: Vec<u8>,
    error: std::io::Error,
    whole: SourceReader,
    broken: SourceReader,
    count: usize,
    crc: u32,
)
    requires
        call_ensures(SourceReader::new, (content,), whole),
        call_ensures(SourceReader::failed, (content, error), broken),
        call_ensures(SourceReader::read_count, (&whole,), count),
        call_ensures(SourceReader::crc_value, (&whole,), crc),
    ensures
        whole.content@ == content@,
        whole.failure is None,
        broken.content@ == content@,
        broken.failure == Some(error),
        count == content@.len(),
        crc == checksum::crc32(content@),
{
}

/// Sources are read to the end unless one fails, and then it is told how the first one failed.
pub proof fn law_gather(readers: Vec<SourceReader>, r: Result<Gathered, std::io::Error>)
    requires
        call_ensures(source_reader::gather, (readers,), r),
    ensures
        r is Ok <==> forall|k: int|
            0 <= k < readers@.len() ==> (#[trigger] readers@[k]).failure is None,
        r matches Ok(g) ==> g.plain@ == source_reader::all_content(readers@) && g.sizes@
            == readers@.map_values(|s: SourceReader| s.content@.len() as u64) && g.crcs@
            == readers@.map_values(|s: SourceReader| checksum::crc32(s.content@)),
        r matches Err(e) ==> exists|i: int|
            {
                &&& 0 <= i < readers@.len()
                &&& (#[trigger] readers@[i]).failure == Some(e)
                &&& forall|k: int| 0 <= k < i ==> (#[trigger] readers@[k]).failure is None
            },
{
    law_first_failure_counts(readers@, 0);
    match r {
        Ok(g) => {
            assert(g.sizes@ =~= readers@.map_values(|s: SourceReader| s.content@.len() as u64));
            assert(g.crcs@ =~= readers@.map_values(|s: SourceReader| checksum::crc32(s.content@)));
        },
        Err(e) => {
            let i = choose|i: int|
                source_reader::first_failure(readers@, i) && (#[trigger] readers@[i]).failure == Some(
                    e,
                );
            law_first_failure_counts(readers@, i);
        },
    }
}

/// An error is made of what it is given, and tells it.
pub proof fn law_error_tells_its_message(
    error: std::io::Error,
    message: String,
    io: Error,
    other: Error,
    unsupported: Error,
    e: Error,
    told: String,
)
    requires
        call_ensures(Error::io_msg, (error, message), io),
        call_ensures(Error::other, (message,), other),
        call_ensures(Error::unsupported, (message,), unsupported),
        call_ensures(Error::message, (&e,), told),
        e == io || e == other || e == unsupported,
    ensures
        io is Io && other is Other && unsupported is Unsupported,
        io->error == error,
        told@ == message@,
{
}

/// A new member has the name that it is given; a file is expected to have data, and a directory not to.
pub proof fn law_new_member(
    name: &str,
    file: ArchiveEntry,
    directory: ArchiveEntry,
)
    requires
        call_ensures(ArchiveEntry::new_file, (name,), file),
        call_ensures(ArchiveEntry::new_directory, (name,), directory),
    ensures
        file.name@ == name@,
        directory.name@ == name@,
        file.has_stream && !file.is_directory,
        !directory.has_stream && directory.is_directory,
        !file.is_anti_item && !directory.is_anti_item,
        !file.has_crc && !directory.has_crc,
        !file.has_creation_date && !file.has_access_date && !file.has_last_modified_date,
        !directory.has_creation_date && !directory.has_access_date
            && !directory.has_last_modified_date,
        !file.has_windows_attributes && !directory.has_windows_attributes,
        file.size == 0 && directory.size == 0,
{
}

/// One text behind another, and a number in decimal.
pub proof fn law_texts(a: &str, b: &str, both: String, n: usize, digits: String)
    requires
        call_ensures(text::joined, (a, b), both),
        call_ensures(text::decimal, (n,), digits),
    ensures
        both@.len() == a@.len() + b@.len(),
        both@.take(a@.len() as int) == a@,
        both@.skip(a@.len() as int) == b@,
        digits@ == text::decimal_digits(n as nat),
{
    assert(both@.take(a@.len() as int) =~= a@);
    assert(both@.skip(a@.len() as int) =~= b@);
}

} // verus!
