//! The data of members, as it was read from where it came from.

use crate::archive::ArchiveEntry;
use crate::checksum;
use vstd::prelude::*;
use vstd::utf8;

verus! {

/// What came out of a source: the bytes up to its end, or up to where it failed.
#[derive(Debug)]
pub struct SourceReader {
    /// The bytes.
    pub content: Vec<u8>,
    /// What the source failed with, if it did.
    pub failure: Option<std::io::Error>,
}

impl SourceReader {
    /// A source that was read to its end.
    pub fn new(content: Vec<u8>) -> (r: Self)
        ensures
            r.content@ == content@,
            r.failure is None,
    {
        SourceReader { content, failure: None }
    }

    /// A source that failed behind these bytes.
    pub fn failed(content: Vec<u8>, error: std::io::Error) -> (r: Self)
        ensures
            r.content@ == content@,
            r.failure == Some(error),
    {
        SourceReader { content, failure: Some(error) }
    }

    /// How many bytes were read.
    pub fn read_count(&self) -> (r: usize)
        ensures
            r == self.content@.len(),
    {
        self.content.len()
    }

    /// The checksum of what was read.
    pub fn crc_value(&self) -> (r: u32)
        ensures
            r == checksum::crc32(self.content@),
    {
        checksum::hash(self.content.as_slice())
    }
}

/// What sources hold, one behind another.
pub open spec fn all_content(readers: Seq<SourceReader>) -> Seq<u8>
    decreases readers.len(),
{
    if readers.len() == 0 {
        Seq::empty()
    } else {
        all_content(readers.drop_last()) + readers.last().content@
    }
}

/// How long each source is.
pub open spec fn lengths(readers: Seq<SourceReader>) -> Seq<u64> {
    readers.map_values(|s: SourceReader| s.content@.len() as u64)
}

/// The checksum of each source.
pub open spec fn crcs(readers: Seq<SourceReader>) -> Seq<u32> {
    readers.map_values(|s: SourceReader| checksum::crc32(s.content@))
}

/// Whether no source failed.
pub open spec fn none_failed(readers: Seq<SourceReader>) -> bool {
    forall|i: int| 0 <= i < readers.len() ==> (#[trigger] readers[i]).failure is None
}

/// Whether the source at a place is the first that failed.
pub open spec fn first_failure(readers: Seq<SourceReader>, i: int) -> bool {
    &&& 0 <= i < readers.len()
    &&& readers[i].failure is Some
    &&& none_failed(readers.take(i))
}

/// The data of a block: what its sources hold together, and how it is cut.
#[derive(Debug)]
pub struct Gathered {
    /// The data.
    pub plain: Vec<u8>,
    /// How long each source is.
    pub sizes: Vec<u64>,
    /// The checksum of each source.
    pub crcs: Vec<u32>,
}

/// Whether a value is what sources hold.
pub open spec fn is_gathered(g: Gathered, readers: Seq<SourceReader>) -> bool {
    g.plain@ == all_content(readers) && g.sizes@ == lengths(readers) && g.crcs@ == crcs(readers)
}

/// Reads sources one after another, up to the first that fails.
pub fn gather(readers: Vec<SourceReader>) -> (r: Result<Gathered, std::io::Error>)
    ensures
        r is Ok <==> none_failed(readers@),
        r matches Ok(g) ==> is_gathered(g, readers@),
        r matches Err(e) ==> exists|i: int|
            first_failure(readers@, i) && (#[trigger] readers@[i]).failure == Some(e),
{
    let ghost all = readers@;
    let mut sources = readers;
    let mut plain: Vec<u8> = Vec::new();
    let mut sizes: Vec<u64> = Vec::new();
    let mut sums: Vec<u32> = Vec::new();
    let mut i: usize = 0;
    while i < sources.len()
        invariant
            i <= sources@.len(),
            sources@ == all,
            all == readers@,
            none_failed(all.take(i as int)),
            plain@ == all_content(all.take(i as int)),
            sizes@ == lengths(all.take(i as int)),
            sums@ == crcs(all.take(i as int)),
        decreases sources@.len() - i,
    {
        let ghost next = all.take(i + 1);
        assert(next.drop_last() =~= all.take(i as int));
        assert(next =~= all.take(i as int).push(all[i as int]));
        if sources[i].failure.is_some() {
            let source = sources.remove(i);
            assert(first_failure(all, i as int));
            return Err(source.failure.unwrap());
        }
        plain.extend_from_slice(sources[i].content.as_slice());
        sizes.push(sources[i].read_count() as u64);
        sums.push(sources[i].crc_value());
        assert(sizes@ =~= lengths(next));
        assert(sums@ =~= crcs(next));
        i = i + 1;
    }
    assert(all.take(all.len() as int) =~= all);
    Ok(Gathered { plain, sizes, crcs: sums })
}

/// Beyond how many bytes no more names go into a message.
pub const MAX_NAMES_LEN: usize = 512;

/// A text with the names of the members from a place on behind it, each ended by a semicolon, up to
/// the name that brings it beyond its greatest length.
pub open spec fn names_from(entries: Seq<ArchiveEntry>, i: int, text: Seq<char>) -> Seq<char>
    decreases entries.len() - i,
{
    if i < 0 || i >= entries.len() {
        text
    } else {
        let longer = text + entries[i].name@ + seq![';'];
        if utf8::encode_utf8(longer).len() > MAX_NAMES_LEN {
            longer
        } else {
            names_from(entries, i + 1, longer)
        }
    }
}

/// The names of the members of a block, for a message.
pub open spec fn names_text(entries: Seq<ArchiveEntry>) -> Seq<char> {
    names_from(entries, 0, Seq::empty())
}

/// The names of all members, each ended by a semicolon.
pub open spec fn all_names(entries: Seq<ArchiveEntry>) -> Seq<char>
    decreases entries.len(),
{
    if entries.len() == 0 {
        Seq::empty()
    } else {
        all_names(entries.drop_last()) + entries.last().name@ + seq![';']
    }
}

/// Whether a text is the names of the first `k` members: all there are, or so many that they take
/// more than is allowed, while one fewer would not.
pub open spec fn cut_off_at(entries: Seq<ArchiveEntry>, text: Seq<char>, k: int) -> bool {
    &&& 0 <= k <= entries.len()
    &&& text == all_names(entries.take(k))
    &&& k < entries.len() ==> utf8::encode_utf8(text).len() > MAX_NAMES_LEN
    &&& k > 0 ==> utf8::encode_utf8(all_names(entries.take(k - 1))).len() <= MAX_NAMES_LEN
}

proof fn lemma_names_from(entries: Seq<ArchiveEntry>, i: int) -> (k: int)
    requires
        0 <= i <= entries.len(),
        utf8::encode_utf8(all_names(entries.take(i))).len() <= MAX_NAMES_LEN,
        i > 0 ==> utf8::encode_utf8(all_names(entries.take(i - 1))).len() <= MAX_NAMES_LEN,
    ensures
        cut_off_at(entries, names_from(entries, i, all_names(entries.take(i))), k),
    decreases entries.len() - i,
{
    if i == entries.len() {
        i
    } else {
        assert(entries.take(i + 1).drop_last() =~= entries.take(i));
        let longer = all_names(entries.take(i + 1));
        assert(longer == all_names(entries.take(i)) + entries[i].name@ + seq![';']);
        if utf8::encode_utf8(longer).len() > MAX_NAMES_LEN {
            i + 1
        } else {
            lemma_names_from(entries, i + 1)
        }
    }
}

/// The names in a message are whole names from the first on: all of them, or as many as it takes to
/// come beyond the greatest length, and no more.
pub proof fn law_names_are_cut_off(entries: Seq<ArchiveEntry>)
    ensures
        exists|k: int| #[trigger] cut_off_at(entries, names_text(entries), k),
{
    assert(entries.take(0) =~= Seq::empty());
    assert(utf8::encode_utf8(Seq::<char>::empty()).len() == 0) by {
        reveal_with_fuel(utf8::encode_utf8, 2);
    }
    let k = lemma_names_from(entries, 0);
    assert(cut_off_at(entries, names_text(entries), k));
}

/// The names of the members of a block, for a message. Cut off at about 512 bytes, since a solid
/// block can hold many thousands.
pub fn entries_names(entries: &Vec<ArchiveEntry>) -> (r: String)
    ensures
        r@ == names_text(entries@),
{
    proof {
        reveal_strlit(";");
    }
    let mut names = String::new();
    let mut i: usize = 0;
    while i < entries.len()
        invariant
            i <= entries@.len(),
            ";"@ == seq![';'],
            names_text(entries@) == names_from(entries@, i as int, names@),
        decreases entries@.len() - i,
    {
        names.append(entries[i].name.as_str());
        names.append(";");
        if names.as_str().as_bytes().len() > MAX_NAMES_LEN {
            return names;
        }
        i = i + 1;
    }
    names
}

} // verus!
