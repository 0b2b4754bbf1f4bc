//! How a reader of the header takes the members back.

use crate::archive::{
    ArchiveEntry, K_ANTI, K_A_TIME, K_C_TIME, K_EMPTY_FILE, K_EMPTY_STREAM, K_END, K_FILES_INFO,
    K_M_TIME, K_NAME, K_WIN_ATTRIBUTES,
};
use crate::wire;
use crate::writer::files_info;
use vstd::prelude::*;

verus! {

/// What the header keeps of a member.
pub ghost struct ListedEntry {
    pub name: Seq<char>,
    pub has_stream: bool,
    pub is_directory: bool,
    pub is_anti_item: bool,
    pub created: Option<u64>,
    pub accessed: Option<u64>,
    pub modified: Option<u64>,
    pub attributes: Option<u64>,
}

/// What the header keeps of a member: one with data is a file, and not one that is to be removed.
pub open spec fn listed(e: ArchiveEntry) -> ListedEntry {
    ListedEntry {
        name: e.name@,
        has_stream: e.has_stream,
        is_directory: !e.has_stream && e.is_directory,
        is_anti_item: !e.has_stream && e.is_anti_item,
        created: if e.has_creation_date {
            Some(e.creation_date)
        } else {
            None
        },
        accessed: if e.has_access_date {
            Some(e.access_date)
        } else {
            None
        },
        modified: if e.has_last_modified_date {
            Some(e.last_modified_date)
        } else {
            None
        },
        attributes: if e.has_windows_attributes {
            Some(e.windows_attributes as u64)
        } else {
            None
        },
    }
}

/// What the header keeps of the members.
pub open spec fn listed_files(files: Seq<ArchiveEntry>) -> Seq<ListedEntry> {
    files.map_values(|e: ArchiveEntry| listed(e))
}

/// What a reader has found in the properties so far.
pub ghost struct Properties {
    pub empty: Seq<bool>,
    pub empty_files: Seq<bool>,
    pub anti: Seq<bool>,
    pub names: Seq<Seq<char>>,
    pub created: Seq<Option<u64>>,
    pub accessed: Seq<Option<u64>>,
    pub modified: Seq<Option<u64>>,
    pub attributes: Seq<Option<u64>>,
}

/// What holds of `n` members of which nothing is said.
pub open spec fn nothing_said(n: nat) -> Properties {
    let no_values = Seq::new(n, |i: int| None::<u64>);
    Properties {
        empty: Seq::new(n, |i: int| false),
        empty_files: Seq::empty(),
        anti: Seq::empty(),
        names: Seq::empty(),
        created: no_values,
        accessed: no_values,
        modified: no_values,
        attributes: no_values,
    }
}

/// How many bits are set.
pub open spec fn count_set(bits: Seq<bool>) -> nat
    decreases bits.len(),
{
    if bits.len() == 0 {
        0
    } else {
        count_set(bits.drop_last()) + (if bits.last() {
            1nat
        } else {
            0
        })
    }
}

/// A bit, which is not set where nothing is said of it.
pub open spec fn flag(bits: Seq<bool>, i: nat) -> bool {
    i < bits.len() && bits[i as int]
}

/// Reads `n` names, and the bytes behind them.
pub open spec fn read_names(bytes: Seq<u8>, n: nat) -> Option<(Seq<Seq<char>>, Seq<u8>)>
    decreases n,
{
    if n == 0 {
        Some((Seq::empty(), bytes))
    } else {
        match wire::read_name(bytes) {
            None => None,
            Some((name, b)) => match read_names(b, (n - 1) as nat) {
                None => None,
                Some((names, b)) => Some((seq![name] + names, b)),
            },
        }
    }
}

/// Reads a value of so many bytes for each bit that is set, and the bytes behind them.
pub open spec fn read_present(bytes: Seq<u8>, bits: Seq<bool>, width: nat) -> Option<
    (Seq<Option<u64>>, Seq<u8>),
>
    decreases bits.len(),
{
    if bits.len() == 0 {
        Some((Seq::empty(), bytes))
    } else if bits[0] {
        if bytes.len() < width {
            None
        } else {
            let value = wire::le_value(bytes.take(width as int)) as u64;
            match read_present(bytes.skip(width as int), bits.skip(1), width) {
                None => None,
                Some((values, b)) => Some((seq![Some(value)] + values, b)),
            }
        }
    } else {
        match read_present(bytes, bits.skip(1), width) {
            None => None,
            Some((values, b)) => Some((seq![None] + values, b)),
        }
    }
}

/// Reads a property with a value for some of `n` members: a byte of one where it is for all of them,
/// or of nought and a bit for each; a byte of nought, since the values follow; and the values.
#[verifier::opaque]
pub open spec fn read_values(bytes: Seq<u8>, n: nat, width: nat) -> Option<Seq<Option<u64>>> {
    let which = match wire::expect(bytes, 1) {
        Some(b) => Some((Seq::new(n, |i: int| true), b)),
        None => match wire::expect(bytes, 0) {
            None => None,
            Some(b) => wire::read_bit_vector(b, n),
        },
    };
    match which {
        None => None,
        Some((bits, b)) => match wire::expect(b, 0) {
            None => None,
            Some(b) => match read_present(b, bits, width) {
                None => None,
                Some((values, _)) => Some(values),
            },
        },
    }
}

/// What is known once a property has been read. One that is not known changes nothing.
pub open spec fn with_property(p: Properties, n: nat, id: u8, body: Seq<u8>) -> Option<Properties> {
    if id == K_EMPTY_STREAM {
        match wire::read_bit_vector(body, n) {
            None => None,
            Some((bits, _)) => Some(Properties { empty: bits, ..p }),
        }
    } else if id == K_EMPTY_FILE {
        match wire::read_bit_vector(body, count_set(p.empty)) {
            None => None,
            Some((bits, _)) => Some(Properties { empty_files: bits, ..p }),
        }
    } else if id == K_ANTI {
        match wire::read_bit_vector(body, count_set(p.empty)) {
            None => None,
            Some((bits, _)) => Some(Properties { anti: bits, ..p }),
        }
    } else if id == K_NAME {
        match wire::expect(body, 0) {
            None => None,
            Some(b) => match read_names(b, n) {
                None => None,
                Some((names, _)) => Some(Properties { names, ..p }),
            },
        }
    } else if id == K_C_TIME {
        match read_values(body, n, 8) {
            None => None,
            Some(values) => Some(Properties { created: values, ..p }),
        }
    } else if id == K_A_TIME {
        match read_values(body, n, 8) {
            None => None,
            Some(values) => Some(Properties { accessed: values, ..p }),
        }
    } else if id == K_M_TIME {
        match read_values(body, n, 8) {
            None => None,
            Some(values) => Some(Properties { modified: values, ..p }),
        }
    } else if id == K_WIN_ATTRIBUTES {
        match read_values(body, n, 4) {
            None => None,
            Some(values) => Some(Properties { attributes: values, ..p }),
        }
    } else {
        Some(p)
    }
}

/// Reads properties up to their end: what is known then, and the bytes behind it.
pub open spec fn read_properties(bytes: Seq<u8>, n: nat, p: Properties) -> Option<
    (Properties, Seq<u8>),
>
    decreases bytes.len(),
{
    if bytes.len() == 0 {
        None
    } else if bytes[0] == K_END {
        Some((p, bytes.skip(1)))
    } else {
        match wire::read_number(bytes.skip(1)) {
            None => None,
            Some((len, b)) => if b.len() < len || b.len() >= bytes.len() {
                None
            } else {
                match with_property(p, n, bytes[0], b.take(len as int)) {
                    None => None,
                    Some(p) => read_properties(b.skip(len as int), n, p),
                }
            },
        }
    }
}

/// The members that properties describe.
pub open spec fn entries_of(p: Properties, n: nat) -> Seq<ListedEntry> {
    Seq::new(
        n,
        |i: int|
            ListedEntry {
                name: p.names[i],
                has_stream: !p.empty[i],
                is_directory: p.empty[i] && !flag(p.empty_files, count_set(p.empty.take(i))),
                is_anti_item: p.empty[i] && flag(p.anti, count_set(p.empty.take(i))),
                created: p.created[i],
                accessed: p.accessed[i],
                modified: p.modified[i],
                attributes: p.attributes[i],
            },
    )
}

/// Reads the members, and the bytes behind them.
pub open spec fn read_files(bytes: Seq<u8>) -> Option<(Seq<ListedEntry>, Seq<u8>)> {
    match wire::expect(bytes, K_FILES_INFO) {
        None => None,
        Some(b) => match wire::read_number(b) {
            None => None,
            Some((n, b)) => match read_properties(b, n as nat, nothing_said(n as nat)) {
                None => None,
                Some((p, b)) => Some((entries_of(p, n as nat), b)),
            },
        },
    }
}

/// Whether the end of every name can be told.
pub open spec fn names_ok(files: Seq<ArchiveEntry>) -> bool {
    forall|i: int| 0 <= i < files.len() ==> wire::name_ok((#[trigger] files[i]).name@)
}

/// The names of members.
pub open spec fn names_of(files: Seq<ArchiveEntry>) -> Seq<Seq<char>> {
    files.map_values(|e: ArchiveEntry| e.name@)
}

proof fn lemma_names(files: Seq<ArchiveEntry>, rest: Seq<u8>)
    requires
        names_ok(files),
    ensures
        read_names(files_info::names_body(files) + rest, files.len()) == Some(
            (names_of(files), rest),
        ),
    decreases files.len(),
{
    if files.len() == 0 {
        assert(files_info::names_body(files) + rest =~= rest);
        assert(names_of(files) =~= Seq::empty());
    } else {
        let tail = files.skip(1);
        assert(wire::name_ok(files[0].name@));
        assert forall|i: int| 0 <= i < tail.len() implies wire::name_ok(
            (#[trigger] tail[i]).name@,
        ) by {
            assert(tail[i] == files[i + 1]);
        }
        let b = files_info::names_body(tail) + rest;
        wire::law_name_reads_back(files[0].name@, b);
        lemma_names(tail, rest);
        wire::lemma_assoc(wire::name_bytes(files[0].name@), files_info::names_body(tail), rest);
        assert(seq![files[0].name@] + names_of(tail) =~= names_of(files));
    }
}

/// Whether values have room in so many bytes.
pub open spec fn values_fit(values: Seq<Option<u64>>, width: nat) -> bool {
    forall|i: int|
        0 <= i < values.len() ==> (#[trigger] values[i] matches Some(v) ==> v < wire::pow256(width))
}

proof fn lemma_present(values: Seq<Option<u64>>, width: nat, rest: Seq<u8>)
    requires
        values_fit(values, width),
    ensures
        read_present(
            files_info::present(values, width) + rest,
            files_info::defined(values),
            width,
        ) == Some((values, rest)),
    decreases values.len(),
{
    let bits = files_info::defined(values);
    let bytes = files_info::present(values, width) + rest;
    if values.len() == 0 {
        assert(bytes =~= rest);
        assert(values =~= Seq::empty());
    } else {
        let tail = values.skip(1);
        assert(bits.skip(1) =~= files_info::defined(tail));
        assert forall|i: int| 0 <= i < tail.len() implies (#[trigger] tail[i] matches Some(v) ==> v
            < wire::pow256(width)) by {
            assert(tail[i] == values[i + 1]);
        }
        lemma_present(tail, width, rest);
        let b = files_info::present(tail, width) + rest;
        match values[0] {
            Some(v) => {
                let digits = wire::le_digits(v as nat, width);
                wire::lemma_le_digits(v as nat, width);
                wire::lemma_assoc(digits, files_info::present(tail, width), rest);
                assert(bytes.take(width as int) =~= digits);
                assert(bytes.skip(width as int) =~= b);
                assert(seq![Some(v)] + tail =~= values);
            },
            None => {
                assert(bytes =~= b);
                assert(seq![None] + tail =~= values);
            },
        }
    }
}

proof fn lemma_values(values: Seq<Option<u64>>, width: nat)
    requires
        values_fit(values, width),
    ensures
        read_values(files_info::values_body(values, width), values.len(), width) == Some(values),
{
    reveal(read_values);
    let bits = files_info::defined(values);
    let body = files_info::values_body(values, width);
    let present = files_info::present(values, width);
    let b = seq![0u8] + present;
    assert(present + Seq::empty() =~= present);
    lemma_present(values, width, Seq::empty());
    wire::lemma_expect(0, present);
    if bits.contains(false) {
        assert(body =~= seq![0u8] + (wire::bit_vector(bits) + b));
        assert(wire::expect(body, 1) is None);
        wire::lemma_expect(0, wire::bit_vector(bits) + b);
        wire::law_bit_vector_reads_back(bits, b);
    } else {
        assert(body =~= seq![1u8] + b);
        wire::lemma_expect(1, b);
        assert forall|i: int| 0 <= i < bits.len() implies bits[i] by {
            if !bits[i] {
                assert(bits.contains(bits[i]));
            }
        }
        assert(Seq::new(values.len(), |i: int| true) =~= bits);
    }
}

/// A property is read, and the others behind it.
proof fn lemma_section(id: u8, body: Seq<u8>, rest: Seq<u8>, n: nat, p: Properties)
    requires
        id != K_END,
        body.len() <= u64::MAX,
        with_property(p, n, id, body) is Some,
    ensures
        read_properties(files_info::section(id, body) + rest, n, p) == read_properties(
            rest,
            n,
            with_property(p, n, id, body)->0,
        ),
{
    let len = wire::number(body.len() as u64);
    let bytes = files_info::section(id, body) + rest;
    assert(bytes =~= seq![id] + (len + (body + rest)));
    assert(bytes.skip(1) =~= len + (body + rest));
    wire::law_number_reads_back(body.len() as u64, body + rest);
    assert((body + rest).take(body.len() as int) =~= body);
    assert((body + rest).skip(body.len() as int) =~= rest);
}

/// A property of bits is read where it is there; where it is not, no bit is set.
proof fn lemma_flags(id: u8, bits: Seq<bool>, rest: Seq<u8>, n: nat, p: Properties, q: Properties)
    requires
        id != K_END,
        wire::bit_vector(bits).len() <= u64::MAX,
        bits.contains(true) ==> with_property(p, n, id, wire::bit_vector(bits)) == Some(q),
        !bits.contains(true) ==> p == q,
    ensures
        read_properties(files_info::flags_bytes(id, bits) + rest, n, p) == read_properties(
            rest,
            n,
            q,
        ),
{
    if bits.contains(true) {
        lemma_section(id, wire::bit_vector(bits), rest, n, p);
    } else {
        assert(files_info::flags_bytes(id, bits) + rest =~= rest);
    }
}

/// A property of values is read where it is there; where it is not, there is no value.
proof fn lemma_valued(
    id: u8,
    values: Seq<Option<u64>>,
    width: nat,
    rest: Seq<u8>,
    n: nat,
    p: Properties,
    q: Properties,
)
    requires
        id != K_END,
        values.len() == n,
        files_info::values_bytes(id, values, width).len() <= u64::MAX,
        files_info::defined(values).contains(true) ==> with_property(
            p,
            n,
            id,
            files_info::values_body(values, width),
        ) == Some(q),
        !files_info::defined(values).contains(true) ==> p == q,
    ensures
        read_properties(files_info::values_bytes(id, values, width) + rest, n, p)
            == read_properties(rest, n, q),
{
    if files_info::defined(values).contains(true) {
        lemma_section(id, files_info::values_body(values, width), rest, n, p);
    } else {
        assert(files_info::values_bytes(id, values, width) + rest =~= rest);
    }
}

proof fn lemma_no_values(values: Seq<Option<u64>>)
    requires
        !files_info::defined(values).contains(true),
    ensures
        values == Seq::new(values.len(), |i: int| None::<u64>),
{
    assert forall|i: int| 0 <= i < values.len() implies values[i] is None by {
        if values[i] is Some {
            assert(files_info::defined(values)[i]);
            assert(files_info::defined(values).contains(true));
        }
    }
    assert(values =~= Seq::new(values.len(), |i: int| None::<u64>));
}

/// The members without data up to one are as many as the bits set up to it.
proof fn lemma_streamless(files: Seq<ArchiveEntry>, i: int)
    requires
        0 <= i <= files.len(),
    ensures
        count_set(files_info::empty_streams(files).take(i)) == files_info::streamless(
            files.take(i),
        ).len(),
        i < files.len() && !files[i].has_stream ==> ({
            let k = files_info::streamless(files.take(i)).len();
            k < files_info::streamless(files).len() && files_info::streamless(files)[k as int]
                == files[i]
        }),
    decreases files.len(),
{
    let bits = files_info::empty_streams(files);
    if i == files.len() {
        assert(files.take(i) =~= files);
        assert(bits.take(i) =~= bits);
        if files.len() > 0 {
            let front = files.drop_last();
            lemma_streamless(front, front.len() as int);
            assert(front.take(front.len() as int) =~= front);
            assert(files_info::empty_streams(front).take(front.len() as int)
                =~= bits.drop_last());
        }
    } else {
        let front = files.drop_last();
        lemma_streamless(front, i);
        assert(front.take(i) =~= files.take(i));
        assert(files_info::empty_streams(front).take(i) =~= bits.take(i));
    }
}

/// What a reader knows of members once all their properties have been read.
pub open spec fn all_said(files: Seq<ArchiveEntry>) -> Properties {
    Properties {
        empty: files_info::empty_streams(files),
        empty_files: if files_info::empty_files(files).contains(true) {
            files_info::empty_files(files)
        } else {
            Seq::empty()
        },
        anti: if files_info::anti_items(files).contains(true) {
            files_info::anti_items(files)
        } else {
            Seq::empty()
        },
        names: names_of(files),
        created: files_info::creation_dates_of(files),
        accessed: files_info::access_dates_of(files),
        modified: files_info::modified_dates_of(files),
        attributes: files_info::attributes_of(files),
    }
}

proof fn lemma_all_said(files: Seq<ArchiveEntry>)
    ensures
        entries_of(all_said(files), files.len()) == listed_files(files),
{
    let p = all_said(files);
    assert forall|i: int| 0 <= i < files.len() implies entries_of(p, files.len())[i] == listed(
        files[i],
    ) by {
        lemma_streamless(files, i);
        let k = count_set(p.empty.take(i)) as int;
        if !files[i].has_stream {
            let files_bits = files_info::empty_files(files);
            let anti_bits = files_info::anti_items(files);
            assert(files_bits[k] == !files[i].is_directory);
            assert(anti_bits[k] == files[i].is_anti_item);
            if !files_bits.contains(true) {
                assert(!files_bits[k]);
            }
            if !anti_bits.contains(true) {
                assert(!anti_bits[k]);
            }
        }
    }
    assert(entries_of(p, files.len()) =~= listed_files(files));
}

/// What a reader has found once it has come behind the bits of which members have no data.
proof fn lemma_bits_said(files: Seq<ArchiveEntry>, rest: Seq<u8>)
    requires
        files_info::files_bytes(files).len() <= u64::MAX,
    ensures
        ({
            let n = files.len();
            let p = all_said(files);
            let q = nothing_said(n);
            read_properties(
                files_info::flags_bytes(K_EMPTY_STREAM, files_info::empty_streams(files)) + (
                files_info::flags_bytes(K_EMPTY_FILE, files_info::empty_files(files)) + (
                files_info::flags_bytes(K_ANTI, files_info::anti_items(files)) + rest)),
                n,
                q,
            ) == read_properties(
                rest,
                n,
                Properties {
                    empty: p.empty,
                    empty_files: p.empty_files,
                    anti: p.anti,
                    ..q
                },
            )
        }),
{
    let n = files.len();
    let p = all_said(files);
    let q0 = nothing_said(n);
    let q1 = Properties { empty: p.empty, ..q0 };
    let q2 = Properties { empty_files: p.empty_files, ..q1 };
    let q3 = Properties { anti: p.anti, ..q2 };
    let empty = files_info::empty_streams(files);
    let empty_files = files_info::empty_files(files);
    let anti = files_info::anti_items(files);
    let f3 = files_info::flags_bytes(K_ANTI, anti);
    let f2 = files_info::flags_bytes(K_EMPTY_FILE, empty_files);
    lemma_streamless(files, n as int);
    assert(files.take(n as int) =~= files);
    assert(empty.take(n as int) =~= empty);
    wire::law_bit_vector_reads_back(empty, Seq::empty());
    wire::law_bit_vector_reads_back(empty_files, Seq::empty());
    wire::law_bit_vector_reads_back(anti, Seq::empty());
    assert(wire::bit_vector(empty) + Seq::empty() =~= wire::bit_vector(empty));
    assert(wire::bit_vector(empty_files) + Seq::empty() =~= wire::bit_vector(empty_files));
    assert(wire::bit_vector(anti) + Seq::empty() =~= wire::bit_vector(anti));
    if !empty.contains(true) {
        assert forall|i: int| 0 <= i < n implies !empty[i] by {
            if empty[i] {
                assert(empty.contains(empty[i]));
            }
        }
        assert(empty =~= q0.empty);
    }
    lemma_flags_fit(files);
    lemma_flags(K_EMPTY_STREAM, empty, f2 + (f3 + rest), n, q0, q1);
    lemma_flags(K_EMPTY_FILE, empty_files, f3 + rest, n, q1, q2);
    lemma_flags(K_ANTI, anti, rest, n, q2, q3);
}

/// How many bytes bits take is no more than how many members there are.
proof fn lemma_flags_fit(files: Seq<ArchiveEntry>)
    requires
        files_info::files_bytes(files).len() <= u64::MAX,
    ensures
        files.len() <= u64::MAX,
        wire::bit_vector(files_info::empty_streams(files)).len() <= u64::MAX,
        wire::bit_vector(files_info::empty_files(files)).len() <= u64::MAX,
        wire::bit_vector(files_info::anti_items(files)).len() <= u64::MAX,
{
    lemma_names_len(files);
    lemma_streamless_len(files);
}

proof fn lemma_streamless_len(files: Seq<ArchiveEntry>)
    ensures
        files_info::streamless(files).len() <= files.len(),
    decreases files.len(),
{
    if files.len() > 0 {
        lemma_streamless_len(files.drop_last());
    }
}

proof fn lemma_names_len(files: Seq<ArchiveEntry>)
    ensures
        files_info::names_body(files).len() >= files.len(),
    decreases files.len(),
{
    if files.len() > 0 {
        lemma_names_len(files.skip(1));
    }
}

/// What a reader has found once it has come behind the values.
proof fn lemma_values_said(files: Seq<ArchiveEntry>, rest: Seq<u8>, q: Properties)
    requires
        files_info::files_bytes(files).len() <= u64::MAX,
        q.created == nothing_said(files.len()).created,
        q.accessed == nothing_said(files.len()).accessed,
        q.modified == nothing_said(files.len()).modified,
        q.attributes == nothing_said(files.len()).attributes,
    ensures
        ({
            let n = files.len();
            let p = all_said(files);
            read_properties(
                files_info::values_bytes(K_C_TIME, p.created, 8) + (files_info::values_bytes(
                    K_A_TIME,
                    p.accessed,
                    8,
                ) + (files_info::values_bytes(K_M_TIME, p.modified, 8) + (files_info::values_bytes(
                    K_WIN_ATTRIBUTES,
                    p.attributes,
                    4,
                ) + rest))),
                n,
                q,
            ) == read_properties(
                rest,
                n,
                Properties {
                    created: p.created,
                    accessed: p.accessed,
                    modified: p.modified,
                    attributes: p.attributes,
                    ..q
                },
            )
        }),
{
    let n = files.len();
    let p = all_said(files);
    let q1 = Properties { created: p.created, ..q };
    let q2 = Properties { accessed: p.accessed, ..q1 };
    let q3 = Properties { modified: p.modified, ..q2 };
    let q4 = Properties { attributes: p.attributes, ..q3 };
    let v2 = files_info::values_bytes(K_A_TIME, p.accessed, 8);
    let v3 = files_info::values_bytes(K_M_TIME, p.modified, 8);
    let v4 = files_info::values_bytes(K_WIN_ATTRIBUTES, p.attributes, 4);
    reveal_with_fuel(wire::pow256, 9);
    assert(wire::pow256(8) == 0x1_0000_0000_0000_0000);
    assert(wire::pow256(4) == 0x1_0000_0000);
    lemma_values(p.created, 8);
    lemma_values(p.accessed, 8);
    lemma_values(p.modified, 8);
    lemma_values(p.attributes, 4);
    if !files_info::defined(p.created).contains(true) {
        lemma_no_values(p.created);
    }
    if !files_info::defined(p.accessed).contains(true) {
        lemma_no_values(p.accessed);
    }
    if !files_info::defined(p.modified).contains(true) {
        lemma_no_values(p.modified);
    }
    if !files_info::defined(p.attributes).contains(true) {
        lemma_no_values(p.attributes);
    }
    lemma_valued(K_C_TIME, p.created, 8, v2 + (v3 + (v4 + rest)), n, q, q1);
    lemma_valued(K_A_TIME, p.accessed, 8, v3 + (v4 + rest), n, q1, q2);
    lemma_valued(K_M_TIME, p.modified, 8, v4 + rest, n, q2, q3);
    lemma_valued(K_WIN_ATTRIBUTES, p.attributes, 4, rest, n, q3, q4);
}

/// What the header keeps of the members reads back, whatever follows it, where no name holds the
/// nought that ends a name.
pub proof fn law_files_read_back(files: Seq<ArchiveEntry>, rest: Seq<u8>)
    requires
        names_ok(files),
        files_info::files_bytes(files).len() <= u64::MAX,
    ensures
        read_files(files_info::files_bytes(files) + rest) == Some((listed_files(files), rest)),
{
    let n = files.len();
    let p = all_said(files);
    let q0 = nothing_said(n);
    let q1 = Properties { empty: p.empty, empty_files: p.empty_files, anti: p.anti, ..q0 };
    let q2 = Properties { names: p.names, ..q1 };
    let s0 = seq![K_FILES_INFO];
    let s1 = wire::number(n as u64);
    let s2 = files_info::flags_bytes(K_EMPTY_STREAM, files_info::empty_streams(files));
    let s3 = files_info::flags_bytes(K_EMPTY_FILE, files_info::empty_files(files));
    let s4 = files_info::flags_bytes(K_ANTI, files_info::anti_items(files));
    let s5 = files_info::names_bytes(files);
    let s6 = files_info::values_bytes(K_C_TIME, p.created, 8);
    let s7 = files_info::values_bytes(K_A_TIME, p.accessed, 8);
    let s8 = files_info::values_bytes(K_M_TIME, p.modified, 8);
    let s9 = files_info::values_bytes(K_WIN_ATTRIBUTES, p.attributes, 4);
    let s10 = seq![K_END];
    let b10 = s10 + rest;
    let b9 = s9 + b10;
    let b8 = s8 + b9;
    let b7 = s7 + b8;
    let b6 = s6 + b7;
    let b5 = s5 + b6;
    let b4 = s4 + b5;
    let b3 = s3 + b4;
    let b2 = s2 + b3;
    let b1 = s1 + b2;
    wire::lemma_assoc(s0 + s1 + s2 + s3 + s4 + s5 + s6 + s7 + s8 + s9, s10, rest);
    wire::lemma_assoc(s0 + s1 + s2 + s3 + s4 + s5 + s6 + s7 + s8, s9, b10);
    wire::lemma_assoc(s0 + s1 + s2 + s3 + s4 + s5 + s6 + s7, s8, b9);
    wire::lemma_assoc(s0 + s1 + s2 + s3 + s4 + s5 + s6, s7, b8);
    wire::lemma_assoc(s0 + s1 + s2 + s3 + s4 + s5, s6, b7);
    wire::lemma_assoc(s0 + s1 + s2 + s3 + s4, s5, b6);
    wire::lemma_assoc(s0 + s1 + s2 + s3, s4, b5);
    wire::lemma_assoc(s0 + s1 + s2, s3, b4);
    wire::lemma_assoc(s0 + s1, s2, b3);
    wire::lemma_assoc(s0, s1, b2);
    wire::lemma_expect(K_FILES_INFO, b1);
    lemma_flags_fit(files);
    wire::law_number_reads_back(n as u64, b2);
    lemma_bits_said(files, b5);
    assert(with_property(q1, n, K_NAME, seq![0u8] + files_info::names_body(files)) == Some(q2)) by {
        let names = files_info::names_body(files);
        wire::lemma_expect(0, names);
        lemma_names(files, Seq::empty());
        assert(names + Seq::empty() =~= names);
    }
    lemma_section(K_NAME, seq![0u8] + files_info::names_body(files), b6, n, q1);
    lemma_values_said(files, b10, q2);
    assert(b10[0] == K_END);
    assert(b10.skip(1) =~= rest);
    lemma_all_said(files);
}

} // verus!
