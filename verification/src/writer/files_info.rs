//! The members of an archive: names, times, attributes, and which have no data.

use crate::archive::{
    ArchiveEntry, K_ANTI, K_A_TIME, K_C_TIME, K_EMPTY_FILE, K_EMPTY_STREAM, K_END, K_FILES_INFO,
    K_M_TIME, K_NAME, K_WIN_ATTRIBUTES,
};
use crate::wire;
use vstd::prelude::*;

verus! {

/// A property of the members: what it is, how long it is, and its value.
pub open spec fn section(id: u8, body: Seq<u8>) -> Seq<u8> {
    seq![id] + wire::number(body.len() as u64) + body
}

/// Which members have no data.
pub open spec fn empty_streams(files: Seq<ArchiveEntry>) -> Seq<bool> {
    files.map_values(|e: ArchiveEntry| !e.has_stream)
}

/// The members without data, in their order.
pub open spec fn streamless(files: Seq<ArchiveEntry>) -> Seq<ArchiveEntry>
    decreases files.len(),
{
    if files.len() == 0 {
        files
    } else if files.last().has_stream {
        streamless(files.drop_last())
    } else {
        streamless(files.drop_last()).push(files.last())
    }
}

/// Which of the members without data are files.
pub open spec fn empty_files(files: Seq<ArchiveEntry>) -> Seq<bool> {
    streamless(files).map_values(|e: ArchiveEntry| !e.is_directory)
}

/// Which of the members without data say that a file is to be removed.
pub open spec fn anti_items(files: Seq<ArchiveEntry>) -> Seq<bool> {
    streamless(files).map_values(|e: ArchiveEntry| e.is_anti_item)
}

/// A property of one bit for each member it is about, left out where no bit is set.
pub open spec fn flags_bytes(id: u8, bits: Seq<bool>) -> Seq<u8> {
    if bits.contains(true) {
        section(id, wire::bit_vector(bits))
    } else {
        Seq::empty()
    }
}

/// The names of members, one after another.
pub open spec fn names_body(files: Seq<ArchiveEntry>) -> Seq<u8>
    decreases files.len(),
{
    if files.len() == 0 {
        Seq::empty()
    } else {
        wire::name_bytes(files[0].name@) + names_body(files.skip(1))
    }
}

/// The names of members, as the header spells them.
pub open spec fn names_bytes(files: Seq<ArchiveEntry>) -> Seq<u8> {
    section(K_NAME, seq![0u8] + names_body(files))
}

/// When members were created.
pub open spec fn creation_dates_of(files: Seq<ArchiveEntry>) -> Seq<Option<u64>> {
    files.map_values(
        |e: ArchiveEntry|
            if e.has_creation_date {
                Some(e.creation_date)
            } else {
                None
            },
    )
}

/// When members were last read.
pub open spec fn access_dates_of(files: Seq<ArchiveEntry>) -> Seq<Option<u64>> {
    files.map_values(
        |e: ArchiveEntry|
            if e.has_access_date {
                Some(e.access_date)
            } else {
                None
            },
    )
}

/// When members were last changed.
pub open spec fn modified_dates_of(files: Seq<ArchiveEntry>) -> Seq<Option<u64>> {
    files.map_values(
        |e: ArchiveEntry|
            if e.has_last_modified_date {
                Some(e.last_modified_date)
            } else {
                None
            },
    )
}

/// The attributes of members.
pub open spec fn attributes_of(files: Seq<ArchiveEntry>) -> Seq<Option<u64>> {
    files.map_values(
        |e: ArchiveEntry|
            if e.has_windows_attributes {
                Some(e.windows_attributes as u64)
            } else {
                None
            },
    )
}

/// Which members have a value.
pub open spec fn defined(values: Seq<Option<u64>>) -> Seq<bool> {
    values.map_values(|v: Option<u64>| v is Some)
}

/// The values that there are, in so many bytes each.
pub open spec fn present(values: Seq<Option<u64>>, width: nat) -> Seq<u8>
    decreases values.len(),
{
    if values.len() == 0 {
        Seq::empty()
    } else {
        (match values[0] {
            Some(v) => wire::le_digits(v as nat, width),
            None => Seq::empty(),
        }) + present(values.skip(1), width)
    }
}

/// A property with a value for some members: whether it is for all of them, if not for which, that
/// the values follow here, and the values.
pub open spec fn values_body(values: Seq<Option<u64>>, width: nat) -> Seq<u8> {
    (if defined(values).contains(false) {
        seq![0u8] + wire::bit_vector(defined(values))
    } else {
        seq![1u8]
    }) + seq![0u8] + present(values, width)
}

/// A property with a value for some members, left out where there is none.
pub open spec fn values_bytes(id: u8, values: Seq<Option<u64>>, width: nat) -> Seq<u8> {
    if defined(values).contains(true) {
        section(id, values_body(values, width))
    } else {
        Seq::empty()
    }
}

/// The members, as the header spells them.
pub open spec fn files_bytes(files: Seq<ArchiveEntry>) -> Seq<u8> {
    seq![K_FILES_INFO] + wire::number(files.len() as u64) + flags_bytes(
        K_EMPTY_STREAM,
        empty_streams(files),
    ) + flags_bytes(K_EMPTY_FILE, empty_files(files)) + flags_bytes(K_ANTI, anti_items(files))
        + names_bytes(files) + values_bytes(K_C_TIME, creation_dates_of(files), 8) + values_bytes(
        K_A_TIME,
        access_dates_of(files),
        8,
    ) + values_bytes(K_M_TIME, modified_dates_of(files), 8) + values_bytes(
        K_WIN_ATTRIBUTES,
        attributes_of(files),
        4,
    ) + seq![K_END]
}

fn write_section(header: &mut Vec<u8>, id: u8, body: &Vec<u8>)
    ensures
        final(header)@ == old(header)@ + section(id, body@),
{
    let ghost before = header@;
    header.push(id);
    wire::write_u64(header, body.len() as u64);
    header.extend_from_slice(body.as_slice());
    assert(header@ =~= before + section(id, body@));
}

/// Whether a bit of a value is in a list.
fn holds(bits: &Vec<bool>, value: bool) -> (r: bool)
    ensures
        r == bits@.contains(value),
{
    let mut i: usize = 0;
    while i < bits.len()
        invariant
            i <= bits@.len(),
            forall|j: int| 0 <= j < i ==> bits@[j] != value,
        decreases bits@.len() - i,
    {
        if bits[i] == value {
            assert(bits@[i as int] == value);
            return true;
        }
        i = i + 1;
    }
    false
}

fn write_flags(header: &mut Vec<u8>, id: u8, bits: &Vec<bool>)
    ensures
        final(header)@ == old(header)@ + flags_bytes(id, bits@),
{
    let ghost before = header@;
    if holds(bits, true) {
        let mut body = Vec::new();
        wire::write_bit_set(&mut body, bits);
        assert(body@ =~= wire::bit_vector(bits@));
        write_section(header, id, &body);
    }
    assert(header@ =~= before + flags_bytes(id, bits@));
}

/// Appends which members have no data.
pub fn write_file_empty_streams(files: &Vec<ArchiveEntry>, header: &mut Vec<u8>)
    ensures
        final(header)@ == old(header)@ + flags_bytes(K_EMPTY_STREAM, empty_streams(files@)),
{
    let mut bits: Vec<bool> = Vec::new();
    let mut i: usize = 0;
    while i < files.len()
        invariant
            i <= files@.len(),
            bits@ == empty_streams(files@.take(i as int)),
        decreases files@.len() - i,
    {
        assert(files@.take(i + 1) =~= files@.take(i as int).push(files@[i as int]));
        bits.push(!files[i].has_stream);
        assert(bits@ =~= empty_streams(files@.take(i + 1)));
        i = i + 1;
    }
    assert(files@.take(files@.len() as int) =~= files@);
    write_flags(header, K_EMPTY_STREAM, &bits);
}

/// Appends which of the members without data are files.
pub fn write_file_empty_files(files: &Vec<ArchiveEntry>, header: &mut Vec<u8>)
    ensures
        final(header)@ == old(header)@ + flags_bytes(K_EMPTY_FILE, empty_files(files@)),
{
    let mut bits: Vec<bool> = Vec::new();
    let mut i: usize = 0;
    while i < files.len()
        invariant
            i <= files@.len(),
            bits@ == empty_files(files@.take(i as int)),
        decreases files@.len() - i,
    {
        assert(files@.take(i + 1).drop_last() =~= files@.take(i as int));
        assert(files@.take(i + 1).last() == files@[i as int]);
        if !files[i].has_stream {
            bits.push(!files[i].is_directory);
        }
        assert(bits@ =~= empty_files(files@.take(i + 1)));
        i = i + 1;
    }
    assert(files@.take(files@.len() as int) =~= files@);
    write_flags(header, K_EMPTY_FILE, &bits);
}

/// Appends which of the members without data say that a file is to be removed.
pub fn write_file_anti_items(files: &Vec<ArchiveEntry>, header: &mut Vec<u8>)
    ensures
        final(header)@ == old(header)@ + flags_bytes(K_ANTI, anti_items(files@)),
{
    let mut bits: Vec<bool> = Vec::new();
    let mut i: usize = 0;
    while i < files.len()
        invariant
            i <= files@.len(),
            bits@ == anti_items(files@.take(i as int)),
        decreases files@.len() - i,
    {
        assert(files@.take(i + 1).drop_last() =~= files@.take(i as int));
        assert(files@.take(i + 1).last() == files@[i as int]);
        if !files[i].has_stream {
            bits.push(files[i].is_anti_item);
        }
        assert(bits@ =~= anti_items(files@.take(i + 1)));
        i = i + 1;
    }
    assert(files@.take(files@.len() as int) =~= files@);
    write_flags(header, K_ANTI, &bits);
}

/// Appends the names of the members.
pub fn write_file_names(files: &Vec<ArchiveEntry>, header: &mut Vec<u8>)
    ensures
        final(header)@ == old(header)@ + names_bytes(files@),
{
    let mut body = Vec::new();
    body.push(0u8);
    let ghost all = files@;
    let mut i: usize = 0;
    assert(all.skip(0) =~= all);
    while i < files.len()
        invariant
            i <= files@.len(),
            all == files@,
            seq![0u8] + names_body(all) == body@ + names_body(all.skip(i as int)),
        decreases files@.len() - i,
    {
        let ghost held = body@;
        let ghost tail = all.skip(i + 1);
        let ghost name = all[i as int].name@;
        assert(all.skip(i as int)[0] == all[i as int]);
        assert(all.skip(i as int).skip(1) =~= tail);
        wire::push_name(&mut body, files[i].name.as_str());
        assert(held + (wire::name_bytes(name) + names_body(tail)) =~= body@ + names_body(tail));
        i = i + 1;
    }
    assert(all.skip(all.len() as int) =~= Seq::empty());
    assert(body@ =~= seq![0u8] + names_body(files@));
    write_section(header, K_NAME, &body);
}

fn write_values(header: &mut Vec<u8>, id: u8, values: &Vec<Option<u64>>, wide: bool)
    ensures
        final(header)@ == old(header)@ + values_bytes(
            id,
            values@,
            if wide {
                8
            } else {
                4
            },
        ),
{
    let ghost before = header@;
    let ghost width: nat = if wide {
        8
    } else {
        4
    };
    let mut bits: Vec<bool> = Vec::new();
    let mut i: usize = 0;
    while i < values.len()
        invariant
            i <= values@.len(),
            bits@ == defined(values@.take(i as int)),
        decreases values@.len() - i,
    {
        assert(values@.take(i + 1) =~= values@.take(i as int).push(values@[i as int]));
        bits.push(values[i].is_some());
        assert(bits@ =~= defined(values@.take(i + 1)));
        i = i + 1;
    }
    assert(values@.take(values@.len() as int) =~= values@);
    if holds(&bits, true) {
        let mut body = Vec::new();
        if holds(&bits, false) {
            body.push(0u8);
            wire::write_bit_set(&mut body, &bits);
        } else {
            body.push(1u8);
        }
        body.push(0u8);
        let ghost start = body@;
        let ghost all = values@;
        assert(all.skip(0) =~= all);
        let mut k: usize = 0;
        while k < values.len()
            invariant
                k <= values@.len(),
                all == values@,
                width == if wide {
                    8nat
                } else {
                    4
                },
                start + present(all, width) == body@ + present(all.skip(k as int), width),
            decreases values@.len() - k,
        {
            let ghost held = body@;
            let ghost tail = all.skip(k + 1);
            assert(all.skip(k as int)[0] == all[k as int]);
            assert(all.skip(k as int).skip(1) =~= tail);
            match values[k] {
                Some(v) => {
                    wire::push_le(&mut body, v, if wide {
                        8
                    } else {
                        4
                    });
                    assert(held + (wire::le_digits(v as nat, width) + present(tail, width))
                        =~= body@ + present(tail, width));
                },
                None => {
                    assert(Seq::<u8>::empty() + present(tail, width) =~= present(tail, width));
                },
            }
            k = k + 1;
        }
        assert(all.skip(all.len() as int) =~= Seq::empty());
        assert(body@ =~= values_body(values@, width));
        write_section(header, id, &body);
    }
    assert(header@ =~= before + values_bytes(id, values@, width));
}

/// Appends when the members were created.
pub fn write_file_ctimes(files: &Vec<ArchiveEntry>, header: &mut Vec<u8>)
    ensures
        final(header)@ == old(header)@ + values_bytes(K_C_TIME, creation_dates_of(files@), 8),
{
    let mut values: Vec<Option<u64>> = Vec::new();
    let mut i: usize = 0;
    while i < files.len()
        invariant
            i <= files@.len(),
            values@ == creation_dates_of(files@.take(i as int)),
        decreases files@.len() - i,
    {
        assert(files@.take(i + 1) =~= files@.take(i as int).push(files@[i as int]));
        values.push(
            if files[i].has_creation_date {
                Some(files[i].creation_date)
            } else {
                None
            },
        );
        assert(values@ =~= creation_dates_of(files@.take(i + 1)));
        i = i + 1;
    }
    assert(files@.take(files@.len() as int) =~= files@);
    write_values(header, K_C_TIME, &values, true);
}

/// Appends when the members were last read.
pub fn write_file_atimes(files: &Vec<ArchiveEntry>, header: &mut Vec<u8>)
    ensures
        final(header)@ == old(header)@ + values_bytes(K_A_TIME, access_dates_of(files@), 8),
{
    let mut values: Vec<Option<u64>> = Vec::new();
    let mut i: usize = 0;
    while i < files.len()
        invariant
            i <= files@.len(),
            values@ == access_dates_of(files@.take(i as int)),
        decreases files@.len() - i,
    {
        assert(files@.take(i + 1) =~= files@.take(i as int).push(files@[i as int]));
        values.push(
            if files[i].has_access_date {
                Some(files[i].access_date)
            } else {
                None
            },
        );
        assert(values@ =~= access_dates_of(files@.take(i + 1)));
        i = i + 1;
    }
    assert(files@.take(files@.len() as int) =~= files@);
    write_values(header, K_A_TIME, &values, true);
}

/// Appends when the members were last changed.
pub fn write_file_mtimes(files: &Vec<ArchiveEntry>, header: &mut Vec<u8>)
    ensures
        final(header)@ == old(header)@ + values_bytes(K_M_TIME, modified_dates_of(files@), 8),
{
    let mut values: Vec<Option<u64>> = Vec::new();
    let mut i: usize = 0;
    while i < files.len()
        invariant
            i <= files@.len(),
            values@ == modified_dates_of(files@.take(i as int)),
        decreases files@.len() - i,
    {
        assert(files@.take(i + 1) =~= files@.take(i as int).push(files@[i as int]));
        values.push(
            if files[i].has_last_modified_date {
                Some(files[i].last_modified_date)
            } else {
                None
            },
        );
        assert(values@ =~= modified_dates_of(files@.take(i + 1)));
        i = i + 1;
    }
    assert(files@.take(files@.len() as int) =~= files@);
    write_values(header, K_M_TIME, &values, true);
}

/// Appends the attributes of the members.
pub fn write_file_windows_attrs(files: &Vec<ArchiveEntry>, header: &mut Vec<u8>)
    ensures
        final(header)@ == old(header)@ + values_bytes(K_WIN_ATTRIBUTES, attributes_of(files@), 4),
{
    let mut values: Vec<Option<u64>> = Vec::new();
    let mut i: usize = 0;
    while i < files.len()
        invariant
            i <= files@.len(),
            values@ == attributes_of(files@.take(i as int)),
        decreases files@.len() - i,
    {
        assert(files@.take(i + 1) =~= files@.take(i as int).push(files@[i as int]));
        values.push(
            if files[i].has_windows_attributes {
                Some(files[i].windows_attributes as u64)
            } else {
                None
            },
        );
        assert(values@ =~= attributes_of(files@.take(i + 1)));
        i = i + 1;
    }
    assert(files@.take(files@.len() as int) =~= files@);
    write_values(header, K_WIN_ATTRIBUTES, &values, false);
}

/// Appends the description of the members.
pub fn write_files_info(files: &Vec<ArchiveEntry>, header: &mut Vec<u8>)
    ensures
        final(header)@ == old(header)@ + files_bytes(files@),
{
    let ghost before = header@;
    let ghost f = files@;
    header.push(K_FILES_INFO);
    let ghost s1 = seq![K_FILES_INFO];
    assert(header@ =~= before + s1);
    wire::write_u64(header, files.len() as u64);
    let ghost s2 = s1 + wire::number(f.len() as u64);
    assert(header@ =~= before + s2);
    write_file_empty_streams(files, header);
    let ghost s3 = s2 + flags_bytes(K_EMPTY_STREAM, empty_streams(f));
    assert(header@ =~= before + s3);
    write_file_empty_files(files, header);
    let ghost s4 = s3 + flags_bytes(K_EMPTY_FILE, empty_files(f));
    assert(header@ =~= before + s4);
    write_file_anti_items(files, header);
    let ghost s5 = s4 + flags_bytes(K_ANTI, anti_items(f));
    assert(header@ =~= before + s5);
    write_file_names(files, header);
    let ghost s6 = s5 + names_bytes(f);
    assert(header@ =~= before + s6);
    write_file_ctimes(files, header);
    let ghost s7 = s6 + values_bytes(K_C_TIME, creation_dates_of(f), 8);
    assert(header@ =~= before + s7);
    write_file_atimes(files, header);
    let ghost s8 = s7 + values_bytes(K_A_TIME, access_dates_of(f), 8);
    assert(header@ =~= before + s8);
    write_file_mtimes(files, header);
    let ghost s9 = s8 + values_bytes(K_M_TIME, modified_dates_of(f), 8);
    assert(header@ =~= before + s9);
    write_file_windows_attrs(files, header);
    let ghost s10 = s9 + values_bytes(K_WIN_ATTRIBUTES, attributes_of(f), 4);
    assert(header@ =~= before + s10);
    header.push(K_END);
    assert(header@ =~= before + (s10 + seq![K_END]));
}

} // verus!
