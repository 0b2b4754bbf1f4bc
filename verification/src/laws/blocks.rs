//! What the calls that prepare blocks do.

use crate::archive::ArchiveEntry;
use crate::checksum;
use crate::encoder;
use crate::encoder::{EncodeError, Encoded};
use crate::encoder_options::{AesEncoderOptions, EncoderConfiguration, EncoderOptions, Password};
use crate::error::Error;
use crate::text;
use crate::writer::prepared;
use crate::writer::prepared::{Bcj2Aes, Bcj2Methods, PreparedBlock};
use crate::writer::source_reader;
use crate::writer::source_reader::SourceReader;
use crate::writer::unpack_info;
use crate::writer::unpack_info::Folder;
use std::sync::Arc;
use vstd::prelude::*;

verus! {

/// A block is prepared of members and their sources unless there is no coder, there are not as many of
/// the one as of the other, a coder for AES has no password, a source fails or a coder cannot take what
/// it is given; and it is told which, in this order.
pub proof fn law_prepare_block(
    methods: Arc<Vec<EncoderConfiguration>>,
    entries: Vec<ArchiveEntry>,
    readers: Vec<SourceReader>,
    r: Result<PreparedBlock, Error>,
)
    requires
        call_ensures(prepared::prepare_block, (methods, entries, readers), r),
    ensures
        ({
            let plain = source_reader::all_content(readers@);
            let some = methods@.len() > 0;
            let even = entries@.len() == readers@.len();
            let usable = encoder::all_supported(methods@);
            let read = forall|i: int|
                0 <= i < readers@.len() ==> (#[trigger] readers@[i]).failure is None;
            let st = encoder::stages(methods@, plain);
            &&& r is Ok <==> some && even && usable && read && st is Some
            &&& !some ==> r->Err_0 is Other && r->Err_0.text()
                == "prepare_block: `methods` must not be empty"@
            &&& some && !even ==> r->Err_0 is Other && r->Err_0.text() == "prepare_block"@ + ": "@
                + text::decimal_digits(entries@.len()) + " entries against "@
                + text::decimal_digits(readers@.len()) + " readers"@
            &&& some && even && !usable ==> r->Err_0 is Unsupported && r->Err_0.text()
                == "AES256_SHA256 needs a password"@
            &&& some && even && usable && !read ==> r->Err_0 is Io && r->Err_0.text()
                == "prepare_block: read source:"@ + source_reader::names_text(entries@)
            &&& some && even && usable && read && st is None ==> r->Err_0 is Unsupported
                && r->Err_0.text() == "the stream is longer than its coder takes"@
            &&& r matches Ok(b) ==> {
                &&& prepared::prepared_ok(b@)
                &&& b@.packed == seq![(st->0[0], checksum::crc32(st->0[0]))]
                &&& b@.folder == unpack_info::chain_folder(methods@)
                &&& b@.crc == checksum::crc32(plain)
                &&& b@.sizes.len() == methods@.len()
                &&& b@.sizes.last() == plain.len() as u64
                &&& b@.entries.len() == entries@.len()
                &&& forall|i: int|
                    0 <= i < entries@.len() ==> #[trigger] b@.entries[i] == (ArchiveEntry {
                        size: readers@[i].content@.len() as u64,
                        crc: checksum::crc32(readers@[i].content@) as u64,
                        has_crc: true,
                        ..entries@[i]
                    })
            }
        }),
{
    let plain = source_reader::all_content(readers@);
    encoder::law_only_length_stops_the_coders(methods@, plain);
    super::sources::law_first_failure_counts(readers@, 0);
    if encoder::stages(methods@, plain) is Some {
        encoder::law_each_coder_takes_the_stage_behind_it(methods@, plain);
    }
}

/// A BCJ2 block is prepared of members and their sources unless a source fails, a coder for AES has no
/// password, a coder cannot take what it is given, or the block would be too large; and it is told which,
/// in this order.
pub proof fn law_prepare_bcj2_block_with(
    methods: Bcj2Methods,
    aes: Option<Bcj2Aes>,
    entries: Vec<ArchiveEntry>,
    readers: Vec<SourceReader>,
    r: Result<PreparedBlock, Error>,
)
    requires
        entries@.len() == readers@.len(),
        aes matches Some(a) ==> a.ok(),
        call_ensures(prepared::prepare_bcj2_block_with, (&methods, aes, entries, readers), r),
    ensures
        ({
            let plain = source_reader::all_content(readers@);
            let read = forall|i: int|
                0 <= i < readers@.len() ==> (#[trigger] readers@[i]).failure is None;
            let usable = encoder::supported(methods.main) && encoder::supported(methods.addresses);
            let encodes = prepared::bcj2_encodes(methods, aes, plain);
            let block = prepared::bcj2_of(methods, aes, entries@, readers@);
            let fits = prepared::packed_len(block.packed) <= usize::MAX;
            &&& r is Ok <==> read && usable && encodes && fits
            &&& !read ==> r->Err_0 is Io && r->Err_0.text() == "prepare_bcj2_block: read source:"@
                + source_reader::names_text(entries@)
            &&& read && !usable ==> r->Err_0 is Unsupported && r->Err_0.text()
                == "AES256_SHA256 needs a password"@
            &&& read && usable && !encodes ==> r->Err_0 is Unsupported && r->Err_0.text()
                == "the stream is longer than its coder takes"@
            &&& read && usable && encodes && !fits ==> r->Err_0 is Other && r->Err_0.text()
                == "prepare_bcj2_block: the block would be too large"@
            &&& r matches Ok(b) ==> b@ == block && prepared::prepared_ok(b@)
        }),
{
    let plain = source_reader::all_content(readers@);
    super::sources::law_first_failure_counts(readers@, 0);
    if encoder::supported(methods.main) && encoder::supported(methods.addresses) {
        prepared::law_only_length_stops_bcj2(methods, aes, plain);
    }
}

/// A BCJ2 block without a password is prepared as with no coders for AES. One with a password has four,
/// for which random numbers were drawn, or fails for want of them. Where there are not as many members
/// as sources, or a source fails, it is told so first.
pub proof fn law_prepare_bcj2_block(
    methods: Bcj2Methods,
    entries: Vec<ArchiveEntry>,
    readers: Vec<SourceReader>,
    r: Result<PreparedBlock, Error>,
)
    requires
        call_ensures(prepared::prepare_bcj2_block, (&methods, entries, readers), r),
    ensures
        ({
            let even = entries@.len() == readers@.len();
            let read = forall|i: int|
                0 <= i < readers@.len() ==> (#[trigger] readers@[i]).failure is None;
            let plain = source_reader::all_content(readers@);
            &&& !even ==> r is Err && r->Err_0 is Other && r->Err_0.text() == "prepare_bcj2_block"@ + ": "@
                + text::decimal_digits(entries@.len()) + " entries against "@
                + text::decimal_digits(readers@.len()) + " readers"@
            &&& even && !read ==> r is Err && r->Err_0 is Io && r->Err_0.text()
                == "prepare_bcj2_block: read source:"@ + source_reader::names_text(entries@)
            &&& even && read && methods.password is None ==> (r is Ok <==> encoder::supported(
                methods.main,
            ) && encoder::supported(methods.addresses) && prepared::bcj2_encodes(
                methods,
                None,
                plain,
            ) && prepared::packed_len(
                prepared::bcj2_of(methods, None, entries@, readers@).packed,
            ) <= usize::MAX)
            &&& r matches Ok(b) ==> even && read && prepared::prepared_ok(b@) && match methods.password {
                None => b@ == prepared::bcj2_of(methods, None, entries@, readers@),
                Some(password) => exists|aes: Bcj2Aes|
                    {
                        &&& aes.main.options matches Some(EncoderOptions::Aes(o)) && o.password
                            == password
                        &&& aes.call.options matches Some(EncoderOptions::Aes(o)) && o.password
                            == password
                        &&& aes.jump.options matches Some(EncoderOptions::Aes(o)) && o.password
                            == password
                        &&& aes.decisions.options matches Some(EncoderOptions::Aes(o)) && o.password
                            == password
                        &&& b@ == #[trigger] prepared::bcj2_of(
                            methods,
                            Some(aes),
                            entries@,
                            readers@,
                        )
                    },
            }
        }),
{
    super::sources::law_first_failure_counts(readers@, 0);
}

/// The coders for AES of a BCJ2 block are made of four draws, each of its own, or not at all.
pub proof fn law_bcj2_aes_from(
    password: Password,
    draws: [(Option<[u8; 16]>, Option<[u8; 16]>); 4],
    r: Result<Bcj2Aes, Error>,
)
    requires
        call_ensures(prepared::bcj2_aes_from, (&password, draws), r),
    ensures
        r is Ok <==> forall|k: int|
            0 <= k < 4 ==> (#[trigger] draws@[k]).0 is Some && draws@[k].1 is Some,
        r matches Err(e) ==> e is Unsupported && e.text() == "no random numbers"@,
        r matches Ok(a) ==> {
            let options = |k: int|
                Some(
                    EncoderOptions::Aes(
                        AesEncoderOptions { password, iv: draws@[k].0->0, salt: draws@[k].1->0 },
                    ),
                );
            &&& a.main.options == options(0) && a.main.method is AES256_SHA256
            &&& a.call.options == options(1) && a.call.method is AES256_SHA256
            &&& a.jump.options == options(2) && a.jump.method is AES256_SHA256
            &&& a.decisions.options == options(3) && a.decisions.method is AES256_SHA256
        },
{
    super::coders::law_each_stream_has_its_own_draw(password, draws);
}

/// What a prepared block says of itself are its parts.
pub proof fn law_prepared_block_in_parts(
    b: PreparedBlock,
    members: usize,
    packed: usize,
    parts: (Vec<(Vec<u8>, u32)>, Vec<ArchiveEntry>, Folder, Vec<u64>, u32, Vec<u64>, Vec<u32>),
)
    requires
        call_ensures(PreparedBlock::len, (&b,), members),
        call_ensures(PreparedBlock::compressed_len, (&b,), packed),
        call_ensures(PreparedBlock::into_parts, (b,), parts),
    ensures
        members == parts.1@.len(),
        packed == prepared::packed_len(prepared::packed_view(parts.0@)),
        b@.packed.len() == parts.0@.len(),
        forall|i: int|
            0 <= i < parts.0@.len() ==> #[trigger] b@.packed[i] == (parts.0@[i].0@, parts.0@[i].1),
        b@.entries == parts.1@,
        b@.folder == parts.2@,
        b@.sizes == parts.3@,
        b@.crc == parts.4,
        b@.file_sizes == parts.5@,
        b@.file_crcs == parts.6@,
{
}

/// What went wrong with a coder is told: a missing password, too long a stream, or with a message of what
/// was being done.
pub proof fn law_coding_error(e: EncodeError, message: String, r: Error, none: Error)
    requires
        call_ensures(prepared::coding_error, (e, message), r),
        call_ensures(prepared::no_password, (), none),
    ensures
        none is Unsupported && none.text() == "AES256_SHA256 needs a password"@,
        e is NoPassword ==> r is Unsupported && r.text() == none.text(),
        e is TooLong ==> r is Unsupported && r.text()
            == "the stream is longer than its coder takes"@,
        e !is NoPassword && e !is TooLong ==> r is Io && r.text() == message@,
{
}

/// Coders are used one behind another, from the last on: each Ok where the whole is, the packed stream is
/// the first stage, and each length that of what its coder was given.
pub proof fn law_encode_chain(
    methods: Vec<EncoderConfiguration>,
    plain: Vec<u8>,
    r: Result<Encoded, EncodeError>,
    usable: bool,
)
    requires
        call_ensures(encoder::encode_chain, (&methods, plain), r),
        call_ensures(prepared::check_methods, (&methods,), usable),
    ensures
        ({
            let st = encoder::stages(methods@, plain@);
            &&& usable <==> forall|i: int|
                0 <= i < methods@.len() ==> encoder::supported(#[trigger] methods@[i])
            &&& r is Ok <==> st is Some
            &&& usable && r is Err ==> r->Err_0 is TooLong
            &&& r matches Ok(e) ==> {
                &&& e.packed@ == st->0[0]
                &&& e.sizes@.last() == plain@.len() as u64
                &&& forall|i: int|
                    0 <= i < methods@.len() ==> #[trigger] e.sizes@[i] == st->0[i + 1].len() as u64
                &&& methods@.len() == 0 ==> e.packed@ == plain@ && e.sizes@.len() == 1
                &&& methods@.len() > 0 ==> e.sizes@.len() == methods@.len()
            }
        }),
{
    encoder::law_only_length_stops_the_coders(methods@, plain@);
    if encoder::stages(methods@, plain@) is Some {
        encoder::law_each_coder_takes_the_stage_behind_it(methods@, plain@);
    }
}

/// One coder: what it makes is what it makes of the data; it fails for want of a password where it is AES
/// and has none, and else only for too long a stream.
pub proof fn law_encode(
    c: EncoderConfiguration,
    data: Vec<u8>,
    r: Result<Vec<u8>, EncodeError>,
    usable: bool,
)
    requires
        call_ensures(encoder::encode, (&c, data), r),
        call_ensures(encoder::is_supported, (&c,), usable),
    ensures
        usable <==> encoder::supported(c),
        r is Ok ==> usable && encoder::encoded(c, data@) == Some(r->Ok_0@),
        r is Err ==> encoder::encoded(c, data@) is None,
        !usable ==> r is Err && r->Err_0 is NoPassword,
        usable ==> (r is Err <==> encoder::too_long(c, data@)),
        usable && r is Err ==> r->Err_0 is TooLong,
        c.method is COPY ==> r is Ok && r->Ok_0@ == data@,
{
}

} // verus!
