//! How numbers, bits, names and headers are spelt.

use std::sync::Arc;

use sevenz_writer::encoder::{
    encode, encode_chain, is_supported, max_lzma2_len, EncodeError, Encoded, MAX_LZMA_LEN,
};
use sevenz_writer::encoder_options::{get_options_as_properties, EncoderOptions};
use sevenz_writer::text::{decimal, joined};
use sevenz_writer::wire::{push_name, push_u32, push_u64, write_bit_set, write_u64};
use sevenz_writer::writer::header::{signature_header, write_encoded_header};
use sevenz_writer::writer::pack_info::PackInfo;
use sevenz_writer::writer::prepared::{
    bcj2_aes_from, bcj2_block, coding_error, solid_block, Bcj2Aes, Bcj2Encoded, Bcj2Methods,
};
use sevenz_writer::writer::source_reader::{entries_names, gather};
use sevenz_writer::writer::unpack_info::{Folder, UnpackInfo};
use sevenz_writer::{
    AesEncoderOptions, ArchiveEntry, ArchiveWriter, EncoderConfiguration, EncoderMethod, Error,
    LzmaOptions, Password, SourceReader,
};

fn number(value: u64) -> Vec<u8> {
    let mut out = Vec::new();
    write_u64(&mut out, value);
    out
}

#[test]
fn numbers_take_as_many_bytes_as_they_need() {
    assert_eq!(number(0), [0x00]);
    assert_eq!(number(0x7F), [0x7F]);
    assert_eq!(number(0x80), [0x80, 0x80]);
    assert_eq!(number(0x3FFF), [0xBF, 0xFF]);
    assert_eq!(number(0x4000), [0xC0, 0x00, 0x40]);
    assert_eq!(number(0x12_3456), [0xD2, 0x56, 0x34]);
    assert_eq!(number(0x1234_5678), [0xF0, 0x78, 0x56, 0x34, 0x12]);
    assert_eq!(
        number(0x00FF_FFFF_FFFF_FFFF),
        [0xFE, 0xFF, 0xFF, 0xFF, 0xFF, 0xFF, 0xFF, 0xFF]
    );
    assert_eq!(
        number(0x0100_0000_0000_0000),
        [0xFF, 0, 0, 0, 0, 0, 0, 0, 1]
    );
    assert_eq!(number(u64::MAX), [0xFF; 9]);
}

#[test]
fn words_have_their_lowest_byte_first() {
    let mut out = vec![9];
    push_u32(&mut out, 0x0102_0304);
    push_u64(&mut out, 0x0506);
    assert_eq!(out, [9, 4, 3, 2, 1, 6, 5, 0, 0, 0, 0, 0, 0]);
}

#[test]
fn bits_fill_bytes_from_the_highest() {
    let mut out = Vec::new();
    write_bit_set(&mut out, &vec![true, false, true]);
    assert_eq!(out, [0xA0]);
    let mut out = Vec::new();
    write_bit_set(
        &mut out,
        &vec![false, false, false, false, false, false, false, true, true],
    );
    assert_eq!(out, [0x01, 0x80]);
    let mut out = Vec::new();
    write_bit_set(&mut out, &Vec::new());
    assert!(out.is_empty());
}

#[test]
fn names_are_utf16_and_ended() {
    let mut out = Vec::new();
    push_name(&mut out, "aé\u{1F600}");
    assert_eq!(out, [0x61, 0, 0xE9, 0, 0x3D, 0xD8, 0x00, 0xDE, 0, 0]);
}

#[test]
fn texts_are_put_together() {
    assert_eq!(decimal(0), "0");
    assert_eq!(decimal(1_234_567_890), "1234567890");
    assert_eq!(joined("a", "b"), "ab");
    let names = vec![ArchiveEntry::new_file("x"), ArchiveEntry::new_directory("y")];
    assert_eq!(entries_names(&names), "x;y;");
}

#[test]
fn the_checksum_is_crc32() {
    let source = SourceReader::new(b"123456789".to_vec());
    assert_eq!(source.crc_value(), 0xCBF4_3926);
    assert_eq!(source.read_count(), 9);
    assert_eq!(SourceReader::new(Vec::new()).crc_value(), 0);
}

#[test]
fn sources_are_read_up_to_the_first_that_fails() {
    let all = gather(vec![
        SourceReader::new(b"one".to_vec()),
        SourceReader::new(Vec::new()),
        SourceReader::new(b"three".to_vec()),
    ])
    .unwrap();
    assert_eq!(all.plain, b"onethree");
    assert_eq!(all.sizes, [3, 0, 5]);
    assert_eq!(all.crcs[1], 0);
    let err = gather(vec![
        SourceReader::new(Vec::new()),
        SourceReader::failed(Vec::new(), std::io::Error::other("first")),
        SourceReader::failed(Vec::new(), std::io::Error::other("second")),
    ])
    .err()
    .unwrap();
    assert_eq!(err.to_string(), "first");
}

#[test]
fn settings_are_kept_for_the_reader() {
    let mut o = LzmaOptions::from_level(5);
    o.set_literal_bits(0, 2, 2);
    o.set_dictionary_size(1 << 20);
    let lzma: EncoderConfiguration = o.into();
    assert_eq!(get_options_as_properties(&lzma), [108, 0, 0, 0x10, 0]);
    let lzma2 = |size: u32| {
        let mut o = LzmaOptions::from_level(1);
        o.set_dictionary_size(size);
        let c = EncoderConfiguration::new(EncoderMethod::LZMA2)
            .with_options(EncoderOptions::Lzma2(o));
        get_options_as_properties(&c)
    };
    assert_eq!(lzma2(4096), [8]);
    assert_eq!(lzma2(1 << 16), [8]);
    assert_eq!(lzma2((1 << 16) + 1), [9]);
    assert_eq!(lzma2(3 << 15), [9]);
    assert_eq!(lzma2((3 << 15) + 1), [10]);
    assert_eq!(lzma2(8 << 20), [22]);
    assert_eq!(lzma2((8 << 20) + 1), [23]);
    assert_eq!(lzma2(u32::MAX), [35]);
    let aes: EncoderConfiguration = AesEncoderOptions {
        password: Password::new("p"),
        iv: [7; 16],
        salt: [9; 16],
    }
    .into();
    let p = get_options_as_properties(&aes);
    assert_eq!(p[..2], [0xC8, 0xFF]);
    assert_eq!(p[2..18], [9; 16]);
    assert_eq!(p[18..], [7; 16]);
    let none = EncoderConfiguration::new(EncoderMethod::COPY);
    assert!(get_options_as_properties(&none).is_empty());
    assert!(get_options_as_properties(&EncoderConfiguration::new(EncoderMethod::AES256_SHA256)).is_empty());
}

#[test]
fn random_numbers_that_do_not_come_are_told() {
    let err = AesEncoderOptions::from_random(Password::new("p"), Some([1; 16]), None)
        .err()
        .unwrap();
    assert!(matches!(err, Error::Unsupported(_)));
    assert_eq!(err.message(), "no random numbers");
    let o = AesEncoderOptions::from_random(Password::new("p"), Some([1; 16]), Some([2; 16])).unwrap();
    assert_eq!((o.iv, o.salt), ([1; 16], [2; 16]));
    let a = AesEncoderOptions::new(Password::new("p")).unwrap();
    let b = AesEncoderOptions::new(Password::new("p")).unwrap();
    assert_ne!(a.iv, b.iv);
    assert_ne!(a.salt, a.iv);
}

#[test]
fn coders_make_what_is_known_of_them() {
    let copy = EncoderConfiguration::new(EncoderMethod::COPY);
    assert_eq!(encode(&copy, b"abc".to_vec()).unwrap(), b"abc");
    let aes: EncoderConfiguration = AesEncoderOptions {
        password: Password::new(""),
        iv: [0; 16],
        salt: [0; 16],
    }
    .into();
    assert!(is_supported(&aes));
    assert_eq!(encode(&aes, vec![5; 16]).unwrap().len(), 16);
    assert_eq!(encode(&aes, vec![5; 17]).unwrap().len(), 32);
    assert!(encode(&aes, Vec::new()).unwrap().is_empty());
    assert_ne!(encode(&aes, vec![5; 16]).unwrap(), [5; 16]);
    // LZMA2 ends what it makes of nothing with a byte of nought.
    let lzma2 = EncoderConfiguration::new(EncoderMethod::LZMA2);
    assert_eq!(encode(&lzma2, Vec::new()).unwrap(), [0]);
    // LZMA makes the five bytes of an empty range coder of nothing.
    let lzma = EncoderConfiguration::new(EncoderMethod::LZMA);
    assert_eq!(encode(&lzma, Vec::new()).unwrap(), [0; 5]);
    assert!(encode(&lzma, vec![1; 10_000]).unwrap().len() < 100);
    assert!(!is_supported(&EncoderConfiguration::new(
        EncoderMethod::AES256_SHA256
    )));
}

#[test]
fn coders_that_cannot_run_are_told_apart() {
    let bare = || EncoderConfiguration::new(EncoderMethod::AES256_SHA256);
    assert!(matches!(
        encode(&bare(), vec![1]),
        Err(EncodeError::NoPassword)
    ));
    let copy = EncoderConfiguration::new(EncoderMethod::COPY);
    assert!(matches!(
        encode_chain(&vec![copy, bare()], vec![1]),
        Err(EncodeError::NoPassword)
    ));
    let err = coding_error(EncodeError::TooLong, "m".to_string());
    assert!(matches!(err, Error::Unsupported(_)));
    assert_eq!(err.message(), "the stream is longer than its coder takes");
    let err = coding_error(EncodeError::NoPassword, "m".to_string());
    assert_eq!(err.message(), "AES256_SHA256 needs a password");
    let failed = EncodeError::Failed(std::io::Error::other("inner"));
    let err = coding_error(failed, "m".to_string());
    assert!(matches!(err, Error::Io { ref error, .. } if error.to_string() == "inner"));
    assert_eq!(err.message(), "m");
}

#[test]
fn a_chain_keeps_what_each_coder_was_given() {
    let copy = || EncoderConfiguration::new(EncoderMethod::COPY);
    let lzma2 = EncoderConfiguration::new(EncoderMethod::LZMA2);
    let e = encode_chain(&vec![copy(), copy(), lzma2], b"aaaaaaaaaaaaaaaaaaaaaaaaaaaaaaaaaaa".to_vec())
        .unwrap();
    assert_eq!(e.sizes[2], 35);
    assert_eq!(e.sizes[0], e.packed.len() as u64);
    assert_eq!(e.sizes[0], e.sizes[1]);
    let e = encode_chain(&Vec::new(), b"plain".to_vec()).unwrap();
    assert_eq!(e.packed, b"plain");
    assert_eq!(e.sizes, [5]);
}

fn encoded(packed: &[u8], sizes: &[u64]) -> Encoded {
    Encoded {
        packed: packed.to_vec(),
        sizes: sizes.to_vec(),
    }
}

#[test]
fn a_block_is_put_together_from_what_the_coders_made() {
    let b = solid_block(
        Arc::new(vec![EncoderConfiguration::new(EncoderMethod::LZMA)]),
        vec![ArchiveEntry::new_file("a")],
        vec![7],
        vec![0xAABB],
        0xCCDD,
        encoded(b"xyz", &[7]),
    );
    let (packed, entries, folder, sizes, crc, file_sizes, file_crcs) = b.into_parts();
    assert_eq!(packed, [(b"xyz".to_vec(), crc32fast::hash(b"xyz"))]);
    assert_eq!((entries[0].size, entries[0].crc), (7, 0xAABB));
    assert_eq!((crc, sizes.as_slice()), (0xCCDD, &[7][..]));
    assert_eq!((file_sizes.as_slice(), file_crcs.as_slice()), (&[7][..], &[0xAABB][..]));
    assert!(matches!(folder, Folder::Chain(ref m) if m.len() == 1));
}

#[test]
fn a_bcj2_block_is_put_together_from_what_the_coders_made() {
    let methods = Bcj2Methods {
        main: EncoderConfiguration::new(EncoderMethod::LZMA2),
        addresses: EncoderConfiguration::new(EncoderMethod::LZMA),
        password: None,
    };
    let streams = || Bcj2Encoded {
        main: encoded(b"m", &[10, 11]),
        call: encoded(b"c", &[20, 21]),
        jump: encoded(b"j", &[30, 31]),
        decisions: encoded(b"d", &[40]),
    };
    let b = bcj2_block(&methods, &None, Vec::new(), Vec::new(), Vec::new(), 99, 1, streams())
        .unwrap();
    assert_eq!(b.compressed_len(), 4);
    let (packed, _, _, sizes, _, _, _) = b.into_parts();
    assert_eq!(sizes, [31, 21, 11, 99]);
    let bytes: Vec<&[u8]> = packed.iter().map(|p| p.0.as_slice()).collect();
    assert_eq!(bytes, [&b"m"[..], b"d", b"c", b"j"]);
    assert_eq!(packed[3].1, crc32fast::hash(b"j"));
    let aes = |iv: u8| -> EncoderConfiguration {
        AesEncoderOptions {
            password: Password::new("p"),
            iv: [iv; 16],
            salt: [0; 16],
        }
        .into()
    };
    let all = Some(Bcj2Aes {
        main: aes(1),
        call: aes(2),
        jump: aes(3),
        decisions: aes(4),
    });
    let b = bcj2_block(&methods, &all, Vec::new(), Vec::new(), Vec::new(), 99, 1, streams())
        .unwrap();
    let (_, _, folder, sizes, _, _, _) = b.into_parts();
    assert_eq!(sizes, [30, 20, 40, 10, 31, 21, 11, 99]);
    let Folder::Graph { coders, .. } = &folder else {
        panic!("no graph")
    };
    let ivs: Vec<u8> = coders[..4].iter().map(|c| c.properties[33]).collect();
    assert_eq!(ivs, [3, 2, 4, 1]);
    assert_eq!(coders[4].id, [0x03, 0x01, 0x01]);
    assert_eq!(coders[6].id, [0x21]);
    assert_eq!(coders[7].num_in_streams, 4);
}

#[test]
fn an_archive_is_finished_with_what_the_coders_made_of_its_header() {
    let w = ArchiveWriter::new();
    // Twenty bytes more than the encoded header would not make up for: the header is kept.
    let f = w.finish_with(encoded(&[1; 3], &[16])).unwrap();
    assert_eq!(f.tail.len(), 16);
    assert_eq!(f.end, 48);
    let mut w = ArchiveWriter::new();
    for i in 0..10 {
        w.push_archive_entry(ArchiveEntry::new_directory(&format!("directory {i}")), None)
            .unwrap();
    }
    let f = w.finish_with(encoded(b"packed", &[300])).unwrap();
    assert_eq!(&f.tail[..6], b"packed");
    assert_eq!(f.tail[6], 0x17);
    assert_eq!(f.end, 32 + f.tail.len() as u64);
}

#[test]
fn the_signature_header_leads_to_the_header() {
    let header = vec![1, 2, 3];
    let s = signature_header(0x0102, &header);
    assert_eq!(s.len(), 32);
    assert_eq!(s[..8], [0x37, 0x7A, 0xBC, 0xAF, 0x27, 0x1C, 0, 4]);
    assert_eq!(s[8..12], crc32fast::hash(&s[12..]).to_le_bytes());
    assert_eq!(s[12..20], [2, 1, 0, 0, 0, 0, 0, 0]);
    assert_eq!(s[20..28], [3, 0, 0, 0, 0, 0, 0, 0]);
    assert_eq!(s[28..], crc32fast::hash(&header).to_le_bytes());
}

#[test]
fn an_encoded_header_is_described() {
    let methods = Arc::new(vec![EncoderConfiguration::new(EncoderMethod::LZMA)]);
    let packed = vec![1, 2];
    let h = write_encoded_header(5, &packed, methods, vec![9], 0x0A0B_0C0D);
    let mut expected = vec![0x17, 0x06, 5, 1, 0x09, 2, 0x0A, 1];
    expected.extend(crc32fast::hash(&packed).to_le_bytes());
    expected.push(0);
    expected.extend([0x07, 0x0B, 1, 0, 1, 0x23, 3, 1, 1, 5, 93, 0, 0, 0x80, 0]);
    expected.extend([0x0C, 9, 0x0A, 1, 0x0D, 0x0C, 0x0B, 0x0A, 0]);
    expected.extend([0x08, 0x0D, 1, 0x09, 0x0A, 1, 0, 0]);
    assert_eq!(h, expected);
}

#[test]
fn packed_streams_and_blocks_are_described() {
    let mut pack = PackInfo::default();
    pack.pos = 300;
    pack.add_stream(5, 0x0403_0201);
    pack.add_stream(200, 0);
    assert_eq!(pack.len(), 2);
    let mut out = Vec::new();
    pack.write_to(&mut out);
    assert_eq!(
        out,
        [0x06, 0x81, 0x2C, 2, 0x09, 5, 0x80, 200, 0x0A, 1, 1, 2, 3, 4, 0, 0, 0, 0, 0]
    );
    let mut unpack = UnpackInfo::default();
    let chain = Arc::new(vec![
        EncoderConfiguration::new(EncoderMethod::COPY),
        EncoderConfiguration::new(EncoderMethod::COPY),
    ]);
    unpack.add(chain.clone(), vec![5, 6], 7);
    unpack.add_multiple(
        Folder::Chain(chain),
        vec![8, 9],
        10,
        3,
        vec![1, 2, 6],
        vec![11, 12, 13],
    );
    let mut out = Vec::new();
    unpack.write_substreams(&mut out);
    assert_eq!(
        out,
        [
            0x08, 0x0D, 1, 3, 0x09, 1, 2, 0x0A, 1, 11, 0, 0, 0, 12, 0, 0, 0, 13, 0, 0, 0, 0
        ]
    );
    let mut out = Vec::new();
    unpack.write_to(&mut out);
    assert_eq!(
        out,
        [
            0x07, 0x0B, 2, 0, 2, 1, 0, 1, 0, 1, 0, 2, 1, 0, 1, 0, 1, 0, 0x0C, 5, 6, 8, 9, 0x0A, 1,
            7, 0, 0, 0, 10, 0, 0, 0, 0
        ]
    );
}

#[test]
fn errors_keep_their_messages() {
    let io = Error::io_msg(std::io::Error::other("inner"), "outer".to_string());
    assert_eq!(io.message(), "outer");
    assert_eq!(Error::other("o".to_string()).message(), "o");
    assert_eq!(Error::unsupported("u".to_string()).message(), "u");
}

#[test]
fn each_stream_of_a_bcj2_block_has_what_was_drawn_for_it() {
    let password = Password::new("p");
    let draw = |n: u8| (Some([n; 16]), Some([n + 100; 16]));
    let aes = bcj2_aes_from(&password, [draw(1), draw(2), draw(3), draw(4)]).unwrap();
    for (c, n) in [
        (aes.main, 1),
        (aes.call, 2),
        (aes.jump, 3),
        (aes.decisions, 4),
    ] {
        let Some(EncoderOptions::Aes(o)) = c.options else {
            panic!("no settings")
        };
        assert_eq!(c.method, EncoderMethod::AES256_SHA256);
        assert_eq!(o.password.text, "p");
        assert_eq!((o.iv, o.salt), ([n; 16], [n + 100; 16]));
    }
    for missing in 0..4 {
        for half in [(None, Some([0; 16])), (Some([0; 16]), None)] {
            let mut draws = [draw(1), draw(2), draw(3), draw(4)];
            draws[missing] = half;
            let err = bcj2_aes_from(&password, draws).err().unwrap();
            assert!(matches!(err, Error::Unsupported(_)));
            assert_eq!(err.message(), "no random numbers");
        }
    }
}

#[test]
fn lzma2_takes_as_much_as_its_level_can_count() {
    assert_eq!(MAX_LZMA_LEN, 0xFFFF_FFFF);
    assert_eq!(max_lzma2_len(0), 0xFFFF_FFFF);
    assert_eq!(max_lzma2_len(3), 0xFFFF_FFFF);
    assert_eq!(max_lzma2_len(4), 16 * ((1 << 31) - 4096));
    assert_eq!(max_lzma2_len(5), 32 * ((1 << 31) - 4096));
    for level in 6..=9 {
        assert_eq!(max_lzma2_len(level), 64 * ((1 << 31) - 4096));
    }
}
