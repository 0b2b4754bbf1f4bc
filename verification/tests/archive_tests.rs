//! Whole archives, read back by a reader of the format that knows nothing of the library.

use std::io::Read;
use std::sync::Arc;

use cbc::cipher::{BlockDecryptMut, KeyIvInit};
use lzma_rust2::filter::bcj2::Bcj2Reader;
use sevenz_writer::encoder_options::bcj2_id;
use sevenz_writer::writer::pack_info::PackInfo;
use sevenz_writer::writer::unpack_info::{BlockInfo, Folder, GraphCoder, UnpackInfo};
use sevenz_writer::{
    prepare_bcj2_block, prepare_block, AesEncoderOptions, Archive, ArchiveEntry, ArchiveWriter,
    Bcj2Methods, EncoderConfiguration, EncoderMethod, EncoderOptions, Error, Finished, LzmaOptions,
    Password, SourceReader,
};
use sha2::Digest;

// ---- A reader of archives ----

struct Cursor<'a> {
    bytes: &'a [u8],
}

impl<'a> Cursor<'a> {
    fn byte(&mut self) -> u8 {
        let b = self.bytes[0];
        self.bytes = &self.bytes[1..];
        b
    }

    fn expect(&mut self, id: u8) {
        assert_eq!(self.byte(), id);
    }

    fn take(&mut self, n: usize) -> &'a [u8] {
        let (front, back) = self.bytes.split_at(n);
        self.bytes = back;
        front
    }

    fn number(&mut self) -> u64 {
        let first = self.byte();
        let extra = first.leading_ones() as usize;
        let mut value = 0u64;
        for i in 0..extra {
            value |= (self.byte() as u64) << (8 * i);
        }
        if extra < 8 {
            value |= ((first & (0x7F >> extra)) as u64) << (8 * extra);
        }
        value
    }

    fn word(&mut self) -> u32 {
        u32::from_le_bytes(self.take(4).try_into().unwrap())
    }

    fn bits(&mut self, n: usize) -> Vec<bool> {
        let bytes = self.take(n.div_ceil(8));
        (0..n).map(|i| bytes[i / 8] & (0x80 >> (i % 8)) != 0).collect()
    }
}

#[derive(Debug, Clone, PartialEq)]
struct Coder {
    id: Vec<u8>,
    properties: Vec<u8>,
    num_in: u64,
}

#[derive(Debug, Clone)]
struct Block {
    coders: Vec<Coder>,
    bonds: Vec<(u64, u64)>,
    packed: Vec<u64>,
    sizes: Vec<u64>,
    crc: u32,
    files: Vec<(u64, u32)>,
}

#[derive(Debug, Clone, Default)]
struct Streams {
    pos: u64,
    pack_sizes: Vec<u64>,
    pack_crcs: Vec<u32>,
    blocks: Vec<Block>,
}

#[derive(Debug, Clone, Default, PartialEq)]
struct Member {
    name: String,
    has_stream: bool,
    is_directory: bool,
    is_anti: bool,
    created: Option<u64>,
    accessed: Option<u64>,
    modified: Option<u64>,
    attributes: Option<u64>,
}

fn read_streams(c: &mut Cursor<'_>) -> Streams {
    let mut s = Streams::default();
    if c.bytes[0] == 0x06 {
        c.expect(0x06);
        s.pos = c.number();
        let n = c.number() as usize;
        c.expect(0x09);
        s.pack_sizes = (0..n).map(|_| c.number()).collect();
        c.expect(0x0A);
        c.expect(1);
        s.pack_crcs = (0..n).map(|_| c.word()).collect();
        c.expect(0);
        c.expect(0x07);
        c.expect(0x0B);
        let n = c.number() as usize;
        c.expect(0);
        for _ in 0..n {
            let num_coders = c.number() as usize;
            let mut coders = Vec::new();
            for _ in 0..num_coders {
                let flags = c.byte();
                let id = c.take((flags & 15) as usize).to_vec();
                let num_in = if flags & 0x10 != 0 {
                    let n = c.number();
                    assert_eq!(c.number(), 1);
                    n
                } else {
                    1
                };
                let properties = if flags & 0x20 != 0 {
                    let n = c.number() as usize;
                    c.take(n).to_vec()
                } else {
                    Vec::new()
                };
                coders.push(Coder {
                    id,
                    properties,
                    num_in,
                });
            }
            let bonds: Vec<(u64, u64)> = (1..num_coders)
                .map(|_| {
                    let input = c.number();
                    (input, c.number())
                })
                .collect();
            let inputs: u64 = coders.iter().map(|c| c.num_in).sum();
            let num_packed = inputs as usize - bonds.len();
            let packed = if num_packed == 1 {
                (0..inputs)
                    .filter(|i| bonds.iter().all(|b| b.0 != *i))
                    .collect()
            } else {
                (0..num_packed).map(|_| c.number()).collect()
            };
            s.blocks.push(Block {
                coders,
                bonds,
                packed,
                sizes: Vec::new(),
                crc: 0,
                files: Vec::new(),
            });
        }
        c.expect(0x0C);
        for b in &mut s.blocks {
            b.sizes = (0..b.coders.len()).map(|_| c.number()).collect();
        }
        c.expect(0x0A);
        c.expect(1);
        for b in &mut s.blocks {
            b.crc = c.word();
        }
        c.expect(0);
    }
    c.expect(0x08);
    c.expect(0x0D);
    let counts: Vec<usize> = s.blocks.iter().map(|_| c.number() as usize).collect();
    c.expect(0x09);
    let mut sizes = Vec::new();
    for (b, count) in s.blocks.iter().zip(&counts) {
        let mut left = *b.sizes.last().unwrap();
        let mut all = Vec::new();
        for i in 0..*count {
            let size = if i + 1 == *count { left } else { c.number() };
            left -= size;
            all.push(size);
        }
        sizes.push(all);
    }
    c.expect(0x0A);
    c.expect(1);
    for (b, all) in s.blocks.iter_mut().zip(sizes) {
        b.files = if all.len() == 1 {
            vec![(all[0], b.crc)]
        } else {
            all.into_iter().map(|size| (size, c.word())).collect()
        };
    }
    c.expect(0);
    c.expect(0);
    s
}

fn read_values(c: &mut Cursor<'_>, n: usize, width: usize) -> Vec<Option<u64>> {
    let which = if c.byte() == 1 {
        vec![true; n]
    } else {
        c.bits(n)
    };
    c.expect(0);
    which
        .into_iter()
        .map(|there| {
            there.then_some(()).map(|()| {
                let mut bytes = [0u8; 8];
                bytes[..width].copy_from_slice(c.take(width));
                u64::from_le_bytes(bytes)
            })
        })
        .collect()
}

fn read_members(c: &mut Cursor<'_>) -> Vec<Member> {
    c.expect(0x05);
    let n = c.number() as usize;
    let mut members = vec![
        Member {
            has_stream: true,
            ..Member::default()
        };
        n
    ];
    let mut empty: Vec<usize> = Vec::new();
    loop {
        let id = c.byte();
        if id == 0 {
            break;
        }
        let len = c.number() as usize;
        let mut body = Cursor {
            bytes: c.take(len),
        };
        match id {
            0x0E => {
                for (i, bit) in body.bits(n).into_iter().enumerate() {
                    if bit {
                        members[i].has_stream = false;
                        members[i].is_directory = true;
                        empty.push(i);
                    }
                }
            }
            0x0F => {
                for (k, bit) in body.bits(empty.len()).into_iter().enumerate() {
                    members[empty[k]].is_directory = !bit;
                }
            }
            0x10 => {
                for (k, bit) in body.bits(empty.len()).into_iter().enumerate() {
                    members[empty[k]].is_anti = bit;
                }
            }
            0x11 => {
                body.expect(0);
                for m in &mut members {
                    let mut units = Vec::new();
                    loop {
                        let u = u16::from_le_bytes(body.take(2).try_into().unwrap());
                        if u == 0 {
                            break;
                        }
                        units.push(u);
                    }
                    m.name = String::from_utf16(&units).unwrap();
                }
            }
            0x12 => {
                for (m, v) in members.iter_mut().zip(read_values(&mut body, n, 8)) {
                    m.created = v;
                }
            }
            0x13 => {
                for (m, v) in members.iter_mut().zip(read_values(&mut body, n, 8)) {
                    m.accessed = v;
                }
            }
            0x14 => {
                for (m, v) in members.iter_mut().zip(read_values(&mut body, n, 8)) {
                    m.modified = v;
                }
            }
            0x15 => {
                for (m, v) in members.iter_mut().zip(read_values(&mut body, n, 4)) {
                    m.attributes = v;
                }
            }
            _ => panic!("property {id}"),
        }
        assert!(body.bytes.is_empty(), "property {id} is longer than needed");
    }
    members
}

fn aes_key(password: &str, salt: &[u8], power: u8) -> [u8; 32] {
    let mut hasher = sha2::Sha256::new();
    let utf16: Vec<u8> = password
        .encode_utf16()
        .flat_map(|u| u.to_le_bytes())
        .collect();
    for count in 0u64..1 << power {
        hasher.update(salt);
        hasher.update(&utf16);
        hasher.update(count.to_le_bytes());
    }
    hasher.finalize().into()
}

fn lzma2_dictionary(property: u8) -> u32 {
    (2 | (property as u32 & 1)) << (property / 2 + 11)
}

fn decode(coder: &Coder, inputs: Vec<Vec<u8>>, size: u64, password: &str) -> Vec<u8> {
    let mut out = Vec::new();
    let p = &coder.properties;
    match coder.id.as_slice() {
        [0x00] => out = inputs[0].clone(),
        [0x03, 0x01, 0x01] => {
            let dict = u32::from_le_bytes(p[1..5].try_into().unwrap());
            lzma_rust2::LzmaReader::new_with_props(inputs[0].as_slice(), size, p[0], dict, None)
                .unwrap()
                .read_to_end(&mut out)
                .unwrap();
        }
        [0x21] => {
            lzma_rust2::Lzma2Reader::new(inputs[0].as_slice(), lzma2_dictionary(p[0]), None)
                .read_to_end(&mut out)
                .unwrap();
        }
        [0x06, 0xF1, 0x07, 0x01] => {
            assert_eq!((p.len(), p[0] & 0xC0, p[1]), (34, 0xC0, 0xFF));
            let key = aes_key(password, &p[2..18], p[0] & 0x3F);
            let iv: [u8; 16] = p[18..34].try_into().unwrap();
            out = inputs[0].clone();
            let mut cipher = cbc::Decryptor::<aes::Aes256>::new(&key.into(), &iv.into());
            for block in out.chunks_mut(16) {
                cipher.decrypt_block_mut(block.into());
            }
        }
        [0x03, 0x03, 0x01, 0x1B] => {
            let inputs = inputs.into_iter().map(std::io::Cursor::new).collect();
            Bcj2Reader::new(inputs, size).read_to_end(&mut out).unwrap();
        }
        other => panic!("coder {other:?}"),
    }
    out.truncate(size as usize);
    assert_eq!(out.len() as u64, size);
    out
}

fn output_of(block: &Block, packed: &[Vec<u8>], coder: usize, password: &str) -> Vec<u8> {
    let first: u64 = block.coders[..coder].iter().map(|c| c.num_in).sum();
    let inputs = (first..first + block.coders[coder].num_in)
        .map(|input| {
            if let Some(k) = block.packed.iter().position(|p| *p == input) {
                packed[k].clone()
            } else {
                let bond = block.bonds.iter().find(|b| b.0 == input).unwrap();
                output_of(block, packed, bond.1 as usize, password)
            }
        })
        .collect();
    decode(&block.coders[coder], inputs, block.sizes[coder], password)
}

/// What the blocks of an archive unpack to, once every checksum is right.
fn unpack(archive: &[u8], streams: &Streams, password: &str) -> Vec<Vec<u8>> {
    let mut at = 32 + streams.pos as usize;
    let mut k = 0;
    let mut all = Vec::new();
    for block in &streams.blocks {
        let mut packed = Vec::new();
        for _ in &block.packed {
            let end = at + streams.pack_sizes[k] as usize;
            packed.push(archive[at..end].to_vec());
            assert_eq!(crc32fast::hash(&archive[at..end]), streams.pack_crcs[k]);
            at = end;
            k += 1;
        }
        let main = (0..block.coders.len())
            .find(|i| block.bonds.iter().all(|b| b.1 != *i as u64))
            .unwrap();
        let data = output_of(block, &packed, main, password);
        assert_eq!(crc32fast::hash(&data), block.crc);
        all.push(data);
    }
    assert_eq!(k, streams.pack_sizes.len());
    all
}

struct Found {
    streams: Streams,
    members: Vec<Member>,
    /// The data of the members, where they have data.
    data: Vec<Option<Vec<u8>>>,
    header_is_encoded: bool,
}

fn find_header(archive: &[u8]) -> &[u8] {
    assert_eq!(&archive[..8], &[0x37, 0x7A, 0xBC, 0xAF, 0x27, 0x1C, 0, 4]);
    let start = &archive[12..32];
    assert_eq!(
        crc32fast::hash(start),
        u32::from_le_bytes(archive[8..12].try_into().unwrap())
    );
    let offset = u64::from_le_bytes(start[..8].try_into().unwrap()) as usize;
    let size = u64::from_le_bytes(start[8..16].try_into().unwrap()) as usize;
    let header = &archive[32 + offset..32 + offset + size];
    assert_eq!(
        crc32fast::hash(header),
        u32::from_le_bytes(start[16..].try_into().unwrap())
    );
    header
}

fn read_archive(archive: &[u8], password: &str) -> Found {
    let mut header = find_header(archive).to_vec();
    let mut header_is_encoded = false;
    if header[0] == 0x17 {
        header_is_encoded = true;
        let mut c = Cursor {
            bytes: &header[1..],
        };
        let streams = read_streams(&mut c);
        assert!(c.bytes.is_empty());
        header = unpack(archive, &streams, password).remove(0);
    }
    let mut c = Cursor { bytes: &header };
    c.expect(0x01);
    c.expect(0x04);
    let streams = read_streams(&mut c);
    let members = read_members(&mut c);
    c.expect(0);
    assert!(c.bytes.is_empty());
    let blocks = unpack(archive, &streams, password);
    let mut files = Vec::new();
    for (block, data) in streams.blocks.iter().zip(&blocks) {
        let mut at = 0;
        for (size, crc) in &block.files {
            let content = data[at..at + *size as usize].to_vec();
            assert_eq!(crc32fast::hash(&content), *crc);
            at += *size as usize;
            files.push(content);
        }
        assert!(block.files.is_empty() || at == data.len());
    }
    let mut files = files.into_iter();
    let data = members
        .iter()
        .map(|m| {
            if m.has_stream {
                Some(files.next().unwrap())
            } else {
                None
            }
        })
        .collect();
    assert!(files.next().is_none());
    Found {
        streams,
        members,
        data,
        header_is_encoded,
    }
}

/// The names of the files of an archive with their contents.
fn contents(archive: &[u8], password: &str) -> Vec<(String, Vec<u8>)> {
    let found = read_archive(archive, password);
    let mut out: Vec<(String, Vec<u8>)> = found
        .members
        .iter()
        .zip(found.data)
        .filter(|(m, _)| !m.is_directory)
        .map(|(m, d)| (m.name.clone(), d.unwrap_or_default()))
        .collect();
    out.sort();
    out
}

// ---- Writing ----

/// The archive of a writer that has handed nothing on.
fn finish(writer: ArchiveWriter) -> Vec<u8> {
    assemble(writer.finish().unwrap())
}

fn assemble(f: Finished) -> Vec<u8> {
    let mut bytes = f.signature;
    assert_eq!(bytes.len(), 32);
    bytes.extend(f.tail);
    assert_eq!(bytes.len() as u64, f.end);
    bytes
}

fn source(content: &[u8]) -> SourceReader {
    SourceReader::new(content.to_vec())
}

fn methods(list: Vec<EncoderConfiguration>) -> Arc<Vec<EncoderConfiguration>> {
    Arc::new(list)
}

fn lzma2() -> EncoderConfiguration {
    EncoderConfiguration::new(EncoderMethod::LZMA2)
}

fn copy() -> EncoderConfiguration {
    EncoderConfiguration::new(EncoderMethod::COPY)
}

fn aes(password: &str) -> EncoderConfiguration {
    AesEncoderOptions::new(Password::new(password)).unwrap().into()
}

fn broken() -> std::io::Error {
    std::io::Error::other("broken")
}

#[test]
fn compress_multi_files_solid() {
    let mut entries = Vec::new();
    let mut readers = Vec::new();
    let mut expected = Vec::new();
    for i in 1..=10000 {
        let name = format!("file{i}.txt");
        let content = format!("file{i} with content");
        entries.push(ArchiveEntry::new_file(&name));
        readers.push(source(content.as_bytes()));
        expected.push((name, content.into_bytes()));
    }
    let mut sz = ArchiveWriter::new();
    assert!(sz.push_archive_entries(entries, readers).is_ok());
    let bytes = finish(sz);
    expected.sort();
    assert_eq!(contents(&bytes, ""), expected);
    assert!(read_archive(&bytes, "").header_is_encoded);
}

#[test]
fn compress_multi_files_mix_solid_and_non_solid() {
    let mut entries = Vec::new();
    let mut readers = Vec::new();
    let mut expected = Vec::new();
    for i in 1..=100 {
        let name = format!("file{i}.txt");
        let content = format!("file{i} with content");
        entries.push(ArchiveEntry::new_file(&name));
        readers.push(source(content.as_bytes()));
        expected.push((name, content.into_bytes()));
    }
    let mut sz = ArchiveWriter::new();
    // solid compression
    assert!(sz.push_archive_entries(entries, readers).is_ok());
    // non solid compression
    for i in 101..=200 {
        let name = format!("file{i}.txt");
        let content = format!("file{i} with content");
        let entry = sz
            .push_archive_entry(
                ArchiveEntry::new_file(&name),
                Some(source(content.as_bytes())),
            )
            .expect("ok");
        assert_eq!(entry.size, content.len() as u64);
        assert_eq!(entry.crc, crc32fast::hash(content.as_bytes()) as u64);
        assert!(entry.has_stream && entry.has_crc && entry.compressed_size > 0);
        expected.push((name, content.into_bytes()));
    }
    let bytes = finish(sz);
    expected.sort();
    assert_eq!(contents(&bytes, ""), expected);
    let found = read_archive(&bytes, "");
    assert_eq!(found.streams.blocks.len(), 101);
}

#[test]
fn prepare_block_round_trips_through_push_prepared_block() {
    let contents_of: Vec<String> = (1..=200).map(|i| format!("file{i} with content")).collect();
    let entries: Vec<ArchiveEntry> = (1..=200)
        .map(|i| ArchiveEntry::new_file(&format!("file{i}.txt")))
        .collect();
    let readers: Vec<SourceReader> = contents_of.iter().map(|c| source(c.as_bytes())).collect();

    let block = prepare_block(methods(vec![lzma2()]), entries, readers).expect("prepare ok");
    assert_eq!(block.len(), 200);
    assert!(!block.is_empty());
    assert!(block.compressed_len() > 0);

    let mut sz = ArchiveWriter::new();
    assert!(sz.push_prepared_block(block).is_ok());
    let found = read_archive(&finish(sz), "");
    for (i, content) in contents_of.iter().enumerate() {
        assert_eq!(found.members[i].name, format!("file{}.txt", i + 1));
        assert_eq!(found.data[i].as_deref(), Some(content.as_bytes()));
    }
}

#[test]
fn prepare_block_refuses_an_empty_method_list() {
    // A block with no coders writes an archive that no reader can open, and `finish()` reports
    // success while doing it, so this has to fail at the point the caller can still act on it.
    let err = prepare_block(
        Arc::new(Vec::new()),
        vec![ArchiveEntry::new_file("a.txt")],
        vec![source(b"hello")],
    )
    .expect_err("an empty method list must be refused");
    assert!(
        err.message().contains("must not be empty"),
        "unexpected error: {err:?}"
    );
    assert_eq!(
        err.message(),
        "prepare_block: `methods` must not be empty"
    );
}

#[test]
fn prepare_block_refuses_mismatched_entries_and_readers() {
    let err = prepare_block(
        methods(vec![lzma2()]),
        vec![
            ArchiveEntry::new_file("a.txt"),
            ArchiveEntry::new_file("b.txt"),
        ],
        vec![source(b"only one")],
    )
    .expect_err("a length mismatch must be refused");
    assert!(
        err.message().contains("against"),
        "unexpected error: {err:?}"
    );
    assert_eq!(err.message(), "prepare_block: 2 entries against 1 readers");
}

/// Bytes that look like x86 code: calls and jumps with near and far targets between plain bytes.
fn x86_like_code() -> Vec<u8> {
    let mut code = Vec::new();
    let mut x: u32 = 7;
    for i in 0..60_000u32 {
        x = x.wrapping_mul(1_103_515_245).wrapping_add(12_345);
        match i % 19 {
            0 => {
                code.push(0xE8);
                code.extend_from_slice(&(i.wrapping_mul(13) % 4000).to_le_bytes());
            }
            7 => {
                code.push(0xE9);
                code.extend_from_slice(&0xFFFF_FE00u32.to_le_bytes());
            }
            11 => {
                code.push(0x0F);
                code.push(0x85);
                code.extend_from_slice(&(i % 100).to_le_bytes());
            }
            _ => code.push((x >> 16) as u8),
        }
    }
    code
}

fn bcj2_methods(password: Option<&str>) -> Bcj2Methods {
    let mut addresses = LzmaOptions::from_level(5);
    addresses.set_literal_bits(0, 2, 2);
    addresses.set_dictionary_size(1 << 20);
    Bcj2Methods {
        main: lzma2(),
        addresses: addresses.into(),
        password: password.map(Password::new),
    }
}

fn bcj2_round_trip(password: Option<&str>) {
    let code = x86_like_code();
    let text = b"a text file in the same block\n".repeat(200);
    let entries = vec![
        ArchiveEntry::new_file("program.exe"),
        ArchiveEntry::new_file("readme.txt"),
    ];
    let readers = vec![source(&code), source(&text)];
    let block = prepare_bcj2_block(&bcj2_methods(password), entries, readers).expect("prepare ok");
    assert_eq!(block.len(), 2);
    assert!(
        block.compressed_len() < code.len() + text.len(),
        "the block compresses"
    );

    let mut sz = ArchiveWriter::new();
    assert!(sz.push_prepared_block(block).is_ok());
    let bytes = finish(sz);

    let found = read_archive(&bytes, password.unwrap_or(""));
    assert_eq!(found.data[0].as_deref(), Some(code.as_slice()));
    assert_eq!(found.data[1].as_deref(), Some(text.as_slice()));

    // The folder is a graph of four packed streams ending in BCJ2, laid out as 7-Zip lays
    // its own out.
    assert_eq!(found.streams.blocks.len(), 1);
    let block = &found.streams.blocks[0];
    let last = block.coders.last().unwrap();
    assert_eq!(last.id, bcj2_id());
    assert_eq!(last.num_in, 4);
    if password.is_some() {
        assert_eq!(
            block.bonds,
            [(4, 0), (5, 1), (10, 2), (6, 3), (9, 4), (8, 5), (7, 6)]
        );
        assert_eq!(block.packed, [3, 2, 1, 0]);
    } else {
        assert_eq!(block.bonds, [(5, 0), (4, 1), (3, 2)]);
        assert_eq!(block.packed, [2, 6, 1, 0]);
    }
    assert_eq!(
        block.coders.len(),
        if password.is_some() { 8 } else { 4 },
        "AES on every stream when encrypted"
    );
}

#[test]
fn a_bcj2_block_round_trips_as_a_folder_of_four_streams() {
    bcj2_round_trip(None);
}

#[test]
fn a_bcj2_block_round_trips_encrypted_on_every_stream() {
    bcj2_round_trip(Some("secret"));
}

// ---- Adding to an archive ----

/// An archive of three members and a directory, and the bytes it was written as.
fn three_members() -> Vec<u8> {
    let mut writer = ArchiveWriter::new();
    for (name, content) in samples() {
        writer
            .push_archive_entry(ArchiveEntry::new_file(name), Some(source(&content)))
            .unwrap();
    }
    writer
        .push_archive_entry(ArchiveEntry::new_directory("dir"), None)
        .unwrap();
    finish(writer)
}

fn samples() -> Vec<(&'static str, Vec<u8>)> {
    vec![
        ("first.txt", b"the first member\n".to_vec()),
        ("second.bin", (0u8..=255).cycle().take(9000).collect()),
        ("dir/third.txt", b"a member in a directory\n".to_vec()),
    ]
}

/// What a reader has found, in the types of the library.
fn archive_of(bytes: &[u8]) -> Archive {
    let found = read_archive(bytes, "");
    let mut pack_info = PackInfo::default();
    pack_info.pos = found.streams.pos;
    for (size, crc) in found
        .streams
        .pack_sizes
        .iter()
        .zip(&found.streams.pack_crcs)
    {
        pack_info.add_stream(*size, *crc);
    }
    let mut unpack_info = UnpackInfo::default();
    let mut stored = Vec::new();
    for b in &found.streams.blocks {
        stored.extend(b.files.iter().copied());
        unpack_info.blocks.push(BlockInfo {
            folder: Folder::Graph {
                coders: b
                    .coders
                    .iter()
                    .map(|c| GraphCoder {
                        id: c.id.clone(),
                        properties: c.properties.clone(),
                        num_in_streams: c.num_in,
                    })
                    .collect(),
                bind_pairs: b.bonds.clone(),
                packed_streams: b.packed.clone(),
            },
            sizes: b.sizes.clone(),
            crc: b.crc,
            num_sub_unpack_streams: b.files.len() as u64,
            sub_stream_sizes: b.files.iter().map(|f| f.0).collect(),
            sub_stream_crcs: b.files.iter().map(|f| f.1).collect(),
        });
    }
    let mut stored = stored.into_iter();
    let files = found
        .members
        .iter()
        .map(|m| {
            let mut entry = ArchiveEntry::new_file(&m.name);
            entry.has_stream = m.has_stream;
            entry.is_directory = m.is_directory;
            entry.is_anti_item = m.is_anti;
            if m.has_stream {
                let (size, crc) = stored.next().unwrap();
                entry.size = size;
                entry.crc = crc as u64;
                entry.has_crc = true;
            }
            entry
        })
        .collect();
    Archive {
        files,
        pack_info,
        unpack_info,
    }
}

/// Appends `additions` to `bytes` in place, as a caller with a file would.
fn append(bytes: &mut Vec<u8>, additions: Vec<(&str, Vec<u8>)>) {
    let archive = archive_of(bytes);
    let start = ArchiveWriter::packed_end(&archive).unwrap() as usize;
    let gap = bytes[start..].to_vec();
    let mut writer = ArchiveWriter::append_to(archive, gap).unwrap();
    for (name, content) in additions {
        writer
            .push_archive_entry(ArchiveEntry::new_file(name), Some(source(&content)))
            .unwrap();
        let more = writer.take_output();
        bytes.extend(more);
    }
    let f = writer.finish().unwrap();
    bytes.extend(f.tail);
    assert_eq!(bytes.len() as u64, f.end);
    bytes[..32].copy_from_slice(&f.signature);
}

#[test]
fn an_appended_archive_holds_what_it_held_and_what_was_added() {
    let mut bytes = three_members();
    let was = contents(&bytes, "");

    append(&mut bytes, vec![("added.txt", b"appended\n".to_vec())]);

    let now = contents(&bytes, "");
    for (name, data) in &was {
        assert_eq!(
            now.iter().find(|(n, _)| n == name).map(|(_, d)| d),
            Some(data),
            "{name} reads differently after the append"
        );
    }
    assert_eq!(
        now.iter()
            .find(|(n, _)| n == "added.txt")
            .map(|(_, d)| d.as_slice()),
        Some(b"appended\n".as_slice())
    );
    assert_eq!(now.len(), was.len() + 1);
}

#[test]
fn the_packed_bytes_that_were_there_do_not_move() {
    let mut bytes = three_members();
    let archive = archive_of(&bytes);
    // Everything between the signature header and where the old header began is
    // packed data, and an append must leave every byte of it exactly where it is.
    const SIGNATURE: usize = 32;
    let start = ArchiveWriter::packed_end(&archive).unwrap() as usize;
    let packed_before = bytes[SIGNATURE..start].to_vec();

    append(&mut bytes, vec![("added.txt", b"appended\n".to_vec())]);

    assert_eq!(
        &bytes[SIGNATURE..start],
        &packed_before[..],
        "the packed bytes already in the archive moved or changed"
    );
    assert!(bytes.len() > start, "the append wrote nothing");
}

#[test]
fn appending_again_and_again_keeps_every_member_readable() {
    let mut bytes = three_members();
    let was = contents(&bytes, "");

    for round in 0..5 {
        let name = format!("run/{round}.txt");
        append(
            &mut bytes,
            vec![(name.as_str(), format!("round {round}\n").into_bytes())],
        );
    }

    let now = contents(&bytes, "");
    assert_eq!(now.len(), was.len() + 5);
    for (name, data) in &was {
        assert_eq!(
            now.iter().find(|(n, _)| n == name).map(|(_, d)| d),
            Some(data),
            "{name} changed after five appends"
        );
    }
    for round in 0..5 {
        let name = format!("run/{round}.txt");
        assert_eq!(
            now.iter().find(|(n, _)| *n == name).map(|(_, d)| d.clone()),
            Some(format!("round {round}\n").into_bytes()),
            "{name}"
        );
    }
}

#[test]
fn an_interrupted_append_leaves_the_archive_as_it_was() {
    // New data goes after everything already in the file, so the old header is
    // still there and the signature header still points at it. A file cut
    // anywhere in the new tail therefore reads exactly as it did before, with no
    // recovery step at all.
    const SIGNATURE: usize = 32;
    let original = three_members();
    let was = contents(&original, "");
    let mut bytes = original.clone();

    append(&mut bytes, vec![("late.txt", b"written last\n".to_vec())]);

    let tail = bytes.len() - original.len();
    assert!(tail > 0, "the append wrote nothing to cut");
    for cut in 0..tail {
        // What an interruption actually leaves: some of the new tail written, and
        // the signature header still the one that was there, because patching it
        // is the last thing an append does.
        let mut partial = bytes[..original.len() + cut].to_vec();
        partial[..SIGNATURE].copy_from_slice(&original[..SIGNATURE]);
        assert_eq!(
            contents(&partial, ""),
            was,
            "a file cut {cut} bytes into the append did not read as it did before"
        );
    }
}

#[test]
fn an_archive_whose_files_have_no_crc_is_refused() {
    // The header records a CRC for every file with a stream, so one that has
    // none cannot have a header written for it. Refusing is the honest answer;
    // writing a header that claims a CRC of zero would produce an archive that
    // every checking reader rejects.
    let bytes = three_members();
    let mut archive = archive_of(&bytes);
    for file in &mut archive.files {
        if file.has_stream {
            file.has_crc = false;
        }
    }
    let err = ArchiveWriter::append_to(archive, Vec::new()).err().unwrap();
    assert_eq!(err.message(), "append_to: a file has no checksum");
}

#[test]
fn an_archive_that_is_not_described_in_full_is_refused() {
    let bytes = three_members();
    let complete = archive_of(&bytes);
    assert!(complete.is_complete());
    // A packed stream that no block takes.
    let mut archive = archive_of(&bytes);
    archive.pack_info.add_stream(5, 0);
    // A block that does not say what its coder unpacks to.
    let mut other = archive_of(&bytes);
    other.unpack_info.blocks[0].sizes.clear();
    // A packed stream that goes to no input.
    let mut third = archive_of(&bytes);
    if let Folder::Graph { packed_streams, .. } = &mut third.unpack_info.blocks[1].folder {
        packed_streams[0] = 1;
    }
    // Packed streams that end beyond what 64 bits can tell.
    let mut last = archive_of(&bytes);
    last.pack_info.pos = u64::MAX - 40;
    assert!(ArchiveWriter::packed_end(&last).is_none());
    for archive in [archive, other, third, last] {
        let err = ArchiveWriter::append_to(archive, Vec::new()).err().unwrap();
        assert_eq!(
            err.message(),
            "append_to: the archive is not described in full"
        );
    }
}

#[test]
fn appending_puts_what_lies_behind_the_packed_streams_into_a_block_of_no_files() {
    let mut bytes = three_members();
    let archive = archive_of(&bytes);
    let start = ArchiveWriter::packed_end(&archive).unwrap() as usize;
    let gap = bytes[start..].to_vec();
    append(&mut bytes, vec![("added.txt", b"appended\n".to_vec())]);
    let found = read_archive(&bytes, "");
    assert_eq!(found.streams.blocks.len(), 5);
    let block = &found.streams.blocks[3];
    assert_eq!(block.coders.len(), 1);
    assert_eq!(block.coders[0].id, [0x00]);
    assert_eq!(block.sizes, [gap.len() as u64]);
    assert_eq!(block.crc, crc32fast::hash(&gap));
    assert!(block.files.is_empty());
    // With nothing behind the packed streams there is no such block.
    let w = ArchiveWriter::append_to(archive_of(&bytes), Vec::new()).unwrap();
    assert_eq!(w.finish().is_ok(), true);
}

// ---- What the writer does ----

#[test]
fn an_empty_archive_has_a_header_of_its_own() {
    let bytes = finish(ArchiveWriter::new());
    let header = find_header(&bytes);
    // The header, the main streams with nothing in them, no members, the empty list of names.
    assert_eq!(
        header,
        [
            0x01, 0x04, 0x08, 0x0D, 0x09, 0x0A, 0x01, 0x00, 0x00, 0x05, 0x00, 0x11, 0x01, 0x00,
            0x00, 0x00
        ]
    );
    assert_eq!(bytes.len(), 32 + 16);
    let found = read_archive(&bytes, "");
    assert!(found.members.is_empty());
    assert!(!found.header_is_encoded);
}

#[test]
fn a_stored_file_makes_exactly_these_bytes() {
    let mut w = ArchiveWriter::new();
    w.set_content_methods(vec![copy()]);
    w.push_archive_entry(ArchiveEntry::new_file("a"), Some(source(b"abc")))
        .unwrap();
    let crc = crc32fast::hash(b"abc").to_le_bytes();
    assert_eq!(u32::from_le_bytes(crc), 0x3524_41C2);
    let mut expected = vec![0x01, 0x04];
    // One packed stream of three bytes at the start.
    expected.extend([0x06, 0x00, 0x01, 0x09, 0x03, 0x0A, 0x01]);
    expected.extend(crc);
    expected.push(0x00);
    // One block: one coder without settings, unpacking to three bytes.
    expected.extend([0x07, 0x0B, 0x01, 0x00, 0x01, 0x01, 0x00, 0x0C, 0x03, 0x0A, 0x01]);
    expected.extend(crc);
    expected.push(0x00);
    // One file in it.
    expected.extend([0x08, 0x0D, 0x01, 0x09, 0x0A, 0x01, 0x00, 0x00]);
    // The member.
    expected.extend([0x05, 0x01, 0x11, 0x05, 0x00, 0x61, 0x00, 0x00, 0x00, 0x00, 0x00]);
    let bytes = finish(w);
    assert_eq!(&bytes[32..35], b"abc");
    assert_eq!(find_header(&bytes), expected);
}

#[test]
fn members_keep_their_times_attributes_and_flags() {
    let mut w = ArchiveWriter::new();
    let mut first = ArchiveEntry::new_file("\u{1F5C4} über.txt");
    first.has_creation_date = true;
    first.creation_date = 0x0102_0304_0506_0708;
    first.has_last_modified_date = true;
    first.last_modified_date = 7;
    first.has_windows_attributes = true;
    first.windows_attributes = 0x8000_0020;
    let mut second = ArchiveEntry::new_directory("dir");
    second.has_last_modified_date = true;
    second.last_modified_date = 8;
    let third = ArchiveEntry::new_file("empty");
    let mut fourth = ArchiveEntry::new_file("gone");
    fourth.is_anti_item = true;
    fourth.has_last_modified_date = true;
    fourth.last_modified_date = 9;
    fourth.has_access_date = true;
    fourth.access_date = u64::MAX;
    w.push_archive_entry(first, Some(source(b"data"))).unwrap();
    w.push_archive_entry(second, Some(source(b"a directory has no data")))
        .unwrap();
    w.push_archive_entry(third, None).unwrap();
    w.push_archive_entry(fourth, None).unwrap();
    let found = read_archive(&finish(w), "");
    let m = &found.members;
    assert_eq!(
        m[0],
        Member {
            name: "\u{1F5C4} über.txt".to_string(),
            has_stream: true,
            created: Some(0x0102_0304_0506_0708),
            modified: Some(7),
            attributes: Some(0x8000_0020),
            ..Member::default()
        }
    );
    assert_eq!(
        m[1],
        Member {
            name: "dir".to_string(),
            is_directory: true,
            modified: Some(8),
            ..Member::default()
        }
    );
    assert_eq!(
        m[2],
        Member {
            name: "empty".to_string(),
            ..Member::default()
        }
    );
    assert_eq!(
        m[3],
        Member {
            name: "gone".to_string(),
            is_anti: true,
            modified: Some(9),
            accessed: Some(u64::MAX),
            ..Member::default()
        }
    );
    assert_eq!(found.data[0].as_deref(), Some(b"data".as_slice()));
}

#[test]
fn a_member_without_data_carries_nothing() {
    let mut w = ArchiveWriter::new();
    let mut entry = ArchiveEntry::new_directory("d");
    entry.size = 5;
    entry.has_crc = true;
    let added = w.push_archive_entry(entry, Some(source(b"x"))).unwrap();
    assert!(!added.has_stream && !added.has_crc && added.is_directory);
    assert_eq!((added.size, added.compressed_size), (0, 0));
    assert!(w.take_output().is_empty());
}

#[test]
fn a_chain_of_coders_is_written_in_its_order() {
    let data = b"some data, some data, some data, some data".repeat(50);
    let mut w = ArchiveWriter::new();
    w.set_content_methods(vec![aes("pass"), copy(), lzma2()]);
    w.push_archive_entry(ArchiveEntry::new_file("x"), Some(source(&data)))
        .unwrap();
    let bytes = finish(w);
    let found = read_archive(&bytes, "pass");
    assert_eq!(found.data[0].as_deref(), Some(data.as_slice()));
    let block = &found.streams.blocks[0];
    let ids: Vec<&[u8]> = block.coders.iter().map(|c| c.id.as_slice()).collect();
    assert_eq!(
        ids,
        [&[0x06, 0xF1, 0x07, 0x01][..], &[0x00][..], &[0x21][..]]
    );
    assert_eq!(block.bonds, [(1, 0), (2, 1)]);
    assert_eq!(block.packed, [0]);
    // AES and the copy unpack to the same bytes, the compressor to the data.
    assert_eq!(block.sizes[0], block.sizes[1]);
    assert_eq!(block.sizes[2], data.len() as u64);
    assert_eq!(
        found.streams.pack_sizes[0],
        block.sizes[0].div_ceil(16) * 16
    );
    // The header is encrypted with the data.
    assert!(found.header_is_encoded);
    let mut c = Cursor {
        bytes: &find_header(&bytes)[1..],
    };
    let header = read_streams(&mut c);
    let ids: Vec<&[u8]> = header.blocks[0]
        .coders
        .iter()
        .map(|c| c.id.as_slice())
        .collect();
    assert_eq!(ids, [&[0x06, 0xF1, 0x07, 0x01][..], &[0x03, 0x01, 0x01][..]]);
}

#[test]
fn the_header_of_encrypted_data_can_stay_readable() {
    let mut w = ArchiveWriter::new();
    w.set_content_methods(vec![aes("pass"), lzma2()]);
    w.set_encrypt_header(false);
    w.push_archive_entry(ArchiveEntry::new_file("x"), Some(source(b"hidden")))
        .unwrap();
    let bytes = finish(w);
    assert_eq!(find_header(&bytes)[0], 0x01);
    assert_eq!(
        read_archive(&bytes, "pass").data[0].as_deref(),
        Some(b"hidden".as_slice())
    );
}

#[test]
fn an_empty_list_of_coders_changes_nothing() {
    let mut w = ArchiveWriter::new();
    w.set_content_methods(vec![copy()]).set_content_methods(Vec::new());
    w.push_archive_entry(ArchiveEntry::new_file("a"), Some(source(b"abc")))
        .unwrap();
    assert_eq!(w.take_output(), b"abc");
    assert!(w.take_output().is_empty());
}

#[test]
fn what_is_handed_on_early_comes_to_the_same_archive() {
    let make = |early: bool| {
        let mut w = ArchiveWriter::new();
        w.set_content_methods(vec![copy()]);
        let mut sent = Vec::new();
        for (name, content) in samples() {
            w.push_archive_entry(ArchiveEntry::new_file(name), Some(source(&content)))
                .unwrap();
            if early {
                sent.extend(w.take_output());
            }
        }
        let f = w.finish().unwrap();
        let mut bytes = f.signature;
        bytes.extend(sent);
        bytes.extend(f.tail);
        assert_eq!(bytes.len() as u64, f.end);
        bytes
    };
    assert_eq!(make(true), make(false));
}

#[test]
fn a_block_of_no_members_is_dropped() {
    let block = prepare_block(methods(vec![lzma2()]), Vec::new(), Vec::new()).unwrap();
    assert!(block.is_empty());
    assert_eq!(block.len(), 0);
    let mut w = ArchiveWriter::new();
    w.push_prepared_block(block).map(|_| ()).unwrap();
    assert!(w.take_output().is_empty());
    assert_eq!(finish(w), finish(ArchiveWriter::new()));
}

#[test]
fn a_solid_push_of_no_members_writes_its_packed_stream() {
    let mut w = ArchiveWriter::new();
    w.push_archive_entries(Vec::new(), Vec::new())
        .map(|_| ())
        .unwrap();
    let found = read_archive(&finish(w), "");
    assert_eq!(found.streams.blocks.len(), 1);
    assert!(found.streams.blocks[0].files.is_empty());
    assert_eq!(found.streams.pack_sizes, [1]);
}

#[test]
fn a_pushed_block_comes_to_what_a_solid_push_does() {
    let make = || {
        (
            vec![ArchiveEntry::new_file("a"), ArchiveEntry::new_file("b")],
            vec![source(b"first"), source(b"second one")],
        )
    };
    let mut pushed = ArchiveWriter::new();
    let (entries, readers) = make();
    let block = prepare_block(methods(vec![lzma2()]), entries, readers).unwrap();
    pushed.push_prepared_block(block).map(|_| ()).unwrap();
    let mut solid = ArchiveWriter::new();
    let (entries, readers) = make();
    solid
        .push_archive_entries(entries, readers)
        .map(|_| ())
        .unwrap();
    assert_eq!(finish(pushed), finish(solid));
}

#[test]
fn a_prepared_block_counts_its_packed_bytes() {
    let block = prepare_block(
        methods(vec![copy()]),
        vec![ArchiveEntry::new_file("a"), ArchiveEntry::new_file("b")],
        vec![source(b"first"), source(b"second")],
    )
    .unwrap();
    assert_eq!(block.compressed_len(), 11);
    assert_eq!(block.len(), 2);
    let (packed, entries, _, sizes, crc, file_sizes, file_crcs) = block.into_parts();
    let whole = crc32fast::hash(b"firstsecond");
    assert_eq!(packed, [(b"firstsecond".to_vec(), whole)]);
    assert_eq!((sizes.as_slice(), crc), (&[11][..], whole));
    assert_eq!(file_sizes, [5, 6]);
    assert_eq!(
        file_crcs,
        [crc32fast::hash(b"first"), crc32fast::hash(b"second")]
    );
    assert_eq!(entries[1].size, 6);
    assert!(entries[1].has_crc);
}

#[test]
fn a_failing_source_is_told_with_the_members() {
    let failed = || SourceReader::failed(b"some".to_vec(), broken());
    let mut w = ArchiveWriter::new();
    let err = w
        .push_archive_entry(ArchiveEntry::new_file("a"), Some(failed()))
        .err()
        .unwrap();
    assert_eq!(err.message(), "Encode entry:a");
    assert!(matches!(err, Error::Io { ref error, .. } if error.to_string() == "broken"));
    let entries = || vec![ArchiveEntry::new_file("a"), ArchiveEntry::new_file("b")];
    let err = w
        .push_archive_entries(entries(), vec![source(b"x"), failed()])
        .err()
        .unwrap();
    assert_eq!(err.message(), "Encode entries:a;b;");
    let err = prepare_block(methods(vec![lzma2()]), entries(), vec![failed(), failed()])
        .err()
        .unwrap();
    assert_eq!(err.message(), "prepare_block: read source:a;b;");
    for password in [None, Some("p")] {
        let sources = vec![failed(), source(b"")];
        let err = prepare_bcj2_block(&bcj2_methods(password), entries(), sources)
            .err()
            .unwrap();
        assert_eq!(err.message(), "prepare_bcj2_block: read source:a;b;");
    }
    // Nothing of it is in the archive.
    assert_eq!(finish(w), finish(ArchiveWriter::new()));
}

#[test]
fn the_names_in_a_message_are_cut_off() {
    let entries: Vec<ArchiveEntry> = (0..100)
        .map(|i| ArchiveEntry::new_file(&format!("name-{i:04}")))
        .collect();
    let readers = (0..100)
        .map(|_| SourceReader::failed(Vec::new(), broken()))
        .collect();
    let err = prepare_block(methods(vec![lzma2()]), entries, readers)
        .err()
        .unwrap();
    let names = err.message()["prepare_block: read source:".len()..].to_string();
    // Ten bytes to a name, so the fifty-second is the last.
    assert_eq!(names.len(), 520);
    assert!(names.ends_with("name-0051;"));
}

#[test]
fn bcj2_refuses_mismatched_entries_and_readers() {
    let err = prepare_bcj2_block(
        &bcj2_methods(None),
        (0..12)
            .map(|i| ArchiveEntry::new_file(&format!("{i}")))
            .collect(),
        Vec::new(),
    )
    .err()
    .unwrap();
    assert_eq!(
        err.message(),
        "prepare_bcj2_block: 12 entries against 0 readers"
    );
}

#[test]
fn aes_without_a_password_is_refused() {
    let bare = || EncoderConfiguration::new(EncoderMethod::AES256_SHA256);
    let mut w = ArchiveWriter::new();
    w.set_content_methods(vec![bare(), lzma2()]);
    let err = w
        .push_archive_entry(ArchiveEntry::new_file("a"), Some(source(b"x")))
        .err()
        .unwrap();
    assert!(matches!(err, Error::Unsupported(_)));
    assert_eq!(err.message(), "AES256_SHA256 needs a password");
    assert!(w
        .push_archive_entries(vec![ArchiveEntry::new_file("a")], vec![source(b"x")])
        .is_err());
    assert!(prepare_block(
        methods(vec![bare()]),
        vec![ArchiveEntry::new_file("a")],
        vec![source(b"x")]
    )
    .is_err());
    let bcj2 = Bcj2Methods {
        main: bare(),
        ..bcj2_methods(None)
    };
    let err = prepare_bcj2_block(&bcj2, Vec::new(), Vec::new())
        .err()
        .unwrap();
    assert_eq!(err.message(), "AES256_SHA256 needs a password");
    // The header would be encrypted by the same coder.
    let err = w.finish().err().unwrap();
    assert_eq!(err.message(), "AES256_SHA256 needs a password");
}

#[test]
fn a_writer_finishes_once_when_it_is_done_with() {
    let mut w = ArchiveWriter::new();
    w.set_content_methods(vec![copy()]);
    w.push_archive_entry(ArchiveEntry::new_file("a"), Some(source(b"abc")))
        .unwrap();
    let mut auto = w.auto_finish();
    let bytes = assemble(auto.finish_ignore_error().unwrap());
    assert_eq!(contents(&bytes, ""), [("a".to_string(), b"abc".to_vec())]);
    assert!(auto.finish_ignore_error().is_none());
    assert!(auto.writer.is_none());
}

#[test]
fn the_settings_of_lzma_are_brought_into_range() {
    let mut o = LzmaOptions::from_level(99);
    assert_eq!(o.parts(), (9, 3, 0, 2, 1 << 26));
    o.set_literal_bits(9, 9, 9);
    o.set_dictionary_size(1);
    assert_eq!(o.parts(), (9, 8, 4, 4, 4096));
    assert_eq!(o.for_lzma2().parts(), (9, 4, 0, 4, 1 << 16));
    o.set_literal_bits(2, 4, 0);
    assert_eq!(o.for_lzma2().parts(), (9, 2, 2, 0, 1 << 16));
    o.set_literal_bits(1, 3, 0);
    o.set_dictionary_size((1 << 16) + 1);
    assert_eq!(o.for_lzma2().parts(), (9, 1, 3, 0, (1 << 16) + 1));
    o.set_dictionary_size(u32::MAX);
    assert_eq!(o.parts().4, 768 << 20);
    assert_eq!(LzmaOptions::default().parts(), (6, 3, 0, 2, 8 << 20));
    assert_eq!(LzmaOptions::from_level(0).parts(), (0, 3, 0, 2, 1 << 18));
}

#[test]
fn every_level_of_lzma_reads_back() {
    let data: Vec<u8> = (0..20_000u32).map(|i| (i * i >> 7) as u8).collect();
    for level in 0..=7 {
        let options = LzmaOptions::from_level(level);
        let mut w = ArchiveWriter::new();
        w.set_content_methods(vec![options.into()]);
        w.push_archive_entry(ArchiveEntry::new_file("x"), Some(source(&data)))
            .unwrap();
        let found = read_archive(&finish(w), "");
        assert_eq!(found.data[0].as_deref(), Some(data.as_slice()));
        let coder = &found.streams.blocks[0].coders[0];
        assert_eq!(coder.id, [0x03, 0x01, 0x01]);
        assert_eq!(coder.properties[0], 93);
        assert!(found.streams.pack_sizes[0] < data.len() as u64);
    }
}

fn noise(len: usize) -> Vec<u8> {
    let mut state: u64 = 0x9E37_79B9_7F4A_7C15;
    (0..len)
        .map(|_| {
            state ^= state << 13;
            state ^= state >> 7;
            state ^= state << 17;
            (state >> 32) as u8
        })
        .collect()
}

fn reads_back_through_lzma2(options: LzmaOptions, data: &[u8]) -> usize {
    let mut w = ArchiveWriter::new();
    w.set_content_methods(vec![lzma2().with_options(EncoderOptions::Lzma2(options))]);
    w.push_archive_entry(ArchiveEntry::new_file("x"), Some(source(data)))
        .unwrap();
    let archive = finish(w);
    assert!(contents(&archive, "") == [("x".to_string(), data.to_vec())]);
    archive.len()
}

#[test]
fn what_lzma2_cannot_compress_reads_back_with_the_least_dictionary() {
    let data = noise(1_000_000);
    for level in [0, 1, 3, 4, 6, 9] {
        let mut options = LzmaOptions::from_level(level);
        options.set_dictionary_size(4096);
        let len = reads_back_through_lzma2(options, &data);
        assert!(len > data.len());
        assert!(len < data.len() + 1000);
    }
}

#[test]
fn lzma2_changes_over_between_what_it_can_and_cannot_compress() {
    let mut data = vec![7; 300_000];
    data.extend(noise(300_000));
    data.extend(vec![9; 100_000]);
    data.extend(noise(70_000));
    for level in [0, 5] {
        let mut options = LzmaOptions::from_level(level);
        options.set_dictionary_size(4096);
        assert!(reads_back_through_lzma2(options, &data) < 380_000);
    }
}

#[test]
fn lzma2_reads_back_with_as_many_literal_bits_as_are_asked_for() {
    let data: Vec<u8> = (0..100_000u32).map(|i| (i * i >> 9) as u8).collect();
    for (lc, lp) in [(8, 4), (0, 4), (4, 4), (3, 2), (0, 0)] {
        let mut options = LzmaOptions::from_level(4);
        options.set_literal_bits(lc, lp, 4);
        assert!(reads_back_through_lzma2(options, &data) < data.len());
    }
}

#[test]
fn what_could_not_be_written_is_taken_back() {
    let mut w = ArchiveWriter::new();
    w.set_content_methods(vec![copy()]);
    w.push_archive_entry(ArchiveEntry::new_file("a"), Some(source(b"first")))
        .unwrap();
    let mut sent = w.take_output();
    let mark = w.mark();
    assert_eq!(mark.position(), 37);
    w.push_archive_entry(ArchiveEntry::new_directory("d"), None)
        .unwrap();
    let entries = vec![ArchiveEntry::new_file("b"), ArchiveEntry::new_file("c")];
    let readers = vec![source(b"lost"), source(b"gone")];
    let block = prepare_bcj2_block(&bcj2_methods(None), entries, readers).unwrap();
    w.push_prepared_block(block).unwrap();
    assert!(!w.take_output().is_empty());
    w.take_back(&mark);
    assert!(w.take_output().is_empty());
    w.push_archive_entry(ArchiveEntry::new_file("e"), Some(source(b"second")))
        .unwrap();
    sent.extend(w.take_output());
    let f = w.finish().unwrap();
    let archive = [f.signature, sent, f.tail].concat();
    assert_eq!(archive.len() as u64, f.end);
    assert_eq!(
        contents(&archive, ""),
        [
            ("a".to_string(), b"first".to_vec()),
            ("e".to_string(), b"second".to_vec())
        ]
    );
}

#[test]
fn coders_that_have_no_password_take_no_data() {
    let mut w = ArchiveWriter::new();
    assert!(w.takes_data());
    w.set_content_methods(vec![
        EncoderConfiguration::new(EncoderMethod::AES256_SHA256),
        lzma2(),
    ]);
    assert!(!w.takes_data());
    w.set_content_methods(vec![aes("p"), lzma2()]);
    assert!(w.takes_data());
}

#[test]
fn an_archive_grows_by_what_a_block_is_long() {
    for password in [None, Some("p")] {
        let entries = vec![ArchiveEntry::new_file("x")];
        let block =
            prepare_bcj2_block(&bcj2_methods(password), entries, vec![source(&x86_like_code())])
                .unwrap();
        let len = block.compressed_len();
        let mut w = ArchiveWriter::new();
        w.push_prepared_block(block).unwrap();
        assert_eq!(w.take_output().len(), len);
        assert_eq!(w.mark().position(), 32 + len as u64);
    }
}

#[test]
fn everything_pushed_is_taken_out_in_its_order() {
    for password in ["", "secret"] {
        let mut w = ArchiveWriter::new();
        let mut coders = vec![lzma2()];
        if !password.is_empty() {
            coders.insert(0, aes(password));
        }
        w.set_content_methods(coders);
        w.push_archive_entry(ArchiveEntry::new_directory("dir"), None)
            .unwrap();
        w.push_archive_entry(ArchiveEntry::new_file("one"), Some(source(b"single")))
            .unwrap();
        w.push_archive_entries(
            vec![
                ArchiveEntry::new_file("two"),
                ArchiveEntry::new_file("three"),
            ],
            vec![source(b""), source(b"solid")],
        )
        .unwrap();
        let given = if password.is_empty() {
            None
        } else {
            Some(password)
        };
        let entries = vec![
            ArchiveEntry::new_file("four"),
            ArchiveEntry::new_file("five"),
        ];
        let readers = vec![source(&x86_like_code()), source(b"behind")];
        let block = prepare_bcj2_block(&bcj2_methods(given), entries, readers).unwrap();
        w.push_prepared_block(block).unwrap();
        w.push_archive_entry(ArchiveEntry::new_file("empty"), None)
            .unwrap();
        w.set_content_methods(vec![copy()]);
        w.push_archive_entry(ArchiveEntry::new_file("six"), Some(source(b"kept")))
            .unwrap();
        let found = read_archive(&finish(w), password);
        let names: Vec<&str> = found.members.iter().map(|m| m.name.as_str()).collect();
        assert_eq!(
            names,
            ["dir", "one", "two", "three", "four", "five", "empty", "six"]
        );
        let code = x86_like_code();
        let data: Vec<Option<&[u8]>> = found.data.iter().map(|d| d.as_deref()).collect();
        let expected: [Option<&[u8]>; 8] = [
            None,
            Some(b"single"),
            Some(b""),
            Some(b"solid"),
            Some(&code),
            Some(b"behind"),
            None,
            Some(b"kept"),
        ];
        assert!(data == expected);
    }
}
