//! The packed streams of an archive: where they start, how long each is, and their checksums.

use crate::archive::{K_CRC, K_END, K_PACK_INFO, K_SIZE};
use crate::wire;
use vstd::prelude::*;

verus! {

/// Where the packed streams lie, and what they are.
pub ghost struct PackModel {
    /// How far behind the signature header the first one starts.
    pub pos: u64,
    /// How long each is.
    pub sizes: Seq<u64>,
    /// The checksum of each.
    pub crcs: Seq<u32>,
}

/// The packed streams, as the header spells them.
pub open spec fn pack_bytes(p: PackModel) -> Seq<u8> {
    seq![K_PACK_INFO] + wire::number(p.pos) + wire::number(p.sizes.len() as u64) + seq![K_SIZE]
        + wire::numbers(p.sizes) + seq![K_CRC, 1u8] + wire::words(p.crcs) + seq![K_END]
}

/// Reads the packed streams: what they are, and the bytes behind their description.
pub open spec fn read_pack(bytes: Seq<u8>) -> Option<(PackModel, Seq<u8>)> {
    match wire::expect(bytes, K_PACK_INFO) {
        None => None,
        Some(b) => match wire::read_number(b) {
            None => None,
            Some((pos, b)) => match wire::read_number(b) {
                None => None,
                Some((n, b)) => match wire::expect(b, K_SIZE) {
                    None => None,
                    Some(b) => match wire::read_numbers(b, n as nat) {
                        None => None,
                        Some((sizes, b)) => match wire::expect_two(b, K_CRC, 1) {
                            None => None,
                            Some(b) => match wire::read_words(b, n as nat) {
                                None => None,
                                Some((crcs, b)) => match wire::expect(b, K_END) {
                                    None => None,
                                    Some(b) => Some((PackModel { pos, sizes, crcs }, b)),
                                },
                            },
                        },
                    },
                },
            },
        },
    }
}

/// Whether there is a checksum for each packed stream.
pub open spec fn pack_ok(p: PackModel) -> bool {
    p.sizes.len() == p.crcs.len() && p.sizes.len() <= u64::MAX
}

/// The packed streams read back, whatever follows their description.
pub proof fn law_pack_reads_back(p: PackModel, rest: Seq<u8>)
    requires
        pack_ok(p),
    ensures
        read_pack(pack_bytes(p) + rest) == Some((p, rest)),
{
    let n = p.sizes.len() as u64;
    let b7 = seq![K_END] + rest;
    let b6 = wire::words(p.crcs) + b7;
    let b5 = seq![K_CRC, 1u8] + b6;
    let b4 = wire::numbers(p.sizes) + b5;
    let b3 = seq![K_SIZE] + b4;
    let b2 = wire::number(n) + b3;
    let b1 = wire::number(p.pos) + b2;
    assert(pack_bytes(p) + rest =~= seq![K_PACK_INFO] + b1);
    wire::lemma_expect(K_PACK_INFO, b1);
    wire::law_number_reads_back(p.pos, b2);
    wire::law_number_reads_back(n, b3);
    wire::lemma_expect(K_SIZE, b4);
    wire::law_numbers_read_back(p.sizes, b5);
    wire::lemma_expect_two(K_CRC, 1, b6);
    wire::law_words_read_back(p.crcs, b7);
    wire::lemma_expect(K_END, rest);
}

/// The packed streams of an archive.
#[derive(Debug)]
pub struct PackInfo {
    /// How far behind the signature header the first one starts.
    pub pos: u64,
    /// How long each is.
    pub sizes: Vec<u64>,
    /// The checksum of each.
    pub crcs: Vec<u32>,
}

impl View for PackInfo {
    type V = PackModel;

    open spec fn view(&self) -> PackModel {
        PackModel { pos: self.pos, sizes: self.sizes@, crcs: self.crcs@ }
    }
}

impl Default for PackInfo {
    fn default() -> (r: Self)
        ensures
            r@ == (PackModel { pos: 0, sizes: Seq::empty(), crcs: Seq::empty() }),
    {
        PackInfo { pos: 0, sizes: Vec::new(), crcs: Vec::new() }
    }
}

impl PackInfo {
    /// Adds a packed stream.
    pub fn add_stream(&mut self, size: u64, crc: u32)
        ensures
            final(self)@ == (PackModel {
                sizes: old(self)@.sizes.push(size),
                crcs: old(self)@.crcs.push(crc),
                ..old(self)@
            }),
    {
        self.sizes.push(size);
        self.crcs.push(crc);
    }

    /// How many packed streams there are.
    pub fn len(&self) -> (r: usize)
        ensures
            r == self@.sizes.len(),
    {
        self.sizes.len()
    }

    /// Appends the description of the packed streams.
    pub fn write_to(&self, header: &mut Vec<u8>)
        ensures
            final(header)@ == old(header)@ + pack_bytes(self@),
    {
        let ghost before = header@;
        header.push(K_PACK_INFO);
        wire::write_u64(header, self.pos);
        wire::write_u64(header, self.sizes.len() as u64);
        header.push(K_SIZE);
        wire::push_numbers(header, &self.sizes, self.sizes.len());
        assert(self.sizes@.take(self.sizes@.len() as int) =~= self.sizes@);
        header.push(K_CRC);
        header.push(1);
        wire::push_words(header, &self.crcs);
        header.push(K_END);
        assert(header@ =~= before + pack_bytes(self@));
    }
}

} // verus!
