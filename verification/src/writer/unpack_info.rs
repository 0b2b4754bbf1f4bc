//! The blocks of an archive: which coders turn packed streams into data, how much of it, its
//! checksum, and the files that it is cut into.

use crate::archive::{
    K_CODERS_UNPACK_SIZE, K_CRC, K_END, K_FOLDER, K_NUM_UNPACK_STREAM, K_SIZE, K_SUB_STREAMS_INFO,
    K_UNPACK_INFO,
};
use crate::encoder_options;
use crate::encoder_options::EncoderConfiguration;
use crate::wire;
use std::sync::Arc;
use vstd::prelude::*;

verus! {

/// A coder, as the header describes it. It has one output.
pub ghost struct CoderModel {
    /// What stands for its method.
    pub id: Seq<u8>,
    /// Its settings.
    pub properties: Seq<u8>,
    /// How many inputs it has.
    pub num_in: u64,
}

/// The coders of a block and how they are wired. Inputs and outputs are numbered in the order of
/// the coders.
pub ghost struct FolderModel {
    /// The coders.
    pub coders: Seq<CoderModel>,
    /// Which input takes which output.
    pub bonds: Seq<(u64, u64)>,
    /// Which inputs take the packed streams, in the order of those.
    pub packed: Seq<u64>,
}

/// A coder, as the header spells it: how long what stands for its method is, whether it has other
/// than one input, and whether it has settings, all in one byte; then these.
#[verifier::opaque]
pub open spec fn coder_bytes(c: CoderModel) -> Seq<u8> {
    let flags = c.id.len() + (if c.num_in != 1 {
        0x10nat
    } else {
        0
    }) + (if c.properties.len() > 0 {
        0x20nat
    } else {
        0
    });
    seq![flags as u8] + c.id + (if c.num_in != 1 {
        wire::number(c.num_in) + wire::number(1)
    } else {
        Seq::empty()
    }) + (if c.properties.len() > 0 {
        wire::number(c.properties.len() as u64) + c.properties
    } else {
        Seq::empty()
    })
}

/// Coders, one after another.
pub open spec fn coders_bytes(coders: Seq<CoderModel>) -> Seq<u8>
    decreases coders.len(),
{
    if coders.len() == 0 {
        Seq::empty()
    } else {
        coder_bytes(coders[0]) + coders_bytes(coders.skip(1))
    }
}

/// Pairs of numbers, one after another.
pub open spec fn pairs_bytes(pairs: Seq<(u64, u64)>) -> Seq<u8>
    decreases pairs.len(),
{
    if pairs.len() == 0 {
        Seq::empty()
    } else {
        wire::number(pairs[0].0) + wire::number(pairs[0].1) + pairs_bytes(pairs.skip(1))
    }
}

/// The coders of a block and their wiring, as the header spells them. A single packed stream goes
/// where no output does, so it is not spelt.
#[verifier::opaque]
pub open spec fn folder_bytes(f: FolderModel) -> Seq<u8> {
    let packed = if f.packed.len() > 1 {
        wire::numbers(f.packed)
    } else {
        Seq::empty()
    };
    wire::number(f.coders.len() as u64) + coders_bytes(f.coders) + pairs_bytes(f.bonds) + packed
}

/// A coder of a chain: one input, one output.
pub open spec fn chain_coder(c: EncoderConfiguration) -> CoderModel {
    CoderModel {
        id: c.method.id_bytes(),
        properties: encoder_options::properties_of(c),
        num_in: 1,
    }
}

/// A chain of coders: the packed stream goes into the first, and the output of each into the next.
pub open spec fn chain_folder(methods: Seq<EncoderConfiguration>) -> FolderModel {
    FolderModel {
        coders: methods.map_values(|c: EncoderConfiguration| chain_coder(c)),
        bonds: Seq::new(
            (if methods.len() == 0 {
                0
            } else {
                methods.len() - 1
            }) as nat,
            |i: int| ((i + 1) as u64, i as u64),
        ),
        packed: seq![0u64],
    }
}

/// A block: its coders, what each of them unpacks to, its checksum and its files.
pub ghost struct BlockModel {
    /// The coders.
    pub folder: FolderModel,
    /// How many bytes each coder unpacks to.
    pub sizes: Seq<u64>,
    /// The checksum of the data.
    pub crc: u32,
    /// How many files the data is cut into.
    pub num_files: u64,
    /// How long each file is, where there is not just one.
    pub file_sizes: Seq<u64>,
    /// The checksum of each file, where there is not just one.
    pub file_crcs: Seq<u32>,
}

/// The coders of blocks, one after another.
pub open spec fn folders_bytes(blocks: Seq<BlockModel>) -> Seq<u8>
    decreases blocks.len(),
{
    if blocks.len() == 0 {
        Seq::empty()
    } else {
        folder_bytes(blocks[0].folder) + folders_bytes(blocks.skip(1))
    }
}

/// What the coders of blocks unpack to, one after another.
pub open spec fn sizes_bytes(blocks: Seq<BlockModel>) -> Seq<u8>
    decreases blocks.len(),
{
    if blocks.len() == 0 {
        Seq::empty()
    } else {
        wire::numbers(blocks[0].sizes) + sizes_bytes(blocks.skip(1))
    }
}

/// The checksums of blocks, one after another.
pub open spec fn crcs_bytes(blocks: Seq<BlockModel>) -> Seq<u8>
    decreases blocks.len(),
{
    if blocks.len() == 0 {
        Seq::empty()
    } else {
        wire::le_digits(blocks[0].crc as nat, 4) + crcs_bytes(blocks.skip(1))
    }
}

/// The blocks, as the header spells them.
pub open spec fn unpack_bytes(blocks: Seq<BlockModel>) -> Seq<u8> {
    seq![K_UNPACK_INFO, K_FOLDER] + wire::number(blocks.len() as u64) + seq![0u8] + folders_bytes(
        blocks,
    ) + seq![K_CODERS_UNPACK_SIZE] + sizes_bytes(blocks) + seq![K_CRC, 1u8] + crcs_bytes(blocks)
        + seq![K_END]
}

/// How many files blocks are cut into, one after another.
pub open spec fn file_counts_bytes(blocks: Seq<BlockModel>) -> Seq<u8>
    decreases blocks.len(),
{
    if blocks.len() == 0 {
        Seq::empty()
    } else {
        wire::number(blocks[0].num_files) + file_counts_bytes(blocks.skip(1))
    }
}

/// All but the last of a list, which may be empty.
pub open spec fn all_but_last(s: Seq<u64>) -> Seq<u64> {
    if s.len() == 0 {
        s
    } else {
        s.drop_last()
    }
}

/// How long the files of blocks are, one after another. The last of each block takes what is left
/// of it, so it is not spelt.
pub open spec fn file_sizes_bytes(blocks: Seq<BlockModel>) -> Seq<u8>
    decreases blocks.len(),
{
    if blocks.len() == 0 {
        Seq::empty()
    } else {
        wire::numbers(all_but_last(blocks[0].file_sizes)) + file_sizes_bytes(blocks.skip(1))
    }
}

/// The checksums of the files of blocks, one after another. Where a block is one file its checksum
/// is that of the block, so it is not spelt.
pub open spec fn file_crcs_bytes(blocks: Seq<BlockModel>) -> Seq<u8>
    decreases blocks.len(),
{
    if blocks.len() == 0 {
        Seq::empty()
    } else {
        (if blocks[0].num_files == 1 {
            Seq::empty()
        } else {
            wire::words(blocks[0].file_crcs)
        }) + file_crcs_bytes(blocks.skip(1))
    }
}

/// How blocks are cut into files, as the header spells it.
pub open spec fn substreams_bytes(blocks: Seq<BlockModel>) -> Seq<u8> {
    seq![K_SUB_STREAMS_INFO, K_NUM_UNPACK_STREAM] + file_counts_bytes(blocks) + seq![K_SIZE]
        + file_sizes_bytes(blocks) + seq![K_CRC, 1u8] + file_crcs_bytes(blocks) + seq![K_END]
}

/// A coder of a folder that is no chain.
#[derive(Debug)]
pub struct GraphCoder {
    /// What stands for its method.
    pub id: Vec<u8>,
    /// Its settings.
    pub properties: Vec<u8>,
    /// How many inputs it has.
    pub num_in_streams: u64,
}

impl View for GraphCoder {
    type V = CoderModel;

    open spec fn view(&self) -> CoderModel {
        CoderModel { id: self.id@, properties: self.properties@, num_in: self.num_in_streams }
    }
}

/// The coders of a block.
#[derive(Debug)]
pub enum Folder {
    /// One behind another.
    Chain(Arc<Vec<EncoderConfiguration>>),
    /// Wired as the pairs of input and output say, with the packed streams at the inputs given.
    Graph { coders: Vec<GraphCoder>, bind_pairs: Vec<(u64, u64)>, packed_streams: Vec<u64> },
}

impl View for Folder {
    type V = FolderModel;

    open spec fn view(&self) -> FolderModel {
        match *self {
            Folder::Chain(methods) => chain_folder(methods@),
            Folder::Graph { coders, bind_pairs, packed_streams } => FolderModel {
                coders: coders@.map_values(|c: GraphCoder| c@),
                bonds: bind_pairs@,
                packed: packed_streams@,
            },
        }
    }
}

/// Whether what stands for a method has room in the header: its length takes four bits.
pub open spec fn ids_ok(coders: Seq<CoderModel>) -> bool {
    forall|i: int| 0 <= i < coders.len() ==> (#[trigger] coders[i]).id.len() <= 15
}

fn write_coder(header: &mut Vec<u8>, id: &Vec<u8>, properties: &Vec<u8>, num_in: u64)
    requires
        id@.len() <= 15,
    ensures
        final(header)@ == old(header)@ + coder_bytes(
            CoderModel { id: id@, properties: properties@, num_in },
        ),
{
    let ghost before = header@;
    let mut flags: u8 = id.len() as u8;
    if num_in != 1 {
        flags = flags + 0x10;
    }
    if properties.len() > 0 {
        flags = flags + 0x20;
    }
    header.push(flags);
    header.extend_from_slice(id.as_slice());
    if num_in != 1 {
        wire::write_u64(header, num_in);
        wire::write_u64(header, 1);
    }
    if properties.len() > 0 {
        wire::write_u64(header, properties.len() as u64);
        header.extend_from_slice(properties.as_slice());
    }
    assert(header@ =~= before + coder_bytes(
        CoderModel { id: id@, properties: properties@, num_in },
    )) by {
        reveal(coder_bytes);
    }
}

fn write_chain(header: &mut Vec<u8>, methods: &Vec<EncoderConfiguration>)
    ensures
        final(header)@ == old(header)@ + folder_bytes(chain_folder(methods@)),
{
    let ghost before = header@;
    let ghost f = chain_folder(methods@);
    wire::write_u64(header, methods.len() as u64);
    let ghost counted = header@;
    assert(f.coders.skip(0) =~= f.coders);
    let mut i: usize = 0;
    while i < methods.len()
        invariant
            i <= methods@.len(),
            f == chain_folder(methods@),
            counted + coders_bytes(f.coders) == header@ + coders_bytes(f.coders.skip(i as int)),
        decreases methods@.len() - i,
    {
        let ghost held = header@;
        let ghost tail = f.coders.skip(i + 1);
        let ghost coder = f.coders[i as int];
        assert(f.coders.skip(i as int)[0] == coder);
        assert(f.coders.skip(i as int).skip(1) =~= tail);
        let id = methods[i].method.id();
        let properties = encoder_options::get_options_as_properties(&methods[i]);
        assert(coder == chain_coder(methods@[i as int]));
        write_coder(header, &id, &properties, 1);
        assert(held + (coder_bytes(coder) + coders_bytes(tail)) =~= header@ + coders_bytes(tail));
        i = i + 1;
    }
    assert(f.coders.skip(f.coders.len() as int) =~= Seq::empty());
    assert(header@ =~= counted + coders_bytes(f.coders));
    let ghost listed = header@;
    assert(f.bonds.skip(0) =~= f.bonds);
    let mut k: usize = 0;
    while k < methods.len() && k + 1 < methods.len()
        invariant
            k <= f.bonds.len(),
            f == chain_folder(methods@),
            listed + pairs_bytes(f.bonds) == header@ + pairs_bytes(f.bonds.skip(k as int)),
        decreases methods@.len() - k,
    {
        let ghost held = header@;
        let ghost tail = f.bonds.skip(k + 1);
        assert(f.bonds.skip(k as int)[0] == f.bonds[k as int]);
        assert(f.bonds.skip(k as int).skip(1) =~= tail);
        wire::write_u64(header, (k + 1) as u64);
        wire::write_u64(header, k as u64);
        assert(held + (wire::number((k + 1) as u64) + wire::number(k as u64) + pairs_bytes(tail))
            =~= header@ + pairs_bytes(tail));
        k = k + 1;
    }
    assert(f.bonds.skip(f.bonds.len() as int) =~= Seq::empty());
    assert(header@ =~= before + folder_bytes(f)) by {
        reveal(folder_bytes);
    }
}

fn write_graph(
    header: &mut Vec<u8>,
    coders: &Vec<GraphCoder>,
    bind_pairs: &Vec<(u64, u64)>,
    packed_streams: &Vec<u64>,
)
    requires
        ids_ok(coders@.map_values(|c: GraphCoder| c@)),
    ensures
        final(header)@ == old(header)@ + folder_bytes(
            FolderModel {
                coders: coders@.map_values(|c: GraphCoder| c@),
                bonds: bind_pairs@,
                packed: packed_streams@,
            },
        ),
{
    let ghost before = header@;
    let ghost f = FolderModel {
        coders: coders@.map_values(|c: GraphCoder| c@),
        bonds: bind_pairs@,
        packed: packed_streams@,
    };
    wire::write_u64(header, coders.len() as u64);
    let ghost counted = header@;
    assert(f.coders.skip(0) =~= f.coders);
    let mut i: usize = 0;
    while i < coders.len()
        invariant
            i <= coders@.len(),
            f.coders == coders@.map_values(|c: GraphCoder| c@),
            ids_ok(f.coders),
            counted + coders_bytes(f.coders) == header@ + coders_bytes(f.coders.skip(i as int)),
        decreases coders@.len() - i,
    {
        let ghost held = header@;
        let ghost tail = f.coders.skip(i + 1);
        let ghost coder = f.coders[i as int];
        assert(f.coders.skip(i as int)[0] == coder);
        assert(f.coders.skip(i as int).skip(1) =~= tail);
        assert(coder.id.len() <= 15);
        let c = &coders[i];
        write_coder(header, &c.id, &c.properties, c.num_in_streams);
        assert(held + (coder_bytes(coder) + coders_bytes(tail)) =~= header@ + coders_bytes(tail));
        i = i + 1;
    }
    assert(f.coders.skip(f.coders.len() as int) =~= Seq::empty());
    assert(header@ =~= counted + coders_bytes(f.coders));
    let ghost listed = header@;
    assert(f.bonds.skip(0) =~= f.bonds);
    let mut k: usize = 0;
    while k < bind_pairs.len()
        invariant
            k <= f.bonds.len(),
            f.bonds == bind_pairs@,
            listed + pairs_bytes(f.bonds) == header@ + pairs_bytes(f.bonds.skip(k as int)),
        decreases bind_pairs@.len() - k,
    {
        let ghost held = header@;
        let ghost tail = f.bonds.skip(k + 1);
        assert(f.bonds.skip(k as int)[0] == f.bonds[k as int]);
        assert(f.bonds.skip(k as int).skip(1) =~= tail);
        let (input, output) = bind_pairs[k];
        wire::write_u64(header, input);
        wire::write_u64(header, output);
        assert(held + (wire::number(input) + wire::number(output) + pairs_bytes(tail)) =~= header@
            + pairs_bytes(tail));
        k = k + 1;
    }
    assert(f.bonds.skip(f.bonds.len() as int) =~= Seq::empty());
    if packed_streams.len() > 1 {
        wire::push_numbers(header, packed_streams, packed_streams.len());
        assert(packed_streams@.take(packed_streams@.len() as int) =~= packed_streams@);
    }
    assert(header@ =~= before + folder_bytes(f)) by {
        reveal(folder_bytes);
    }
}

impl Folder {
    /// Appends the coders and their wiring.
    pub fn write_to(&self, header: &mut Vec<u8>)
        requires
            ids_ok(self@.coders),
        ensures
            final(header)@ == old(header)@ + folder_bytes(self@),
    {
        match self {
            Folder::Chain(methods) => write_chain(header, methods),
            Folder::Graph { coders, bind_pairs, packed_streams } => {
                write_graph(header, coders, bind_pairs, packed_streams)
            },
        }
    }
}

/// A block of an archive.
#[derive(Debug)]
pub struct BlockInfo {
    /// The coders.
    pub folder: Folder,
    /// How many bytes each coder unpacks to.
    pub sizes: Vec<u64>,
    /// The checksum of the data.
    pub crc: u32,
    /// How many files the data is cut into.
    pub num_sub_unpack_streams: u64,
    /// How long each file is, where there is not just one.
    pub sub_stream_sizes: Vec<u64>,
    /// The checksum of each file, where there is not just one.
    pub sub_stream_crcs: Vec<u32>,
}

impl View for BlockInfo {
    type V = BlockModel;

    open spec fn view(&self) -> BlockModel {
        BlockModel {
            folder: self.folder@,
            sizes: self.sizes@,
            crc: self.crc,
            num_files: self.num_sub_unpack_streams,
            file_sizes: self.sub_stream_sizes@,
            file_crcs: self.sub_stream_crcs@,
        }
    }
}

/// The blocks of an archive.
#[derive(Debug)]
pub struct UnpackInfo {
    /// The blocks.
    pub blocks: Vec<BlockInfo>,
}

impl View for UnpackInfo {
    type V = Seq<BlockModel>;

    open spec fn view(&self) -> Seq<BlockModel> {
        self.blocks@.map_values(|b: BlockInfo| b@)
    }
}

impl Default for UnpackInfo {
    fn default() -> (r: Self)
        ensures
            r@ == Seq::<BlockModel>::empty(),
    {
        UnpackInfo { blocks: Vec::new() }
    }
}

/// Whether what stands for the methods of all coders has room in the header.
pub open spec fn block_ids_ok(blocks: Seq<BlockModel>) -> bool {
    forall|i: int| 0 <= i < blocks.len() ==> ids_ok((#[trigger] blocks[i]).folder.coders)
}

impl UnpackInfo {
    /// Adds a block of one file behind a chain of coders.
    pub fn add(&mut self, methods: Arc<Vec<EncoderConfiguration>>, sizes: Vec<u64>, crc: u32)
        ensures
            final(self)@ == old(self)@.push(
                BlockModel {
                    folder: chain_folder(methods@),
                    sizes: sizes@,
                    crc,
                    num_files: 1,
                    file_sizes: Seq::empty(),
                    file_crcs: Seq::empty(),
                },
            ),
    {
        let ghost before = self@;
        self.blocks.push(
            BlockInfo {
                folder: Folder::Chain(methods),
                sizes,
                crc,
                num_sub_unpack_streams: 1,
                sub_stream_sizes: Vec::new(),
                sub_stream_crcs: Vec::new(),
            },
        );
        assert(self@ =~= before.push(self.blocks@.last()@));
    }

    /// Adds a block cut into files.
    pub fn add_multiple(
        &mut self,
        folder: Folder,
        sizes: Vec<u64>,
        crc: u32,
        num_sub_unpack_streams: u64,
        sub_stream_sizes: Vec<u64>,
        sub_stream_crcs: Vec<u32>,
    )
        ensures
            final(self)@ == old(self)@.push(
                BlockModel {
                    folder: folder@,
                    sizes: sizes@,
                    crc,
                    num_files: num_sub_unpack_streams,
                    file_sizes: sub_stream_sizes@,
                    file_crcs: sub_stream_crcs@,
                },
            ),
    {
        let ghost before = self@;
        self.blocks.push(
            BlockInfo {
                folder,
                sizes,
                crc,
                num_sub_unpack_streams,
                sub_stream_sizes,
                sub_stream_crcs,
            },
        );
        assert(self@ =~= before.push(self.blocks@.last()@));
    }

    fn write_folders(&self, header: &mut Vec<u8>)
        requires
            block_ids_ok(self@),
        ensures
            final(header)@ == old(header)@ + folders_bytes(self@),
    {
        let ghost before = header@;
        let ghost all = self@;
        let mut i: usize = 0;
        assert(all.skip(0) =~= all);
        while i < self.blocks.len()
            invariant
                i <= self.blocks@.len(),
                all == self@,
                block_ids_ok(all),
                before + folders_bytes(all) == header@ + folders_bytes(all.skip(i as int)),
            decreases self.blocks@.len() - i,
        {
            let ghost held = header@;
            let ghost tail = all.skip(i + 1);
            let ghost f = all[i as int].folder;
            assert(all.skip(i as int)[0] == all[i as int]);
            assert(all.skip(i as int).skip(1) =~= tail);
            self.blocks[i].folder.write_to(header);
            assert(held + (folder_bytes(f) + folders_bytes(tail)) =~= header@ + folders_bytes(tail));
            i = i + 1;
        }
        assert(all.skip(all.len() as int) =~= Seq::empty());
        assert(header@ + Seq::<u8>::empty() =~= header@);
    }

    fn write_sizes(&self, header: &mut Vec<u8>)
        ensures
            final(header)@ == old(header)@ + sizes_bytes(self@),
    {
        let ghost before = header@;
        let ghost all = self@;
        let mut i: usize = 0;
        assert(all.skip(0) =~= all);
        while i < self.blocks.len()
            invariant
                i <= self.blocks@.len(),
                all == self@,
                before + sizes_bytes(all) == header@ + sizes_bytes(all.skip(i as int)),
            decreases self.blocks@.len() - i,
        {
            let ghost held = header@;
            let ghost tail = all.skip(i + 1);
            let ghost sizes = all[i as int].sizes;
            assert(all.skip(i as int)[0] == all[i as int]);
            assert(all.skip(i as int).skip(1) =~= tail);
            wire::push_numbers(header, &self.blocks[i].sizes, self.blocks[i].sizes.len());
            assert(sizes.take(sizes.len() as int) =~= sizes);
            assert(held + (wire::numbers(sizes) + sizes_bytes(tail)) =~= header@ + sizes_bytes(
                tail,
            ));
            i = i + 1;
        }
        assert(all.skip(all.len() as int) =~= Seq::empty());
        assert(header@ + Seq::<u8>::empty() =~= header@);
    }

    fn write_crcs(&self, header: &mut Vec<u8>)
        ensures
            final(header)@ == old(header)@ + crcs_bytes(self@),
    {
        let ghost before = header@;
        let ghost all = self@;
        let mut i: usize = 0;
        assert(all.skip(0) =~= all);
        while i < self.blocks.len()
            invariant
                i <= self.blocks@.len(),
                all == self@,
                before + crcs_bytes(all) == header@ + crcs_bytes(all.skip(i as int)),
            decreases self.blocks@.len() - i,
        {
            let ghost held = header@;
            let ghost tail = all.skip(i + 1);
            let ghost word = wire::le_digits(all[i as int].crc as nat, 4);
            assert(all.skip(i as int)[0] == all[i as int]);
            assert(all.skip(i as int).skip(1) =~= tail);
            wire::push_u32(header, self.blocks[i].crc);
            assert(held + (word + crcs_bytes(tail)) =~= header@ + crcs_bytes(tail));
            i = i + 1;
        }
        assert(all.skip(all.len() as int) =~= Seq::empty());
        assert(header@ + Seq::<u8>::empty() =~= header@);
    }

    /// Appends the description of the blocks.
    pub fn write_to(&self, header: &mut Vec<u8>)
        requires
            block_ids_ok(self@),
        ensures
            final(header)@ == old(header)@ + unpack_bytes(self@),
    {
        let ghost before = header@;
        header.push(K_UNPACK_INFO);
        header.push(K_FOLDER);
        wire::write_u64(header, self.blocks.len() as u64);
        header.push(0);
        self.write_folders(header);
        header.push(K_CODERS_UNPACK_SIZE);
        self.write_sizes(header);
        header.push(K_CRC);
        header.push(1);
        self.write_crcs(header);
        header.push(K_END);
        assert(header@ =~= before + unpack_bytes(self@));
    }

    fn write_file_counts(&self, header: &mut Vec<u8>)
        ensures
            final(header)@ == old(header)@ + file_counts_bytes(self@),
    {
        let ghost before = header@;
        let ghost all = self@;
        let mut i: usize = 0;
        assert(all.skip(0) =~= all);
        while i < self.blocks.len()
            invariant
                i <= self.blocks@.len(),
                all == self@,
                before + file_counts_bytes(all) == header@ + file_counts_bytes(all.skip(i as int)),
            decreases self.blocks@.len() - i,
        {
            let ghost held = header@;
            let ghost tail = all.skip(i + 1);
            let ghost count = wire::number(all[i as int].num_files);
            assert(all.skip(i as int)[0] == all[i as int]);
            assert(all.skip(i as int).skip(1) =~= tail);
            wire::write_u64(header, self.blocks[i].num_sub_unpack_streams);
            assert(held + (count + file_counts_bytes(tail)) =~= header@ + file_counts_bytes(tail));
            i = i + 1;
        }
        assert(all.skip(all.len() as int) =~= Seq::empty());
        assert(header@ + Seq::<u8>::empty() =~= header@);
    }

    fn write_file_sizes(&self, header: &mut Vec<u8>)
        ensures
            final(header)@ == old(header)@ + file_sizes_bytes(self@),
    {
        let ghost before = header@;
        let ghost all = self@;
        let mut i: usize = 0;
        assert(all.skip(0) =~= all);
        while i < self.blocks.len()
            invariant
                i <= self.blocks@.len(),
                all == self@,
                before + file_sizes_bytes(all) == header@ + file_sizes_bytes(all.skip(i as int)),
            decreases self.blocks@.len() - i,
        {
            let ghost held = header@;
            let ghost tail = all.skip(i + 1);
            let ghost sizes = all_but_last(all[i as int].file_sizes);
            assert(all.skip(i as int)[0] == all[i as int]);
            assert(all.skip(i as int).skip(1) =~= tail);
            let n: usize = self.blocks[i].sub_stream_sizes.len();
            if n > 0 {
                wire::push_numbers(header, &self.blocks[i].sub_stream_sizes, n - 1);
                assert(self.blocks@[i as int].sub_stream_sizes@.take(n - 1) =~= sizes);
            }
            assert(held + (wire::numbers(sizes) + file_sizes_bytes(tail)) =~= header@
                + file_sizes_bytes(tail));
            i = i + 1;
        }
        assert(all.skip(all.len() as int) =~= Seq::empty());
        assert(header@ + Seq::<u8>::empty() =~= header@);
    }

    fn write_file_crcs(&self, header: &mut Vec<u8>)
        ensures
            final(header)@ == old(header)@ + file_crcs_bytes(self@),
    {
        let ghost before = header@;
        let ghost all = self@;
        let mut i: usize = 0;
        assert(all.skip(0) =~= all);
        while i < self.blocks.len()
            invariant
                i <= self.blocks@.len(),
                all == self@,
                before + file_crcs_bytes(all) == header@ + file_crcs_bytes(all.skip(i as int)),
            decreases self.blocks@.len() - i,
        {
            let ghost held = header@;
            let ghost tail = all.skip(i + 1);
            let ghost words = wire::words(all[i as int].file_crcs);
            assert(all.skip(i as int)[0] == all[i as int]);
            assert(all.skip(i as int).skip(1) =~= tail);
            if self.blocks[i].num_sub_unpack_streams != 1 {
                wire::push_words(header, &self.blocks[i].sub_stream_crcs);
                assert(held + (words + file_crcs_bytes(tail)) =~= header@ + file_crcs_bytes(tail));
            } else {
                assert(Seq::<u8>::empty() + file_crcs_bytes(tail) =~= file_crcs_bytes(tail));
            }
            i = i + 1;
        }
        assert(all.skip(all.len() as int) =~= Seq::empty());
        assert(header@ + Seq::<u8>::empty() =~= header@);
    }

    /// Appends how the blocks are cut into files.
    pub fn write_substreams(&self, header: &mut Vec<u8>)
        ensures
            final(header)@ == old(header)@ + substreams_bytes(self@),
    {
        let ghost before = header@;
        header.push(K_SUB_STREAMS_INFO);
        header.push(K_NUM_UNPACK_STREAM);
        self.write_file_counts(header);
        header.push(K_SIZE);
        self.write_file_sizes(header);
        header.push(K_CRC);
        header.push(1);
        self.write_file_crcs(header);
        header.push(K_END);
        assert(header@ =~= before + substreams_bytes(self@));
    }
}

} // verus!
