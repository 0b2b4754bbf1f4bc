//! What the coders of a BCJ2 block unpack to, along their wiring.

use crate::archive::ArchiveEntry;
use crate::codec::bcj2;
use crate::codec::bcj2::Split;
use crate::encoder;
use crate::encoder_options::EncoderConfiguration;
use crate::writer::prepared;
use crate::writer::prepared::{Bcj2Aes, Bcj2Methods};
use crate::writer::source_reader;
use crate::writer::source_reader::SourceReader;
use crate::writer::unpack_info::FolderModel;
use vstd::prelude::*;

verus! {

/// The coders of a BCJ2 block but the last, which is BCJ2 itself.
pub open spec fn bcj2_configurations(methods: Bcj2Methods, aes: Option<Bcj2Aes>) -> Seq<
    EncoderConfiguration,
> {
    match aes {
        Some(a) => seq![
            a.jump,
            a.call,
            a.decisions,
            a.main,
            methods.addresses,
            methods.addresses,
            methods.main,
        ],
        None => seq![methods.addresses, methods.addresses, methods.main],
    }
}

/// Whether the inputs of coders are what their wiring makes them: the packed streams, and the
/// outputs of coders.
pub open spec fn wired(
    f: FolderModel,
    packed: Seq<Seq<u8>>,
    inputs: Seq<Seq<u8>>,
    outputs: Seq<Seq<u8>>,
) -> bool {
    &&& forall|k: int|
        0 <= k < f.packed.len() ==> inputs[(#[trigger] f.packed[k]) as int] == packed[k]
    &&& forall|k: int|
        0 <= k < f.bonds.len() ==> inputs[(#[trigger] f.bonds[k]).0 as int]
            == outputs[f.bonds[k].1 as int]
}

/// Whether each coder turns its inputs into its output: the output of a coder is what it makes its
/// input of, and the output of BCJ2 is what its four inputs join to.
pub open spec fn unpacks(
    coders: Seq<EncoderConfiguration>,
    inputs: Seq<Seq<u8>>,
    outputs: Seq<Seq<u8>>,
) -> bool {
    let n = coders.len() as int;
    &&& inputs.len() == n + 4
    &&& outputs.len() == n + 1
    &&& forall|i: int|
        0 <= i < n ==> encoder::encoded(coders[i], #[trigger] outputs[i]) == Some(inputs[i])
    &&& bcj2::unsplit(
        Split {
            main: inputs[n],
            call: inputs[n + 1],
            jump: inputs[n + 2],
            rc: inputs[n + 3],
        },
    ) == Some(outputs[n])
}

/// Whether the packed streams of a BCJ2 block unpack to data along its wiring, by way of these inputs
/// and outputs of its coders: they are so wired, each output follows from the inputs of its coder and
/// is as long as is said, and the last of them is the data.
pub open spec fn unpacks_to(
    f: FolderModel,
    sizes: Seq<u64>,
    packed: Seq<Seq<u8>>,
    coders: Seq<EncoderConfiguration>,
    inputs: Seq<Seq<u8>>,
    outputs: Seq<Seq<u8>>,
    plain: Seq<u8>,
) -> bool {
    &&& wired(f, packed, inputs, outputs)
    &&& unpacks(coders, inputs, outputs)
    &&& sizes.len() == outputs.len()
    &&& forall|i: int| 0 <= i < outputs.len() ==> (#[trigger] outputs[i]).len() as u64 == sizes[i]
    &&& outputs.last() == plain
}

proof fn lemma_stream(
    aes: Option<EncoderConfiguration>,
    chain: Option<EncoderConfiguration>,
    plain: Seq<u8>,
)
    requires
        encoder::stages(prepared::stream_methods(aes, chain), plain) is Some,
    ensures
        ({
            let methods = prepared::stream_methods(aes, chain);
            let st = encoder::stages(methods, plain)->0;
            let e = encoder::encoded_by(methods, plain);
            &&& e.packed == st[0]
            &&& e.sizes.last() == plain.len() as u64
            &&& match (aes, chain) {
                (Some(a), Some(c)) => {
                    &&& st.len() == 3
                    &&& st[2] == plain
                    &&& encoder::encoded(a, st[1]) == Some(st[0])
                    &&& encoder::encoded(c, st[2]) == Some(st[1])
                    &&& e.sizes[0] == st[1].len() as u64
                },
                (Some(a), None) => {
                    &&& st.len() == 2
                    &&& st[1] == plain
                    &&& encoder::encoded(a, st[1]) == Some(st[0])
                    &&& e.sizes[0] == st[1].len() as u64
                },
                (None, Some(c)) => {
                    &&& st.len() == 2
                    &&& st[1] == plain
                    &&& encoder::encoded(c, st[1]) == Some(st[0])
                },
                (None, None) => {
                    &&& st.len() == 1
                    &&& st[0] == plain
                },
            }
        }),
{
    let methods = prepared::stream_methods(aes, chain);
    let st = encoder::stages(methods, plain)->0;
    encoder::law_each_coder_takes_the_stage_behind_it(methods, plain);
    let e = encoder::encoded_by(methods, plain);
    if methods.len() > 0 {
        assert(encoder::encoded(methods[0], st[1]) == Some(st[0]));
        assert(e.sizes[0] == st[1].len() as u64);
    }
    if methods.len() > 1 {
        assert(encoder::encoded(methods[1], st[2]) == Some(st[1]));
    }
}

/// A BCJ2 block unpacks to the data that it was made of, along its wiring, with or without AES.
#[verifier::rlimit(40)]
pub proof fn law_bcj2_block_unpacks_to_its_data(
    methods: Bcj2Methods,
    aes: Option<Bcj2Aes>,
    entries: Seq<ArchiveEntry>,
    readers: Seq<SourceReader>,
)
    requires
        prepared::bcj2_encodes(methods, aes, source_reader::all_content(readers)),
    ensures
        ({
            let b = prepared::bcj2_of(methods, aes, entries, readers);
            exists|inputs: Seq<Seq<u8>>, outputs: Seq<Seq<u8>>| #[trigger]
                unpacks_to(
                    b.folder,
                    b.sizes,
                    prepared::stream_bytes(b.packed),
                    bcj2_configurations(methods, aes),
                    inputs,
                    outputs,
                    source_reader::all_content(readers),
                )
        }),
{
    let plain = source_reader::all_content(readers);
    let s = bcj2::split(plain);
    let b = prepared::bcj2_of(methods, aes, entries, readers);
    let packed = prepared::stream_bytes(b.packed);
    let coders = bcj2_configurations(methods, aes);
    let main = encoder::stages(prepared::main_methods(methods, aes), s.main)->0;
    let call = encoder::stages(prepared::call_methods(methods, aes), s.call)->0;
    let jump = encoder::stages(prepared::jump_methods(methods, aes), s.jump)->0;
    let rc = encoder::stages(prepared::decision_methods(aes), s.rc)->0;
    bcj2::law_join_reads_back_split(plain);
    match aes {
        Some(a) => {
            lemma_stream(Some(a.main), Some(methods.main), s.main);
            lemma_stream(Some(a.call), Some(methods.addresses), s.call);
            lemma_stream(Some(a.jump), Some(methods.addresses), s.jump);
            lemma_stream(Some(a.decisions), None, s.rc);
            let outputs = seq![
                jump[1],
                call[1],
                rc[1],
                main[1],
                s.jump,
                s.call,
                s.main,
                plain,
            ];
            let inputs = seq![
                jump[0],
                call[0],
                rc[0],
                main[0],
                jump[1],
                call[1],
                main[1],
                s.main,
                s.call,
                s.jump,
                s.rc,
            ];
            assert(wired(b.folder, packed, inputs, outputs));
            assert(unpacks(coders, inputs, outputs));
            assert(unpacks_to(b.folder, b.sizes, packed, coders, inputs, outputs, plain));
        },
        None => {
            lemma_stream(None, Some(methods.main), s.main);
            lemma_stream(None, Some(methods.addresses), s.call);
            lemma_stream(None, Some(methods.addresses), s.jump);
            lemma_stream(None, None, s.rc);
            let outputs = seq![s.jump, s.call, s.main, plain];
            let inputs = seq![jump[0], call[0], main[0], s.main, s.call, s.jump, s.rc];
            assert(wired(b.folder, packed, inputs, outputs));
            assert(unpacks(coders, inputs, outputs));
            assert(unpacks_to(b.folder, b.sizes, packed, coders, inputs, outputs, plain));
        },
    }
}

} // verus!
