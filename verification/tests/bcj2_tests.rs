//! The BCJ2 filter.

use lzma_rust2::filter::bcj2::Bcj2Reader;
use sevenz_writer::codec::bcj2::{Bcj2Encoder, Bcj2Streams};

/// The main, call and jump streams and the decisions of code fed in pieces.
fn split(data: &[u8], chunk: usize) -> [Vec<u8>; 4] {
    let mut main = Vec::new();
    let mut call = Vec::new();
    let mut jump = Vec::new();
    let mut encoder = Bcj2Encoder::new();
    for piece in data.chunks(chunk.max(1)) {
        let mut streams = Bcj2Streams {
            main: &mut main,
            call: &mut call,
            jump: &mut jump,
        };
        encoder.write(piece, &mut streams).unwrap();
    }
    let mut streams = Bcj2Streams {
        main: &mut main,
        call: &mut call,
        jump: &mut jump,
    };
    let rc = encoder.finish(&mut streams).unwrap();
    [main, call, jump, rc]
}

fn round_trip(data: &[u8], chunk: usize) {
    let [main, call, jump, rc] = split(data, chunk);
    let inputs: Vec<std::io::Cursor<Vec<u8>>> = vec![
        std::io::Cursor::new(main),
        std::io::Cursor::new(call),
        std::io::Cursor::new(jump),
        std::io::Cursor::new(rc),
    ];
    let mut reader = Bcj2Reader::new(inputs, data.len() as u64);
    let mut decoded = Vec::new();
    std::io::Read::read_to_end(&mut reader, &mut decoded).unwrap();
    assert_eq!(decoded, data, "chunk size {chunk}");
}

/// Code with calls and jumps in it, near and far, opcodes inside operands, and branches
/// cut off by the end.
fn code() -> Vec<u8> {
    let mut v = Vec::new();
    let mut x: u32 = 0x1234_5678;
    for i in 0..40_000u32 {
        x = x.wrapping_mul(1_664_525).wrapping_add(1_013_904_223);
        match i % 23 {
            0 => {
                v.push(0xE8);
                v.extend_from_slice(&(i.wrapping_mul(37) % 5000).to_le_bytes());
            }
            5 => {
                v.push(0xE9);
                v.extend_from_slice(&0xFFFF_FF00u32.wrapping_sub(i).to_le_bytes());
            }
            9 => {
                v.push(0x0F);
                v.push(0x84);
                v.extend_from_slice(&(i % 300).to_le_bytes());
            }
            13 => {
                v.push(0xE8);
                v.extend_from_slice(&x.to_le_bytes());
            }
            17 => {
                v.push(0xE8);
                v.push(0xE8);
                v.push(0x0F);
                v.push(0x85);
            }
            _ => v.push((x >> 24) as u8),
        }
    }
    v.push(0xE8);
    v.push(0x01);
    v
}

#[test]
fn the_decoder_reads_back_what_the_encoder_split() {
    let data = code();
    for chunk in [usize::MAX, 4096, 100, 7, 1] {
        round_trip(&data, chunk);
    }
    round_trip(&[], 16);
    round_trip(&[0xE8], 16);
    round_trip(&[0x0F, 0x80, 1, 2], 16);
    round_trip(b"plain text with no branches at all", 5);
}

#[test]
fn calls_go_to_the_call_stream_as_absolute_addresses() {
    let mut data = vec![0x90u8; 16];
    data.push(0xE8);
    data.extend_from_slice(&100u32.to_le_bytes());
    let mut main = Vec::new();
    let mut call = Vec::new();
    let mut jump = Vec::new();
    let mut encoder = Bcj2Encoder::new();
    let mut streams = Bcj2Streams {
        main: &mut main,
        call: &mut call,
        jump: &mut jump,
    };
    encoder.write(&data, &mut streams).unwrap();
    let _ = encoder.finish(&mut streams).unwrap();
    // The opcode at 16, the operand relative to 21: absolute 121.
    assert_eq!(call, 121u32.to_be_bytes());
    assert!(jump.is_empty());
    assert_eq!(main.len(), 17);
}

#[test]
fn jumps_go_to_the_jump_stream_and_conditional_ones_too() {
    // A jump at 0 with its operand relative to 5, then a conditional jump whose operand ends at 11.
    let mut data = vec![0xE9];
    data.extend_from_slice(&7u32.to_le_bytes());
    data.extend_from_slice(&[0x0F, 0x84]);
    data.extend_from_slice(&0xFFFF_FFFFu32.to_le_bytes());
    let [main, call, jump, _] = split(&data, usize::MAX);
    assert_eq!(main, [0xE9, 0x0F, 0x84]);
    assert!(call.is_empty());
    assert_eq!(jump, [0, 0, 0, 12, 0, 0, 0, 10]);
    round_trip(&data, 3);
}

#[test]
fn a_far_branch_stays_in_the_main_stream() {
    let mut data = vec![0xE8];
    data.extend_from_slice(&0x0400_0000u32.to_le_bytes());
    let [main, call, jump, _] = split(&data, usize::MAX);
    assert_eq!(main, data);
    assert!(call.is_empty() && jump.is_empty());
    // One byte nearer it is converted.
    let mut data = vec![0xE8];
    data.extend_from_slice(&0x03FF_FFFFu32.to_le_bytes());
    let [main, call, _, _] = split(&data, usize::MAX);
    assert_eq!(main, [0xE8]);
    assert_eq!(call, 0x0400_0004u32.to_be_bytes());
}

#[test]
fn code_without_branches_makes_an_empty_decision_stream() {
    let [main, call, jump, rc] = split(b"no branch", 2);
    assert_eq!(main, b"no branch");
    assert!(call.is_empty() && jump.is_empty());
    assert_eq!(rc, [0, 0, 0, 0, 0]);
}

#[test]
fn the_pieces_make_no_difference_and_nothing_is_lost() {
    let data = code();
    let whole = split(&data, usize::MAX);
    for chunk in [1, 2, 3, 5, 1000] {
        assert_eq!(split(&data, chunk), whole, "chunk size {chunk}");
    }
    let [main, call, jump, rc] = whole;
    assert_eq!(main.len() + call.len() + jump.len(), data.len());
    assert_eq!((call.len() % 4, jump.len() % 4), (0, 0));
    assert_eq!(rc[0], 0);
}
