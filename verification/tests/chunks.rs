//! Chunk construction, serialization and the chunk buffer.

use arqoii::{ChunkBuf, Pixel, QoiChunk};

fn bytes_of(c: &QoiChunk) -> Vec<u8> {
    let mut buf = ChunkBuf::new();
    c.write_to_chunk_buffer(&mut buf);
    buf.as_slice().to_vec()
}

#[test]
fn rgb_chunk_bytes() {
    assert_eq!(bytes_of(&QoiChunk::new_rgb(1, 2, 3)), vec![0b11111110, 1, 2, 3]);
}

#[test]
fn rgba_chunk_bytes() {
    assert_eq!(bytes_of(&QoiChunk::new_rgba(9, 8, 7, 6)), vec![0b11111111, 9, 8, 7, 6]);
}

#[test]
fn index_chunk_bytes() {
    assert_eq!(bytes_of(&QoiChunk::new_index(0)), vec![0b00000000]);
    assert_eq!(bytes_of(&QoiChunk::new_index(53)), vec![0b00110101]);
    assert_eq!(bytes_of(&QoiChunk::new_index(63)), vec![0b00111111]);
}

#[test]
fn diff_chunk_bytes() {
    // [0 1 dr dr dg dg db db], each field biased by 2
    assert_eq!(bytes_of(&QoiChunk::new_diff(-2, -2, -2)), vec![0b01000000]);
    assert_eq!(bytes_of(&QoiChunk::new_diff(1, 0, 0)), vec![0b01111010]);
    assert_eq!(bytes_of(&QoiChunk::new_diff(1, 1, 1)), vec![0b01111111]);
    assert_eq!(bytes_of(&QoiChunk::new_diff(-2, 1, 0)), vec![0b01001110]);
}

#[test]
fn luma_chunk_bytes() {
    // byte 1 = [1 0 dg+32], byte 2 = [dr_dg+8, db_dg+8]
    assert_eq!(bytes_of(&QoiChunk::new_luma(-32, -8, -8)), vec![0b10000000, 0b00000000]);
    assert_eq!(bytes_of(&QoiChunk::new_luma(-32, -8, 7)), vec![0b10000000, 0b00001111]);
    assert_eq!(bytes_of(&QoiChunk::new_luma(31, 7, -8)), vec![0b10111111, 0b11110000]);
    assert_eq!(bytes_of(&QoiChunk::new_luma(0, 0, 0)), vec![0b10100000, 0b10001000]);
}

#[test]
fn run_chunk_bytes() {
    // [1 1 run-1]; run = 63 and 64 are reserved for the RGB/RGBA opcodes
    assert_eq!(bytes_of(&QoiChunk::new_run(1)), vec![0b11000000]);
    assert_eq!(bytes_of(&QoiChunk::new_run(62)), vec![0b11111101]);
    assert!(bytes_of(&QoiChunk::new_run(62))[0] != 0b11111110);
    assert!(bytes_of(&QoiChunk::new_run(62))[0] != 0b11111111);
}

#[test]
fn chunk_buf_yields_bytes_in_order_exactly_once() {
    let mut buf = ChunkBuf::new();
    assert_eq!(buf.pop(), None);
    QoiChunk::new_rgb(10, 20, 30).write_to_chunk_buffer(&mut buf);
    assert_eq!(buf.pop(), Some(0b11111110));
    assert_eq!(buf.pop(), Some(10));
    assert_eq!(buf.pop(), Some(20));
    assert_eq!(buf.pop(), Some(30));
    assert_eq!(buf.pop(), None);
    // as_slice still shows the whole chunk, popped bytes included
    assert_eq!(buf.as_slice(), &[0b11111110, 10, 20, 30]);
    // overwriting resets the read position
    QoiChunk::new_index(5).write_to_chunk_buffer(&mut buf);
    assert_eq!(buf.pop(), Some(5));
    assert_eq!(buf.pop(), None);
}

#[test]
fn pixel_hash_values() {
    // H(p) = (3 r + 5 g + 7 b + 11 a) mod 64
    assert_eq!(Pixel::rgba(0, 0, 0, 255).pixel_hash(), 53);
    assert_eq!(Pixel::rgba(0, 0, 0, 0).pixel_hash(), 0);
    assert_eq!(Pixel::rgba(255, 255, 255, 255).pixel_hash(), 38);
    assert_eq!(Pixel::rgba(10, 20, 30, 255).pixel_hash(), 9);
    assert!(Pixel::rgba(17, 93, 204, 41).pixel_hash() < 64);
}

#[test]
fn pixel_constructors() {
    assert_eq!(Pixel::rgb(1, 2, 3), Pixel::rgba(1, 2, 3, 255));
    assert_eq!(Pixel::default(), Pixel::rgba(0, 0, 0, 255));
    assert_eq!(Pixel::zero(), Pixel::rgba(0, 0, 0, 0));
}

#[test]
fn coder_state_default() {
    let s = arqoii::CoderState::default();
    assert_eq!(s.previous, Pixel::rgba(0, 0, 0, 255));
    assert_eq!(s.run, 0);
    assert_eq!(s.index.len(), 64);
    assert!(s.index.iter().all(|p| *p == Pixel::zero()));
}
