//! Raster-byte expansion, channel selection, and the chunk-layer byte
//! round trip through the standalone chunk decoder.

use arqoii::chunk::ChunkBuf;
use arqoii::encode::encode_to_chunks;
use arqoii::raster::{
    channels_for, pixels_from_gray, pixels_from_gray_alpha, pixels_from_rgb, pixels_from_rgba,
};
use arqoii::{Pixel, QoiChannels, QoiChunkDecoder};

#[test]
fn gray_bytes_expand_to_opaque_pixels() {
    let out = pixels_from_gray(&vec![0, 128, 255]);
    assert_eq!(
        out,
        vec![
            Pixel::rgba(0, 0, 0, 255),
            Pixel::rgba(128, 128, 128, 255),
            Pixel::rgba(255, 255, 255, 255),
        ]
    );
}

#[test]
fn gray_alpha_bytes_expand_pairwise() {
    let out = pixels_from_gray_alpha(&vec![7, 200, 9, 255]);
    assert_eq!(out, vec![Pixel::rgba(7, 7, 7, 200), Pixel::rgba(9, 9, 9, 255)]);
}

#[test]
fn rgb_bytes_expand_in_triples() {
    let out = pixels_from_rgb(&vec![1, 2, 3, 4, 5, 6]);
    assert_eq!(out, vec![Pixel::rgba(1, 2, 3, 255), Pixel::rgba(4, 5, 6, 255)]);
}

#[test]
fn rgba_bytes_expand_in_quadruples() {
    let out = pixels_from_rgba(&vec![1, 2, 3, 4, 5, 6, 7, 8]);
    assert_eq!(out, vec![Pixel::rgba(1, 2, 3, 4), Pixel::rgba(5, 6, 7, 8)]);
}

#[test]
fn channels_follow_translucency() {
    assert_eq!(channels_for(&vec![Pixel::rgb(1, 2, 3)]), QoiChannels::Rgb);
    assert_eq!(
        channels_for(&vec![Pixel::rgb(1, 2, 3), Pixel::rgba(1, 2, 3, 254)]),
        QoiChannels::Rgba
    );
    assert_eq!(channels_for(&vec![]), QoiChannels::Rgb);
}

#[test]
fn chunk_stream_round_trips_through_bytes() {
    // serialize the encoder's chunk stream by hand and feed it back to the
    // chunk decoder: the same chunks come out, in order
    let mut px = vec![
        Pixel::rgba(0, 0, 0, 255),
        Pixel::rgba(10, 20, 30, 255),
        Pixel::rgba(10, 20, 30, 128),
        Pixel::rgba(12, 21, 29, 128),
        Pixel::rgba(10, 20, 30, 128),
    ];
    for _ in 0..70 {
        px.push(Pixel::rgba(10, 20, 30, 128));
    }
    let chunks = encode_to_chunks(px);
    let mut bytes = vec![];
    let mut buf = ChunkBuf::new();
    for c in &chunks {
        c.write_to_chunk_buffer(&mut buf);
        while let Some(b) = buf.pop() {
            bytes.push(b);
        }
    }
    let mut dec = QoiChunkDecoder::new(bytes);
    let mut back = vec![];
    while let Some(c) = dec.next() {
        back.push(c);
    }
    assert_eq!(back, chunks);
}

#[test]
fn chunk_decoder_reads_raw_bytes() {
    // bytes written by hand, not by the encoder
    let bytes = vec![
        0b01111010, // DIFF(1, 0, 0)
        0b10000000, 0b00001111, // LUMA(-32, -8, 7)
        0b00110101, // INDEX(53)
        0b11000011, // RUN(4)
        0b11111110, 5, 6, 7, // RGB
    ];
    let mut dec = QoiChunkDecoder::new(bytes);
    assert_eq!(dec.next(), Some(arqoii::QoiChunk::new_diff(1, 0, 0)));
    assert_eq!(dec.next(), Some(arqoii::QoiChunk::new_luma(-32, -8, 7)));
    assert_eq!(dec.next(), Some(arqoii::QoiChunk::new_index(53)));
    assert_eq!(dec.next(), Some(arqoii::QoiChunk::new_run(4)));
    assert_eq!(dec.next(), Some(arqoii::QoiChunk::new_rgb(5, 6, 7)));
    assert_eq!(dec.next(), None);
    assert_eq!(dec.next(), None);
}

#[test]
fn decoder_wraps_channel_arithmetic() {
    // DIFF(-2,-2,-2) right after the header: (0,0,0,255) wraps to (254,254,254,255)
    let h = arqoii::QoiHeader::new(
        1,
        1,
        QoiChannels::Rgb,
        arqoii::QoiColorSpace::SRgbWithLinearAlpha,
    );
    let mut bytes = h.to_bytes().to_vec();
    bytes.push(0b01000000);
    bytes.extend_from_slice(&[0, 0, 0, 0, 0, 0, 0, 1]);
    let (_, px) = arqoii::decode(bytes).unwrap();
    assert_eq!(px, vec![Pixel::rgba(254, 254, 254, 255)]);
}

#[test]
fn decoded_pixel_count_matches_chunk_arithmetic() {
    // a RUN(n) chunk stands for n pixels, every other chunk for one
    let a = Pixel::rgba(10, 0, 0, 255);
    let b = Pixel::rgba(11, 1, 1, 255);
    let mut px = vec![a];
    for _ in 0..40 {
        px.push(a);
    }
    px.push(b);
    let chunks = encode_to_chunks(px.clone());
    let implied: usize = chunks
        .iter()
        .map(|c| match c {
            arqoii::QoiChunk::Run { run } => *run as usize,
            _ => 1,
        })
        .sum();
    assert_eq!(implied, px.len());
}
