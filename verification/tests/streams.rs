//! Whole-stream encoding and decoding: header bytes, footer handling,
//! round trips, and the failure cases of the decoder constructor.

use arqoii::decode::decode;
use arqoii::encode::encode;
use arqoii::{Pixel, QoiChannels, QoiColorSpace, QoiDecoder, QoiEncoder, QoiHeader};

const FOOTER: [u8; 8] = [0, 0, 0, 0, 0, 0, 0, 1];

fn header(w: u32, h: u32, c: QoiChannels, cs: QoiColorSpace) -> QoiHeader {
    QoiHeader::new(w, h, c, cs)
}

#[test]
fn header_serializes_to_14_exact_bytes() {
    let h = header(800, 600, QoiChannels::Rgba, QoiColorSpace::AllChannelsLinear);
    assert_eq!(
        h.to_bytes(),
        [113, 111, 105, 102, 0, 0, 3, 32, 0, 0, 2, 88, 4, 1]
    );
    let h2 = header(1, 0xFFFF_FFFF, QoiChannels::Rgb, QoiColorSpace::SRgbWithLinearAlpha);
    assert_eq!(
        h2.to_bytes(),
        [113, 111, 105, 102, 0, 0, 0, 1, 255, 255, 255, 255, 3, 0]
    );
}

#[test]
fn header_round_trips_through_decode() {
    let h = header(7, 9, QoiChannels::Rgba, QoiColorSpace::AllChannelsLinear);
    let mut bytes = h.to_bytes().to_vec();
    bytes.extend_from_slice(&FOOTER);
    let (parsed, px) = decode(bytes).unwrap();
    assert_eq!(parsed, h);
    assert_eq!(px, vec![]);
}

#[test]
fn truncated_header_fails() {
    let h = header(7, 9, QoiChannels::Rgb, QoiColorSpace::SRgbWithLinearAlpha);
    let bytes = h.to_bytes();
    for n in 0..14 {
        assert!(decode(bytes[..n].to_vec()).is_none());
    }
}

#[test]
fn wrong_magic_fails() {
    let h = header(7, 9, QoiChannels::Rgb, QoiColorSpace::SRgbWithLinearAlpha);
    let mut bytes = h.to_bytes().to_vec();
    bytes.extend_from_slice(&FOOTER);
    bytes[0] = 112;
    assert!(decode(bytes).is_none());
}

#[test]
fn channel_byte_out_of_range_fails() {
    let h = header(7, 9, QoiChannels::Rgb, QoiColorSpace::SRgbWithLinearAlpha);
    let mut bytes = h.to_bytes().to_vec();
    bytes.extend_from_slice(&FOOTER);
    bytes[12] = 5;
    assert!(decode(bytes).is_none());
}

#[test]
fn color_space_byte_out_of_range_fails() {
    let h = header(7, 9, QoiChannels::Rgb, QoiColorSpace::SRgbWithLinearAlpha);
    let mut bytes = h.to_bytes().to_vec();
    bytes.extend_from_slice(&FOOTER);
    bytes[13] = 2;
    assert!(decode(bytes).is_none());
}

#[test]
fn one_black_pixel_image() {
    // 1x1 RGB image holding (0,0,0): the pixel equals the starting pixel,
    // so it is coalesced into a run and encoded as RUN(1)
    let h = header(1, 1, QoiChannels::Rgb, QoiColorSpace::SRgbWithLinearAlpha);
    let out = encode(h, vec![Pixel::rgb(0, 0, 0)]);
    let mut expected = h.to_bytes().to_vec();
    expected.push(0b11000000);
    expected.extend_from_slice(&FOOTER);
    assert_eq!(out, expected);
}

#[test]
fn gray_line_of_62_pixels() {
    // 62x1, all (128,128,128): one RGB chunk for the first pixel, then one
    // run covering the remaining 61
    let h = header(62, 1, QoiChannels::Rgb, QoiColorSpace::SRgbWithLinearAlpha);
    let out = encode(h, vec![Pixel::rgb(128, 128, 128); 62]);
    let mut expected = h.to_bytes().to_vec();
    expected.extend_from_slice(&[0b11111110, 128, 128, 128, 0b11000000 | 60]);
    expected.extend_from_slice(&FOOTER);
    assert_eq!(out, expected);
}

#[test]
fn gray_line_of_64_pixels_splits_the_run() {
    // 64x1, all (128,128,128): RGB, then RUN(62), then RUN(1) - never RUN(63)
    let h = header(64, 1, QoiChannels::Rgb, QoiColorSpace::SRgbWithLinearAlpha);
    let out = encode(h, vec![Pixel::rgb(128, 128, 128); 64]);
    let mut expected = h.to_bytes().to_vec();
    expected.extend_from_slice(&[0b11111110, 128, 128, 128, 0b11111101, 0b11000000]);
    expected.extend_from_slice(&FOOTER);
    assert_eq!(out, expected);
}

#[test]
fn alpha_change_encodes_rgba_on_the_wire() {
    let h = header(2, 1, QoiChannels::Rgba, QoiColorSpace::SRgbWithLinearAlpha);
    let out = encode(h, vec![Pixel::rgba(10, 20, 30, 255), Pixel::rgba(10, 20, 30, 128)]);
    let mut expected = h.to_bytes().to_vec();
    expected.extend_from_slice(&[0b11111110, 10, 20, 30, 0b11111111, 10, 20, 30, 128]);
    expected.extend_from_slice(&FOOTER);
    assert_eq!(out, expected);
}

#[test]
fn two_diff_pixels_on_the_wire() {
    let h = header(2, 1, QoiChannels::Rgb, QoiColorSpace::SRgbWithLinearAlpha);
    let out = encode(h, vec![Pixel::rgb(1, 0, 0), Pixel::rgb(2, 1, 1)]);
    let mut expected = h.to_bytes().to_vec();
    expected.extend_from_slice(&[0b01111010, 0b01111111]);
    expected.extend_from_slice(&FOOTER);
    assert_eq!(out, expected);
}

#[test]
fn encoder_caps_input_at_width_times_height() {
    let h = header(1, 1, QoiChannels::Rgb, QoiColorSpace::SRgbWithLinearAlpha);
    let capped = encode(h, vec![Pixel::rgb(5, 5, 5), Pixel::rgb(9, 9, 9)]);
    let exact = encode(h, vec![Pixel::rgb(5, 5, 5)]);
    assert_eq!(capped, exact);
}

#[test]
fn index_zero_chunk_is_not_mistaken_for_the_footer() {
    // a stream whose single chunk byte is 0x00 - INDEX(0) - followed by the
    // footer: the decoder must yield one pixel, the zero pixel of slot 0,
    // and only then stop
    let h = header(1, 1, QoiChannels::Rgba, QoiColorSpace::SRgbWithLinearAlpha);
    let mut bytes = h.to_bytes().to_vec();
    bytes.push(0x00);
    bytes.extend_from_slice(&FOOTER);
    let (_, px) = decode(bytes).unwrap();
    assert_eq!(px, vec![Pixel::rgba(0, 0, 0, 0)]);
}

#[test]
fn run_chunk_replays_the_previous_pixel() {
    // RUN(5) right after the header replays the starting pixel five times
    let h = header(5, 1, QoiChannels::Rgb, QoiColorSpace::SRgbWithLinearAlpha);
    let mut bytes = h.to_bytes().to_vec();
    bytes.push(0b11000000 | 4);
    bytes.extend_from_slice(&FOOTER);
    let (_, px) = decode(bytes).unwrap();
    assert_eq!(px, vec![Pixel::rgba(0, 0, 0, 255); 5]);
}

#[test]
fn truncated_chunk_ends_the_pixel_stream_silently() {
    // an RGB chunk missing two of its payload bytes: no pixels, no panic
    let h = header(1, 1, QoiChannels::Rgb, QoiColorSpace::SRgbWithLinearAlpha);
    let mut bytes = h.to_bytes().to_vec();
    bytes.extend_from_slice(&[0b11111110, 10]);
    let (_, px) = decode(bytes).unwrap();
    assert_eq!(px, vec![]);
}

#[test]
fn round_trip_mixed_pixels() {
    // exercises RGB, RGBA, INDEX, DIFF, LUMA and RUN, a run crossing 62,
    // and a wrapping channel delta
    let mut px = vec![
        Pixel::rgba(0, 0, 0, 255),
        Pixel::rgba(10, 20, 30, 255),
        Pixel::rgba(10, 20, 30, 128),
        Pixel::rgba(11, 21, 31, 128),
        Pixel::rgba(30, 40, 50, 128),
        Pixel::rgba(10, 20, 30, 128),
        Pixel::rgba(255, 10, 10, 255),
        Pixel::rgba(0, 10, 10, 255),
    ];
    for _ in 0..100 {
        px.push(Pixel::rgba(0, 10, 10, 255));
    }
    px.push(Pixel::rgba(200, 3, 77, 9));
    let h = header(
        px.len() as u32,
        1,
        QoiChannels::Rgba,
        QoiColorSpace::SRgbWithLinearAlpha,
    );
    let bytes = encode(h, px.clone());
    let (hd, out) = decode(bytes).unwrap();
    assert_eq!(hd, h);
    assert_eq!(out, px);
}

#[test]
fn round_trip_empty_image() {
    let h = header(0, 0, QoiChannels::Rgb, QoiColorSpace::AllChannelsLinear);
    let bytes = encode(h, vec![]);
    let (hd, out) = decode(bytes).unwrap();
    assert_eq!(hd, h);
    assert_eq!(out, vec![]);
}

#[test]
fn byte_encoder_streams_one_byte_at_a_time() {
    let h = header(2, 1, QoiChannels::Rgb, QoiColorSpace::SRgbWithLinearAlpha);
    let px = vec![Pixel::rgb(1, 0, 0), Pixel::rgb(2, 1, 1)];
    let whole = encode(h, px.clone());
    let mut enc = QoiEncoder::new(h, px);
    let mut streamed = vec![];
    while let Some(b) = enc.next() {
        streamed.push(b);
    }
    assert_eq!(streamed, whole);
    assert_eq!(enc.next(), None);
}

#[test]
fn pixel_decoder_streams_one_pixel_at_a_time() {
    let h = header(2, 1, QoiChannels::Rgb, QoiColorSpace::SRgbWithLinearAlpha);
    let px = vec![Pixel::rgb(1, 0, 0), Pixel::rgb(2, 1, 1)];
    let bytes = encode(h, px.clone());
    let (hd, mut dec) = QoiDecoder::new(bytes).unwrap();
    assert_eq!(hd, h);
    assert_eq!(dec.next(), Some(px[0]));
    assert_eq!(dec.next(), Some(px[1]));
    assert_eq!(dec.next(), None);
}

#[test]
fn load_returns_header_and_pixels() {
    let h = header(1, 1, QoiChannels::Rgb, QoiColorSpace::SRgbWithLinearAlpha);
    let px = vec![Pixel::rgb(77, 66, 55)];
    let bytes = encode(h, px.clone());
    let (hd, out) = arqoii::load(bytes);
    assert_eq!(hd, h);
    assert_eq!(out, px);
}
