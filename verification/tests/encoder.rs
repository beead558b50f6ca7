//! The chunk encoder's decision procedure: runs, index hits, delta
//! encodings, and the boundary cases of each.

use arqoii::encode::encode_to_chunks;
use arqoii::{Pixel, QoiChunk};

#[test]
fn empty_input_gives_no_chunks() {
    assert_eq!(encode_to_chunks(vec![]), vec![]);
}

#[test]
fn first_pixel_equal_to_starting_pixel_enters_the_index() {
    // the first image pixel is exactly (0,0,0,255): it opens a run and must
    // still be written into the index table, which starts all-zero
    let px = vec![
        Pixel::rgba(0, 0, 0, 255),
        Pixel::rgba(5, 5, 5, 255),
        Pixel::rgba(0, 0, 0, 255),
    ];
    let chunks = encode_to_chunks(px);
    assert_eq!(
        chunks,
        vec![
            QoiChunk::new_run(1),
            QoiChunk::new_luma(5, 0, 0),
            QoiChunk::new_index(53),
        ]
    );
}

#[test]
fn run_of_exactly_62_fills_one_run_chunk() {
    let a = Pixel::rgba(10, 0, 0, 255);
    let b = Pixel::rgba(11, 1, 1, 255);
    let mut px = vec![a];
    for _ in 0..62 {
        px.push(a);
    }
    px.push(b);
    let chunks = encode_to_chunks(px);
    assert_eq!(
        chunks,
        vec![
            QoiChunk::new_rgb(10, 0, 0),
            QoiChunk::new_run(62),
            QoiChunk::new_diff(1, 1, 1),
        ]
    );
}

#[test]
fn run_of_63_splits_into_62_plus_1() {
    let a = Pixel::rgba(10, 0, 0, 255);
    let mut px = vec![a];
    for _ in 0..63 {
        px.push(a);
    }
    let chunks = encode_to_chunks(px);
    assert_eq!(
        chunks,
        vec![
            QoiChunk::new_rgb(10, 0, 0),
            QoiChunk::new_run(62),
            QoiChunk::new_run(1),
        ]
    );
}

#[test]
fn alpha_change_forces_rgba() {
    // the second pixel differs only in alpha: DIFF/LUMA/INDEX are all ruled
    // out, the encoder must fall back to RGBA
    let px = vec![Pixel::rgba(10, 20, 30, 255), Pixel::rgba(10, 20, 30, 128)];
    let chunks = encode_to_chunks(px);
    assert_eq!(
        chunks,
        vec![
            QoiChunk::new_rgb(10, 20, 30),
            QoiChunk::new_rgba(10, 20, 30, 128),
        ]
    );
}

#[test]
fn small_deltas_give_diff() {
    let px = vec![Pixel::rgba(1, 0, 0, 255), Pixel::rgba(2, 1, 1, 255)];
    let chunks = encode_to_chunks(px);
    assert_eq!(
        chunks,
        vec![QoiChunk::new_diff(1, 0, 0), QoiChunk::new_diff(1, 1, 1)]
    );
}

#[test]
fn diff_boundaries() {
    let px = vec![
        Pixel::rgba(128, 128, 128, 255),
        Pixel::rgba(126, 129, 128, 255),
    ];
    let chunks = encode_to_chunks(px);
    assert_eq!(chunks[1], QoiChunk::new_diff(-2, 1, 0));
}

#[test]
fn luma_boundaries() {
    // dg = -32 with dr_dg = -8 and db_dg = 7, then from the start pixel a
    // positive-boundary luma: dg = 31, dr_dg = 7, db_dg = -8
    let px = vec![
        Pixel::rgba(128, 128, 128, 255),
        Pixel::rgba(88, 96, 103, 255),
    ];
    let chunks = encode_to_chunks(px);
    assert_eq!(chunks[1], QoiChunk::new_luma(-32, -8, 7));

    let px2 = vec![
        Pixel::rgba(128, 128, 128, 255),
        Pixel::rgba(166, 159, 151, 255),
    ];
    let chunks2 = encode_to_chunks(px2);
    assert_eq!(chunks2[1], QoiChunk::new_luma(31, 7, -8));
}

#[test]
fn wrapping_delta_is_a_small_diff() {
    // 255 -> 0 is a wrapping delta of +1, not an overflow
    let px = vec![Pixel::rgba(255, 10, 10, 255), Pixel::rgba(0, 10, 10, 255)];
    let chunks = encode_to_chunks(px);
    assert_eq!(chunks[1], QoiChunk::new_diff(1, 0, 0));
}

#[test]
fn index_hit_beats_diff() {
    // the third pixel equals the first, so its slot matches: INDEX is chosen
    // although the delta from (3,3,3) would also fit DIFF
    let a = Pixel::rgba(2, 2, 2, 255);
    let b = Pixel::rgba(3, 3, 3, 255);
    let px = vec![a, b, a];
    let chunks = encode_to_chunks(px);
    assert_eq!(chunks[2], QoiChunk::new_index(a.pixel_hash()));
}

#[test]
fn no_two_consecutive_index_chunks_to_the_same_slot() {
    // alternate two pixels whose hashes collide less than the table size;
    // whatever the input, adjacent chunks never name the same index slot
    let a = Pixel::rgba(2, 2, 2, 255);
    let b = Pixel::rgba(3, 3, 3, 255);
    let mut px = vec![];
    for _ in 0..8 {
        px.push(a);
        px.push(b);
    }
    let chunks = encode_to_chunks(px);
    for w in chunks.windows(2) {
        if let (QoiChunk::Index { idx: i }, QoiChunk::Index { idx: j }) = (&w[0], &w[1]) {
            assert_ne!(i, j);
        }
    }
}

#[test]
fn runs_always_carry_1_to_62() {
    let a = Pixel::rgba(9, 9, 9, 255);
    let b = Pixel::rgba(1, 1, 1, 255);
    let mut px = vec![];
    for k in 0..200 {
        px.push(if k % 70 == 0 { b } else { a });
    }
    for c in encode_to_chunks(px) {
        if let QoiChunk::Run { run } = c {
            assert!((1..=62).contains(&run));
        }
    }
}

#[test]
fn chunk_encoder_pulls_one_chunk_at_a_time() {
    let px = vec![Pixel::rgba(1, 0, 0, 255), Pixel::rgba(2, 1, 1, 255)];
    let mut enc = arqoii::QoiChunkEncoder::new(px);
    assert_eq!(enc.next(), Some(QoiChunk::new_diff(1, 0, 0)));
    assert_eq!(enc.next(), Some(QoiChunk::new_diff(1, 1, 1)));
    assert_eq!(enc.next(), None);
    assert_eq!(enc.next(), None);
}
