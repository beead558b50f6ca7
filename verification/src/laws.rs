//! The laws of the codec: what the encoder guarantees about its chunk
//! stream, and the round-trip theorems at the chunk, byte and stream layer.

use vstd::prelude::*;

use crate::chunk::{
    chunk_bytes, chunk_wf, chunks_all_wf, chunks_bytes, footer_bytes, footer_tail,
    lemma_chunk_bytes_shape, QoiChunk,
};
use crate::decode::{
    badd, dec_chunk_pixels, dec_chunk_state, dec_chunks, dec_pixels, decode_stream, lemma_wf_cons,
};
use crate::encode::{
    apply_pixel, choose_chunk, enc_from, encode_chunks, encode_stream, sdelta, swrap,
};
use crate::header::{
    header_bytes, lemma_header_round_trip, lemma_parse_header_prefix, parse_header, QoiHeader,
};
use crate::pixel::{hash_of, init_coder, CoderView, Pixel};

verus! {

/// Serializing one well-formed chunk and decoding it in front of any
/// remaining bytes gives the chunk back and leaves the rest to decode.
///
/// The one condition beyond well-formedness covers the footer ambiguity: an
/// `Index { idx: 0 }` chunk must not be followed by the seven-byte footer
/// tail, or the decoder would take it for the end of the stream.
pub proof fn lemma_dec_one_chunk(c: QoiChunk, rest: Seq<u8>)
    requires
        chunk_wf(c),
        c == (QoiChunk::Index { idx: 0u8 }) ==> !(rest.len() >= 7 && rest.take(7)
            == footer_tail()),
    ensures
        dec_chunks(chunk_bytes(c) + rest) == seq![c] + dec_chunks(rest),
{
    let bytes = chunk_bytes(c) + rest;
    lemma_chunk_bytes_shape(c);
    match c {
        QoiChunk::Rgba { r, g, b, a } => {
            assert(bytes.skip(5) =~= rest);
            assert(dec_chunks(bytes) =~= seq![c] + dec_chunks(rest));
        },
        QoiChunk::Rgb { r, g, b } => {
            assert(bytes.skip(4) =~= rest);
            assert(dec_chunks(bytes) =~= seq![c] + dec_chunks(rest));
        },
        QoiChunk::Index { idx } => {
            assert(bytes.skip(1) =~= rest);
            if idx == 0 {
                if bytes.len() >= 8 && bytes.subrange(1, 8) == footer_tail() {
                    assert(rest.take(7) =~= bytes.subrange(1, 8));
                    assert(false);
                }
            }
            assert(dec_chunks(bytes) =~= seq![c] + dec_chunks(rest));
        },
        QoiChunk::Diff { dr, dg, db } => {
            let b0 = bytes[0];
            assert(b0 == 64 + (dr + 2) * 16 + (dg + 2) * 4 + (db + 2));
            let v = b0 - 64;
            assert(v == (dr + 2) * 16 + (dg + 2) * 4 + (db + 2));
            assert(v / 16 == dr + 2 && (v / 4) % 4 == dg + 2 && v % 4 == db + 2)
                by (nonlinear_arith)
                requires
                    v == (dr + 2) * 16 + (dg + 2) * 4 + (db + 2),
                    0 <= dr + 2 <= 3,
                    0 <= dg + 2 <= 3,
                    0 <= db + 2 <= 3,
            ;
            assert(bytes.skip(1) =~= rest);
            assert(dec_chunks(bytes) =~= seq![c] + dec_chunks(rest));
        },
        QoiChunk::Luma { dg, dr_dg, db_dg } => {
            let b0 = bytes[0];
            let b1 = bytes[1];
            assert(b0 == 160 + dg);
            assert(b1 == (dr_dg + 8) * 16 + (db_dg + 8));
            assert(b1 / 16 == dr_dg + 8 && b1 % 16 == db_dg + 8) by (nonlinear_arith)
                requires
                    b1 == (dr_dg + 8) * 16 + (db_dg + 8),
                    0 <= dr_dg + 8 <= 15,
                    0 <= db_dg + 8 <= 15,
            ;
            assert(bytes.skip(2) =~= rest);
            assert(dec_chunks(bytes) =~= seq![c] + dec_chunks(rest));
        },
        QoiChunk::Run { run } => {
            assert(bytes.skip(1) =~= rest);
            assert(dec_chunks(bytes) =~= seq![c] + dec_chunks(rest));
        },
    }
}

/// No chunk of `cs` is an `Index` chunk directly followed by an `Index`
/// chunk referring to the same slot.
pub open spec fn no_adjacent_same_index(cs: Seq<QoiChunk>) -> bool {
    forall|k: int|
        0 <= k < cs.len() - 1 ==> !((#[trigger] cs[k]) is Index && cs[k + 1] is Index
            && cs[k]->Index_idx == cs[k + 1]->Index_idx)
}

/// Chunk-layer round trip: serializing a well-formed chunk sequence with no
/// two adjacent `Index { idx: 0 }` chunks, followed by any suffix that a
/// trailing `Index { idx: 0 }` cannot mistake for the footer, decodes back
/// to the same chunks followed by whatever the suffix decodes to.
pub proof fn lemma_chunks_bytes_round_trip(cs: Seq<QoiChunk>, suffix: Seq<u8>)
    requires
        chunks_all_wf(cs),
        no_adjacent_same_index(cs),
        (cs.len() > 0 && cs.last() == (QoiChunk::Index { idx: 0u8 })) ==> !(suffix.len() >= 7
            && suffix.take(7) == footer_tail()),
    ensures
        dec_chunks(chunks_bytes(cs) + suffix) == cs + dec_chunks(suffix),
    decreases cs.len(),
{
    if cs.len() == 0 {
        assert(chunks_bytes(cs) + suffix =~= suffix);
        assert(cs + dec_chunks(suffix) =~= dec_chunks(suffix));
    } else {
        let c = cs[0];
        let cs1 = cs.skip(1);
        let rest = chunks_bytes(cs1) + suffix;
        assert(chunks_bytes(cs) == chunk_bytes(c) + chunks_bytes(cs1));
        // the tail still satisfies every hypothesis
        assert(chunks_all_wf(cs1)) by {
            assert(forall|k: int| 0 <= k < cs1.len() ==> cs1[k] == cs[k + 1]);
        }
        assert(no_adjacent_same_index(cs1)) by {
            assert(forall|k: int| 0 <= k < cs1.len() ==> cs1[k] == cs[k + 1]);
        }
        if cs1.len() > 0 {
            assert(cs1.last() == cs.last());
        } else {
            assert(cs.last() == c);
        }
        lemma_chunks_bytes_round_trip(cs1, suffix);
        // the guard of the head chunk against the footer tail
        if c == (QoiChunk::Index { idx: 0u8 }) {
            if rest.len() >= 7 && rest.take(7) == footer_tail() {
                if cs1.len() > 0 {
                    lemma_chunk_bytes_shape(cs1[0]);
                    assert(chunks_bytes(cs1) == chunk_bytes(cs1[0]) + chunks_bytes(cs1.skip(1)));
                    assert(rest[0] == chunk_bytes(cs1[0])[0]);
                    assert(!(cs1[0] is Index && cs1[0]->Index_idx == 0)) by {
                        assert(cs[0] is Index && cs[0]->Index_idx == 0);
                        assert(0 <= 0 < cs.len() - 1);
                    }
                    assert(rest[0] != 0);
                    assert(rest.take(7)[0] == rest[0]);
                    assert(footer_tail()[0] == 0);
                    assert(false);
                } else {
                    assert(rest =~= suffix);
                    assert(false);
                }
            }
        }
        lemma_dec_one_chunk(c, rest);
        assert(chunks_bytes(cs) + suffix =~= chunk_bytes(c) + rest);
        assert(seq![c] + (cs1 + dec_chunks(suffix)) =~= cs + dec_chunks(suffix));
    }
}

/// Every chunk the encoder emits from a legal state respects the payload
/// ranges; in particular every Run chunk carries a length in `1..=62`.
pub proof fn lemma_enc_from_wf(s: CoderView, px: Seq<Pixel>)
    requires
        s.run <= 61,
        s.index.len() == 64,
    ensures
        chunks_all_wf(enc_from(s, px)),
    decreases px.len(), (if s.run > 0 {
        1int
    } else {
        0int
    }),
{
    if px.len() == 0 {
        if s.run > 0 {
            lemma_wf_cons(QoiChunk::Run { run: s.run as u8 }, Seq::empty());
            assert(enc_from(s, px) =~= seq![QoiChunk::Run { run: s.run as u8 }] + Seq::empty());
        }
    } else {
        let p = px[0];
        if p == s.previous {
            let index1 = if s.run == 0 {
                s.index.update(hash_of(p), p)
            } else {
                s.index
            };
            if s.run + 1 == 62 {
                let s1 = CoderView { previous: s.previous, index: index1, run: 0 };
                lemma_enc_from_wf(s1, px.skip(1));
                lemma_wf_cons(QoiChunk::Run { run: 62u8 }, enc_from(s1, px.skip(1)));
            } else {
                let s1 = CoderView { previous: s.previous, index: index1, run: s.run + 1 };
                lemma_enc_from_wf(s1, px.skip(1));
            }
        } else if s.run > 0 {
            let s0 = CoderView { previous: s.previous, index: s.index, run: 0 };
            lemma_enc_from_wf(s0, px);
            lemma_wf_cons(QoiChunk::Run { run: s.run as u8 }, enc_from(s0, px));
        } else {
            assert(chunk_wf(choose_chunk(s, p)));
            lemma_enc_from_wf(apply_pixel(s, p), px.skip(1));
            lemma_wf_cons(choose_chunk(s, p), enc_from(apply_pixel(s, p), px.skip(1)));
        }
    }
}

/// From a state whose index table holds the previous pixel in its slot, the
/// first chunk the encoder emits never refers to that slot by `Index`: the
/// pixel there would equal `previous`, and equal pixels are coalesced into
/// runs instead.
proof fn lemma_enc_from_head_index(s: CoderView, px: Seq<Pixel>)
    requires
        s.run <= 61,
        s.index.len() == 64,
        s.index[hash_of(s.previous)] == s.previous,
    ensures
        enc_from(s, px).len() > 0 && enc_from(s, px)[0] is Index ==> enc_from(
            s,
            px,
        )[0]->Index_idx as int != hash_of(s.previous),
    decreases px.len(), (if s.run > 0 {
        1int
    } else {
        0int
    }),
{
    if px.len() == 0 {
    } else {
        let p = px[0];
        if p == s.previous {
            if s.run + 1 == 62 {
            } else {
                let index1 = if s.run == 0 {
                    s.index.update(hash_of(p), p)
                } else {
                    s.index
                };
                let s1 = CoderView { previous: s.previous, index: index1, run: s.run + 1 };
                lemma_enc_from_head_index(s1, px.skip(1));
            }
        } else if s.run > 0 {
        } else {
            if s.index[hash_of(p)] == p && hash_of(p) == hash_of(s.previous) {
                assert(p == s.previous);
                assert(false);
            }
        }
    }
}

/// `seq![c] + rest` has no adjacent same-slot Index pair when `rest` has
/// none and `c` does not form one with the head of `rest`.
proof fn lemma_adjacent_cons(c: QoiChunk, rest: Seq<QoiChunk>)
    requires
        no_adjacent_same_index(rest),
        rest.len() > 0 ==> !(c is Index && rest[0] is Index && c->Index_idx
            == rest[0]->Index_idx),
    ensures
        no_adjacent_same_index(seq![c] + rest),
{
    let cs = seq![c] + rest;
    assert forall|k: int|
        0 <= k < cs.len() - 1 implies !((#[trigger] cs[k]) is Index && cs[k + 1] is Index
        && cs[k]->Index_idx == cs[k + 1]->Index_idx) by {
        if k == 0 {
            assert(cs[0] == c);
            if rest.len() > 0 {
                assert(cs[1] == rest[0]);
            }
        } else {
            assert(cs[k] == rest[k - 1]);
            assert(cs[k + 1] == rest[k]);
            assert(!(rest[k - 1] is Index && rest[k] is Index && rest[k - 1]->Index_idx
                == rest[k]->Index_idx));
        }
    }
}

/// The encoder never emits two adjacent Index chunks referring to the same
/// slot: right after an Index chunk the referenced slot holds the new
/// `previous`, and a pixel equal to `previous` opens a run instead.
pub proof fn lemma_enc_from_no_adjacent(s: CoderView, px: Seq<Pixel>)
    requires
        s.run <= 61,
        s.index.len() == 64,
    ensures
        no_adjacent_same_index(enc_from(s, px)),
    decreases px.len(), (if s.run > 0 {
        1int
    } else {
        0int
    }),
{
    if px.len() == 0 {
        assert(no_adjacent_same_index(enc_from(s, px)));
    } else {
        let p = px[0];
        if p == s.previous {
            let index1 = if s.run == 0 {
                s.index.update(hash_of(p), p)
            } else {
                s.index
            };
            if s.run + 1 == 62 {
                let s1 = CoderView { previous: s.previous, index: index1, run: 0 };
                lemma_enc_from_no_adjacent(s1, px.skip(1));
                lemma_adjacent_cons(QoiChunk::Run { run: 62u8 }, enc_from(s1, px.skip(1)));
            } else {
                let s1 = CoderView { previous: s.previous, index: index1, run: s.run + 1 };
                lemma_enc_from_no_adjacent(s1, px.skip(1));
            }
        } else if s.run > 0 {
            let s0 = CoderView { previous: s.previous, index: s.index, run: 0 };
            lemma_enc_from_no_adjacent(s0, px);
            lemma_adjacent_cons(QoiChunk::Run { run: s.run as u8 }, enc_from(s0, px));
        } else {
            let c = choose_chunk(s, p);
            let s1 = apply_pixel(s, p);
            lemma_enc_from_no_adjacent(s1, px.skip(1));
            if c is Index {
                assert(s1.index[hash_of(s1.previous)] == s1.previous);
                lemma_enc_from_head_index(s1, px.skip(1));
                assert(c->Index_idx as int == hash_of(p));
            }
            lemma_adjacent_cons(c, enc_from(s1, px.skip(1)));
        }
    }
}

/// Adding to a channel value a delta congruent to the channel difference
/// modulo 256 restores the target value.
proof fn lemma_badd_delta(y: u8, d: int, x: u8)
    requires
        -256 <= d <= 255,
        d == x - y || d == x - y + 256 || d == x - y - 256 || d == x - y + 512 || d == x - y
            - 512,
    ensures
        badd(y, d) == x,
{
}

/// The relation between the encoder's and the decoder's coder state in the
/// middle of a stream: the same previous pixel and the same index table —
/// except that while a run is open the encoder has already written the
/// running pixel into its slot, which the decoder will only do on receiving
/// the Run chunk.
pub open spec fn coders_agree(se: CoderView, sd: CoderView) -> bool {
    &&& se.index.len() == 64
    &&& sd.index.len() == 64
    &&& se.run <= 61
    &&& sd.run == 0
    &&& se.previous == sd.previous
    &&& (se.run == 0 ==> se.index == sd.index)
    &&& (se.run > 0 ==> se.index == sd.index.update(hash_of(se.previous), se.previous))
}

/// Decoding the chunk chosen for one pixel reproduces exactly that pixel,
/// and drives the decoder's state to the encoder's.
proof fn lemma_choose_chunk_dec(s: CoderView, p: Pixel)
    requires
        s.index.len() == 64,
        p != s.previous,
    ensures
        dec_chunk_pixels(s, choose_chunk(s, p)) == seq![p],
        dec_chunk_state(s, choose_chunk(s, p)) == apply_pixel(s, p),
{
    let c = choose_chunk(s, p);
    let prev = s.previous;
    if s.index[hash_of(p)] == p {
        assert(c->Index_idx as int == hash_of(p));
        assert(dec_chunk_pixels(s, c) =~= seq![p]);
        assert(dec_chunk_state(s, c).index =~= apply_pixel(s, p).index);
    } else if p.a == prev.a {
        let dr = sdelta(p.r, prev.r);
        let dg = sdelta(p.g, prev.g);
        let db = sdelta(p.b, prev.b);
        if -2 <= dr <= 1 && -2 <= dg <= 1 && -2 <= db <= 1 {
            lemma_badd_delta(prev.r, dr, p.r);
            lemma_badd_delta(prev.g, dg, p.g);
            lemma_badd_delta(prev.b, db, p.b);
            assert(dec_chunk_pixels(s, c) =~= seq![p]);
        } else {
            let dr_dg = swrap(dr - dg);
            let db_dg = swrap(db - dg);
            if -32 <= dg <= 31 && -8 <= dr_dg <= 7 && -8 <= db_dg <= 7 {
                lemma_badd_delta(prev.r, dr_dg + dg, p.r);
                lemma_badd_delta(prev.g, dg, p.g);
                lemma_badd_delta(prev.b, db_dg + dg, p.b);
                assert(dec_chunk_pixels(s, c) =~= seq![p]);
            } else {
                assert(dec_chunk_pixels(s, c) =~= seq![p]);
            }
        }
    } else {
        assert(dec_chunk_pixels(s, c) =~= seq![p]);
    }
    assert(dec_chunk_state(s, c).previous == p);
    if !(c is Index) {
        assert(dec_chunk_state(s, c).index =~= apply_pixel(s, p).index);
    }
    assert(dec_chunk_state(s, c) =~= apply_pixel(s, p));
}

/// Decoding `seq![c] + tail` is decoding `c` and then the tail from the
/// updated state.
proof fn lemma_dec_pixels_cons(sd: CoderView, c: QoiChunk, tail: Seq<QoiChunk>)
    ensures
        dec_pixels(sd, seq![c] + tail) == dec_chunk_pixels(sd, c) + dec_pixels(
            dec_chunk_state(sd, c),
            tail,
        ),
{
    let cs = seq![c] + tail;
    assert(cs[0] == c);
    assert(cs.skip(1) =~= tail);
}

/// Decoding a Run chunk replays the previous pixel and refreshes its index
/// slot.
proof fn lemma_dec_run(sd: CoderView, n: u8)
    requires
        1 <= n,
    ensures
        dec_chunk_pixels(sd, QoiChunk::Run { run: n }) == Seq::new(n as nat, |i: int| sd.previous),
        dec_chunk_state(sd, QoiChunk::Run { run: n }) == (CoderView {
            previous: sd.previous,
            index: sd.index.update(hash_of(sd.previous), sd.previous),
            run: 0,
        }),
{
    let c = QoiChunk::Run { run: n };
    assert(dec_chunk_pixels(sd, c).last() == sd.previous);
}

/// The copies of a pixel owed by a run absorb one more copy of that pixel.
proof fn lemma_owed_shift(n: nat, p: Pixel, rest: Seq<Pixel>)
    ensures
        Seq::new(n, |i: int| p) + (seq![p] + rest) == Seq::new(n + 1, |i: int| p) + rest,
{
    assert(Seq::new(n, |i: int| p) + (seq![p] + rest) =~= Seq::new(n + 1, |i: int| p) + rest);
}

/// Chunk-level round trip: decoding the chunks the encoder emits for the
/// remaining pixels yields exactly those pixels, preceded by the copies of
/// `previous` still owed by an open run.
pub proof fn lemma_enc_dec(se: CoderView, sd: CoderView, px: Seq<Pixel>)
    requires
        coders_agree(se, sd),
    ensures
        dec_pixels(sd, enc_from(se, px)) == Seq::new(se.run, |i: int| se.previous) + px,
    decreases px.len(), (if se.run > 0 {
        1int
    } else {
        0int
    }),
{
    let prev = se.previous;
    let owed = Seq::new(se.run, |i: int| prev);
    if px.len() == 0 {
        if se.run > 0 {
            let c = QoiChunk::Run { run: se.run as u8 };
            assert(enc_from(se, px) =~= seq![c] + Seq::<QoiChunk>::empty());
            lemma_dec_pixels_cons(sd, c, Seq::empty());
            lemma_dec_run(sd, se.run as u8);
            assert(dec_pixels(sd, enc_from(se, px)) =~= owed + px);
        } else {
            assert(enc_from(se, px) =~= Seq::<QoiChunk>::empty());
            assert(owed + px =~= Seq::<Pixel>::empty());
        }
    } else {
        let p = px[0];
        let rest = px.skip(1);
        assert(px =~= seq![p] + rest);
        if p == prev {
            let index1 = if se.run == 0 {
                se.index.update(hash_of(p), p)
            } else {
                se.index
            };
            if se.run + 1 == 62 {
                let c = QoiChunk::Run { run: 62u8 };
                let se1 = CoderView { previous: prev, index: index1, run: 0 };
                let tail = enc_from(se1, rest);
                assert(enc_from(se, px) == seq![c] + tail);
                lemma_dec_pixels_cons(sd, c, tail);
                lemma_dec_run(sd, 62u8);
                let sd1 = dec_chunk_state(sd, c);
                assert(coders_agree(se1, sd1)) by {
                    assert(se1.index =~= sd1.index);
                }
                lemma_enc_dec(se1, sd1, rest);
                assert(Seq::new(0nat, |i: int| prev) + rest =~= rest);
                lemma_owed_shift(se.run, prev, rest);
                assert(dec_pixels(sd, enc_from(se, px)) == owed + px);
            } else {
                let se1 = CoderView { previous: prev, index: index1, run: se.run + 1 };
                assert(enc_from(se, px) == enc_from(se1, rest));
                assert(coders_agree(se1, sd)) by {
                    assert(se1.index =~= sd.index.update(hash_of(prev), prev));
                }
                lemma_enc_dec(se1, sd, rest);
                lemma_owed_shift(se.run, prev, rest);
                assert(dec_pixels(sd, enc_from(se, px)) == owed + px);
            }
        } else if se.run > 0 {
            let c = QoiChunk::Run { run: se.run as u8 };
            let se0 = CoderView { previous: prev, index: se.index, run: 0 };
            let tail = enc_from(se0, px);
            assert(enc_from(se, px) == seq![c] + tail);
            lemma_dec_pixels_cons(sd, c, tail);
            lemma_dec_run(sd, se.run as u8);
            let sd1 = dec_chunk_state(sd, c);
            assert(coders_agree(se0, sd1)) by {
                assert(se0.index =~= sd1.index);
            }
            lemma_enc_dec(se0, sd1, px);
            assert(Seq::new(0nat, |i: int| prev) + px =~= px);
            assert(dec_pixels(sd, enc_from(se, px)) == owed + px);
        } else {
            let c = choose_chunk(se, p);
            let se1 = apply_pixel(se, p);
            let tail = enc_from(se1, rest);
            assert(enc_from(se, px) == seq![c] + tail);
            assert(se =~= sd);
            lemma_dec_pixels_cons(sd, c, tail);
            lemma_choose_chunk_dec(sd, p);
            let sd1 = dec_chunk_state(sd, c);
            assert(coders_agree(se1, sd1)) by {
                assert(se1 =~= sd1);
            }
            lemma_enc_dec(se1, sd1, rest);
            assert(Seq::new(0nat, |i: int| se1.previous) + rest =~= rest);
            assert(seq![p] + rest =~= px);
            assert(dec_pixels(sd, enc_from(se, px)) == owed + px) by {
                assert(owed + px =~= seq![p] + rest);
            }
        }
    }
}

/// Round trip: decoding the encoding of any header and pixel sequence gives
/// the header and the pixels back unchanged.
pub proof fn lemma_round_trip(h: QoiHeader, px: Seq<Pixel>)
    ensures
        decode_stream(encode_stream(h, px)) == Some((h, px)),
{
    let cs = encode_chunks(px);
    let body = chunks_bytes(cs) + footer_bytes();
    let bytes = encode_stream(h, px);
    assert(bytes =~= header_bytes(h) + body);
    assert(header_bytes(h).len() == 14);
    lemma_parse_header_prefix(header_bytes(h), body);
    lemma_header_round_trip(h, Seq::empty());
    assert(parse_header(bytes) == Some(h));
    assert(bytes.skip(14) =~= body);
    assert(init_coder().index.len() == 64);
    lemma_enc_from_wf(init_coder(), px);
    lemma_enc_from_no_adjacent(init_coder(), px);
    assert(!(footer_bytes().len() >= 7 && footer_bytes().take(7) == footer_tail())) by {
        assert(footer_bytes().take(7)[6] == 0);
        assert(footer_tail()[6] == 1);
    }
    lemma_chunks_bytes_round_trip(cs, footer_bytes());
    assert(dec_chunks(footer_bytes()) =~= Seq::<QoiChunk>::empty()) by {
        assert(footer_bytes().subrange(1, 8) =~= footer_tail());
    }
    assert(dec_chunks(body) =~= cs);
    lemma_enc_dec(init_coder(), init_coder(), px);
    assert(Seq::new(0nat, |i: int| init_coder().previous) + px =~= px);
    assert(decode_stream(bytes) == Some((h, px)));
}

/// Chunk-layer round trip for the encoder's own stream: re-serializing the
/// chunks the encoder emits and feeding them to the chunk decoder
/// reproduces the same chunks.
pub proof fn lemma_encoder_chunk_stream_round_trip(px: Seq<Pixel>)
    ensures
        dec_chunks(chunks_bytes(encode_chunks(px))) == encode_chunks(px),
{
    let cs = encode_chunks(px);
    assert(init_coder().index.len() == 64);
    lemma_enc_from_wf(init_coder(), px);
    lemma_enc_from_no_adjacent(init_coder(), px);
    lemma_chunks_bytes_round_trip(cs, Seq::empty());
    assert(chunks_bytes(cs) + Seq::<u8>::empty() =~= chunks_bytes(cs));
    assert(cs + dec_chunks(Seq::<u8>::empty()) =~= cs);
}

/// The encoder never emits two consecutive Index chunks referring to the
/// same slot.
pub proof fn lemma_encoder_no_consecutive_index(px: Seq<Pixel>)
    ensures
        no_adjacent_same_index(encode_chunks(px)),
{
    lemma_enc_from_no_adjacent(init_coder(), px);
}

/// The encoder never emits a Run chunk whose length lies outside `1..=62`.
pub proof fn lemma_encoder_run_in_range(px: Seq<Pixel>)
    ensures
        forall|k: int|
            0 <= k < encode_chunks(px).len() && (#[trigger] encode_chunks(px)[k]) is Run ==> 1
                <= encode_chunks(px)[k]->Run_run <= 62,
{
    lemma_enc_from_wf(init_coder(), px);
}

/// The number of pixels a chunk stream stands for: a Run chunk counts its
/// run length, every other chunk one pixel.
pub open spec fn chunk_pixel_count(cs: Seq<QoiChunk>) -> nat
    decreases cs.len(),
{
    if cs.len() == 0 {
        0
    } else {
        (match cs[0] {
            QoiChunk::Run { run } => run as nat,
            _ => 1nat,
        }) + chunk_pixel_count(cs.skip(1))
    }
}

/// Decoding yields exactly as many pixels as the chunk stream implies.
pub proof fn lemma_decoded_pixel_count(s: CoderView, cs: Seq<QoiChunk>)
    ensures
        dec_pixels(s, cs).len() == chunk_pixel_count(cs),
    decreases cs.len(),
{
    if cs.len() == 0 {
    } else {
        lemma_decoded_pixel_count(dec_chunk_state(s, cs[0]), cs.skip(1));
        match cs[0] {
            QoiChunk::Run { run } => {
                assert(dec_chunk_pixels(s, cs[0]).len() == run as nat);
            },
            _ => {
                assert(dec_chunk_pixels(s, cs[0]).len() == 1);
            },
        }
    }
}

} // verus!
