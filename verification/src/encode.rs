//! The chunk encoder: a pull-based transformer from pixels to chunks, with
//! run-length coalescing and the per-pixel choice among the six chunk kinds.

use vstd::prelude::*;

use crate::chunk::{chunk_bytes, chunk_wf, chunks_bytes, footer_bytes, ChunkBuf, QoiChunk};
use crate::header::{header_bytes, QoiHeader};
use crate::pixel::{hash_of, init_coder, state_wf, CoderState, CoderView, Pixel};

verus! {

/// The signed 8-bit representative of `x`, for `x` in `-256..=255`: the value
/// in `-128..=127` congruent to `x` modulo 256.
pub open spec fn swrap(x: int) -> int {
    if x > 127 {
        x - 256
    } else if x < -128 {
        x + 256
    } else {
        x
    }
}

/// The wrapping channel delta `new - old`, interpreted as signed 8-bit.
pub open spec fn sdelta(new: u8, old: u8) -> int {
    swrap(new - old)
}

/// Compute the wrapping channel delta executably.
fn delta_i8(new: u8, old: u8) -> (d: i8)
    ensures
        d as int == sdelta(new, old),
{
    let w: u8 = new.wrapping_sub(old);
    if w < 128 {
        w as i8
    } else {
        ((w as i16) - 256) as i8
    }
}

/// The chunk the encoder chooses for a single pixel `p` that ends no run:
/// an index hit wins, then a small delta (`Diff`), then a luma delta, then
/// plain `Rgb` — the last three only when the alpha channel is unchanged,
/// else `Rgba`.
pub open spec fn choose_chunk(s: CoderView, p: Pixel) -> QoiChunk {
    if s.index[hash_of(p)] == p {
        QoiChunk::Index { idx: hash_of(p) as u8 }
    } else if p.a == s.previous.a {
        let dr = sdelta(p.r, s.previous.r);
        let dg = sdelta(p.g, s.previous.g);
        let db = sdelta(p.b, s.previous.b);
        if -2 <= dr <= 1 && -2 <= dg <= 1 && -2 <= db <= 1 {
            QoiChunk::Diff { dr: dr as i8, dg: dg as i8, db: db as i8 }
        } else {
            let dr_dg = swrap(dr - dg);
            let db_dg = swrap(db - dg);
            if -32 <= dg <= 31 && -8 <= dr_dg <= 7 && -8 <= db_dg <= 7 {
                QoiChunk::Luma { dg: dg as i8, dr_dg: dr_dg as i8, db_dg: db_dg as i8 }
            } else {
                QoiChunk::Rgb { r: p.r, g: p.g, b: p.b }
            }
        }
    } else {
        QoiChunk::Rgba { r: p.r, g: p.g, b: p.b, a: p.a }
    }
}

/// The state after emitting a chunk for pixel `p`: `p` becomes the previous
/// pixel and takes its slot in the index table.
pub open spec fn apply_pixel(s: CoderView, p: Pixel) -> CoderView {
    CoderView { previous: p, index: s.index.update(hash_of(p), p), run: 0 }
}

/// The chunk sequence the encoder emits from state `s` for the remaining
/// pixels `px`.
///
/// A pixel equal to `previous` extends the current run; a run reaching 62 is
/// emitted at once. The first pixel of a run is written into the index table
/// (a no-op except at the very start of the stream, where the table does not
/// yet hold the starting pixel). A differing pixel first flushes any pending
/// run, then gets the chunk of [`choose_chunk`]; exhausted input flushes the
/// pending run.
pub open spec fn enc_from(s: CoderView, px: Seq<Pixel>) -> Seq<QoiChunk>
    decreases px.len(), (if s.run > 0 {
        1int
    } else {
        0int
    }),
{
    if px.len() == 0 {
        if s.run > 0 {
            seq![QoiChunk::Run { run: s.run as u8 }]
        } else {
            Seq::empty()
        }
    } else {
        let p = px[0];
        if p == s.previous {
            let index1 = if s.run == 0 {
                s.index.update(hash_of(p), p)
            } else {
                s.index
            };
            if s.run + 1 == 62 {
                seq![QoiChunk::Run { run: 62u8 }] + enc_from(
                    CoderView { previous: s.previous, index: index1, run: 0 },
                    px.skip(1),
                )
            } else {
                enc_from(
                    CoderView { previous: s.previous, index: index1, run: s.run + 1 },
                    px.skip(1),
                )
            }
        } else if s.run > 0 {
            seq![QoiChunk::Run { run: s.run as u8 }] + enc_from(
                CoderView { previous: s.previous, index: s.index, run: 0 },
                px,
            )
        } else {
            seq![choose_chunk(s, p)] + enc_from(apply_pixel(s, p), px.skip(1))
        }
    }
}

/// The full chunk sequence for a pixel sequence, from the initial state.
pub open spec fn encode_chunks(px: Seq<Pixel>) -> Seq<QoiChunk> {
    enc_from(init_coder(), px)
}

/// An encoder for encoding pixels into chunks, pulled one chunk at a time.
pub struct QoiChunkEncoder {
    state: CoderState,
    pixels: Vec<Pixel>,
    pos: usize,
    emitted: Ghost<Seq<QoiChunk>>,
}

impl QoiChunkEncoder {
    /// The pixel sequence this encoder was created over.
    pub closed spec fn source(self) -> Seq<Pixel> {
        self.pixels@
    }

    /// The chunks handed out so far.
    pub closed spec fn emitted(self) -> Seq<QoiChunk> {
        self.emitted@
    }

    /// The chunks not yet handed out.
    pub closed spec fn pending(self) -> Seq<QoiChunk> {
        enc_from(self.state@, self.pixels@.skip(self.pos as int))
    }

    pub closed spec fn wf(self) -> bool {
        &&& state_wf(self.state@)
        &&& self.pos <= self.pixels@.len()
        &&& encode_chunks(self.pixels@) == self.emitted@ + enc_from(
            self.state@,
            self.pixels@.skip(self.pos as int),
        )
    }

    pub fn new(pixels: Vec<Pixel>) -> (enc: QoiChunkEncoder)
        ensures
            enc.wf(),
            enc.source() == pixels@,
            enc.emitted() == Seq::<QoiChunk>::empty(),
    {
        let enc = QoiChunkEncoder {
            state: CoderState::default(),
            pixels,
            pos: 0,
            emitted: Ghost(Seq::empty()),
        };
        proof {
            assert(enc.pixels@.skip(0) =~= enc.pixels@);
            assert(encode_chunks(enc.pixels@) =~= enc.emitted@ + enc_from(
                enc.state@,
                enc.pixels@,
            ));
        }
        enc
    }

    /// Pull the next chunk. `None` means the pixel sequence is exhausted and
    /// every chunk of [`encode_chunks`] has been handed out, in order.
    pub fn next(&mut self) -> (r: Option<QoiChunk>)
        requires
            old(self).wf(),
        ensures
            final(self).wf(),
            final(self).source() == old(self).source(),
            match r {
                Some(c) => {
                    &&& final(self).emitted() == old(self).emitted().push(c)
                    &&& old(self).pending() == seq![c] + final(self).pending()
                    &&& chunk_wf(c)
                },
                None => {
                    &&& final(self).emitted() == old(self).emitted()
                    &&& final(self).pending() == Seq::<QoiChunk>::empty()
                    &&& final(self).emitted() == encode_chunks(old(self).source())
                },
            },
    {
        loop
            invariant
                state_wf(self.state@),
                self.pos <= self.pixels@.len(),
                encode_chunks(self.pixels@) == self.emitted@ + enc_from(
                    self.state@,
                    self.pixels@.skip(self.pos as int),
                ),
                self.pixels@ == old(self).pixels@,
                self.emitted@ == old(self).emitted@,
                enc_from(self.state@, self.pixels@.skip(self.pos as int)) == old(self).pending(),
            decreases self.pixels@.len() - self.pos,
        {
            let ghost s0 = self.state@;
            let ghost rem0 = self.pixels@.skip(self.pos as int);
            if self.pos == self.pixels.len() {
                proof {
                    assert(rem0 =~= Seq::<Pixel>::empty());
                }
                if self.state.run > 0 {
                    let run = self.state.run;
                    self.state.run = 0;
                    let c = QoiChunk::Run { run };
                    proof {
                        assert(enc_from(s0, rem0) =~= seq![c] + enc_from(
                            self.state@,
                            self.pixels@.skip(self.pos as int),
                        ));
                        assert(self.emitted@ + enc_from(s0, rem0) =~= self.emitted@.push(c)
                            + enc_from(self.state@, self.pixels@.skip(self.pos as int)));
                    }
                    self.emitted = Ghost(self.emitted@.push(c));
                    return Some(c);
                } else {
                    proof {
                        assert(enc_from(s0, rem0) =~= Seq::<QoiChunk>::empty());
                        assert(encode_chunks(self.pixels@) =~= self.emitted@);
                    }
                    return None;
                }
            }
            let p = self.pixels[self.pos];
            proof {
                assert(rem0[0] == p);
                assert(rem0.skip(1) =~= self.pixels@.skip(self.pos as int + 1));
            }
            if p == self.state.previous {
                self.pos = self.pos + 1;
                self.state.run = self.state.run + 1;
                if self.state.run == 62 {
                    self.state.run = 0;
                    let c = QoiChunk::Run { run: 62 };
                    proof {
                        assert(enc_from(s0, rem0) =~= seq![c] + enc_from(
                            self.state@,
                            self.pixels@.skip(self.pos as int),
                        ));
                        assert(self.emitted@ + enc_from(s0, rem0) =~= self.emitted@.push(c)
                            + enc_from(self.state@, self.pixels@.skip(self.pos as int)));
                    }
                    self.emitted = Ghost(self.emitted@.push(c));
                    return Some(c);
                }
                if self.state.run == 1 {
                    let idx = p.pixel_hash();
                    self.state.index[idx as usize] = p;
                }
                proof {
                    assert(enc_from(s0, rem0) =~= enc_from(
                        self.state@,
                        self.pixels@.skip(self.pos as int),
                    ));
                }
            } else {
                if self.state.run > 0 {
                    let run = self.state.run;
                    self.state.run = 0;
                    let c = QoiChunk::Run { run };
                    proof {
                        assert(enc_from(s0, rem0) =~= seq![c] + enc_from(
                            self.state@,
                            self.pixels@.skip(self.pos as int),
                        ));
                        assert(self.emitted@ + enc_from(s0, rem0) =~= self.emitted@.push(c)
                            + enc_from(self.state@, self.pixels@.skip(self.pos as int)));
                    }
                    self.emitted = Ghost(self.emitted@.push(c));
                    return Some(c);
                }
                let idx = p.pixel_hash();
                let chunk: QoiChunk;
                if self.state.index[idx as usize] == p {
                    chunk = QoiChunk::Index { idx };
                } else if p.a == self.state.previous.a {
                    let dr = delta_i8(p.r, self.state.previous.r);
                    let dg = delta_i8(p.g, self.state.previous.g);
                    let db = delta_i8(p.b, self.state.previous.b);
                    if -2 <= dr && dr <= 1 && -2 <= dg && dg <= 1 && -2 <= db && db <= 1 {
                        chunk = QoiChunk::Diff { dr, dg, db };
                    } else {
                        let dr_dg = dr.wrapping_sub(dg);
                        let db_dg = db.wrapping_sub(dg);
                        if -32 <= dg && dg <= 31 && -8 <= dr_dg && dr_dg <= 7 && -8 <= db_dg
                            && db_dg <= 7 {
                            chunk = QoiChunk::Luma { dg, dr_dg, db_dg };
                        } else {
                            chunk = QoiChunk::Rgb { r: p.r, g: p.g, b: p.b };
                        }
                    }
                } else {
                    chunk = QoiChunk::Rgba { r: p.r, g: p.g, b: p.b, a: p.a };
                }
                proof {
                    assert(chunk == choose_chunk(s0, p));
                }
                self.state.index[idx as usize] = p;
                self.state.previous = p;
                self.pos = self.pos + 1;
                proof {
                    assert(self.state@ =~= apply_pixel(s0, p));
                    assert(enc_from(s0, rem0) =~= seq![chunk] + enc_from(
                        self.state@,
                        self.pixels@.skip(self.pos as int),
                    ));
                    assert(self.emitted@ + enc_from(s0, rem0) =~= self.emitted@.push(chunk)
                        + enc_from(self.state@, self.pixels@.skip(self.pos as int)));
                }
                self.emitted = Ghost(self.emitted@.push(chunk));
                return Some(chunk);
            }
        }
    }
}

/// Encode a whole pixel sequence into its chunk sequence.
pub fn encode_to_chunks(pixels: Vec<Pixel>) -> (out: Vec<QoiChunk>)
    ensures
        out@ == encode_chunks(pixels@),
{
    let ghost src = pixels@;
    let mut enc = QoiChunkEncoder::new(pixels);
    let mut out: Vec<QoiChunk> = Vec::new();
    loop
        invariant
            enc.wf(),
            enc.source() == src,
            out@ == enc.emitted(),
            enc.emitted().len() <= encode_chunks(src).len(),
        ensures
            out@ == encode_chunks(src),
        decreases encode_chunks(src).len() - enc.emitted().len(),
    {
        match enc.next() {
            Some(c) => {
                out.push(c);
                proof {
                    lemma_emitted_prefix(enc);
                }
            },
            None => {
                break ;
            },
        }
    }
    out
}

/// What an encoder has emitted is always a prefix of the full chunk sequence.
proof fn lemma_emitted_prefix(enc: QoiChunkEncoder)
    requires
        enc.wf(),
    ensures
        enc.emitted().len() <= encode_chunks(enc.source()).len(),
{
}

/// The complete QOI byte stream for a header and a pixel sequence: the 14
/// header bytes, the serialized chunks of [`encode_chunks`], and the 8-byte
/// footer.
pub open spec fn encode_stream(h: QoiHeader, px: Seq<Pixel>) -> Seq<u8> {
    header_bytes(h) + chunks_bytes(encode_chunks(px)) + footer_bytes()
}

/// An encoder used to turn a QOI header and pixels into bytes, pulled one
/// byte at a time.
///
/// Note: the encoder will not stop after `width * height` pixels on its own;
/// it streams whatever pixel sequence it was given (see [`encode`] for the
/// capped variant).
pub struct QoiEncoder {
    chunks: QoiChunkEncoder,
    header: [u8; 14],
    header_offset: usize,
    buf: ChunkBuf,
    footer_offset: usize,
    emitted: Ghost<Seq<u8>>,
}

impl QoiEncoder {
    /// The bytes handed out so far.
    pub closed spec fn emitted(self) -> Seq<u8> {
        self.emitted@
    }

    /// The complete byte stream this encoder produces.
    pub closed spec fn total(self) -> Seq<u8> {
        self.header@ + chunks_bytes(encode_chunks(self.chunks.source())) + footer_bytes()
    }

    pub closed spec fn wf(self) -> bool {
        &&& self.chunks.wf()
        &&& self.buf.wf()
        &&& self.header_offset <= 14
        &&& self.footer_offset <= 8
        &&& self.total() == self.emitted@ + self.header@.skip(self.header_offset as int)
            + self.buf.remaining() + chunks_bytes(self.chunks.pending()) + footer_bytes().skip(
            self.footer_offset as int,
        )
    }

    /// Create a new streaming QOI encoder.
    pub fn new(header: QoiHeader, pixels: Vec<Pixel>) -> (enc: QoiEncoder)
        ensures
            enc.wf(),
            enc.emitted() == Seq::<u8>::empty(),
            enc.total() == encode_stream(header, pixels@),
    {
        let ghost px = pixels@;
        let enc = QoiEncoder {
            chunks: QoiChunkEncoder::new(pixels),
            header: header.to_bytes(),
            header_offset: 0,
            buf: ChunkBuf::new(),
            footer_offset: 0,
            emitted: Ghost(Seq::empty()),
        };
        proof {
            assert(enc.chunks.pending() =~= encode_chunks(px));
            assert(enc.header@.skip(0) =~= enc.header@);
            assert(footer_bytes().skip(0) =~= footer_bytes());
            assert(enc.total() =~= enc.emitted@ + enc.header@.skip(0) + enc.buf.remaining()
                + chunks_bytes(enc.chunks.pending()) + footer_bytes().skip(0));
        }
        enc
    }

    /// Pull the next byte of the stream. `None` means the whole stream —
    /// header, chunk bytes, footer — has been handed out, in order.
    pub fn next(&mut self) -> (r: Option<u8>)
        requires
            old(self).wf(),
        ensures
            final(self).wf(),
            final(self).total() == old(self).total(),
            match r {
                Some(b) => final(self).emitted() == old(self).emitted().push(b),
                None => {
                    &&& final(self).emitted() == old(self).emitted()
                    &&& final(self).emitted() == old(self).total()
                },
            },
    {
        if self.header_offset < 14 {
            let b = self.header[self.header_offset];
            self.header_offset = self.header_offset + 1;
            proof {
                assert(self.header@.skip(self.header_offset - 1) =~= seq![b] + self.header@.skip(
                    self.header_offset as int,
                ));
                assert(self.emitted@ + self.header@.skip(self.header_offset - 1)
                    =~= self.emitted@.push(b) + self.header@.skip(self.header_offset as int));
            }
            self.emitted = Ghost(self.emitted@.push(b));
            return Some(b);
        }
        let ghost br0 = self.buf.remaining();
        let popped = self.buf.pop();
        if let Some(b) = popped {
            proof {
                assert(br0 =~= seq![b] + self.buf.remaining());
                assert(self.emitted@ + self.header@.skip(self.header_offset as int) + br0
                    + chunks_bytes(self.chunks.pending()) + footer_bytes().skip(
                    self.footer_offset as int,
                ) =~= self.emitted@.push(b) + self.header@.skip(self.header_offset as int)
                    + self.buf.remaining() + chunks_bytes(self.chunks.pending())
                    + footer_bytes().skip(self.footer_offset as int));
            }
            self.emitted = Ghost(self.emitted@.push(b));
            return Some(b);
        }
        let ghost pend0 = self.chunks.pending();
        let pulled = self.chunks.next();
        if let Some(chunk) = pulled {
            let ghost pend1 = self.chunks.pending();
            chunk.write_to_chunk_buffer(&mut self.buf);
            proof {
                crate::chunk::lemma_chunk_bytes_shape(chunk);
                assert(chunks_bytes(seq![chunk] + pend1) == chunk_bytes(chunk) + chunks_bytes(
                    pend1,
                )) by {
                    assert((seq![chunk] + pend1)[0] == chunk);
                    assert((seq![chunk] + pend1).skip(1) =~= pend1);
                }
            }
            let b = self.buf.pop().unwrap();
            proof {
                assert(chunk_bytes(chunk) =~= seq![b] + self.buf.remaining());
                assert(br0 =~= Seq::<u8>::empty());
                assert(self.emitted@ + self.header@.skip(self.header_offset as int) + br0
                    + chunks_bytes(pend0) + footer_bytes().skip(self.footer_offset as int)
                    =~= self.emitted@.push(b) + self.header@.skip(self.header_offset as int)
                    + self.buf.remaining() + chunks_bytes(pend1) + footer_bytes().skip(
                    self.footer_offset as int,
                ));
            }
            self.emitted = Ghost(self.emitted@.push(b));
            return Some(b);
        }
        if self.footer_offset < 8 {
            let footer: [u8; 8] = [0, 0, 0, 0, 0, 0, 0, 1];
            let b = footer[self.footer_offset];
            self.footer_offset = self.footer_offset + 1;
            proof {
                assert(footer@ =~= footer_bytes());
                assert(footer_bytes().skip(self.footer_offset - 1) =~= seq![b]
                    + footer_bytes().skip(self.footer_offset as int));
                assert(self.emitted@ + self.header@.skip(14) + footer_bytes().skip(
                    self.footer_offset - 1,
                ) =~= self.emitted@.push(b) + self.header@.skip(14) + footer_bytes().skip(
                    self.footer_offset as int,
                ));
            }
            self.emitted = Ghost(self.emitted@.push(b));
            return Some(b);
        }
        proof {
            assert(self.header@.skip(14) =~= Seq::<u8>::empty());
            assert(footer_bytes().skip(8) =~= Seq::<u8>::empty());
            assert(self.emitted@ =~= self.total());
        }
        None
    }
}

/// What a stream encoder has emitted is always a prefix of its stream.
proof fn lemma_stream_emitted_prefix(enc: QoiEncoder)
    requires
        enc.wf(),
    ensures
        enc.emitted().len() <= enc.total().len(),
{
}

/// The pixel sequence an image's encoding covers: the input capped at
/// `width * height` pixels.
pub open spec fn capped_pixels(h: QoiHeader, px: Seq<Pixel>) -> Seq<Pixel> {
    if px.len() <= h.width * h.height {
        px
    } else {
        px.take((h.width * h.height) as int)
    }
}

/// Encode a header and a pixel sequence into a complete QOI byte stream,
/// capping the pixels at `width * height` as a well-formed image requires.
pub fn encode(header: QoiHeader, pixels: Vec<Pixel>) -> (out: Vec<u8>)
    ensures
        out@ == encode_stream(header, capped_pixels(header, pixels@)),
{
    let ghost orig = pixels@;
    proof {
        assert((header.width as int) * (header.height as int) < 0x10000000000000000int)
            by (nonlinear_arith)
            requires
                header.width <= 0xFFFFFFFFu32,
                header.height <= 0xFFFFFFFFu32,
        ;
    }
    let cap: u64 = (header.width as u64) * (header.height as u64);
    let mut pixels = pixels;
    if (pixels.len() as u64) > cap {
        pixels.truncate(cap as usize);
    }
    let ghost capped = pixels@;
    proof {
        if orig.len() <= cap {
            assert(capped =~= capped_pixels(header, orig));
        } else {
            assert(capped =~= capped_pixels(header, orig));
        }
    }
    let mut enc = QoiEncoder::new(header, pixels);
    let mut out: Vec<u8> = Vec::new();
    loop
        invariant
            enc.wf(),
            out@ == enc.emitted(),
            enc.total() == encode_stream(header, capped),
        ensures
            out@ == encode_stream(header, capped),
        decreases enc.total().len() - enc.emitted().len(),
    {
        proof {
            lemma_stream_emitted_prefix(enc);
        }
        match enc.next() {
            Some(b) => {
                out.push(b);
            },
            None => {
                break ;
            },
        }
    }
    out
}

} // verus!
