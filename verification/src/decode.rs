//! The decoders: bytes to chunks (with the 7-byte footer look-ahead) and
//! chunks to pixels, composed into a pull-based pixel decoder.

use vstd::prelude::*;

use crate::chunk::{chunk_wf, chunks_all_wf, footer_tail, QoiChunk};
use crate::header::{parse_header, QoiHeader};
use crate::pixel::{hash_of, init_coder, CoderState, CoderView, Pixel};

verus! {

/// The chunk sequence a byte stream decodes to.
///
/// Decoding stops cleanly at the footer (a zero byte whose next seven bytes
/// are the footer tail) and silently at exhausted or truncated input; a
/// truncated chunk yields nothing.
pub open spec fn dec_chunks(bytes: Seq<u8>) -> Seq<QoiChunk>
    decreases bytes.len(),
{
    if bytes.len() == 0 {
        Seq::empty()
    } else {
        let b0 = bytes[0];
        if b0 == 255 {
            if bytes.len() >= 5 {
                seq![QoiChunk::Rgba { r: bytes[1], g: bytes[2], b: bytes[3], a: bytes[4] }]
                    + dec_chunks(bytes.skip(5))
            } else {
                Seq::empty()
            }
        } else if b0 == 254 {
            if bytes.len() >= 4 {
                seq![QoiChunk::Rgb { r: bytes[1], g: bytes[2], b: bytes[3] }] + dec_chunks(
                    bytes.skip(4),
                )
            } else {
                Seq::empty()
            }
        } else if b0 < 64 {
            if b0 == 0 && bytes.len() >= 8 && bytes.subrange(1, 8) == footer_tail() {
                Seq::empty()
            } else {
                seq![QoiChunk::Index { idx: b0 }] + dec_chunks(bytes.skip(1))
            }
        } else if b0 < 128 {
            seq![
                QoiChunk::Diff {
                    dr: ((b0 - 64) / 16 - 2) as i8,
                    dg: (((b0 - 64) / 4) % 4 - 2) as i8,
                    db: ((b0 - 64) % 4 - 2) as i8,
                },
            ] + dec_chunks(bytes.skip(1))
        } else if b0 < 192 {
            if bytes.len() >= 2 {
                seq![
                    QoiChunk::Luma {
                        dg: (b0 - 160) as i8,
                        dr_dg: (bytes[1] / 16 - 8) as i8,
                        db_dg: (bytes[1] % 16 - 8) as i8,
                    },
                ] + dec_chunks(bytes.skip(2))
            } else {
                Seq::empty()
            }
        } else {
            seq![QoiChunk::Run { run: (b0 - 191) as u8 }] + dec_chunks(bytes.skip(1))
        }
    }
}

/// All chunks of `seq![c] + rest` are well-formed when `c` and those of
/// `rest` are.
pub(crate) proof fn lemma_wf_cons(c: QoiChunk, rest: Seq<QoiChunk>)
    requires
        chunk_wf(c),
        chunks_all_wf(rest),
    ensures
        chunks_all_wf(seq![c] + rest),
{
    assert forall|k: int| 0 <= k < (seq![c] + rest).len() implies chunk_wf(
        #[trigger] (seq![c] + rest)[k],
    ) by {
        if k >= 1 {
            assert((seq![c] + rest)[k] == rest[k - 1]);
        }
    }
}

/// Every chunk the byte decoder produces respects the payload ranges.
pub proof fn lemma_dec_chunks_wf(bytes: Seq<u8>)
    ensures
        chunks_all_wf(dec_chunks(bytes)),
    decreases bytes.len(),
{
    if bytes.len() == 0 {
    } else {
        let b0 = bytes[0];
        if b0 == 255 {
            if bytes.len() >= 5 {
                lemma_dec_chunks_wf(bytes.skip(5));
                lemma_wf_cons(dec_chunks(bytes)[0], dec_chunks(bytes.skip(5)));
            }
        } else if b0 == 254 {
            if bytes.len() >= 4 {
                lemma_dec_chunks_wf(bytes.skip(4));
                lemma_wf_cons(dec_chunks(bytes)[0], dec_chunks(bytes.skip(4)));
            }
        } else if b0 < 64 {
            if !(b0 == 0 && bytes.len() >= 8 && bytes.subrange(1, 8) == footer_tail()) {
                lemma_dec_chunks_wf(bytes.skip(1));
                lemma_wf_cons(dec_chunks(bytes)[0], dec_chunks(bytes.skip(1)));
            }
        } else if b0 < 128 {
            lemma_dec_chunks_wf(bytes.skip(1));
            lemma_wf_cons(dec_chunks(bytes)[0], dec_chunks(bytes.skip(1)));
        } else if b0 < 192 {
            if bytes.len() >= 2 {
                lemma_dec_chunks_wf(bytes.skip(2));
                lemma_wf_cons(dec_chunks(bytes)[0], dec_chunks(bytes.skip(2)));
            }
        } else {
            lemma_dec_chunks_wf(bytes.skip(1));
            lemma_wf_cons(dec_chunks(bytes)[0], dec_chunks(bytes.skip(1)));
        }
    }
}

/// Wrapping 8-bit addition of a signed delta to a channel value.
pub open spec fn badd(x: u8, d: int) -> u8 {
    if x + d > 255 {
        (x + d - 256) as u8
    } else if x + d < 0 {
        (x + d + 256) as u8
    } else {
        (x + d) as u8
    }
}

/// The pixels one chunk expands to, from coder state `s`.
pub open spec fn dec_chunk_pixels(s: CoderView, c: QoiChunk) -> Seq<Pixel> {
    match c {
        QoiChunk::Rgb { r, g, b } => seq![Pixel { r, g, b, a: s.previous.a }],
        QoiChunk::Rgba { r, g, b, a } => seq![Pixel { r, g, b, a }],
        QoiChunk::Index { idx } => seq![s.index[idx as int]],
        QoiChunk::Diff { dr, dg, db } => seq![
            Pixel {
                r: badd(s.previous.r, dr as int),
                g: badd(s.previous.g, dg as int),
                b: badd(s.previous.b, db as int),
                a: s.previous.a,
            },
        ],
        QoiChunk::Luma { dg, dr_dg, db_dg } => seq![
            Pixel {
                r: badd(s.previous.r, dr_dg + dg),
                g: badd(s.previous.g, dg as int),
                b: badd(s.previous.b, db_dg + dg),
                a: s.previous.a,
            },
        ],
        QoiChunk::Run { run } => Seq::new(run as nat, |i: int| s.previous),
    }
}

/// The coder state after one chunk: the last produced pixel becomes
/// `previous` and — except for `Index`, which reads the table — is written
/// into its index slot.
pub open spec fn dec_chunk_state(s: CoderView, c: QoiChunk) -> CoderView {
    match c {
        QoiChunk::Index { .. } => CoderView {
            previous: dec_chunk_pixels(s, c).last(),
            index: s.index,
            run: 0,
        },
        _ => {
            let p = dec_chunk_pixels(s, c).last();
            CoderView { previous: p, index: s.index.update(hash_of(p), p), run: 0 }
        },
    }
}

/// The pixel sequence a chunk sequence decodes to, from coder state `s`.
pub open spec fn dec_pixels(s: CoderView, cs: Seq<QoiChunk>) -> Seq<Pixel>
    decreases cs.len(),
{
    if cs.len() == 0 {
        Seq::empty()
    } else {
        dec_chunk_pixels(s, cs[0]) + dec_pixels(dec_chunk_state(s, cs[0]), cs.skip(1))
    }
}

/// The header and pixel sequence a whole QOI byte stream decodes to, or
/// `None` when the header is malformed.
pub open spec fn decode_stream(bytes: Seq<u8>) -> Option<(QoiHeader, Seq<Pixel>)> {
    match parse_header(bytes) {
        None => None,
        Some(h) => Some((h, dec_pixels(init_coder(), dec_chunks(bytes.skip(14))))),
    }
}

/// A decoder for decoding bytes into QOI chunks.
///
/// Expects the data to not include the header.
pub struct QoiChunkDecoder {
    bytes: Vec<u8>,
    pos: usize,
    done: bool,
    emitted: Ghost<Seq<QoiChunk>>,
}

impl QoiChunkDecoder {
    /// The byte sequence this decoder was created over.
    pub closed spec fn source(self) -> Seq<u8> {
        self.bytes@
    }

    /// The chunks handed out so far.
    pub closed spec fn emitted(self) -> Seq<QoiChunk> {
        self.emitted@
    }

    /// The chunks not yet handed out.
    pub closed spec fn pending(self) -> Seq<QoiChunk> {
        if self.done {
            Seq::empty()
        } else {
            dec_chunks(self.bytes@.skip(self.pos as int))
        }
    }

    pub closed spec fn wf(self) -> bool {
        &&& self.pos <= self.bytes@.len()
        &&& dec_chunks(self.bytes@) == self.emitted@ + self.pending()
    }

    pub fn new(bytes: Vec<u8>) -> (dec: QoiChunkDecoder)
        ensures
            dec.wf(),
            dec.source() == bytes@,
            dec.emitted() == Seq::<QoiChunk>::empty(),
            dec.pending() == dec_chunks(bytes@),
    {
        let dec = QoiChunkDecoder { bytes, pos: 0, done: false, emitted: Ghost(Seq::empty()) };
        proof {
            assert(dec.bytes@.skip(0) =~= dec.bytes@);
            assert(dec_chunks(dec.bytes@) =~= dec.emitted@ + dec.pending());
        }
        dec
    }

    /// Pull the next chunk. `None` means the stream has ended — at the
    /// footer, at exhausted input, or inside a truncated chunk — and every
    /// chunk of [`dec_chunks`] has been handed out, in order.
    pub fn next(&mut self) -> (r: Option<QoiChunk>)
        requires
            old(self).wf(),
        ensures
            final(self).wf(),
            final(self).source() == old(self).source(),
            match r {
                Some(c) => {
                    &&& final(self).emitted() == old(self).emitted().push(c)
                    &&& old(self).pending() == seq![c] + final(self).pending()
                    &&& chunk_wf(c)
                },
                None => {
                    &&& final(self).emitted() == old(self).emitted()
                    &&& final(self).pending() == Seq::<QoiChunk>::empty()
                    &&& final(self).emitted() == dec_chunks(old(self).source())
                },
            },
    {
        if self.done {
            return None;
        }
        let ghost rem0 = self.bytes@.skip(self.pos as int);
        if self.pos == self.bytes.len() {
            self.done = true;
            proof {
                assert(rem0 =~= Seq::<u8>::empty());
            }
            return None;
        }
        let b0 = self.bytes[self.pos];
        if b0 == 255 {
            if self.bytes.len() - self.pos >= 5 {
                let r = self.bytes[self.pos + 1];
                let g = self.bytes[self.pos + 2];
                let b = self.bytes[self.pos + 3];
                let a = self.bytes[self.pos + 4];
                self.pos = self.pos + 5;
                let c = QoiChunk::Rgba { r, g, b, a };
                proof {
                    assert(rem0.skip(5) =~= self.bytes@.skip(self.pos as int));
                    assert(dec_chunks(rem0) =~= seq![c] + self.pending());
                    assert(self.emitted@ + dec_chunks(rem0) =~= self.emitted@.push(c)
                        + self.pending());
                }
                self.emitted = Ghost(self.emitted@.push(c));
                return Some(c);
            } else {
                self.done = true;
                return None;
            }
        } else if b0 == 254 {
            if self.bytes.len() - self.pos >= 4 {
                let r = self.bytes[self.pos + 1];
                let g = self.bytes[self.pos + 2];
                let b = self.bytes[self.pos + 3];
                self.pos = self.pos + 4;
                let c = QoiChunk::Rgb { r, g, b };
                proof {
                    assert(rem0.skip(4) =~= self.bytes@.skip(self.pos as int));
                    assert(dec_chunks(rem0) =~= seq![c] + self.pending());
                    assert(self.emitted@ + dec_chunks(rem0) =~= self.emitted@.push(c)
                        + self.pending());
                }
                self.emitted = Ghost(self.emitted@.push(c));
                return Some(c);
            } else {
                self.done = true;
                return None;
            }
        } else if b0 < 64 {
            if b0 == 0 && self.bytes.len() - self.pos >= 8 {
                if self.bytes[self.pos + 1] == 0 && self.bytes[self.pos + 2] == 0
                    && self.bytes[self.pos + 3] == 0 && self.bytes[self.pos + 4] == 0
                    && self.bytes[self.pos + 5] == 0 && self.bytes[self.pos + 6] == 0
                    && self.bytes[self.pos + 7] == 1 {
                    // the zero byte begins the footer, not an Index chunk
                    self.done = true;
                    proof {
                        assert(rem0.subrange(1, 8) =~= footer_tail());
                    }
                    return None;
                }
            }
            let c = QoiChunk::Index { idx: b0 };
            proof {
                if rem0.len() >= 8 && rem0.subrange(1, 8) == footer_tail() && b0 == 0 {
                    assert(forall|k: int|
                        0 <= k < 7 ==> rem0.subrange(1, 8)[k] == self.bytes@[self.pos + 1 + k]);
                    assert(false);
                }
            }
            self.pos = self.pos + 1;
            proof {
                assert(rem0.skip(1) =~= self.bytes@.skip(self.pos as int));
                assert(dec_chunks(rem0) =~= seq![c] + self.pending());
                assert(self.emitted@ + dec_chunks(rem0) =~= self.emitted@.push(c)
                    + self.pending());
            }
            self.emitted = Ghost(self.emitted@.push(c));
            return Some(c);
        } else if b0 < 128 {
            let v = b0 - 64;
            let dr = (v / 16) as i8 - 2;
            let dg = ((v / 4) % 4) as i8 - 2;
            let db = (v % 4) as i8 - 2;
            self.pos = self.pos + 1;
            let c = QoiChunk::Diff { dr, dg, db };
            proof {
                assert(rem0.skip(1) =~= self.bytes@.skip(self.pos as int));
                assert(dec_chunks(rem0) =~= seq![c] + self.pending());
                assert(self.emitted@ + dec_chunks(rem0) =~= self.emitted@.push(c)
                    + self.pending());
            }
            self.emitted = Ghost(self.emitted@.push(c));
            return Some(c);
        } else if b0 < 192 {
            if self.bytes.len() - self.pos >= 2 {
                let b1 = self.bytes[self.pos + 1];
                let dg = ((b0 as i16) - 160) as i8;
                let dr_dg = (b1 / 16) as i8 - 8;
                let db_dg = (b1 % 16) as i8 - 8;
                self.pos = self.pos + 2;
                let c = QoiChunk::Luma { dg, dr_dg, db_dg };
                proof {
                    assert(rem0.skip(2) =~= self.bytes@.skip(self.pos as int));
                    assert(dec_chunks(rem0) =~= seq![c] + self.pending());
                    assert(self.emitted@ + dec_chunks(rem0) =~= self.emitted@.push(c)
                        + self.pending());
                }
                self.emitted = Ghost(self.emitted@.push(c));
                return Some(c);
            } else {
                self.done = true;
                return None;
            }
        } else {
            let run = b0 - 191;
            self.pos = self.pos + 1;
            let c = QoiChunk::Run { run };
            proof {
                assert(rem0.skip(1) =~= self.bytes@.skip(self.pos as int));
                assert(dec_chunks(rem0) =~= seq![c] + self.pending());
                assert(self.emitted@ + dec_chunks(rem0) =~= self.emitted@.push(c)
                    + self.pending());
            }
            self.emitted = Ghost(self.emitted@.push(c));
            return Some(c);
        }
    }
}

/// A decoder for decoding a QOI byte stream into pixels.
///
/// Note: this does not check that the decoded pixel count matches
/// `width * height` from the header; malformed data may yield fewer or more
/// pixels than expected.
pub struct QoiDecoder {
    state: CoderState,
    chunks: QoiChunkDecoder,
    emitted: Ghost<Seq<Pixel>>,
}

impl QoiDecoder {
    /// The bytes following the header that this decoder was created over.
    pub closed spec fn source(self) -> Seq<u8> {
        self.chunks.source()
    }

    /// The pixels handed out so far.
    pub closed spec fn decoded(self) -> Seq<Pixel> {
        self.emitted@
    }

    /// The coder state with the run counter cleared: the state the next
    /// chunk will be expanded from.
    closed spec fn run0_view(self) -> CoderView {
        CoderView { previous: self.state@.previous, index: self.state@.index, run: 0 }
    }

    pub closed spec fn wf(self) -> bool {
        &&& self.chunks.wf()
        &&& self.state@.index.len() == 64
        &&& self.state@.run <= 61
        &&& dec_pixels(init_coder(), dec_chunks(self.chunks.source())) == self.emitted@ + Seq::new(
            self.state@.run,
            |i: int| self.state@.previous,
        ) + dec_pixels(self.run0_view(), self.chunks.pending())
    }

    /// Parse the header from the front of `bytes`; on success return it and
    /// a decoder over the remaining bytes. Fails exactly when the header is
    /// malformed: fewer than 14 bytes, wrong magic, or a channel or
    /// color-space byte out of range.
    pub fn new(bytes: Vec<u8>) -> (r: Option<(QoiHeader, QoiDecoder)>)
        ensures
            match r {
                None => parse_header(bytes@) is None,
                Some((h, d)) => {
                    &&& parse_header(bytes@) == Some(h)
                    &&& d.wf()
                    &&& d.decoded() == Seq::<Pixel>::empty()
                    &&& d.source() == bytes@.skip(14)
                },
            },
    {
        if bytes.len() < 14 {
            return None;
        }
        if !(bytes[0] == 113 && bytes[1] == 111 && bytes[2] == 105 && bytes[3] == 102) {
            proof {
                if bytes@.subrange(0, 4) == crate::header::magic_bytes() {
                    assert(forall|k: int| 0 <= k < 4 ==> bytes@.subrange(0, 4)[k] == bytes@[k]);
                    assert(false);
                }
            }
            return None;
        }
        proof {
            assert(bytes@.subrange(0, 4) =~= crate::header::magic_bytes());
        }
        let chan_b = bytes[12];
        let cs_b = bytes[13];
        if chan_b != 3 && chan_b != 4 {
            return None;
        }
        if cs_b != 0 && cs_b != 1 {
            return None;
        }
        let width: u32 = (bytes[4] as u32) * 0x1000000 + (bytes[5] as u32) * 0x10000 + (bytes[6]
            as u32) * 0x100 + (bytes[7] as u32);
        let height: u32 = (bytes[8] as u32) * 0x1000000 + (bytes[9] as u32) * 0x10000 + (bytes[10]
            as u32) * 0x100 + (bytes[11] as u32);
        let channels = if chan_b == 3 {
            crate::header::QoiChannels::Rgb
        } else {
            crate::header::QoiChannels::Rgba
        };
        let color_space = if cs_b == 0 {
            crate::header::QoiColorSpace::SRgbWithLinearAlpha
        } else {
            crate::header::QoiColorSpace::AllChannelsLinear
        };
        let h = QoiHeader { width, height, channels, color_space };
        let mut body = bytes;
        let tail = body.split_off(14);
        let d = QoiDecoder {
            state: CoderState::default(),
            chunks: QoiChunkDecoder::new(tail),
            emitted: Ghost(Seq::empty()),
        };
        proof {
            assert(parse_header(bytes@) == Some(h));
            assert(d.chunks.source() =~= bytes@.skip(14));
            assert(Seq::new(0nat, |i: int| d.state@.previous) =~= Seq::<Pixel>::empty());
            assert(d.run0_view() =~= init_coder());
            assert(d.emitted@ + Seq::new(d.state@.run, |i: int| d.state@.previous) + dec_pixels(
                d.run0_view(),
                d.chunks.pending(),
            ) =~= dec_pixels(init_coder(), dec_chunks(d.chunks.source())));
        }
        Some((h, d))
    }

    /// Pull the next pixel. `None` means the chunk stream has ended and
    /// every pixel of [`dec_pixels`] over it has been handed out, in order.
    pub fn next(&mut self) -> (r: Option<Pixel>)
        requires
            old(self).wf(),
        ensures
            final(self).wf(),
            final(self).source() == old(self).source(),
            match r {
                Some(p) => final(self).decoded() == old(self).decoded().push(p),
                None => {
                    &&& final(self).decoded() == old(self).decoded()
                    &&& final(self).decoded() == dec_pixels(
                        init_coder(),
                        dec_chunks(old(self).source()),
                    )
                },
            },
    {
        let ghost run0 = self.state@.run;
        let ghost tailpix = dec_pixels(self.run0_view(), self.chunks.pending());
        if self.state.run > 0 {
            let p = self.state.previous;
            self.state.run = self.state.run - 1;
            proof {
                assert(self.run0_view() =~= old(self).run0_view());
                assert(Seq::new(run0, |i: int| p) =~= seq![p] + Seq::new(
                    (run0 - 1) as nat,
                    |i: int| p,
                ));
                assert(self.emitted@ + Seq::new(run0, |i: int| p) + tailpix
                    =~= self.emitted@.push(p) + Seq::new((run0 - 1) as nat, |i: int| p) + tailpix);
            }
            self.emitted = Ghost(self.emitted@.push(p));
            return Some(p);
        }
        let ghost v0 = self.run0_view();
        let ghost pend0 = self.chunks.pending();
        match self.chunks.next() {
            None => {
                proof {
                    assert(self.run0_view() =~= v0);
                    assert(dec_pixels(v0, Seq::empty()) =~= Seq::<Pixel>::empty());
                    assert(self.emitted@ + Seq::new(0nat, |i: int| self.state@.previous)
                        + dec_pixels(self.run0_view(), self.chunks.pending()) =~= self.emitted@);
                }
                return None;
            },
            Some(chunk) => {
                let ghost pend1 = self.chunks.pending();
                proof {
                    assert(pend0[0] == chunk);
                    assert(pend0.skip(1) =~= pend1);
                    assert(dec_pixels(v0, pend0) == dec_chunk_pixels(v0, chunk) + dec_pixels(
                        dec_chunk_state(v0, chunk),
                        pend1,
                    ));
                }
                let p: Pixel;
                match chunk {
                    QoiChunk::Rgb { r, g, b } => {
                        p = Pixel { r, g, b, a: self.state.previous.a };
                        self.state.previous = p;
                        let idx = p.pixel_hash();
                        self.state.index[idx as usize] = p;
                        self.state.run = 0;
                    },
                    QoiChunk::Rgba { r, g, b, a } => {
                        p = Pixel { r, g, b, a };
                        self.state.previous = p;
                        let idx = p.pixel_hash();
                        self.state.index[idx as usize] = p;
                        self.state.run = 0;
                    },
                    QoiChunk::Index { idx } => {
                        p = self.state.index[idx as usize];
                        self.state.previous = p;
                        self.state.run = 0;
                    },
                    QoiChunk::Diff { dr, dg, db } => {
                        p = Pixel {
                            r: self.state.previous.r.wrapping_add_signed(dr),
                            g: self.state.previous.g.wrapping_add_signed(dg),
                            b: self.state.previous.b.wrapping_add_signed(db),
                            a: self.state.previous.a,
                        };
                        self.state.previous = p;
                        let idx = p.pixel_hash();
                        self.state.index[idx as usize] = p;
                        self.state.run = 0;
                    },
                    QoiChunk::Luma { dg, dr_dg, db_dg } => {
                        p = Pixel {
                            r: self.state.previous.r.wrapping_add_signed(dr_dg + dg),
                            g: self.state.previous.g.wrapping_add_signed(dg),
                            b: self.state.previous.b.wrapping_add_signed(db_dg + dg),
                            a: self.state.previous.a,
                        };
                        self.state.previous = p;
                        let idx = p.pixel_hash();
                        self.state.index[idx as usize] = p;
                        self.state.run = 0;
                    },
                    QoiChunk::Run { run } => {
                        p = self.state.previous;
                        let idx = p.pixel_hash();
                        self.state.index[idx as usize] = p;
                        self.state.run = run - 1;
                    },
                }
                proof {
                    assert(self.run0_view() =~= dec_chunk_state(v0, chunk));
                    if chunk is Run {
                        let n = chunk->Run_run;
                        assert(dec_chunk_pixels(v0, chunk) =~= seq![p] + Seq::new(
                            (n - 1) as nat,
                            |i: int| p,
                        ));
                    } else {
                        assert(dec_chunk_pixels(v0, chunk) =~= seq![p] + Seq::new(
                            0nat,
                            |i: int| p,
                        ));
                    }
                    assert(self.emitted@ + Seq::new(run0, |i: int| old(self).state@.previous)
                        + dec_pixels(v0, pend0) =~= self.emitted@.push(p) + Seq::new(
                        self.state@.run,
                        |i: int| self.state@.previous,
                    ) + dec_pixels(self.run0_view(), pend1));
                }
                self.emitted = Ghost(self.emitted@.push(p));
                return Some(p);
            },
        }
    }
}

/// What a pixel decoder has handed out is always a prefix of its full
/// result.
proof fn lemma_decoded_prefix(d: QoiDecoder)
    requires
        d.wf(),
    ensures
        d.decoded().len() <= dec_pixels(init_coder(), dec_chunks(d.source())).len(),
{
}

/// Decode a complete QOI byte stream into its header and pixels; `None`
/// exactly when the header is malformed.
pub fn decode(bytes: Vec<u8>) -> (r: Option<(QoiHeader, Vec<Pixel>)>)
    ensures
        match r {
            None => decode_stream(bytes@) is None,
            Some((h, px)) => decode_stream(bytes@) == Some((h, px@)),
        },
{
    let ghost src = bytes@;
    match QoiDecoder::new(bytes) {
        None => None,
        Some((h, d)) => {
            let ghost total = dec_pixels(init_coder(), dec_chunks(src.skip(14)));
            let mut d = d;
            let mut px: Vec<Pixel> = Vec::new();
            loop
                invariant
                    d.wf(),
                    d.source() == src.skip(14),
                    total == dec_pixels(init_coder(), dec_chunks(d.source())),
                    px@ == d.decoded(),
                    d.decoded().len() <= total.len(),
                ensures
                    px@ == total,
                decreases total.len() - d.decoded().len(),
            {
                match d.next() {
                    Some(p) => {
                        px.push(p);
                        proof {
                            lemma_decoded_prefix(d);
                        }
                    },
                    None => {
                        break ;
                    },
                }
            }
            Some((h, px))
        },
    }
}

/// Decode a QOI byte stream known to begin with a valid header.
pub fn load(bytes: Vec<u8>) -> (r: (QoiHeader, Vec<Pixel>))
    requires
        parse_header(bytes@) is Some,
    ensures
        decode_stream(bytes@) == Some((r.0, r.1@)),
{
    match decode(bytes) {
        Some(hp) => hp,
        None => vstd::pervasive::unreached(),
    }
}

} // verus!
