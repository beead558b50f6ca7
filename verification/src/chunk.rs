//! The six QOI chunk kinds with their semantic payloads, the chunk-to-byte
//! translation, and the small fixed-capacity buffer that hands a serialized
//! chunk out byte by byte.

use vstd::prelude::*;

verus! {

/// An individual chunk, representing between 1 and 62 pixels.
///
/// Payloads are semantic: signed deltas for `Diff`/`Luma` and the plain run
/// length `1..=62` for `Run`; the on-wire bit packing lives entirely in
/// [`chunk_bytes`] and [`QoiChunk::write_to_chunk_buffer`].
#[derive(PartialEq, Eq, Structural, Clone, Copy, Debug)]
pub enum QoiChunk {
    Rgb { r: u8, g: u8, b: u8 },
    Rgba { r: u8, g: u8, b: u8, a: u8 },
    /// `idx` is a slot of the 64-entry index table, `0..=63`.
    Index { idx: u8 },
    /// Each delta lies in `-2..=1`.
    Diff { dr: i8, dg: i8, db: i8 },
    /// `dg` lies in `-32..=31`; `dr_dg` and `db_dg` lie in `-8..=7`.
    Luma { dg: i8, dr_dg: i8, db_dg: i8 },
    /// `run` lies in `1..=62`; 63 and 64 are forbidden, their bit patterns
    /// being reserved for the RGB and RGBA opcodes.
    Run { run: u8 },
}

/// The payload ranges every chunk must respect.
pub open spec fn chunk_wf(c: QoiChunk) -> bool {
    match c {
        QoiChunk::Rgb { .. } => true,
        QoiChunk::Rgba { .. } => true,
        QoiChunk::Index { idx } => idx <= 63,
        QoiChunk::Diff { dr, dg, db } => -2 <= dr <= 1 && -2 <= dg <= 1 && -2 <= db <= 1,
        QoiChunk::Luma { dg, dr_dg, db_dg } => -32 <= dg <= 31 && -8 <= dr_dg <= 7 && -8 <= db_dg
            <= 7,
        QoiChunk::Run { run } => 1 <= run <= 62,
    }
}

/// The 1 to 5 bytes a chunk serializes to.
///
/// The first byte carries the opcode: `0b11111110` (RGB), `0b11111111`
/// (RGBA), or a two-bit tag — `00` INDEX, `01` DIFF, `10` LUMA, `11` RUN —
/// over a bias-shifted payload. Written arithmetically: tag `01` is 64, tag
/// `10` is 128, tag `11` is 192, and a field shifted left by n bits is a
/// multiplication by 2^n.
pub open spec fn chunk_bytes(c: QoiChunk) -> Seq<u8> {
    match c {
        QoiChunk::Rgb { r, g, b } => seq![254u8, r, g, b],
        QoiChunk::Rgba { r, g, b, a } => seq![255u8, r, g, b, a],
        QoiChunk::Index { idx } => seq![idx],
        QoiChunk::Diff { dr, dg, db } => seq![(64 + (dr + 2) * 16 + (dg + 2) * 4 + (db + 2)) as u8],
        QoiChunk::Luma { dg, dr_dg, db_dg } => seq![
            (160 + dg) as u8,
            ((dr_dg + 8) * 16 + (db_dg + 8)) as u8,
        ],
        QoiChunk::Run { run } => seq![(191 + run) as u8],
    }
}

/// Every chunk of the sequence respects the payload ranges.
pub open spec fn chunks_all_wf(cs: Seq<QoiChunk>) -> bool {
    forall|k: int| 0 <= k < cs.len() ==> chunk_wf(#[trigger] cs[k])
}

/// The byte streams of a chunk sequence, concatenated in order.
pub open spec fn chunks_bytes(cs: Seq<QoiChunk>) -> Seq<u8>
    decreases cs.len(),
{
    if cs.len() == 0 {
        Seq::empty()
    } else {
        chunk_bytes(cs[0]) + chunks_bytes(cs.skip(1))
    }
}

/// The 8-byte end-of-stream footer.
pub open spec fn footer_bytes() -> Seq<u8> {
    seq![0u8, 0u8, 0u8, 0u8, 0u8, 0u8, 0u8, 1u8]
}

/// The footer without its first byte: what the decoder peeks at after
/// reading a zero byte, since the first footer byte is indistinguishable
/// from a valid `Index { idx: 0 }` chunk.
pub open spec fn footer_tail() -> Seq<u8> {
    seq![0u8, 0u8, 0u8, 0u8, 0u8, 0u8, 1u8]
}

/// A well-formed chunk serializes to between 1 and 5 bytes, and only the
/// `Index { idx: 0 }` chunk begins with a zero byte — the fact that makes the
/// decoder's footer look-ahead sound.
pub proof fn lemma_chunk_bytes_shape(c: QoiChunk)
    requires
        chunk_wf(c),
    ensures
        1 <= chunk_bytes(c).len() <= 5,
        chunk_bytes(c)[0] == 0 <==> c == (QoiChunk::Index { idx: 0u8 }),
{
}

impl QoiChunk {
    /// Create a new Run chunk; `run` must be in the range `1..=62`.
    pub fn new_run(run: u8) -> (c: QoiChunk)
        requires
            1 <= run <= 62,
        ensures
            c == (QoiChunk::Run { run }),
    {
        QoiChunk::Run { run }
    }

    /// Create a new Index chunk; `idx` must be at most 63.
    pub fn new_index(idx: u8) -> (c: QoiChunk)
        requires
            idx <= 63,
        ensures
            c == (QoiChunk::Index { idx }),
    {
        QoiChunk::Index { idx }
    }

    /// Create a new Diff chunk; all deltas must be in the range `-2..=1`.
    pub fn new_diff(dr: i8, dg: i8, db: i8) -> (c: QoiChunk)
        requires
            -2 <= dr <= 1,
            -2 <= dg <= 1,
            -2 <= db <= 1,
        ensures
            c == (QoiChunk::Diff { dr, dg, db }),
    {
        QoiChunk::Diff { dr, dg, db }
    }

    /// Create a new Luma chunk; `dg` must be in `-32..=31`, and `dr_dg`,
    /// `db_dg` in `-8..=7`.
    pub fn new_luma(dg: i8, dr_dg: i8, db_dg: i8) -> (c: QoiChunk)
        requires
            -32 <= dg <= 31,
            -8 <= dr_dg <= 7,
            -8 <= db_dg <= 7,
        ensures
            c == (QoiChunk::Luma { dg, dr_dg, db_dg }),
    {
        QoiChunk::Luma { dg, dr_dg, db_dg }
    }

    /// Create a new RGB chunk.
    pub fn new_rgb(r: u8, g: u8, b: u8) -> (c: QoiChunk)
        ensures
            c == (QoiChunk::Rgb { r, g, b }),
    {
        QoiChunk::Rgb { r, g, b }
    }

    /// Create a new RGBA chunk.
    pub fn new_rgba(r: u8, g: u8, b: u8, a: u8) -> (c: QoiChunk)
        ensures
            c == (QoiChunk::Rgba { r, g, b, a }),
    {
        QoiChunk::Rgba { r, g, b, a }
    }

    /// Serialize this chunk into the provided buffer, replacing whatever the
    /// buffer held before.
    pub fn write_to_chunk_buffer(&self, buf: &mut ChunkBuf)
        requires
            chunk_wf(*self),
        ensures
            final(buf).wf(),
            final(buf).bytes() == chunk_bytes(*self),
            final(buf).remaining() == chunk_bytes(*self),
    {
        match *self {
            QoiChunk::Rgb { r, g, b } => {
                buf.data = [254, r, g, b, 0];
                buf.len = 4;
            },
            QoiChunk::Rgba { r, g, b, a } => {
                buf.data = [255, r, g, b, a];
                buf.len = 5;
            },
            QoiChunk::Index { idx } => {
                buf.data = [idx, 0, 0, 0, 0];
                buf.len = 1;
            },
            QoiChunk::Diff { dr, dg, db } => {
                let b0: u8 = 64 + ((dr + 2) as u8) * 16 + ((dg + 2) as u8) * 4 + ((db + 2) as u8);
                buf.data = [b0, 0, 0, 0, 0];
                buf.len = 1;
            },
            QoiChunk::Luma { dg, dr_dg, db_dg } => {
                let b0: u8 = 128 + ((dg + 32) as u8);
                let b1: u8 = ((dr_dg + 8) as u8) * 16 + ((db_dg + 8) as u8);
                buf.data = [b0, b1, 0, 0, 0];
                buf.len = 2;
            },
            QoiChunk::Run { run } => {
                buf.data = [191 + run, 0, 0, 0, 0];
                buf.len = 1;
            },
        }
        buf.offset = 0;
        proof {
            assert(buf.bytes() =~= chunk_bytes(*self));
            assert(buf.remaining() =~= chunk_bytes(*self));
        }
    }
}

/// A buffer for the bytes of a single chunk: a scratch region that holds one
/// serialized chunk and yields its bytes in order, exactly once.
pub struct ChunkBuf {
    pub(crate) data: [u8; 5],
    pub(crate) len: u8,
    pub(crate) offset: u8,
}

impl ChunkBuf {
    /// The bytes of the chunk most recently written, popped ones included.
    pub closed spec fn bytes(self) -> Seq<u8> {
        self.data@.take(self.len as int)
    }

    /// The bytes not yet handed out.
    pub closed spec fn remaining(self) -> Seq<u8> {
        self.data@.subrange(self.offset as int, self.len as int)
    }

    pub closed spec fn wf(self) -> bool {
        self.offset <= self.len <= 5
    }

    /// Create a new empty buffer.
    pub fn new() -> (b: ChunkBuf)
        ensures
            b.wf(),
            b.bytes() == Seq::<u8>::empty(),
            b.remaining() == Seq::<u8>::empty(),
    {
        let b = ChunkBuf { data: [0, 0, 0, 0, 0], len: 0, offset: 0 };
        proof {
            assert(b.bytes() =~= Seq::<u8>::empty());
            assert(b.remaining() =~= Seq::<u8>::empty());
        }
        b
    }

    /// Hand out the next byte of the current chunk, if one is left.
    pub fn pop(&mut self) -> (r: Option<u8>)
        requires
            old(self).wf(),
        ensures
            final(self).wf(),
            final(self).bytes() == old(self).bytes(),
            match r {
                Some(byte) => old(self).remaining().len() > 0 && byte == old(self).remaining()[0]
                    && final(self).remaining() == old(self).remaining().skip(1),
                None => old(self).remaining().len() == 0 && *final(self) == *old(self),
            },
    {
        if self.offset < self.len {
            let res = self.data[self.offset as usize];
            self.offset = self.offset + 1;
            proof {
                assert(final(self).remaining() =~= old(self).remaining().skip(1));
            }
            Some(res)
        } else {
            None
        }
    }

    /// The data of the last written chunk, already popped bytes included.
    pub fn as_slice(&self) -> (r: &[u8])
        requires
            self.wf(),
        ensures
            r@ == self.bytes(),
    {
        vstd::slice::slice_subrange(self.data.as_slice(), 0, self.len as usize)
    }
}

impl Default for ChunkBuf {
    fn default() -> (b: ChunkBuf)
        ensures
            b.wf(),
            b.bytes() == Seq::<u8>::empty(),
            b.remaining() == Seq::<u8>::empty(),
    {
        ChunkBuf::new()
    }
}

} // verus!
