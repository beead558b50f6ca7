//! Pixels, the pixel hash, and the rolling coder state shared by the encoder
//! and the decoder.

use vstd::prelude::*;

verus! {

/// A single RGB/RGBA pixel.
///
/// In case of RGB the alpha value should always be 255.
#[derive(PartialEq, Eq, Structural, Clone, Copy, Debug)]
pub struct Pixel {
    pub r: u8,
    pub g: u8,
    pub b: u8,
    pub a: u8,
}

/// The all-zero pixel that initializes every slot of the index table.
pub open spec fn zero_pixel() -> Pixel {
    Pixel { r: 0, g: 0, b: 0, a: 0 }
}

/// The conceptual pixel preceding the first image pixel; it initializes
/// `previous` in both the encoder and the decoder.
pub open spec fn start_pixel() -> Pixel {
    Pixel { r: 0, g: 0, b: 0, a: 255 }
}

/// Index-table slot of a pixel: `(3 r + 5 g + 7 b + 11 a) mod 64`.
pub open spec fn hash_of(p: Pixel) -> int {
    (3 * p.r + 5 * p.g + 7 * p.b + 11 * p.a) % 64
}

/// The pixel hash always addresses one of the 64 index slots.
pub proof fn lemma_hash_range(p: Pixel)
    ensures
        0 <= hash_of(p) < 64,
{
}

impl Pixel {
    /// An RGB pixel; the alpha channel is fixed at 255.
    pub fn rgb(r: u8, g: u8, b: u8) -> (p: Pixel)
        ensures
            p == (Pixel { r, g, b, a: 255u8 }),
    {
        Pixel::rgba(r, g, b, 255)
    }

    pub fn rgba(r: u8, g: u8, b: u8, a: u8) -> (p: Pixel)
        ensures
            p == (Pixel { r, g, b, a }),
    {
        Pixel { r, g, b, a }
    }

    /// A pixel with all channels set to 0.
    pub fn zero() -> (p: Pixel)
        ensures
            p == zero_pixel(),
    {
        Pixel { r: 0, g: 0, b: 0, a: 0 }
    }

    /// Calculate the pixel hash used to address the index table.
    pub fn pixel_hash(&self) -> (h: u8)
        ensures
            h as int == hash_of(*self),
            h < 64,
    {
        (((self.r as usize) * 3 + (self.g as usize) * 5 + (self.b as usize) * 7 + (self.a
            as usize) * 11) % 64) as u8
    }
}

impl Default for Pixel {
    /// The starting pixel `(0, 0, 0, 255)`.
    fn default() -> (p: Pixel)
        ensures
            p == start_pixel(),
    {
        Pixel { r: 0, g: 0, b: 0, a: 255 }
    }
}

/// The mathematical value of a coder state: the previously produced pixel,
/// the 64-slot index table, and the length of the run being coalesced.
#[verifier::ext_equal]
pub ghost struct CoderView {
    pub previous: Pixel,
    pub index: Seq<Pixel>,
    pub run: nat,
}

/// Well-formedness of a coder state between two pull steps: the table has its
/// 64 slots and a pending run never exceeds 61 pixels (a 62nd matching pixel
/// closes the run at once).
pub open spec fn state_wf(s: CoderView) -> bool {
    &&& s.index.len() == 64
    &&& s.run <= 61
}

/// The state both codecs start from: previous pixel `(0,0,0,255)`, all index
/// slots zeroed, no pending run.
pub open spec fn init_coder() -> CoderView {
    CoderView { previous: start_pixel(), index: Seq::new(64, |i: int| zero_pixel()), run: 0 }
}

/// The internal state of the encoder and of the decoder.
pub struct CoderState {
    pub previous: Pixel,
    pub index: Vec<Pixel>,
    pub run: u8,
}

impl View for CoderState {
    type V = CoderView;

    open spec fn view(&self) -> CoderView {
        CoderView { previous: self.previous, index: self.index@, run: self.run as nat }
    }
}

impl Default for CoderState {
    fn default() -> (s: CoderState)
        ensures
            s@ == init_coder(),
    {
        let s = CoderState { previous: Pixel::rgba(0, 0, 0, 255), index: vec![Pixel::zero(); 64], run: 0 };
        proof {
            assert(s@.index =~= init_coder().index);
            assert(s@ =~= init_coder());
        }
        s
    }
}

} // verus!
