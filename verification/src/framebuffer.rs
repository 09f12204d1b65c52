//! The framebuffer model: a pixel buffer and the colour packing used
//! to draw into it.

use vstd::prelude::*;

verus! {

/// An 8-bit-per-channel colour.
#[derive(Clone, Copy, PartialEq, Eq, Structural, Debug)]
pub struct Rgb {
    pub red: u8,
    pub green: u8,
    pub blue: u8,
}

/// The packed 32-bit value of a colour: blue in the low byte, then
/// green, then red.
pub open spec fn spec_pack32(c: Rgb) -> u32 {
    (c.blue as u32 + c.green as u32 * 0x100 + c.red as u32 * 0x10000) as u32
}

impl Rgb {
    /// Builds a colour from its three channels.
    pub fn new(red: u8, green: u8, blue: u8) -> (r: Self)
        ensures
            r == (Rgb { red, green, blue }),
    {
        Rgb { red, green, blue }
    }

    /// Packs the colour into one 32-bit pixel value.
    pub fn pack32(&self) -> (r: u32)
        ensures
            r == spec_pack32(*self),
    {
        self.blue as u32 + (self.green as u32) * 0x100 + (self.red as u32) * 0x10000
    }
}

/// A width-by-height pixel buffer with its bit depth.
pub struct Framebuffer {
    pub buffer: Vec<u32>,
    pub width: usize,
    pub height: usize,
    pub bpp: u8,
}

impl Framebuffer {
    /// The buffer holds exactly one pixel per coordinate.
    pub open spec fn wf(&self) -> bool {
        self.buffer@.len() == self.width * self.height
    }

    /// Creates a zeroed framebuffer of the given geometry, or nothing
    /// when the pixel count does not fit in memory.
    pub fn init(width: usize, height: usize, bpp: u8) -> (r: Option<Self>)
        ensures
            match r {
                Some(fb) => {
                    &&& fb.wf()
                    &&& fb.width == width
                    &&& fb.height == height
                    &&& fb.bpp == bpp
                    &&& forall|i: int| 0 <= i < fb.buffer@.len() ==> fb.buffer@[i] == 0
                },
                None => width * height > usize::MAX,
            },
    {
        let pixels = match width.checked_mul(height) {
            Some(p) => p,
            None => {
                return None;
            },
        };
        let mut buffer: Vec<u32> = Vec::new();
        let mut i: usize = 0;
        while i < pixels
            invariant
                i == buffer.len(),
                i <= pixels,
                forall|k: int| 0 <= k < i ==> buffer@[k] == 0,
            decreases pixels - i,
        {
            buffer.push(0);
            i += 1;
        }
        Some(Framebuffer { buffer, width, height, bpp })
    }

    /// Fills the whole framebuffer with one colour.
    pub fn fill(&mut self, color: Rgb)
        requires
            old(self).wf(),
        ensures
            final(self).wf(),
            final(self).width == old(self).width,
            final(self).height == old(self).height,
            final(self).bpp == old(self).bpp,
            final(self).buffer@.len() == old(self).buffer@.len(),
            forall|i: int|
                0 <= i < final(self).buffer@.len() ==> final(self).buffer@[i] == spec_pack32(
                    color,
                ),
    {
        let value = color.pack32();
        let len = self.buffer.len();
        let mut i: usize = 0;
        while i < len
            invariant
                len == self.buffer.len(),
                self.width == old(self).width,
                self.height == old(self).height,
                self.bpp == old(self).bpp,
                old(self).wf(),
                self.buffer@.len() == old(self).buffer@.len(),
                i <= len,
                value == spec_pack32(color),
                forall|k: int| 0 <= k < i ==> self.buffer@[k] == value,
            decreases len - i,
        {
            self.buffer.set(i, value);
            i += 1;
        }
    }
}

} // verus!
