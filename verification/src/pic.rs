//! Which interrupt vectors the two chained interrupt controllers own.
//! Programming the controllers themselves is port I/O done by boot
//! code; here only the vector arithmetic is modelled.

use vstd::prelude::*;

verus! {

/// Vector base of the first controller.
pub const PIC_1_OFFSET: u8 = 32;

/// Vector base of the second controller.
pub const PIC_2_OFFSET: u8 = PIC_1_OFFSET + 8;

/// One controller: its vector base and its command and data ports.
struct Pic {
    offset: u8,
    command: u16,
    data: u16,
}

impl Pic {
    /// Each controller handles the eight vectors from its base.
    fn handles_interrupt(&self, interrupt_id: u8) -> (r: bool)
        requires
            self.offset <= 247,
        ensures
            r == (self.offset <= interrupt_id < self.offset + 8),
    {
        self.offset <= interrupt_id && interrupt_id < self.offset + 8
    }
}

/// A pair of chained interrupt controllers, the standard setup.
pub struct ChainedPics {
    pics: Vec<Pic>,
}

impl ChainedPics {
    /// Vector base of the first controller.
    pub closed spec fn offset1(&self) -> u8 {
        self.pics@[0].offset
    }

    /// Vector base of the second controller.
    pub closed spec fn offset2(&self) -> u8 {
        self.pics@[1].offset
    }

    /// There are exactly two controllers, with vector bases that leave
    /// room for their eight vectors each.
    pub closed spec fn wf(&self) -> bool {
        self.pics@.len() == 2 && self.pics@[0].offset <= 247 && self.pics@[1].offset <= 247
    }

    /// Creates the interface for the two standard controllers with the
    /// desired vector bases.
    pub fn new(offset1: u8, offset2: u8) -> (r: ChainedPics)
        requires
            offset1 <= 247,
            offset2 <= 247,
        ensures
            r.wf(),
            r.offset1() == offset1,
            r.offset2() == offset2,
    {
        let mut pics: Vec<Pic> = Vec::new();
        pics.push(Pic { offset: offset1, command: 0x20, data: 0x21 });
        pics.push(Pic { offset: offset2, command: 0xA0, data: 0xA1 });
        ChainedPics { pics }
    }

    /// Whether either controller handles this interrupt vector.
    pub fn handles_interrupt(&self, interrupt_id: u8) -> (r: bool)
        requires
            self.wf(),
        ensures
            r == (self.offset1() <= interrupt_id < self.offset1() + 8 || self.offset2()
                <= interrupt_id < self.offset2() + 8),
    {
        self.pics[0].handles_interrupt(interrupt_id) || self.pics[1].handles_interrupt(
            interrupt_id,
        )
    }
}

} // verus!
