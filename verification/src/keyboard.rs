//! The keyboard state machine: a fixed set of currently pressed keys,
//! updated from raw scancodes (press below 128, release at the same
//! code plus 128).

use vstd::prelude::*;
use crate::chardev::CharDev;

verus! {

/// Number of simultaneously tracked keys.
pub const NO_KEYS: usize = 6;

/// Index of the first slot holding the given value, or the slot count
/// when none does.
pub open spec fn spec_first_slot(keys: Seq<u8>, value: u8, from: int) -> int
    decreases 6 - from,
{
    if from < 0 || from >= 6 {
        6
    } else if keys[from] == value {
        from
    } else {
        spec_first_slot(keys, value, from + 1)
    }
}

/// The set of currently pressed keys: slot value zero means empty,
/// anything else is the scancode of a held key.
pub struct KeyboardState {
    pressed_keys: Vec<u8>,
    no_pressed: u8,
}

impl KeyboardState {
    /// The pressed-key slots in order.
    pub closed spec fn keys(&self) -> Seq<u8> {
        self.pressed_keys@
    }

    /// There is always exactly one slot per tracked key.
    pub closed spec fn wf(&self) -> bool {
        self.pressed_keys@.len() == 6 && self.no_pressed == 0
    }

    /// Creates a state with no key pressed.
    pub fn new() -> (r: Self)
        ensures
            r.wf(),
            forall|i: int| 0 <= i < 6 ==> r.keys()[i] == 0,
    {
        let mut pressed_keys: Vec<u8> = Vec::new();
        let mut i: usize = 0;
        while i < 6
            invariant
                i == pressed_keys.len(),
                i <= 6,
                forall|k: int| 0 <= k < i ==> pressed_keys@[k] == 0,
            decreases 6 - i,
        {
            pressed_keys.push(0);
            i += 1;
        }
        KeyboardState { pressed_keys, no_pressed: 0 }
    }

    /// Fills the given buffer with the currently pressed keys.
    pub fn get(&self, buf: &mut Vec<u8>)
        requires
            self.wf(),
        ensures
            final(buf)@ == self.keys(),
    {
        buf.clear();
        let mut i: usize = 0;
        while i < 6
            invariant
                self.wf(),
                i == buf.len(),
                i <= 6,
                forall|k: int| 0 <= k < i ==> buf@[k] == self.keys()[k],
            decreases 6 - i,
        {
            buf.push(self.pressed_keys[i]);
            i += 1;
        }
        proof {
            assert(buf@ =~= self.keys());
        }
    }

    /// Updates the currently pressed keys from one scancode: a press
    /// records the key in the first free slot unless it is already
    /// held or every slot is taken; a release clears the first slot
    /// holding the key, if any.
    pub fn update(&mut self, scancode: u8)
        requires
            old(self).wf(),
        ensures
            final(self).wf(),
            ({
                let keys = old(self).keys();
                if scancode < 128 {
                    if spec_first_slot(keys, scancode, 0) < 6 {
                        final(self).keys() == keys
                    } else if spec_first_slot(keys, 0, 0) < 6 {
                        final(self).keys() == keys.update(spec_first_slot(keys, 0, 0), scancode)
                    } else {
                        final(self).keys() == keys
                    }
                } else {
                    if spec_first_slot(keys, (scancode - 128) as u8, 0) < 6 {
                        final(self).keys() == keys.update(
                            spec_first_slot(keys, (scancode - 128) as u8, 0),
                            0u8,
                        )
                    } else {
                        final(self).keys() == keys
                    }
                }
            }),
    {
        if self.no_pressed == 6 {
            return ;
        }
        let ghost keys = self.keys();
        if scancode < 128 {
            // already pressed?
            match self.find_slot(scancode) {
                Some(_) => {
                    return ;
                },
                None => {},
            }
            // record the key in the first free slot, if any
            match self.find_slot(0) {
                Some(slot) => {
                    let ghost pre = self.keys();
                    self.pressed_keys.set(slot, scancode);
                    proof {
                        assert(self.keys() =~= pre.update(slot as int, scancode));
                    }
                },
                None => {},
            }
        } else {
            let released = scancode - 128;
            match self.find_slot(released) {
                Some(slot) => {
                    let ghost pre = self.keys();
                    self.pressed_keys.set(slot, 0);
                    proof {
                        assert(self.keys() =~= pre.update(slot as int, 0u8));
                    }
                },
                None => {},
            }
        }
    }

    /// Finds the first slot holding the given value.
    fn find_slot(&self, value: u8) -> (r: Option<usize>)
        requires
            self.wf(),
        ensures
            match r {
                Some(slot) => slot < 6 && slot as int == spec_first_slot(
                    self.keys(),
                    value,
                    0,
                ),
                None => spec_first_slot(self.keys(), value, 0) == 6,
            },
    {
        let mut i: usize = 0;
        while i < 6
            invariant
                self.wf(),
                i <= 6,
                spec_first_slot(self.keys(), value, 0) == spec_first_slot(
                    self.keys(),
                    value,
                    i as int,
                ),
            decreases 6 - i,
        {
            if self.pressed_keys[i] == value {
                return Some(i);
            }
            i += 1;
        }
        None
    }
}

/// The keyboard as a character device over its pressed-key state.
pub struct Keyboard {
    pub state: KeyboardState,
}

impl CharDev for Keyboard {
    /// Reports the currently pressed keys: fills the buffer with the
    /// key slots and returns how many keys are held.  The request must
    /// ask for exactly the slot count.
    fn read(&self, size: usize, buf: &mut Vec<u8>) -> Option<usize> {
        if size != NO_KEYS || buf.len() != NO_KEYS {
            return None;
        }
        if !self.state.slot_count_ok() {
            return None;
        }
        self.state.get(buf);
        let mut held: usize = 0;
        let mut i: usize = 0;
        while i < buf.len()
            invariant
                held <= i,
                i <= buf.len(),
            decreases buf.len() - i,
        {
            if buf[i] != 0 {
                held += 1;
            }
            i += 1;
        }
        Some(held)
    }

    /// The keyboard takes no output.
    fn write(&mut self, _size: usize, _buf: &Vec<u8>) -> Option<usize> {
        None
    }
}

impl KeyboardState {
    /// Checks the slot bookkeeping at run time, for callers that hold
    /// no proof of it.
    pub fn slot_count_ok(&self) -> (r: bool)
        ensures
            r == self.wf(),
    {
        self.pressed_keys.len() == 6 && self.no_pressed == 0
    }
}

} // verus!
