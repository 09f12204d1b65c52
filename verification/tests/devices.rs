//! Keyboard state machine and framebuffer model.

use kernel_core::chardev::CharDev;
use kernel_core::framebuffer::{Framebuffer, Rgb};
use kernel_core::keyboard::{Keyboard, KeyboardState, NO_KEYS};

#[test]
fn key_press_and_release() {
    let mut state = KeyboardState::new();
    state.update(30);
    state.update(44);
    let mut keys: Vec<u8> = Vec::new();
    state.get(&mut keys);
    assert_eq!(keys, vec![30, 44, 0, 0, 0, 0]);
    // pressing a held key again changes nothing
    state.update(30);
    state.get(&mut keys);
    assert_eq!(keys, vec![30, 44, 0, 0, 0, 0]);
    // releasing clears the slot; release codes are press plus 128
    state.update(30 + 128);
    state.get(&mut keys);
    assert_eq!(keys, vec![0, 44, 0, 0, 0, 0]);
    // the freed slot is reused first
    state.update(2);
    state.get(&mut keys);
    assert_eq!(keys, vec![2, 44, 0, 0, 0, 0]);
}

#[test]
fn releasing_an_unheld_key_is_ignored() {
    let mut state = KeyboardState::new();
    state.update(5);
    state.update(99 + 128);
    let mut keys: Vec<u8> = Vec::new();
    state.get(&mut keys);
    assert_eq!(keys, vec![5, 0, 0, 0, 0, 0]);
}

#[test]
fn more_keys_than_slots_are_dropped() {
    let mut state = KeyboardState::new();
    for code in 1..=7u8 {
        state.update(code);
    }
    let mut keys: Vec<u8> = Vec::new();
    state.get(&mut keys);
    assert_eq!(keys, vec![1, 2, 3, 4, 5, 6]);
}

#[test]
fn keyboard_reports_held_count() {
    let mut kb = Keyboard { state: KeyboardState::new() };
    kb.state.update(10);
    kb.state.update(20);
    let mut buf = vec![0u8; NO_KEYS];
    let held = kb.read(NO_KEYS, &mut buf).unwrap();
    assert_eq!(held, 2);
    assert_eq!(buf, vec![10, 20, 0, 0, 0, 0]);
    // a request of the wrong size is refused, and writes always are
    assert!(kb.read(3, &mut buf).is_none());
    assert!(kb.write(NO_KEYS, &buf).is_none());
}

#[test]
fn colour_packing() {
    assert_eq!(Rgb::new(1, 2, 3).pack32(), 0x010203);
    assert_eq!(Rgb::new(0xFF, 0, 0).pack32(), 0xFF0000);
    assert_eq!(Rgb::new(0, 0, 0xFF).pack32(), 0xFF);
}

#[test]
fn framebuffer_fill() {
    let mut fb = Framebuffer::init(4, 3, 32).unwrap();
    assert_eq!(fb.buffer.len(), 12);
    assert!(fb.buffer.iter().all(|p| *p == 0));
    fb.fill(Rgb::new(0, 0, 255));
    assert!(fb.buffer.iter().all(|p| *p == 255));
}
