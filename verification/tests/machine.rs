//! Lifecycle, stack, load, keypad and timer behavior of the machine.

use chip8::{Chip8Error, Emu, FONTSET};

fn prog(words: &[u16]) -> Vec<u8> {
    let mut bytes = Vec::new();
    for w in words {
        bytes.push((w >> 8) as u8);
        bytes.push((w & 0xFF) as u8);
    }
    bytes
}

#[test]
fn fresh_machine_state() {
    let e = Emu::new();
    assert_eq!(e.get_pc(), 0x200);
    assert_eq!(e.get_index(), 0);
    assert_eq!(e.get_delay(), 0);
    assert_eq!(e.get_sound(), 0);
    assert_eq!(e.awaiting_key(), None);
    for i in 0..16 {
        assert_eq!(e.get_reg(i), 0);
    }
    let screen = e.get_screen();
    assert_eq!(screen.len(), 64 * 32);
    assert!(screen.iter().all(|p| !p));
    for a in 0..80 {
        assert_eq!(e.read_ram(a), FONTSET[a]);
    }
    for a in 80..4096 {
        assert_eq!(e.read_ram(a), 0);
    }
}

#[test]
fn reset_restores_fresh_state() {
    let mut e = Emu::new();
    let bytes = prog(&[0x6A12, 0x6BFF, 0xA123, 0xF015, 0xF018, 0x2300]);
    e.load(&bytes).unwrap();
    for _ in 0..6 {
        let _ = e.tick_with_random(0);
    }
    e.keypress(3, true);
    e.reset();
    assert_eq!(e.get_pc(), 0x200);
    assert_eq!(e.get_index(), 0);
    assert_eq!(e.get_delay(), 0);
    assert_eq!(e.get_sound(), 0);
    assert_eq!(e.awaiting_key(), None);
    for i in 0..16 {
        assert_eq!(e.get_reg(i), 0);
    }
    assert!(e.get_screen().iter().all(|p| !p));
    for a in 0..80 {
        assert_eq!(e.read_ram(a), FONTSET[a]);
    }
    for a in 80..4096 {
        assert_eq!(e.read_ram(a), 0);
    }
    // a popped return address from before the reset must be gone
    assert_eq!(e.pop(), Err(Chip8Error::StackUnderflow));
    // the key pressed before the reset must be released: a key-wait blocks
    let wait = prog(&[0xF00A]);
    e.load(&wait).unwrap();
    e.tick_with_random(0).unwrap();
    assert_eq!(e.awaiting_key(), Some(0));
}

#[test]
fn stack_is_last_in_first_out() {
    let mut e = Emu::new();
    let addrs: Vec<u16> = (0..16).map(|k| 0x300 + 7 * k).collect();
    for &a in &addrs {
        assert_eq!(e.push(a), Ok(()));
    }
    for k in 0..16 {
        assert_eq!(e.pop(), Ok(addrs[15 - k]));
    }
    assert_eq!(e.pop(), Err(Chip8Error::StackUnderflow));
}

#[test]
fn stack_overflow_is_reported() {
    let mut e = Emu::new();
    for k in 0..16 {
        assert_eq!(e.push(0x200 + k), Ok(()));
    }
    assert_eq!(e.push(0xBEE), Err(Chip8Error::StackOverflow));
    // the refused push changed nothing
    assert_eq!(e.pop(), Ok(0x200 + 15));
}

#[test]
fn load_places_program_at_base() {
    let mut e = Emu::new();
    let bytes = vec![0xAB, 0xCD, 0xEF];
    assert_eq!(e.load(&bytes), Ok(()));
    assert_eq!(e.read_ram(0x200), 0xAB);
    assert_eq!(e.read_ram(0x201), 0xCD);
    assert_eq!(e.read_ram(0x202), 0xEF);
    assert_eq!(e.read_ram(0x203), 0);
    // the font is untouched
    for a in 0..80 {
        assert_eq!(e.read_ram(a), FONTSET[a]);
    }
}

#[test]
fn load_accepts_exactly_full_program_space() {
    let mut e = Emu::new();
    let bytes = vec![0x77u8; 4096 - 0x200];
    assert_eq!(e.load(&bytes), Ok(()));
    assert_eq!(e.read_ram(0x200), 0x77);
    assert_eq!(e.read_ram(4095), 0x77);
}

#[test]
fn oversized_program_is_rejected_before_writing() {
    let mut e = Emu::new();
    let bytes = vec![0x77u8; 4096 - 0x200 + 1];
    assert_eq!(e.load(&bytes), Err(Chip8Error::ProgramTooLarge));
    assert_eq!(e.read_ram(0x200), 0);
}

#[test]
fn keypress_sets_and_clears_keys() {
    let mut e = Emu::new();
    // E09E skips when the key in V0 is pressed
    let bytes = prog(&[0x6007, 0xE09E]);
    e.load(&bytes).unwrap();
    e.keypress(7, true);
    e.tick_with_random(0).unwrap();
    e.tick_with_random(0).unwrap();
    assert_eq!(e.get_pc(), 0x206);
    e.keypress(7, false);
    let mut e2 = Emu::new();
    e2.load(&bytes).unwrap();
    e2.keypress(7, true);
    e2.keypress(7, false);
    e2.tick_with_random(0).unwrap();
    e2.tick_with_random(0).unwrap();
    assert_eq!(e2.get_pc(), 0x204);
}

#[test]
fn keypress_out_of_range_is_ignored() {
    let mut e = Emu::new();
    e.keypress(16, true);
    e.keypress(1000, true);
    // no key is pressed, so a key-wait stays pending
    let bytes = prog(&[0xF00A]);
    e.load(&bytes).unwrap();
    e.tick_with_random(0).unwrap();
    assert_eq!(e.awaiting_key(), Some(0));
}

#[test]
fn timers_count_down_independently() {
    let mut e = Emu::new();
    // V0 = 3 into delay, V1 = 2 into sound
    let bytes = prog(&[0x6003, 0xF015, 0x6102, 0xF118]);
    e.load(&bytes).unwrap();
    for _ in 0..4 {
        e.tick_with_random(0).unwrap();
    }
    assert_eq!(e.get_delay(), 3);
    assert_eq!(e.get_sound(), 2);
    assert!(!e.tick_timer());
    assert_eq!(e.get_delay(), 2);
    assert_eq!(e.get_sound(), 1);
    // the sound timer goes from 1 to 0: the tone fires exactly here
    assert!(e.tick_timer());
    assert_eq!(e.get_delay(), 1);
    assert_eq!(e.get_sound(), 0);
    assert!(!e.tick_timer());
    assert_eq!(e.get_delay(), 0);
    assert_eq!(e.get_sound(), 0);
    // both timers stay at zero
    assert!(!e.tick_timer());
    assert_eq!(e.get_delay(), 0);
    assert_eq!(e.get_sound(), 0);
}

#[test]
fn delay_timer_reads_back() {
    let mut e = Emu::new();
    // V0 = 9 into delay; then read the delay into V5
    let bytes = prog(&[0x6009, 0xF015, 0xF507]);
    e.load(&bytes).unwrap();
    e.tick_with_random(0).unwrap();
    e.tick_with_random(0).unwrap();
    e.tick_timer();
    e.tick_with_random(0).unwrap();
    assert_eq!(e.get_reg(5), 8);
}
