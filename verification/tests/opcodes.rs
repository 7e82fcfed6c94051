//! One test per opcode family, with the error conditions of the dispatcher.

use chip8::{Chip8Error, Emu};

fn prog(words: &[u16]) -> Vec<u8> {
    let mut bytes = Vec::new();
    for w in words {
        bytes.push((w >> 8) as u8);
        bytes.push((w & 0xFF) as u8);
    }
    bytes
}

fn run(e: &mut Emu, n: usize) {
    for _ in 0..n {
        e.tick_with_random(0).unwrap();
    }
}

fn machine(words: &[u16]) -> Emu {
    let mut e = Emu::new();
    e.load(&prog(words)).unwrap();
    e
}

#[test]
fn nop_advances_only_the_counter() {
    let mut e = machine(&[0x0000]);
    run(&mut e, 1);
    assert_eq!(e.get_pc(), 0x202);
    for i in 0..16 {
        assert_eq!(e.get_reg(i), 0);
    }
}

#[test]
fn clear_screen_blanks_every_cell() {
    // draw the font glyph for 0 at (0, 0), then clear
    let mut e = machine(&[0xA000, 0xD005, 0x00E0]);
    run(&mut e, 2);
    assert!(e.get_screen().iter().any(|p| *p));
    run(&mut e, 1);
    assert!(e.get_screen().iter().all(|p| !p));
}

#[test]
fn call_and_return_round_trip() {
    // call 0x208; there V1 = 9, return; back at 0x204: V2 = 7
    let mut e = machine(&[0x2208, 0x0000, 0x6207, 0x0000, 0x6109, 0x00EE]);
    run(&mut e, 1);
    assert_eq!(e.get_pc(), 0x208);
    run(&mut e, 1);
    assert_eq!(e.get_reg(1), 9);
    run(&mut e, 1);
    assert_eq!(e.get_pc(), 0x202);
    run(&mut e, 2);
    assert_eq!(e.get_reg(2), 7);
}

#[test]
fn return_on_empty_stack_is_reported() {
    let mut e = machine(&[0x00EE]);
    assert_eq!(e.tick_with_random(0), Err(Chip8Error::StackUnderflow));
}

#[test]
fn call_past_stack_depth_is_reported() {
    let mut e = machine(&[0x2200]); // call self: pushes forever
    for _ in 0..16 {
        e.tick_with_random(0).unwrap();
    }
    assert_eq!(e.tick_with_random(0), Err(Chip8Error::StackOverflow));
}

#[test]
fn jump_sets_the_counter() {
    let mut e = machine(&[0x1234]);
    run(&mut e, 1);
    assert_eq!(e.get_pc(), 0x234);
}

#[test]
fn jump_with_offset_adds_v0() {
    let mut e = machine(&[0x6005, 0xB300]);
    run(&mut e, 2);
    assert_eq!(e.get_pc(), 0x305);
}

#[test]
fn load_and_copy_registers() {
    let mut e = machine(&[0x6321, 0x8430]);
    run(&mut e, 2);
    assert_eq!(e.get_reg(3), 0x21);
    assert_eq!(e.get_reg(4), 0x21);
}

#[test]
fn add_immediate_wraps_without_flag() {
    let mut e = machine(&[0x60FF, 0x7002]);
    run(&mut e, 2);
    assert_eq!(e.get_reg(0), 0x01);
    assert_eq!(e.get_reg(15), 0);
}

#[test]
fn bitwise_or_and_xor() {
    let mut e = machine(&[0x60F0, 0x610F, 0x8011]);
    run(&mut e, 3);
    assert_eq!(e.get_reg(0), 0xFF);
    let mut e2 = machine(&[0x60CC, 0x61AA, 0x8012]);
    run(&mut e2, 3);
    assert_eq!(e2.get_reg(0), 0x88);
    let mut e3 = machine(&[0x60CC, 0x61AA, 0x8013]);
    run(&mut e3, 3);
    assert_eq!(e3.get_reg(0), 0x66);
}

#[test]
fn add_with_carry_sets_flag_only_on_overflow() {
    let mut e = machine(&[0x6010, 0x6120, 0x8014]);
    run(&mut e, 3);
    assert_eq!(e.get_reg(0), 0x30);
    assert_eq!(e.get_reg(15), 0);
}

#[test]
fn subtract_without_borrow_sets_flag() {
    let mut e = machine(&[0x6005, 0x6103, 0x8015]);
    run(&mut e, 3);
    assert_eq!(e.get_reg(0), 0x02);
    assert_eq!(e.get_reg(15), 1);
}

#[test]
fn reverse_subtract_follows_the_same_convention() {
    // V0 = V1 - V0: 2 - 5 borrows, flag 0
    let mut e = machine(&[0x6005, 0x6102, 0x8017]);
    run(&mut e, 3);
    assert_eq!(e.get_reg(0), 0xFD);
    assert_eq!(e.get_reg(15), 0);
    // 7 - 2: no borrow, flag 1
    let mut e2 = machine(&[0x6002, 0x6107, 0x8017]);
    run(&mut e2, 3);
    assert_eq!(e2.get_reg(0), 5);
    assert_eq!(e2.get_reg(15), 1);
}

#[test]
fn shift_right_keeps_the_dropped_bit() {
    let mut e = machine(&[0x6005, 0x8006]);
    run(&mut e, 2);
    assert_eq!(e.get_reg(0), 2);
    assert_eq!(e.get_reg(15), 1);
    let mut e2 = machine(&[0x6004, 0x8006]);
    run(&mut e2, 2);
    assert_eq!(e2.get_reg(0), 2);
    assert_eq!(e2.get_reg(15), 0);
}

#[test]
fn shift_left_keeps_the_dropped_bit() {
    let mut e = machine(&[0x6081, 0x800E]);
    run(&mut e, 2);
    assert_eq!(e.get_reg(0), 2);
    assert_eq!(e.get_reg(15), 1);
    let mut e2 = machine(&[0x6041, 0x800E]);
    run(&mut e2, 2);
    assert_eq!(e2.get_reg(0), 0x82);
    assert_eq!(e2.get_reg(15), 0);
}

#[test]
fn shifts_use_register_x_alone() {
    // the y field is ignored by both shifts
    let mut e = machine(&[0x6006, 0x61FF, 0x8016, 0x821E]);
    run(&mut e, 3);
    assert_eq!(e.get_reg(0), 3);
    assert_eq!(e.get_reg(15), 0);
    run(&mut e, 1);
    assert_eq!(e.get_reg(2), 0);
}

#[test]
fn index_register_loads_and_adds() {
    let mut e = machine(&[0xA123, 0x6010, 0xF01E]);
    run(&mut e, 3);
    assert_eq!(e.get_index(), 0x133);
}

#[test]
fn index_add_wraps_past_the_address_space() {
    // V0 = 255; add it to the index 258 times: 255 * 258 = 65790 wraps to 254
    let mut e = machine(&[0x60FF, 0xF01E, 0x1202]);
    run(&mut e, 1);
    for _ in 0..258 {
        run(&mut e, 2);
    }
    assert_eq!(e.get_index(), 254);
}

#[test]
fn random_opcode_masks_the_supplied_byte() {
    let mut e = machine(&[0xC00F]);
    e.tick_with_random(0xAB).unwrap();
    assert_eq!(e.get_reg(0), 0x0B);
    let mut e2 = machine(&[0xC1F0]);
    e2.tick_with_random(0xAB).unwrap();
    assert_eq!(e2.get_reg(1), 0xA0);
}

#[test]
fn random_opcode_with_zero_mask_is_zero() {
    // whatever byte the machine draws, the AND with 0 pins the result
    let mut e = machine(&[0x6077, 0xC000]);
    e.tick().unwrap();
    e.tick().unwrap();
    assert_eq!(e.get_reg(0), 0);
}

#[test]
fn font_address_is_five_bytes_per_glyph() {
    let mut e = machine(&[0x600A, 0xF029]);
    run(&mut e, 2);
    assert_eq!(e.get_index(), 50);
}

#[test]
fn bcd_writes_three_digits() {
    let mut e = machine(&[0x6007, 0xA300, 0xF033]);
    run(&mut e, 3);
    assert_eq!(e.read_ram(0x300), 0);
    assert_eq!(e.read_ram(0x301), 0);
    assert_eq!(e.read_ram(0x302), 7);
}

#[test]
fn bcd_past_memory_end_is_reported() {
    let mut e = machine(&[0x6007, 0xAFFF, 0xF033]);
    run(&mut e, 2);
    // the index register holds 4095; three digits do not fit
    assert_eq!(e.tick_with_random(0), Err(Chip8Error::MemoryOutOfBounds));
}

#[test]
fn store_and_load_registers_round_trip() {
    let mut e = machine(&[
        0x6011, 0x6122, 0x6233, 0xA300, 0xF255, // store V0..=V2 at 0x300
        0x6000, 0x6100, 0x6200, // wipe them
        0xF265, // load V0..=V2 back
    ]);
    run(&mut e, 5);
    assert_eq!(e.read_ram(0x300), 0x11);
    assert_eq!(e.read_ram(0x301), 0x22);
    assert_eq!(e.read_ram(0x302), 0x33);
    assert_eq!(e.read_ram(0x303), 0);
    run(&mut e, 3);
    assert_eq!(e.get_reg(0), 0);
    run(&mut e, 1);
    assert_eq!(e.get_reg(0), 0x11);
    assert_eq!(e.get_reg(1), 0x22);
    assert_eq!(e.get_reg(2), 0x33);
}

#[test]
fn store_past_memory_end_is_reported() {
    let mut e = machine(&[0xAFFE, 0xF255]);
    run(&mut e, 1);
    // addresses 4094, 4095, 4096: the last is out of memory
    assert_eq!(e.tick_with_random(0), Err(Chip8Error::MemoryOutOfBounds));
}

#[test]
fn load_registers_past_memory_end_is_reported() {
    let mut e = machine(&[0xAFFE, 0xF265]);
    run(&mut e, 1);
    assert_eq!(e.tick_with_random(0), Err(Chip8Error::MemoryOutOfBounds));
}

#[test]
fn store_at_the_last_valid_addresses_succeeds() {
    let mut e = machine(&[0x60AA, 0x61BB, 0xAFFE, 0xF155]);
    run(&mut e, 4);
    assert_eq!(e.read_ram(4094), 0xAA);
    assert_eq!(e.read_ram(4095), 0xBB);
}

#[test]
fn key_wait_blocks_until_a_key_arrives() {
    let mut e = machine(&[0xF30A, 0x6401]);
    run(&mut e, 1);
    assert_eq!(e.awaiting_key(), Some(3));
    let pc = e.get_pc();
    // further steps without a key change nothing
    run(&mut e, 3);
    assert_eq!(e.awaiting_key(), Some(3));
    assert_eq!(e.get_pc(), pc);
    assert_eq!(e.get_reg(4), 0);
    // the lowest pressed key resolves the wait
    e.keypress(9, true);
    e.keypress(5, true);
    run(&mut e, 1);
    assert_eq!(e.awaiting_key(), None);
    assert_eq!(e.get_reg(3), 5);
    // execution then continues with the following instruction
    run(&mut e, 1);
    assert_eq!(e.get_reg(4), 1);
}

#[test]
fn key_wait_with_a_key_already_down_does_not_block() {
    let mut e = machine(&[0xF30A]);
    e.keypress(0xC, true);
    run(&mut e, 1);
    assert_eq!(e.awaiting_key(), None);
    assert_eq!(e.get_reg(3), 0xC);
}

#[test]
fn key_skip_with_an_index_past_the_pad_is_reported() {
    let mut e = machine(&[0x6010, 0xE09E]);
    run(&mut e, 1);
    assert_eq!(e.tick_with_random(0), Err(Chip8Error::KeyOutOfRange));
    let mut e2 = machine(&[0x6010, 0xE0A1]);
    run(&mut e2, 1);
    assert_eq!(e2.tick_with_random(0), Err(Chip8Error::KeyOutOfRange));
}

#[test]
fn invalid_opcodes_are_reported() {
    for &w in &[0x0123u16, 0x5121, 0x8018, 0x9121, 0xE0FF, 0xF0FF] {
        let mut e = machine(&[w]);
        assert_eq!(e.tick_with_random(0), Err(Chip8Error::InvalidOpcode), "word {w:#06X}");
    }
}

#[test]
fn counter_running_off_memory_is_reported() {
    let mut e = machine(&[0x1FFE]); // jump to 4094
    run(&mut e, 1);
    // the word at 4094 is 0x0000: a no-op, leaving the counter at 4096
    run(&mut e, 1);
    assert_eq!(e.get_pc(), 4096);
    assert_eq!(
        e.tick_with_random(0),
        Err(Chip8Error::ProgramCounterOutOfBounds)
    );
}

#[test]
fn draw_reads_past_memory_end_is_reported() {
    let mut e = machine(&[0xAFFF, 0xD015]);
    run(&mut e, 1);
    assert_eq!(e.tick_with_random(0), Err(Chip8Error::MemoryOutOfBounds));
}

#[test]
fn draw_of_zero_rows_does_nothing() {
    let mut e = machine(&[0xAFFF, 0xD010]);
    run(&mut e, 2);
    assert!(e.get_screen().iter().all(|p| !p));
    assert_eq!(e.get_reg(15), 0);
}
