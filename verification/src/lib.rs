//! A verified CHIP-8 instruction-execution core.
//!
//! The machine state (memory, registers, stack, timers, keypad latch,
//! framebuffer) lives in [`Emu`]; one call of [`Emu::tick`] runs one
//! fetch-decode-execute cycle whose effect is pinned down, opcode by opcode,
//! by the specification-level interpreter in [`semantics`].

use vstd::prelude::*;

pub mod emu;
pub mod laws;
pub mod semantics;
pub mod state;

pub use emu::Emu;

verus! {

/// Size of the machine's addressable memory, in bytes.
pub const RAM_SIZE: usize = 4096;

/// Width of the monochrome display, in pixels.
pub const SCREEN_WIDTH: usize = 64;

/// Height of the monochrome display, in pixels.
pub const SCREEN_HEIGHT: usize = 32;

/// Number of general-purpose registers.
pub const NUM_REGS: usize = 16;

/// Number of keys on the hexadecimal keypad.
pub const NUM_KEYS: usize = 16;

/// Depth of the call stack.
pub const STACK_SIZE: usize = 16;

/// Address at which loaded programs begin, and the reset value of the
/// program counter.
pub const START_ADDR: u16 = 0x200;

/// Size of the built-in font table, in bytes.
pub const FONT_SIZE: usize = 80;

/// The built-in font: 16 glyphs (hexadecimal digits 0 through F) of 5 rows
/// each, one byte per row, kept at the bottom of memory.
pub const FONTSET: [u8; 80] = [
    0xF0, 0x90, 0x90, 0x90, 0xF0, // 0
    0x20, 0x60, 0x20, 0x20, 0x70, // 1
    0xF0, 0x10, 0xF0, 0x80, 0xF0, // 2
    0xF0, 0x10, 0xF0, 0x10, 0xF0, // 3
    0x90, 0x90, 0xF0, 0x10, 0x10, // 4
    0xF0, 0x80, 0xF0, 0x10, 0xF0, // 5
    0xF0, 0x80, 0xF0, 0x90, 0xF0, // 6
    0xF0, 0x10, 0x20, 0x40, 0x40, // 7
    0xF0, 0x90, 0xF0, 0x90, 0xF0, // 8
    0xF0, 0x90, 0xF0, 0x10, 0xF0, // 9
    0xF0, 0x90, 0xF0, 0x90, 0x90, // A
    0xE0, 0x90, 0xE0, 0x90, 0xE0, // B
    0xF0, 0x80, 0x80, 0x80, 0xF0, // C
    0xE0, 0x90, 0x90, 0x90, 0xE0, // D
    0xF0, 0x80, 0xF0, 0x80, 0xF0, // E
    0xF0, 0x80, 0xF0, 0x80, 0x80, // F
];

/// The conditions the core reports instead of corrupting state: an opcode
/// outside the instruction table, a stack or memory access out of its range,
/// or a program that does not fit in memory.
#[derive(Clone, Copy, Debug, PartialEq, Eq, Structural)]
pub enum Chip8Error {
    /// The fetched instruction word matches no defined opcode pattern.
    InvalidOpcode,
    /// A call was executed with the call stack already at full depth.
    StackOverflow,
    /// A return was executed with the call stack empty.
    StackUnderflow,
    /// An opcode computed a memory address past the end of memory.
    MemoryOutOfBounds,
    /// The program counter points past the end of memory.
    ProgramCounterOutOfBounds,
    /// A key index read from a register is not a key of the keypad.
    KeyOutOfRange,
    /// The program handed to `load` does not fit in program space.
    ProgramTooLarge,
}

} // verus!
