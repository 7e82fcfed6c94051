//! The executable machine: state container, lifecycle, and the
//! fetch-decode-execute cycle, each operation proved against the
//! specification-level interpreter in [`crate::semantics`].

use vstd::prelude::*;

verus! {

use crate::{Chip8Error, FONTSET};
use crate::semantics::{
    dec_timer, draw_flag, draw_inv_flag, draw_inv_screen, draw_screen, exec_op, first_pressed,
    first_pressed_from, lemma_draw_done, lemma_draw_init, lemma_draw_row, lemma_draw_skip,
    lemma_draw_toggle, lemma_field_bounds, load_regs_spec, sprite_bit, sprite_hits, step,
    store_regs_spec, word_at,
};
use crate::state::{initial_view, view_wf, EmuView};

/// The CHIP-8 machine: memory, registers, call stack, timers, keypad latch
/// and framebuffer, stepped one instruction at a time.
pub struct Emu {
    pc: u16,
    ram: Vec<u8>,
    screen: Vec<bool>,
    v_reg: Vec<u8>,
    i_reg: u16,
    keys: Vec<bool>,
    stack: Vec<u16>,
    dt: u8,
    st: u8,
    waiting: Option<u8>,
}

impl View for Emu {
    type V = EmuView;

    closed spec fn view(&self) -> EmuView {
        EmuView {
            pc: self.pc,
            ram: self.ram@,
            screen: self.screen@,
            v_reg: self.v_reg@,
            i_reg: self.i_reg,
            keys: self.keys@,
            stack: self.stack@,
            dt: self.dt,
            st: self.st,
            waiting: self.waiting,
        }
    }
}

impl Emu {
    /// The machine keeps the shape of a reachable state.
    pub open spec fn wf(&self) -> bool {
        view_wf(self@)
    }

    /// A fresh machine: everything zeroed, the font in place, the program
    /// counter at the load base.
    pub fn new() -> (emu: Emu)
        ensures
            emu.wf(),
            emu@ == initial_view(),
    {
        let mut emu = Emu {
            pc: 0x200,
            ram: filled(4096, 0u8),
            screen: filled(2048, false),
            v_reg: filled(16, 0u8),
            i_reg: 0,
            keys: filled(16, false),
            stack: Vec::new(),
            dt: 0,
            st: 0,
            waiting: None,
        };
        write_font(&mut emu.ram);
        proof {
            assert(emu@.ram =~= initial_view().ram);
            assert(emu@.screen =~= initial_view().screen);
            assert(emu@.v_reg =~= initial_view().v_reg);
            assert(emu@.keys =~= initial_view().keys);
            assert(emu@.stack =~= initial_view().stack);
            assert(emu@ =~= initial_view());
        }
        emu
    }

    /// Return the machine to its just-constructed condition: everything
    /// zeroed, the font seeded again.
    pub fn reset(&mut self)
        ensures
            final(self).wf(),
            final(self)@ == initial_view(),
    {
        self.pc = 0x200;
        self.ram = filled(4096, 0u8);
        write_font(&mut self.ram);
        self.screen = filled(2048, false);
        self.v_reg = filled(16, 0u8);
        self.i_reg = 0;
        self.keys = filled(16, false);
        self.stack = Vec::new();
        self.dt = 0;
        self.st = 0;
        self.waiting = None;
        proof {
            assert(self@.ram =~= initial_view().ram);
            assert(self@.screen =~= initial_view().screen);
            assert(self@.v_reg =~= initial_view().v_reg);
            assert(self@.keys =~= initial_view().keys);
            assert(self@.stack =~= initial_view().stack);
            assert(self@ =~= initial_view());
        }
    }

    /// Push a return address. Refused, with the machine untouched, when the
    /// stack already holds its full depth of 16.
    pub fn push(&mut self, val: u16) -> (r: Result<(), Chip8Error>)
        requires
            old(self).wf(),
        ensures
            final(self).wf(),
            old(self)@.stack.len() < 16 ==> r == Ok::<(), Chip8Error>(()) && final(self)@
                == (EmuView { stack: old(self)@.stack.push(val), ..old(self)@ }),
            old(self)@.stack.len() >= 16 ==> r == Err::<(), Chip8Error>(Chip8Error::StackOverflow)
                && final(self)@ == old(self)@,
    {
        if self.stack.len() >= 16 {
            Err(Chip8Error::StackOverflow)
        } else {
            self.stack.push(val);
            Ok(())
        }
    }

    /// Pop the most recent return address. Refused, with the machine
    /// untouched, when the stack is empty.
    pub fn pop(&mut self) -> (r: Result<u16, Chip8Error>)
        requires
            old(self).wf(),
        ensures
            final(self).wf(),
            old(self)@.stack.len() > 0 ==> r == Ok::<u16, Chip8Error>(old(self)@.stack.last())
                && final(self)@ == (EmuView {
                stack: old(self)@.stack.drop_last(),
                ..old(self)@
            }),
            old(self)@.stack.len() == 0 ==> r == Err::<u16, Chip8Error>(Chip8Error::StackUnderflow)
                && final(self)@ == old(self)@,
    {
        if self.stack.len() == 0 {
            Err(Chip8Error::StackUnderflow)
        } else {
            let val = self.stack.pop();
            match val {
                Some(v) => Ok(v),
                None => Err(Chip8Error::StackUnderflow),
            }
        }
    }

    /// Copy a program into memory at the load base, byte for byte. A
    /// program longer than the space above the base is refused before any
    /// byte is written.
    pub fn load(&mut self, data: &[u8]) -> (r: Result<(), Chip8Error>)
        requires
            old(self).wf(),
        ensures
            final(self).wf(),
            data@.len() <= 3584 ==> r == Ok::<(), Chip8Error>(()) && final(self)@ == (EmuView {
                ram: loaded_ram(old(self)@.ram, data@),
                ..old(self)@
            }),
            data@.len() > 3584 ==> r == Err::<(), Chip8Error>(Chip8Error::ProgramTooLarge)
                && final(self)@ == old(self)@,
    {
        if data.len() > 3584 {
            return Err(Chip8Error::ProgramTooLarge);
        }
        let mut j: usize = 0;
        while j < data.len()
            invariant
                j <= data@.len(),
                data@.len() <= 3584,
                self.ram@.len() == 4096,
                old(self).wf(),
                self.pc == old(self)@.pc,
                self.screen@ == old(self)@.screen,
                self.v_reg@ == old(self)@.v_reg,
                self.i_reg == old(self)@.i_reg,
                self.keys@ == old(self)@.keys,
                self.stack@ == old(self)@.stack,
                self.dt == old(self)@.dt,
                self.st == old(self)@.st,
                self.waiting == old(self)@.waiting,
                forall|a: int| 512 <= a < 512 + j ==> self.ram@[a] == data@[a - 512],
                forall|a: int| (0 <= a < 512 || 512 + j <= a < 4096) ==> self.ram@[a] == old(
                    self,
                )@.ram[a],
            decreases data@.len() - j,
        {
            let b: u8 = data[j];
            self.ram[512 + j] = b;
            j = j + 1;
        }
        proof {
            assert(self@.ram =~= loaded_ram(old(self)@.ram, data@));
            assert(self@ =~= (EmuView { ram: loaded_ram(old(self)@.ram, data@), ..old(self)@ }));
        }
        Ok(())
    }

    /// Record a key press or release in the keypad latch; key indices
    /// outside the 16-key pad are ignored.
    pub fn keypress(&mut self, key: usize, pressed: bool)
        requires
            old(self).wf(),
        ensures
            final(self).wf(),
            key < 16 ==> final(self)@ == (EmuView {
                keys: old(self)@.keys.update(key as int, pressed),
                ..old(self)@
            }),
            key >= 16 ==> final(self)@ == old(self)@,
    {
        if key < 16 {
            self.keys[key] = pressed;
        }
    }

    /// One tick of the timer unit: each timer counts down by one while
    /// positive. Returns whether the sound timer just reached zero, the
    /// machine's one audio-relevant signal.
    pub fn tick_timer(&mut self) -> (tone: bool)
        requires
            old(self).wf(),
        ensures
            final(self).wf(),
            final(self)@ == (EmuView {
                dt: dec_timer(old(self)@.dt),
                st: dec_timer(old(self)@.st),
                ..old(self)@
            }),
            tone == (old(self)@.st == 1),
    {
        let tone = self.st == 1;
        if self.dt > 0 {
            self.dt = self.dt - 1;
        }
        if self.st > 0 {
            self.st = self.st - 1;
        }
        tone
    }

    /// One instruction step: fetch the word at the program counter, advance
    /// the counter by 2, decode and execute. In a key-wait the step instead
    /// consumes the lowest pressed key, or does nothing while none is
    /// pressed. The random byte of the random-number opcode is drawn from
    /// the machine's randomness source; every other effect is pinned down
    /// by [`step`].
    pub fn tick(&mut self) -> (r: Result<(), Chip8Error>)
        requires
            old(self).wf(),
        ensures
            final(self).wf(),
            exists|rb: u8|
                r == #[trigger] step(old(self)@, rb).0 && final(self)@ == step(old(self)@, rb).1,
    {
        let rb = random_byte();
        let r = self.tick_with_random(rb);
        proof {
            assert(r == step(old(self)@, rb).0 && self@ == step(old(self)@, rb).1);
        }
        r
    }

    /// One instruction step with the random byte supplied by the caller, so
    /// that runs can be made deterministic. The result and the whole new
    /// state equal the specification-level [`step`].
    pub fn tick_with_random(&mut self, rnd: u8) -> (r: Result<(), Chip8Error>)
        requires
            old(self).wf(),
        ensures
            final(self).wf(),
            r == step(old(self)@, rnd).0,
            final(self)@ == step(old(self)@, rnd).1,
    {
        match self.waiting {
            Some(wx) => {
                match scan_keys(&self.keys) {
                    Some(k) => {
                        self.v_reg[wx as usize] = k;
                        self.waiting = None;
                    }
                    None => {}
                }
                proof {
                    assert(self@ =~= step(old(self)@, rnd).1);
                }
                Ok(())
            }
            None => {
                let fetched = self.fetch();
                match fetched {
                    Err(e) => {
                        proof {
                            assert(self@ =~= step(old(self)@, rnd).1);
                        }
                        Err(e)
                    }
                    Ok(op) => {
                        let ghost mid = self@;
                        let r = self.execute(op, rnd);
                        proof {
                            assert(op == word_at(old(self)@));
                            assert(mid == (EmuView {
                                pc: (old(self)@.pc + 2) as u16,
                                ..old(self)@
                            }));
                            assert(r == step(old(self)@, rnd).0);
                            assert(self@ == step(old(self)@, rnd).1);
                        }
                        r
                    }
                }
            }
        }
    }

    /// Read the two bytes at the program counter as one big-endian
    /// instruction word and advance the counter past them. Refused, with
    /// the machine untouched, when the counter has run off memory.
    fn fetch(&mut self) -> (r: Result<u16, Chip8Error>)
        requires
            old(self).wf(),
        ensures
            final(self).wf(),
            old(self)@.pc as int + 1 >= 4096 ==> r == Err::<u16, Chip8Error>(
                Chip8Error::ProgramCounterOutOfBounds,
            ) && final(self)@ == old(self)@,
            old(self)@.pc as int + 1 < 4096 ==> r == Ok::<u16, Chip8Error>(word_at(old(self)@))
                && final(self)@ == (EmuView { pc: (old(self)@.pc + 2) as u16, ..old(self)@ })
                && final(self)@.pc <= 4096,
    {
        let pc: usize = self.pc as usize;
        if pc + 1 >= 4096 {
            return Err(Chip8Error::ProgramCounterOutOfBounds);
        }
        let hi: u16 = self.ram[pc] as u16;
        let lo: u16 = self.ram[pc + 1] as u16;
        let op: u16 = (hi << 8) | lo;
        self.pc = self.pc + 2;
        Ok(op)
    }

    /// Decode and execute one instruction word, the program counter already
    /// advanced past it. The result and the whole new state equal the
    /// specification-level [`exec_op`].
    fn execute(&mut self, op: u16, rnd: u8) -> (r: Result<(), Chip8Error>)
        requires
            old(self).wf(),
            old(self)@.pc <= 4096,
        ensures
            final(self).wf(),
            r == exec_op(old(self)@, op, rnd).0,
            final(self)@ == exec_op(old(self)@, op, rnd).1,
    {
        proof {
            lemma_field_bounds(op);
        }
        let ghost spec_r = exec_op(old(self)@, op, rnd);
        let d1: u16 = (op >> 12) & 0xF;
        let d2: u16 = (op >> 8) & 0xF;
        let d3: u16 = (op >> 4) & 0xF;
        let d4: u16 = op & 0xF;
        let x: usize = d2 as usize;
        let y: usize = d3 as usize;
        let nn: u8 = (op & 0xFF) as u8;
        let nnn: u16 = op & 0xFFF;
        match (d1, d2, d3, d4) {
            // no-op
            (0, 0, 0, 0) => Ok(()),
            // clear the screen
            (0, 0, 0xE, 0) => {
                self.screen = filled(2048, false);
                proof {
                    assert(self@ =~= spec_r.1);
                }
                Ok(())
            }
            // return from subroutine
            (0, 0, 0xE, 0xE) => {
                if self.stack.len() == 0 {
                    Err(Chip8Error::StackUnderflow)
                } else {
                    let popped = self.stack.pop();
                    match popped {
                        Some(addr) => {
                            self.pc = addr;
                        }
                        None => {}
                    }
                    proof {
                        assert(self@ =~= spec_r.1);
                    }
                    Ok(())
                }
            }
            // jump to address
            (1, _, _, _) => {
                self.pc = nnn;
                proof {
                    assert(self@ =~= spec_r.1);
                }
                Ok(())
            }
            // call subroutine
            (2, _, _, _) => {
                if self.stack.len() >= 16 {
                    Err(Chip8Error::StackOverflow)
                } else {
                    self.stack.push(self.pc);
                    self.pc = nnn;
                    proof {
                        assert(self@ =~= spec_r.1);
                    }
                    Ok(())
                }
            }
            // skip next instruction if Vx == nn
            (3, _, _, _) => {
                if self.v_reg[x] == nn {
                    self.pc = self.pc + 2;
                }
                proof {
                    assert(self@ =~= spec_r.1);
                }
                Ok(())
            }
            // skip next instruction if Vx != nn
            (4, _, _, _) => {
                if self.v_reg[x] != nn {
                    self.pc = self.pc + 2;
                }
                proof {
                    assert(self@ =~= spec_r.1);
                }
                Ok(())
            }
            // skip next instruction if Vx == Vy
            (5, _, _, 0) => {
                if self.v_reg[x] == self.v_reg[y] {
                    self.pc = self.pc + 2;
                }
                proof {
                    assert(self@ =~= spec_r.1);
                }
                Ok(())
            }
            // load value into Vx
            (6, _, _, _) => {
                self.v_reg[x] = nn;
                proof {
                    assert(self@ =~= spec_r.1);
                }
                Ok(())
            }
            // add value to Vx, wrapping, no flag
            (7, _, _, _) => {
                let a: u8 = self.v_reg[x];
                let sum: u16 = (a as u16) + (nn as u16);
                let res: u8 = if sum > 255 {
                    (sum - 256) as u8
                } else {
                    sum as u8
                };
                self.v_reg[x] = res;
                proof {
                    assert(self@ =~= spec_r.1);
                }
                Ok(())
            }
            // load Vy into Vx
            (8, _, _, 0) => {
                let b: u8 = self.v_reg[y];
                self.v_reg[x] = b;
                proof {
                    assert(self@ =~= spec_r.1);
                }
                Ok(())
            }
            // Vx |= Vy
            (8, _, _, 1) => {
                let a: u8 = self.v_reg[x];
                let b: u8 = self.v_reg[y];
                self.v_reg[x] = a | b;
                proof {
                    assert(self@ =~= spec_r.1);
                }
                Ok(())
            }
            // Vx &= Vy
            (8, _, _, 2) => {
                let a: u8 = self.v_reg[x];
                let b: u8 = self.v_reg[y];
                self.v_reg[x] = a & b;
                proof {
                    assert(self@ =~= spec_r.1);
                }
                Ok(())
            }
            // Vx ^= Vy
            (8, _, _, 3) => {
                let a: u8 = self.v_reg[x];
                let b: u8 = self.v_reg[y];
                self.v_reg[x] = a ^ b;
                proof {
                    assert(self@ =~= spec_r.1);
                }
                Ok(())
            }
            // Vx += Vy, flag register records the carry
            (8, _, _, 4) => {
                let a: u8 = self.v_reg[x];
                let b: u8 = self.v_reg[y];
                let sum: u16 = (a as u16) + (b as u16);
                let res: u8 = if sum > 255 {
                    (sum - 256) as u8
                } else {
                    sum as u8
                };
                let carry: u8 = if sum > 255 {
                    1
                } else {
                    0
                };
                self.v_reg[x] = res;
                self.v_reg[15] = carry;
                proof {
                    assert(self@ =~= spec_r.1);
                }
                Ok(())
            }
            // Vx -= Vy, flag register records the absence of a borrow
            (8, _, _, 5) => {
                let a: u8 = self.v_reg[x];
                let b: u8 = self.v_reg[y];
                let res: u8 = if a >= b {
                    a - b
                } else {
                    ((a as u16) + 256 - (b as u16)) as u8
                };
                let no_borrow: u8 = if a >= b {
                    1
                } else {
                    0
                };
                self.v_reg[x] = res;
                self.v_reg[15] = no_borrow;
                proof {
                    assert(self@ =~= spec_r.1);
                }
                Ok(())
            }
            // shift Vx right, flag register takes the dropped bit
            (8, _, _, 6) => {
                let a: u8 = self.v_reg[x];
                self.v_reg[x] = a >> 1;
                self.v_reg[15] = a & 1;
                proof {
                    assert(self@ =~= spec_r.1);
                }
                Ok(())
            }
            // Vx = Vy - Vx, flag register records the absence of a borrow
            (8, _, _, 7) => {
                let a: u8 = self.v_reg[x];
                let b: u8 = self.v_reg[y];
                let res: u8 = if b >= a {
                    b - a
                } else {
                    ((b as u16) + 256 - (a as u16)) as u8
                };
                let no_borrow: u8 = if b >= a {
                    1
                } else {
                    0
                };
                self.v_reg[x] = res;
                self.v_reg[15] = no_borrow;
                proof {
                    assert(self@ =~= spec_r.1);
                }
                Ok(())
            }
            // shift Vx left, flag register takes the dropped bit
            (8, _, _, 0xE) => {
                let a: u8 = self.v_reg[x];
                self.v_reg[x] = a << 1;
                self.v_reg[15] = (a >> 7) & 1;
                proof {
                    assert(self@ =~= spec_r.1);
                }
                Ok(())
            }
            // skip next instruction if Vx != Vy
            (9, _, _, 0) => {
                if self.v_reg[x] != self.v_reg[y] {
                    self.pc = self.pc + 2;
                }
                proof {
                    assert(self@ =~= spec_r.1);
                }
                Ok(())
            }
            // load address into the index register
            (0xA, _, _, _) => {
                self.i_reg = nnn;
                proof {
                    assert(self@ =~= spec_r.1);
                }
                Ok(())
            }
            // jump to address + V0
            (0xB, _, _, _) => {
                self.pc = nnn + (self.v_reg[0] as u16);
                proof {
                    assert(self@ =~= spec_r.1);
                }
                Ok(())
            }
            // random byte masked with nn into Vx
            (0xC, _, _, _) => {
                self.v_reg[x] = rnd & nn;
                proof {
                    assert(self@ =~= spec_r.1);
                }
                Ok(())
            }
            // draw sprite
            (0xD, _, _, _) => {
                let n: usize = d4 as usize;
                let i: usize = self.i_reg as usize;
                if n > 0 && i + n > 4096 {
                    Err(Chip8Error::MemoryOutOfBounds)
                } else {
                    let x0: u8 = self.v_reg[x];
                    let y0: u8 = self.v_reg[y];
                    let flag: bool = draw_cells(&mut self.screen, &self.ram, i, x0, y0, n);
                    let f: u8 = if flag {
                        1
                    } else {
                        0
                    };
                    self.v_reg[15] = f;
                    proof {
                        assert(self@ =~= spec_r.1);
                    }
                    Ok(())
                }
            }
            // skip next instruction if the key in Vx is pressed
            (0xE, _, 9, 0xE) => {
                let vx: u8 = self.v_reg[x];
                if vx >= 16 {
                    Err(Chip8Error::KeyOutOfRange)
                } else {
                    if self.keys[vx as usize] {
                        self.pc = self.pc + 2;
                    }
                    proof {
                        assert(self@ =~= spec_r.1);
                    }
                    Ok(())
                }
            }
            // skip next instruction if the key in Vx is not pressed
            (0xE, _, 0xA, 1) => {
                let vx: u8 = self.v_reg[x];
                if vx >= 16 {
                    Err(Chip8Error::KeyOutOfRange)
                } else {
                    if !self.keys[vx as usize] {
                        self.pc = self.pc + 2;
                    }
                    proof {
                        assert(self@ =~= spec_r.1);
                    }
                    Ok(())
                }
            }
            // load the delay timer into Vx
            (0xF, _, 0, 7) => {
                let t: u8 = self.dt;
                self.v_reg[x] = t;
                proof {
                    assert(self@ =~= spec_r.1);
                }
                Ok(())
            }
            // take the lowest pressed key into Vx, or enter a key-wait
            (0xF, _, 0, 0xA) => {
                let scanned = scan_keys(&self.keys);
                match scanned {
                    Some(k) => {
                        self.v_reg[x] = k;
                    }
                    None => {
                        self.waiting = Some(d2 as u8);
                    }
                }
                proof {
                    assert(self@ =~= spec_r.1);
                }
                Ok(())
            }
            // load Vx into the delay timer
            (0xF, _, 1, 5) => {
                self.dt = self.v_reg[x];
                proof {
                    assert(self@ =~= spec_r.1);
                }
                Ok(())
            }
            // load Vx into the sound timer
            (0xF, _, 1, 8) => {
                self.st = self.v_reg[x];
                proof {
                    assert(self@ =~= spec_r.1);
                }
                Ok(())
            }
            // add Vx to the index register, wrapping
            (0xF, _, 1, 0xE) => {
                let vx16: u16 = self.v_reg[x] as u16;
                let sum: u32 = (self.i_reg as u32) + (vx16 as u32);
                let ni: u16 = if sum > 65535 {
                    (sum - 65536) as u16
                } else {
                    sum as u16
                };
                self.i_reg = ni;
                proof {
                    assert(self@ =~= spec_r.1);
                }
                Ok(())
            }
            // point the index register at the font glyph for Vx
            (0xF, _, 2, 9) => {
                let vx16: u16 = self.v_reg[x] as u16;
                self.i_reg = vx16 * 5;
                proof {
                    assert(self@ =~= spec_r.1);
                }
                Ok(())
            }
            // store the decimal digits of Vx at the index register
            (0xF, _, 3, 3) => {
                let i: usize = self.i_reg as usize;
                if i + 2 >= 4096 {
                    Err(Chip8Error::MemoryOutOfBounds)
                } else {
                    let vx: u8 = self.v_reg[x];
                    self.ram[i] = vx / 100;
                    self.ram[i + 1] = (vx / 10) % 10;
                    self.ram[i + 2] = vx % 10;
                    proof {
                        assert(self@ =~= spec_r.1);
                    }
                    Ok(())
                }
            }
            // store V0 through Vx into memory at the index register
            (0xF, _, 5, 5) => {
                let i: usize = self.i_reg as usize;
                if i + x >= 4096 {
                    Err(Chip8Error::MemoryOutOfBounds)
                } else {
                    store_regs(&mut self.ram, &self.v_reg, i, x);
                    proof {
                        assert(self@ =~= spec_r.1);
                    }
                    Ok(())
                }
            }
            // load V0 through Vx from memory at the index register
            (0xF, _, 6, 5) => {
                let i: usize = self.i_reg as usize;
                if i + x >= 4096 {
                    Err(Chip8Error::MemoryOutOfBounds)
                } else {
                    load_regs(&mut self.v_reg, &self.ram, i, x);
                    proof {
                        assert(self@ =~= spec_r.1);
                    }
                    Ok(())
                }
            }
            // anything else is no opcode
            (_, _, _, _) => Err(Chip8Error::InvalidOpcode),
        }
    }

    /// A read-only view of the 64 x 32 framebuffer, row-major.
    pub fn get_screen(&self) -> (s: &[bool])
        ensures
            s@ == self@.screen,
    {
        self.screen.as_slice()
    }

    /// The program counter.
    pub fn get_pc(&self) -> (r: u16)
        ensures
            r == self@.pc,
    {
        self.pc
    }

    /// General-purpose register `i`.
    pub fn get_reg(&self, i: usize) -> (r: u8)
        requires
            self.wf(),
            i < 16,
        ensures
            r == self@.v_reg[i as int],
    {
        self.v_reg[i]
    }

    /// The index register.
    pub fn get_index(&self) -> (r: u16)
        ensures
            r == self@.i_reg,
    {
        self.i_reg
    }

    /// The delay timer.
    pub fn get_delay(&self) -> (r: u8)
        ensures
            r == self@.dt,
    {
        self.dt
    }

    /// The sound timer.
    pub fn get_sound(&self) -> (r: u8)
        ensures
            r == self@.st,
    {
        self.st
    }

    /// The byte in memory at `addr`.
    pub fn read_ram(&self, addr: usize) -> (r: u8)
        requires
            self.wf(),
            addr < 4096,
        ensures
            r == self@.ram[addr as int],
    {
        self.ram[addr]
    }

    /// The register a pending key-wait will fill, while the machine sits in
    /// one.
    pub fn awaiting_key(&self) -> (r: Option<u8>)
        ensures
            r == self@.waiting,
    {
        self.waiting
    }
}

/// Memory after a program is copied in at the load base.
pub open spec fn loaded_ram(ram: Seq<u8>, data: Seq<u8>) -> Seq<u8> {
    Seq::new(ram.len(), |a: int| if 512 <= a < 512 + data.len() { data[a - 512] } else { ram[a] })
}

/// A vector of `n` copies of `v`.
fn filled<T: Copy>(n: usize, v: T) -> (r: Vec<T>)
    ensures
        r@.len() == n,
        forall|j: int| 0 <= j < n ==> r@[j] == v,
{
    let mut r: Vec<T> = Vec::new();
    while r.len() < n
        invariant
            r@.len() <= n,
            forall|j: int| 0 <= j < r@.len() ==> r@[j] == v,
        decreases n - r@.len(),
    {
        r.push(v);
    }
    r
}

/// Seed the font table at the bottom of memory.
fn write_font(ram: &mut Vec<u8>)
    requires
        old(ram).len() == 4096,
    ensures
        final(ram)@.len() == 4096,
        forall|a: int| 0 <= a < 80 ==> final(ram)@[a] == FONTSET@[a],
        forall|a: int| 80 <= a < 4096 ==> final(ram)@[a] == old(ram)@[a],
{
    let mut j: usize = 0;
    while j < 80
        invariant
            j <= 80,
            ram@.len() == 4096,
            forall|a: int| 0 <= a < j ==> ram@[a] == FONTSET@[a],
            forall|a: int| j <= a < 4096 ==> ram@[a] == old(ram)@[a],
        decreases 80 - j,
    {
        let b: u8 = FONTSET[j];
        ram[j] = b;
        j = j + 1;
    }
}

/// XOR-blit one sprite of `n` rows, stored in memory at address `i`, onto
/// the framebuffer with origin (`x0`, `y0`), wrapping both coordinates.
/// Returns the collision flag: whether some toggled cell was already lit.
fn draw_cells(screen: &mut Vec<bool>, ram: &Vec<u8>, i: usize, x0: u8, y0: u8, n: usize) -> (flag:
    bool)
    requires
        old(screen)@.len() == 2048,
        ram@.len() == 4096,
        n <= 15,
        n > 0 ==> i + n <= 4096,
    ensures
        final(screen)@ == draw_screen(old(screen)@, ram@, i as int, x0 as int, y0 as int, n as int),
        flag == draw_flag(old(screen)@, ram@, i as int, x0 as int, y0 as int, n as int),
{
    let ghost sc0 = screen@;
    proof {
        lemma_draw_init(sc0, ram@, i as int, x0 as int, y0 as int);
    }
    let mut flipped = false;
    let mut row: usize = 0;
    while row < n
        invariant
            row <= n,
            n <= 15,
            n > 0 ==> i + n <= 4096,
            ram@.len() == 4096,
            screen@.len() == 2048,
            sc0.len() == 2048,
            sc0 == old(screen)@,
            draw_inv_screen(sc0, screen@, ram@, i as int, x0 as int, y0 as int, row as int, 0),
            draw_inv_flag(flipped, sc0, ram@, i as int, x0 as int, y0 as int, row as int, 0),
        decreases n - row,
    {
        let pixels: u8 = ram[i + row];
        let mut col: usize = 0;
        while col < 8
            invariant
                col <= 8,
                row < n,
                n <= 15,
                i + n <= 4096,
                ram@.len() == 4096,
                screen@.len() == 2048,
                sc0.len() == 2048,
                sc0 == old(screen)@,
                pixels == ram@[i + row],
                draw_inv_screen(
                    sc0, screen@, ram@, i as int, x0 as int, y0 as int, row as int, col as int,
                ),
                draw_inv_flag(
                    flipped, sc0, ram@, i as int, x0 as int, y0 as int, row as int, col as int,
                ),
            decreases 8 - col,
        {
            let bit: u8 = (pixels >> ((7 - col) as u8)) & 1;
            if bit == 1 {
                let xx: usize = ((x0 as usize) + col) % 64;
                let yy: usize = ((y0 as usize) + row) % 32;
                let idx0: usize = yy * 64 + xx;
                proof {
                    assert(sprite_bit(ram@[i + row], col as int));
                    assert(sprite_hits(
                        ram@, i as int, x0 as int, y0 as int, row as int, col as int, idx0 as int,
                    ));
                    lemma_draw_toggle(
                        sc0, screen@, flipped, ram@, i as int, x0 as int, y0 as int, row as int,
                        col as int, idx0 as int,
                    );
                }
                let cur: bool = screen[idx0];
                flipped = flipped || cur;
                screen[idx0] = !cur;
            } else {
                proof {
                    assert(!sprite_bit(ram@[i + row], col as int));
                    lemma_draw_skip(
                        sc0, screen@, flipped, ram@, i as int, x0 as int, y0 as int, row as int,
                        col as int,
                    );
                }
            }
            col = col + 1;
        }
        proof {
            lemma_draw_row(
                sc0, screen@, flipped, ram@, i as int, x0 as int, y0 as int, row as int,
            );
        }
        row = row + 1;
    }
    proof {
        lemma_draw_done(
            sc0, screen@, flipped, ram@, i as int, x0 as int, y0 as int, n as int,
        );
    }
    flipped
}

/// Store registers 0 through `x` into memory at addresses `i` through
/// `i + x`.
fn store_regs(ram: &mut Vec<u8>, v_reg: &Vec<u8>, i: usize, x: usize)
    requires
        old(ram)@.len() == 4096,
        v_reg@.len() == 16,
        x < 16,
        i + x < 4096,
    ensures
        final(ram)@ == store_regs_spec(old(ram)@, v_reg@, i as int, x as int),
{
    let mut j: usize = 0;
    while j <= x
        invariant
            j <= x + 1,
            x < 16,
            i + x < 4096,
            ram@.len() == 4096,
            v_reg@.len() == 16,
            forall|a: int| i <= a < i + j ==> ram@[a] == v_reg@[a - i],
            forall|a: int| (0 <= a < i || i + j <= a < 4096) ==> ram@[a] == old(ram)@[a],
        decreases x + 1 - j,
    {
        let b: u8 = v_reg[j];
        ram[i + j] = b;
        j = j + 1;
    }
    proof {
        assert(ram@ =~= store_regs_spec(old(ram)@, v_reg@, i as int, x as int));
    }
}

/// Load registers 0 through `x` from memory at addresses `i` through
/// `i + x`.
fn load_regs(v_reg: &mut Vec<u8>, ram: &Vec<u8>, i: usize, x: usize)
    requires
        old(v_reg)@.len() == 16,
        ram@.len() == 4096,
        x < 16,
        i + x < 4096,
    ensures
        final(v_reg)@ == load_regs_spec(old(v_reg)@, ram@, i as int, x as int),
{
    let mut j: usize = 0;
    while j <= x
        invariant
            j <= x + 1,
            x < 16,
            i + x < 4096,
            ram@.len() == 4096,
            v_reg@.len() == 16,
            forall|k: int| 0 <= k < j ==> v_reg@[k] == ram@[i + k],
            forall|k: int| j <= k < 16 ==> v_reg@[k] == old(v_reg)@[k],
        decreases x + 1 - j,
    {
        let b: u8 = ram[i + j];
        v_reg[j] = b;
        j = j + 1;
    }
    proof {
        assert(v_reg@ =~= load_regs_spec(old(v_reg)@, ram@, i as int, x as int));
    }
}

/// Relies on rand::random: draws one byte from the thread-local generator;
/// nothing is promised of its value.
#[verifier::external_body]
fn random_byte() -> u8 {
    rand::random::<u8>()
}

/// The lowest pressed key, if any.
fn scan_keys(keys: &Vec<bool>) -> (r: Option<u8>)
    requires
        keys@.len() == 16,
    ensures
        r == first_pressed(keys@),
{
    let mut k: usize = 0;
    while k < 16
        invariant
            k <= 16,
            keys@.len() == 16,
            first_pressed(keys@) == first_pressed_from(keys@, k as int),
        decreases 16 - k,
    {
        if keys[k] {
            return Some(k as u8);
        }
        k = k + 1;
    }
    None
}

} // verus!
