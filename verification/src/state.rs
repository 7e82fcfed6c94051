//! The abstract value of the machine: a ghost record of every component of
//! the state, and the shape every reachable state keeps.

use vstd::prelude::*;

verus! {

use crate::FONTSET;

/// The machine state as mathematics: sequences in place of the byte and
/// pixel arrays, with the call stack as the sequence of return addresses
/// currently held (most recent last).
#[verifier::ext_equal]
pub ghost struct EmuView {
    /// Program counter.
    pub pc: u16,
    /// The 4096 bytes of memory.
    pub ram: Seq<u8>,
    /// The 64 x 32 framebuffer, row-major.
    pub screen: Seq<bool>,
    /// The 16 general-purpose registers.
    pub v_reg: Seq<u8>,
    /// The index register.
    pub i_reg: u16,
    /// The 16 key states of the keypad latch.
    pub keys: Seq<bool>,
    /// The return addresses on the call stack, most recent last.
    pub stack: Seq<u16>,
    /// The delay timer.
    pub dt: u8,
    /// The sound timer.
    pub st: u8,
    /// `Some(x)` while the machine sits in a key-wait: the next pressed key
    /// goes to register `x` before stepping resumes.
    pub waiting: Option<u8>,
}

/// The shape every reachable machine state keeps: the fixed sizes of the
/// arrays, the stack within its depth, and a key-wait target that names a
/// real register.
pub open spec fn view_wf(s: EmuView) -> bool {
    &&& s.ram.len() == 4096
    &&& s.screen.len() == 2048
    &&& s.v_reg.len() == 16
    &&& s.keys.len() == 16
    &&& s.stack.len() <= 16
    &&& match s.waiting {
        Option::Some(x) => x < 16,
        Option::None => true,
    }
}

/// Memory as construction and reset leave it: the font table at the bottom,
/// zero everywhere else.
pub open spec fn initial_ram() -> Seq<u8> {
    Seq::new(4096, |a: int| if 0 <= a < 80 { FONTSET@[a] } else { 0u8 })
}

/// The machine state just after construction or reset.
pub open spec fn initial_view() -> EmuView {
    EmuView {
        pc: 0x200,
        ram: initial_ram(),
        screen: Seq::new(2048, |i: int| false),
        v_reg: Seq::new(16, |i: int| 0u8),
        i_reg: 0,
        keys: Seq::new(16, |i: int| false),
        stack: Seq::empty(),
        dt: 0,
        st: 0,
        waiting: Option::None,
    }
}

} // verus!
