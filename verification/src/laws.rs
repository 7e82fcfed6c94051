//! Machine-wide laws, proved once and for all: stack discipline, the
//! involution of sprite drawing, how skip instructions move the program
//! counter, and the fixpoint a jump-to-self makes.

use vstd::prelude::*;

verus! {

use crate::Chip8Error;
use crate::semantics::{
    draw_flag, draw_screen, exec_op, imm_nn, imm_nnn, lemma_field_bounds, nib1, nib2, nib3, nib4,
    skip_next, step, toggled, word_at,
};
use crate::state::{view_wf, EmuView};

// ---------------------------------------------------------------------------
// Stack discipline
// ---------------------------------------------------------------------------

/// The stack after pushing the addresses of `addrs` one at a time, first
/// element first, as `Emu::push` leaves it on each call.
pub open spec fn pushed_all(stack: Seq<u16>, addrs: Seq<u16>) -> Seq<u16>
    decreases addrs.len(),
{
    if addrs.len() == 0 {
        stack
    } else {
        pushed_all(stack, addrs.drop_last()).push(addrs.last())
    }
}

/// The stack after `k` pops, as `Emu::pop` leaves it on each call.
pub open spec fn popped(stack: Seq<u16>, k: int) -> Seq<u16> {
    stack.take(stack.len() - k)
}

/// Pushing a batch of addresses appends them in order.
pub proof fn lemma_pushed_all(stack: Seq<u16>, addrs: Seq<u16>)
    ensures
        pushed_all(stack, addrs) == stack + addrs,
    decreases addrs.len(),
{
    if addrs.len() == 0 {
        assert(stack + addrs =~= stack);
    } else {
        lemma_pushed_all(stack, addrs.drop_last());
        assert((stack + addrs.drop_last()).push(addrs.last()) =~= stack + addrs);
    }
}

/// Stack discipline: pushing addresses `a1 .. an` (at most the machine's
/// depth of 16, so that every push is accepted) and then popping `n` times
/// returns them newest first -- the pop after `k` earlier pops yields
/// `a(n-k)` -- and leaves the stack exactly as it stood. Each pop both
/// returns the last element and drops it, as `Emu::pop` promises.
pub proof fn lemma_stack_lifo(base: Seq<u16>, addrs: Seq<u16>, k: int)
    requires
        base.len() + addrs.len() <= 16,
        0 <= k < addrs.len(),
    ensures
        pushed_all(base, addrs) == base + addrs,
        popped(base + addrs, k).last() == addrs[addrs.len() - 1 - k],
        popped(base + addrs, k + 1) == popped(base + addrs, k).drop_last(),
        popped(base + addrs, addrs.len() as int) == base,
{
    lemma_pushed_all(base, addrs);
    let whole = base + addrs;
    let m = whole.len() - k;
    assert(popped(whole, k).last() == whole[m - 1]);
    assert(whole[m - 1] == addrs[addrs.len() - 1 - k]);
    assert(popped(whole, k + 1) =~= popped(whole, k).drop_last());
    assert(popped(whole, addrs.len() as int) =~= base);
}

// ---------------------------------------------------------------------------
// Drawing twice
// ---------------------------------------------------------------------------

/// Drawing the same sprite twice at the same coordinates restores the
/// framebuffer to its pre-draw state, and the second draw reports a
/// collision exactly when the first draw lit some previously-unlit cell.
pub proof fn lemma_draw_twice(sc: Seq<bool>, ram: Seq<u8>, i: int, x0: int, y0: int, n: int)
    ensures
        draw_screen(draw_screen(sc, ram, i, x0, y0, n), ram, i, x0, y0, n) == sc,
        draw_flag(draw_screen(sc, ram, i, x0, y0, n), ram, i, x0, y0, n) == exists|idx: int|
            0 <= idx < sc.len() && !sc[idx] && #[trigger] draw_screen(
                sc, ram, i, x0, y0, n,
            )[idx],
{
    let s1 = draw_screen(sc, ram, i, x0, y0, n);
    assert(s1.len() == sc.len());
    assert forall|idx: int| 0 <= idx < sc.len() implies #[trigger] draw_screen(
        s1, ram, i, x0, y0, n,
    )[idx] == sc[idx] by {
        assert(s1[idx] == (sc[idx] != toggled(ram, i, x0, y0, n, idx)));
    }
    assert(draw_screen(s1, ram, i, x0, y0, n) =~= sc);
    if draw_flag(s1, ram, i, x0, y0, n) {
        let idx1 = choose|idx: int|
            0 <= idx < s1.len() && #[trigger] toggled(ram, i, x0, y0, n, idx) && s1[idx];
        assert(s1[idx1] == (sc[idx1] != toggled(ram, i, x0, y0, n, idx1)));
        assert(!sc[idx1] && draw_screen(sc, ram, i, x0, y0, n)[idx1]);
        assert(exists|idx: int|
            0 <= idx < sc.len() && !sc[idx] && #[trigger] draw_screen(
                sc, ram, i, x0, y0, n,
            )[idx]);
    }
    if exists|idx: int|
        0 <= idx < sc.len() && !sc[idx] && #[trigger] draw_screen(sc, ram, i, x0, y0, n)[idx] {
        let idx1 = choose|idx: int|
            0 <= idx < sc.len() && !sc[idx] && #[trigger] draw_screen(
                sc, ram, i, x0, y0, n,
            )[idx];
        assert(s1[idx1] == (sc[idx1] != toggled(ram, i, x0, y0, n, idx1)));
        assert(toggled(ram, i, x0, y0, n, idx1) && s1[idx1]);
        assert(draw_flag(s1, ram, i, x0, y0, n));
    }
}

// ---------------------------------------------------------------------------
// Skip instructions
// ---------------------------------------------------------------------------

/// Whether an instruction word is one of the six conditional skips.
pub open spec fn is_skip_op(op: u16) -> bool {
    ||| nib1(op) == 3
    ||| nib1(op) == 4
    ||| (nib1(op) == 5 && nib4(op) == 0)
    ||| (nib1(op) == 9 && nib4(op) == 0)
    ||| (nib1(op) == 0xE && nib3(op) == 9 && nib4(op) == 0xE)
    ||| (nib1(op) == 0xE && nib3(op) == 0xA && nib4(op) == 1)
}

/// The condition a skip instruction tests against the state.
pub open spec fn skip_cond(s: EmuView, op: u16) -> bool {
    let x = nib2(op) as int;
    let y = nib3(op) as int;
    if nib1(op) == 3 {
        s.v_reg[x] == imm_nn(op)
    } else if nib1(op) == 4 {
        s.v_reg[x] != imm_nn(op)
    } else if nib1(op) == 5 {
        s.v_reg[x] == s.v_reg[y]
    } else if nib1(op) == 9 {
        s.v_reg[x] != s.v_reg[y]
    } else if nib3(op) == 9 {
        s.keys[s.v_reg[x] as int]
    } else {
        !s.keys[s.v_reg[x] as int]
    }
}

/// A skip instruction succeeds and advances the program counter by exactly
/// 4 when its condition holds (the fetch increment 2 plus the skip
/// increment 2), and by exactly 2 otherwise. The key skips ask their
/// register for a keypad index, so for them it must hold one.
pub proof fn lemma_skip_advance(s: EmuView, rnd: u8)
    requires
        view_wf(s),
        s.waiting is None,
        s.pc as int + 1 < 4096,
        is_skip_op(word_at(s)),
        nib1(word_at(s)) == 0xE ==> s.v_reg[nib2(word_at(s)) as int] < 16,
    ensures
        step(s, rnd).0 == Ok::<(), Chip8Error>(()),
        step(s, rnd).1.pc == if skip_cond(s, word_at(s)) {
            (s.pc + 4) as u16
        } else {
            (s.pc + 2) as u16
        },
{
    let op = word_at(s);
    lemma_field_bounds(op);
    let s2 = EmuView { pc: (s.pc + 2) as u16, ..s };
    assert(s2.pc as int == s.pc as int + 2);
    assert(skip_next(s2).pc as int == s.pc as int + 4);
    if nib1(op) == 3 {
        assert(step(s, rnd).1 == if s.v_reg[nib2(op) as int] == imm_nn(op) {
            skip_next(s2)
        } else {
            s2
        });
    } else if nib1(op) == 4 {
        assert(step(s, rnd).1 == if s.v_reg[nib2(op) as int] != imm_nn(op) {
            skip_next(s2)
        } else {
            s2
        });
    } else if nib1(op) == 5 {
        assert(step(s, rnd).1 == if s.v_reg[nib2(op) as int] == s.v_reg[nib3(op) as int] {
            skip_next(s2)
        } else {
            s2
        });
    } else if nib1(op) == 9 {
        assert(step(s, rnd).1 == if s.v_reg[nib2(op) as int] != s.v_reg[nib3(op) as int] {
            skip_next(s2)
        } else {
            s2
        });
    } else if nib3(op) == 9 {
        assert(step(s, rnd).1 == if s.keys[s.v_reg[nib2(op) as int] as int] {
            skip_next(s2)
        } else {
            s2
        });
    } else {
        assert(step(s, rnd).1 == if !s.keys[s.v_reg[nib2(op) as int] as int] {
            skip_next(s2)
        } else {
            s2
        });
    }
}

// ---------------------------------------------------------------------------
// Jump to self
// ---------------------------------------------------------------------------

/// A jump whose target is its own address leaves the whole machine state
/// exactly as it stood: stepping from such a state any number of times
/// keeps every register and the program counter fixed.
pub proof fn lemma_jump_self(s: EmuView, rnd: u8)
    requires
        view_wf(s),
        s.waiting is None,
        s.pc as int + 1 < 4096,
        nib1(word_at(s)) == 1,
        imm_nnn(word_at(s)) == s.pc,
    ensures
        step(s, rnd).0 == Ok::<(), Chip8Error>(()),
        step(s, rnd).1 == s,
{
    let op = word_at(s);
    lemma_field_bounds(op);
    let s2 = EmuView { pc: (s.pc + 2) as u16, ..s };
    assert(exec_op(s2, op, rnd).1 =~= s);
}

} // verus!
