//! The meaning of one machine step, written as mathematics: decoding an
//! instruction word into nibble fields, the effect of every opcode on the
//! abstract state, and the lemmas about sprite drawing that the executable
//! core leans on.

use vstd::prelude::*;

verus! {

use vstd::arithmetic::div_mod::lemma_fundamental_div_mod;

use crate::Chip8Error;
use crate::state::EmuView;

// ---------------------------------------------------------------------------
// Decoding
// ---------------------------------------------------------------------------

/// Highest nibble of an instruction word.
pub open spec fn nib1(op: u16) -> u16 {
    (op >> 12) & 0xF
}

/// Second nibble (the register field `x`).
pub open spec fn nib2(op: u16) -> u16 {
    (op >> 8) & 0xF
}

/// Third nibble (the register field `y`).
pub open spec fn nib3(op: u16) -> u16 {
    (op >> 4) & 0xF
}

/// Lowest nibble.
pub open spec fn nib4(op: u16) -> u16 {
    op & 0xF
}

/// Low byte of an instruction word.
pub open spec fn imm_nn(op: u16) -> u8 {
    (op & 0xFF) as u8
}

/// Low 12 bits of an instruction word: an address.
pub open spec fn imm_nnn(op: u16) -> u16 {
    op & 0xFFF
}

/// The decoded fields are nibbles and a 12-bit address.
pub proof fn lemma_field_bounds(op: u16)
    ensures
        nib1(op) < 16,
        nib2(op) < 16,
        nib3(op) < 16,
        nib4(op) < 16,
        imm_nnn(op) < 4096,
{
    assert((op >> 12) & 0xF < 16 && (op >> 8) & 0xF < 16 && (op >> 4) & 0xF < 16 && op & 0xF < 16
        && op & 0xFFF < 4096) by (bit_vector);
}

// ---------------------------------------------------------------------------
// Small arithmetic helpers
// ---------------------------------------------------------------------------

/// Byte addition that wraps around past 255.
pub open spec fn wrap_add8(a: u8, b: u8) -> u8 {
    if a + b > 255 {
        (a + b - 256) as u8
    } else {
        (a + b) as u8
    }
}

/// Byte subtraction that wraps around below 0.
pub open spec fn wrap_sub8(a: u8, b: u8) -> u8 {
    if a >= b {
        (a - b) as u8
    } else {
        (a - b + 256) as u8
    }
}

/// Address addition that wraps around past 65535.
pub open spec fn wrap_add16(a: u16, b: u16) -> u16 {
    if a + b > 65535 {
        (a + b - 65536) as u16
    } else {
        (a + b) as u16
    }
}

/// A timer after one tick: one less while positive, still zero at zero.
pub open spec fn dec_timer(t: u8) -> u8 {
    if t > 0 {
        (t - 1) as u8
    } else {
        0
    }
}

// ---------------------------------------------------------------------------
// Keypad scan
// ---------------------------------------------------------------------------

/// The lowest pressed key with index at least `k`, if any.
pub open spec fn first_pressed_from(keys: Seq<bool>, k: int) -> Option<u8>
    decreases 16 - k,
{
    if k < 0 || k >= 16 {
        Option::None
    } else if keys[k] {
        Option::Some(k as u8)
    } else {
        first_pressed_from(keys, k + 1)
    }
}

/// The lowest pressed key, if any.
pub open spec fn first_pressed(keys: Seq<bool>) -> Option<u8> {
    first_pressed_from(keys, 0)
}

// ---------------------------------------------------------------------------
// Sprite drawing
// ---------------------------------------------------------------------------

/// Bit `col` of a sprite row byte, most significant bit first.
pub open spec fn sprite_bit(row_byte: u8, col: int) -> bool {
    (row_byte >> ((7 - col) as u8)) & 1 == 1
}

/// Framebuffer index of the cell at column `x`, row `y` (row-major).
pub open spec fn cell_at(x: int, y: int) -> int {
    y * 64 + x
}

/// Whether sprite pixel (`row`, `col`) of the sprite stored at memory
/// address `i`, drawn with origin (`x0`, `y0`), toggles framebuffer cell
/// `idx`. Both coordinates wrap: columns modulo 64, rows modulo 32.
pub open spec fn sprite_hits(
    ram: Seq<u8>,
    i: int,
    x0: int,
    y0: int,
    row: int,
    col: int,
    idx: int,
) -> bool {
    &&& sprite_bit(ram[i + row], col)
    &&& idx == cell_at((x0 + col) % 64, (y0 + row) % 32)
}

/// Whether cell `idx` is toggled by some sprite pixel strictly before
/// (`r`, `c`) in row-major sprite order.
pub open spec fn toggled_before(
    ram: Seq<u8>,
    i: int,
    x0: int,
    y0: int,
    r: int,
    c: int,
    idx: int,
) -> bool {
    exists|row: int, col: int|
        0 <= row && 0 <= col < 8 && (row < r || (row == r && col < c))
            && #[trigger] sprite_hits(ram, i, x0, y0, row, col, idx)
}

/// Whether cell `idx` is toggled by drawing the `n`-row sprite stored at
/// memory address `i` with origin (`x0`, `y0`).
pub open spec fn toggled(ram: Seq<u8>, i: int, x0: int, y0: int, n: int, idx: int) -> bool {
    toggled_before(ram, i, x0, y0, n, 0, idx)
}

/// The framebuffer after the draw: every toggled cell inverted.
pub open spec fn draw_screen(
    sc: Seq<bool>,
    ram: Seq<u8>,
    i: int,
    x0: int,
    y0: int,
    n: int,
) -> Seq<bool> {
    Seq::new(sc.len(), |idx: int| sc[idx] != toggled(ram, i, x0, y0, n, idx))
}

/// The collision flag of the draw: whether some toggled cell was already lit.
pub open spec fn draw_flag(sc: Seq<bool>, ram: Seq<u8>, i: int, x0: int, y0: int, n: int) -> bool {
    exists|idx: int|
        0 <= idx < sc.len() && #[trigger] toggled(ram, i, x0, y0, n, idx) && sc[idx]
}

// ---------------------------------------------------------------------------
// Lemmas about sprite drawing
// ---------------------------------------------------------------------------

/// Two offsets under a modulus that land on the same residue are equal.
proof fn lemma_mod_inj(a: int, r1: int, r2: int, m: int)
    requires
        m > 0,
        0 <= r1 < m,
        0 <= r2 < m,
        (a + r1) % m == (a + r2) % m,
    ensures
        r1 == r2,
{
    lemma_fundamental_div_mod(a + r1, m);
    lemma_fundamental_div_mod(a + r2, m);
    let q1 = (a + r1) / m;
    let q2 = (a + r2) / m;
    assert(r1 - r2 == m * q1 - m * q2);
    assert(m * q1 - m * q2 == m * (q1 - q2)) by (nonlinear_arith);
    assert(q1 - q2 == 0) by (nonlinear_arith)
        requires
            r1 - r2 == m * (q1 - q2),
            -m < r1 - r2 < m,
            m > 0,
    ;
}

/// Distinct sprite pixels toggle distinct cells: within one draw the row
/// offsets stay below 32 and the column offsets below 8, so the wrapped
/// coordinates identify the pixel.
proof fn lemma_hits_inj(
    ram: Seq<u8>,
    i: int,
    x0: int,
    y0: int,
    r1: int,
    c1: int,
    r2: int,
    c2: int,
    idx: int,
)
    requires
        0 <= r1 < 32,
        0 <= c1 < 8,
        0 <= r2 < 32,
        0 <= c2 < 8,
        0 <= x0,
        0 <= y0,
        sprite_hits(ram, i, x0, y0, r1, c1, idx),
        sprite_hits(ram, i, x0, y0, r2, c2, idx),
    ensures
        r1 == r2 && c1 == c2,
{
    let xx1 = (x0 + c1) % 64;
    let yy1 = (y0 + r1) % 32;
    let xx2 = (x0 + c2) % 64;
    let yy2 = (y0 + r2) % 32;
    assert(yy1 * 64 + xx1 == yy2 * 64 + xx2);
    assert(yy1 == yy2 && xx1 == xx2) by (nonlinear_arith)
        requires
            yy1 * 64 + xx1 == yy2 * 64 + xx2,
            0 <= xx1 < 64,
            0 <= xx2 < 64,
            0 <= yy1 < 32,
            0 <= yy2 < 32,
    ;
    lemma_mod_inj(x0, c1, c2, 64);
    lemma_mod_inj(y0, r1, r2, 32);
}

/// Moving the frontier one column: the pixels before (`r`, `c + 1`) are the
/// pixels before (`r`, `c`) plus the pixel (`r`, `c`) itself.
proof fn lemma_toggled_step(ram: Seq<u8>, i: int, x0: int, y0: int, r: int, c: int, idx: int)
    requires
        0 <= r,
        0 <= c < 8,
    ensures
        toggled_before(ram, i, x0, y0, r, c + 1, idx) == (toggled_before(ram, i, x0, y0, r, c, idx)
            || sprite_hits(ram, i, x0, y0, r, c, idx)),
{
    if toggled_before(ram, i, x0, y0, r, c + 1, idx) {
        let (row, col) = choose|row: int, col: int|
            0 <= row && 0 <= col < 8 && (row < r || (row == r && col < c + 1))
                && #[trigger] sprite_hits(ram, i, x0, y0, row, col, idx);
        if !(row == r && col == c) {
            assert(row < r || (row == r && col < c));
            assert(toggled_before(ram, i, x0, y0, r, c, idx));
        }
    }
    if toggled_before(ram, i, x0, y0, r, c, idx) {
        let (row, col) = choose|row: int, col: int|
            0 <= row && 0 <= col < 8 && (row < r || (row == r && col < c))
                && #[trigger] sprite_hits(ram, i, x0, y0, row, col, idx);
        assert(row < r || (row == r && col < c + 1));
        assert(toggled_before(ram, i, x0, y0, r, c + 1, idx));
    }
    if sprite_hits(ram, i, x0, y0, r, c, idx) {
        assert(0 <= r && 0 <= c < 8 && (r < r || (r == r && c < c + 1))
            && sprite_hits(ram, i, x0, y0, r, c, idx));
        assert(toggled_before(ram, i, x0, y0, r, c + 1, idx));
    }
}

/// Moving the frontier one row: having passed all 8 columns of row `r` is
/// having reached row `r + 1`.
proof fn lemma_toggled_row(ram: Seq<u8>, i: int, x0: int, y0: int, r: int, idx: int)
    requires
        0 <= r,
    ensures
        toggled_before(ram, i, x0, y0, r, 8, idx) == toggled_before(ram, i, x0, y0, r + 1, 0, idx),
{
    if toggled_before(ram, i, x0, y0, r, 8, idx) {
        let (row, col) = choose|row: int, col: int|
            0 <= row && 0 <= col < 8 && (row < r || (row == r && col < 8))
                && #[trigger] sprite_hits(ram, i, x0, y0, row, col, idx);
        assert(row < r + 1);
        assert(toggled_before(ram, i, x0, y0, r + 1, 0, idx));
    }
    if toggled_before(ram, i, x0, y0, r + 1, 0, idx) {
        let (row, col) = choose|row: int, col: int|
            0 <= row && 0 <= col < 8 && (row < r + 1 || (row == r + 1 && col < 0))
                && #[trigger] sprite_hits(ram, i, x0, y0, row, col, idx);
        assert(row < r || (row == r && col < 8));
        assert(toggled_before(ram, i, x0, y0, r, 8, idx));
    }
}

/// The pixel at the frontier has not toggled its cell yet.
proof fn lemma_frontier_fresh(
    ram: Seq<u8>,
    i: int,
    x0: int,
    y0: int,
    r: int,
    c: int,
    idx: int,
)
    requires
        0 <= r < 32,
        0 <= c < 8,
        0 <= x0,
        0 <= y0,
        sprite_hits(ram, i, x0, y0, r, c, idx),
    ensures
        !toggled_before(ram, i, x0, y0, r, c, idx),
{
    if toggled_before(ram, i, x0, y0, r, c, idx) {
        let (row, col) = choose|row: int, col: int|
            0 <= row && 0 <= col < 8 && (row < r || (row == r && col < c))
                && #[trigger] sprite_hits(ram, i, x0, y0, row, col, idx);
        lemma_hits_inj(ram, i, x0, y0, row, col, r, c, idx);
    }
}

/// The two facts the draw loop keeps while sweeping the sprite in row-major
/// order, frontier at (`r`, `c`): every cell toggled by a pixel before the
/// frontier is inverted, the rest stand as before.
pub open spec fn draw_inv_screen(
    sc0: Seq<bool>,
    scr: Seq<bool>,
    ram: Seq<u8>,
    i: int,
    x0: int,
    y0: int,
    r: int,
    c: int,
) -> bool {
    forall|idx: int|
        0 <= idx < 2048 ==> scr[idx] == (sc0[idx] != #[trigger] toggled_before(
            ram, i, x0, y0, r, c, idx,
        ))
}

/// The collision flag the draw loop has accumulated by frontier (`r`, `c`):
/// whether some cell toggled so far was lit at the start.
pub open spec fn draw_inv_flag(
    flip: bool,
    sc0: Seq<bool>,
    ram: Seq<u8>,
    i: int,
    x0: int,
    y0: int,
    r: int,
    c: int,
) -> bool {
    flip == exists|idx: int|
        0 <= idx < 2048 && #[trigger] toggled_before(ram, i, x0, y0, r, c, idx) && sc0[idx]
}

/// Before any pixel is processed nothing is toggled.
pub(crate) proof fn lemma_draw_init(
    sc0: Seq<bool>,
    ram: Seq<u8>,
    i: int,
    x0: int,
    y0: int,
)
    ensures
        draw_inv_screen(sc0, sc0, ram, i, x0, y0, 0, 0),
        draw_inv_flag(false, sc0, ram, i, x0, y0, 0, 0),
{
    assert forall|idx: int| !toggled_before(ram, i, x0, y0, 0, 0, idx) by {
        if toggled_before(ram, i, x0, y0, 0, 0, idx) {
            let (row, col) = choose|row: int, col: int|
                0 <= row && 0 <= col < 8 && (row < 0 || (row == 0 && col < 0))
                    && #[trigger] sprite_hits(ram, i, x0, y0, row, col, idx);
        }
    }
}

/// One toggle of the draw loop: with cell `idx0` hit by the frontier pixel
/// (`r`, `c`), inverting it and accumulating its old value moves both loop
/// invariants one column forward.
pub(crate) proof fn lemma_draw_toggle(
    sc0: Seq<bool>,
    scr: Seq<bool>,
    flip: bool,
    ram: Seq<u8>,
    i: int,
    x0: int,
    y0: int,
    r: int,
    c: int,
    idx0: int,
)
    requires
        0 <= r < 32,
        0 <= c < 8,
        0 <= x0,
        0 <= y0,
        sc0.len() == 2048,
        scr.len() == 2048,
        0 <= idx0 < 2048,
        sprite_hits(ram, i, x0, y0, r, c, idx0),
        draw_inv_screen(sc0, scr, ram, i, x0, y0, r, c),
        draw_inv_flag(flip, sc0, ram, i, x0, y0, r, c),
    ensures
        scr[idx0] == sc0[idx0],
        draw_inv_screen(sc0, scr.update(idx0, !scr[idx0]), ram, i, x0, y0, r, c + 1),
        draw_inv_flag(flip || scr[idx0], sc0, ram, i, x0, y0, r, c + 1),
{
    lemma_frontier_fresh(ram, i, x0, y0, r, c, idx0);
    assert(scr[idx0] == sc0[idx0]);
    assert forall|idx: int| 0 <= idx < 2048 implies scr.update(idx0, !scr[idx0])[idx] == (sc0[idx]
        != #[trigger] toggled_before(ram, i, x0, y0, r, c + 1, idx)) by {
        lemma_toggled_step(ram, i, x0, y0, r, c, idx);
        if idx != idx0 {
            assert(!sprite_hits(ram, i, x0, y0, r, c, idx));
        }
    }
    let newflip = flip || scr[idx0];
    let hasnew = exists|idx: int|
        0 <= idx < 2048 && #[trigger] toggled_before(ram, i, x0, y0, r, c + 1, idx) && sc0[idx];
    if newflip {
        if flip {
            let idx1 = choose|idx: int|
                0 <= idx < 2048 && #[trigger] toggled_before(ram, i, x0, y0, r, c, idx)
                    && sc0[idx];
            lemma_toggled_step(ram, i, x0, y0, r, c, idx1);
            assert(toggled_before(ram, i, x0, y0, r, c + 1, idx1));
            assert(hasnew);
        } else {
            lemma_toggled_step(ram, i, x0, y0, r, c, idx0);
            assert(toggled_before(ram, i, x0, y0, r, c + 1, idx0));
            assert(hasnew);
        }
    }
    if hasnew {
        let idx1 = choose|idx: int|
            0 <= idx < 2048 && #[trigger] toggled_before(ram, i, x0, y0, r, c + 1, idx)
                && sc0[idx];
        lemma_toggled_step(ram, i, x0, y0, r, c, idx1);
        if toggled_before(ram, i, x0, y0, r, c, idx1) {
            assert(flip);
        } else {
            assert(sprite_hits(ram, i, x0, y0, r, c, idx1));
            assert(idx1 == idx0);
            assert(scr[idx0]);
        }
        assert(newflip);
    }
}

/// One skipped column of the draw loop: a clear sprite bit toggles nothing,
/// so both invariants move one column forward unchanged.
pub(crate) proof fn lemma_draw_skip(
    sc0: Seq<bool>,
    scr: Seq<bool>,
    flip: bool,
    ram: Seq<u8>,
    i: int,
    x0: int,
    y0: int,
    r: int,
    c: int,
)
    requires
        0 <= r,
        0 <= c < 8,
        !sprite_bit(ram[i + r], c),
        draw_inv_screen(sc0, scr, ram, i, x0, y0, r, c),
        draw_inv_flag(flip, sc0, ram, i, x0, y0, r, c),
    ensures
        draw_inv_screen(sc0, scr, ram, i, x0, y0, r, c + 1),
        draw_inv_flag(flip, sc0, ram, i, x0, y0, r, c + 1),
{
    assert forall|idx: int| #[trigger] toggled_before(ram, i, x0, y0, r, c + 1, idx)
        == toggled_before(ram, i, x0, y0, r, c, idx) by {
        lemma_toggled_step(ram, i, x0, y0, r, c, idx);
        assert(!sprite_hits(ram, i, x0, y0, r, c, idx));
    }
    if flip {
        let idx1 = choose|idx: int|
            0 <= idx < 2048 && #[trigger] toggled_before(ram, i, x0, y0, r, c, idx) && sc0[idx];
        assert(toggled_before(ram, i, x0, y0, r, c + 1, idx1));
    }
    if exists|idx: int|
        0 <= idx < 2048 && #[trigger] toggled_before(ram, i, x0, y0, r, c + 1, idx) && sc0[idx] {
        let idx1 = choose|idx: int|
            0 <= idx < 2048 && #[trigger] toggled_before(ram, i, x0, y0, r, c + 1, idx)
                && sc0[idx];
        assert(toggled_before(ram, i, x0, y0, r, c, idx1));
    }
}

/// One finished row of the draw loop: the invariants at column 8 of row `r`
/// are the invariants at column 0 of row `r + 1`.
pub(crate) proof fn lemma_draw_row(
    sc0: Seq<bool>,
    scr: Seq<bool>,
    flip: bool,
    ram: Seq<u8>,
    i: int,
    x0: int,
    y0: int,
    r: int,
)
    requires
        0 <= r,
        draw_inv_screen(sc0, scr, ram, i, x0, y0, r, 8),
        draw_inv_flag(flip, sc0, ram, i, x0, y0, r, 8),
    ensures
        draw_inv_screen(sc0, scr, ram, i, x0, y0, r + 1, 0),
        draw_inv_flag(flip, sc0, ram, i, x0, y0, r + 1, 0),
{
    assert forall|idx: int| 0 <= idx < 2048 implies scr[idx] == (sc0[idx]
        != #[trigger] toggled_before(ram, i, x0, y0, r + 1, 0, idx)) by {
        lemma_toggled_row(ram, i, x0, y0, r, idx);
    }
    if flip {
        let idx1 = choose|idx: int|
            0 <= idx < 2048 && #[trigger] toggled_before(ram, i, x0, y0, r, 8, idx) && sc0[idx];
        lemma_toggled_row(ram, i, x0, y0, r, idx1);
        assert(toggled_before(ram, i, x0, y0, r + 1, 0, idx1));
    }
    if exists|idx: int|
        0 <= idx < 2048 && #[trigger] toggled_before(ram, i, x0, y0, r + 1, 0, idx) && sc0[idx] {
        let idx1 = choose|idx: int|
            0 <= idx < 2048 && #[trigger] toggled_before(ram, i, x0, y0, r + 1, 0, idx)
                && sc0[idx];
        lemma_toggled_row(ram, i, x0, y0, r, idx1);
        assert(toggled_before(ram, i, x0, y0, r, 8, idx1));
    }
}

/// A finished sweep of all `n` rows is the drawn screen and its collision
/// flag.
pub(crate) proof fn lemma_draw_done(
    sc0: Seq<bool>,
    scr: Seq<bool>,
    flip: bool,
    ram: Seq<u8>,
    i: int,
    x0: int,
    y0: int,
    n: int,
)
    requires
        sc0.len() == 2048,
        scr.len() == 2048,
        draw_inv_screen(sc0, scr, ram, i, x0, y0, n, 0),
        draw_inv_flag(flip, sc0, ram, i, x0, y0, n, 0),
    ensures
        scr == draw_screen(sc0, ram, i, x0, y0, n),
        flip == draw_flag(sc0, ram, i, x0, y0, n),
{
    assert forall|idx: int| 0 <= idx < 2048 implies scr[idx] == (sc0[idx] != #[trigger] toggled(
        ram, i, x0, y0, n, idx,
    )) by {
        assert(toggled(ram, i, x0, y0, n, idx) == toggled_before(ram, i, x0, y0, n, 0, idx));
        assert(scr[idx] == (sc0[idx] != toggled_before(ram, i, x0, y0, n, 0, idx)));
    }
    assert(scr =~= draw_screen(sc0, ram, i, x0, y0, n));
    if flip {
        let idx1 = choose|idx: int|
            0 <= idx < 2048 && #[trigger] toggled_before(ram, i, x0, y0, n, 0, idx) && sc0[idx];
        assert(toggled(ram, i, x0, y0, n, idx1) && sc0[idx1]);
        assert(draw_flag(sc0, ram, i, x0, y0, n));
    }
    if draw_flag(sc0, ram, i, x0, y0, n) {
        let idx1 = choose|idx: int|
            0 <= idx < sc0.len() && #[trigger] toggled(ram, i, x0, y0, n, idx) && sc0[idx];
        assert(toggled_before(ram, i, x0, y0, n, 0, idx1) && sc0[idx1]);
        assert(flip);
    }
}

// ---------------------------------------------------------------------------
// Bulk register transfer
// ---------------------------------------------------------------------------

/// Memory after registers 0 through `x` are stored at addresses `i` through
/// `i + x`.
pub open spec fn store_regs_spec(ram: Seq<u8>, v_reg: Seq<u8>, i: int, x: int) -> Seq<u8> {
    Seq::new(ram.len(), |a: int| if i <= a <= i + x { v_reg[a - i] } else { ram[a] })
}

/// Registers after 0 through `x` are loaded from addresses `i` through
/// `i + x`.
pub open spec fn load_regs_spec(v_reg: Seq<u8>, ram: Seq<u8>, i: int, x: int) -> Seq<u8> {
    Seq::new(v_reg.len(), |k: int| if 0 <= k <= x { ram[i + k] } else { v_reg[k] })
}

// ---------------------------------------------------------------------------
// The instruction table
// ---------------------------------------------------------------------------

/// The state one skip instruction leaves when its condition holds: the next
/// instruction word is stepped over.
pub open spec fn skip_next(s: EmuView) -> EmuView {
    EmuView { pc: (s.pc + 2) as u16, ..s }
}

/// The arithmetic and logic family (first nibble 8) on registers `x` and
/// `y`, selected by the last nibble.
pub open spec fn exec_alu(s: EmuView, x: int, y: int, d4: u16) -> (Result<(), Chip8Error>, EmuView) {
    let a: u8 = s.v_reg[x];
    let b: u8 = s.v_reg[y];
    if d4 == 0 {
        (Ok(()), EmuView { v_reg: s.v_reg.update(x, b), ..s })
    } else if d4 == 1 {
        (Ok(()), EmuView { v_reg: s.v_reg.update(x, a | b), ..s })
    } else if d4 == 2 {
        (Ok(()), EmuView { v_reg: s.v_reg.update(x, a & b), ..s })
    } else if d4 == 3 {
        (Ok(()), EmuView { v_reg: s.v_reg.update(x, a ^ b), ..s })
    } else if d4 == 4 {
        let carry: u8 = if a + b > 255 { 1 } else { 0 };
        (Ok(()), EmuView { v_reg: s.v_reg.update(x, wrap_add8(a, b)).update(15, carry), ..s })
    } else if d4 == 5 {
        let no_borrow: u8 = if a >= b { 1 } else { 0 };
        (Ok(()), EmuView { v_reg: s.v_reg.update(x, wrap_sub8(a, b)).update(15, no_borrow), ..s })
    } else if d4 == 6 {
        (Ok(()), EmuView { v_reg: s.v_reg.update(x, a >> 1).update(15, a & 1), ..s })
    } else if d4 == 7 {
        let no_borrow: u8 = if b >= a { 1 } else { 0 };
        (Ok(()), EmuView { v_reg: s.v_reg.update(x, wrap_sub8(b, a)).update(15, no_borrow), ..s })
    } else if d4 == 0xE {
        (Ok(()), EmuView { v_reg: s.v_reg.update(x, a << 1).update(15, (a >> 7) & 1), ..s })
    } else {
        (Err(Chip8Error::InvalidOpcode), s)
    }
}

/// The timer, keypad, memory-cursor and memory-transfer family (first
/// nibble F), selected by the low byte.
pub open spec fn exec_fops(s: EmuView, x: int, d3: u16, d4: u16) -> (Result<(), Chip8Error>, EmuView) {
    if d3 == 0 && d4 == 7 {
        (Ok(()), EmuView { v_reg: s.v_reg.update(x, s.dt), ..s })
    } else if d3 == 0 && d4 == 0xA {
        match first_pressed(s.keys) {
            Option::Some(k) => (Ok(()), EmuView { v_reg: s.v_reg.update(x, k), ..s }),
            Option::None => (Ok(()), EmuView { waiting: Option::Some(x as u8), ..s }),
        }
    } else if d3 == 1 && d4 == 5 {
        (Ok(()), EmuView { dt: s.v_reg[x], ..s })
    } else if d3 == 1 && d4 == 8 {
        (Ok(()), EmuView { st: s.v_reg[x], ..s })
    } else if d3 == 1 && d4 == 0xE {
        (Ok(()), EmuView { i_reg: wrap_add16(s.i_reg, s.v_reg[x] as u16), ..s })
    } else if d3 == 2 && d4 == 9 {
        (Ok(()), EmuView { i_reg: (s.v_reg[x] * 5) as u16, ..s })
    } else if d3 == 3 && d4 == 3 {
        let i: int = s.i_reg as int;
        if i + 2 >= 4096 {
            (Err(Chip8Error::MemoryOutOfBounds), s)
        } else {
            let vx: u8 = s.v_reg[x];
            (Ok(()), EmuView {
                ram: s.ram.update(i, vx / 100).update(i + 1, (vx / 10) % 10).update(
                    i + 2,
                    vx % 10,
                ),
                ..s
            })
        }
    } else if d3 == 5 && d4 == 5 {
        let i: int = s.i_reg as int;
        if i + x >= 4096 {
            (Err(Chip8Error::MemoryOutOfBounds), s)
        } else {
            (Ok(()), EmuView { ram: store_regs_spec(s.ram, s.v_reg, i, x), ..s })
        }
    } else if d3 == 6 && d4 == 5 {
        let i: int = s.i_reg as int;
        if i + x >= 4096 {
            (Err(Chip8Error::MemoryOutOfBounds), s)
        } else {
            (Ok(()), EmuView { v_reg: load_regs_spec(s.v_reg, s.ram, i, x), ..s })
        }
    } else {
        (Err(Chip8Error::InvalidOpcode), s)
    }
}

/// One decoded instruction, executed on a state whose program counter has
/// already advanced past the word: the result the core reports and the
/// state it leaves. On an error the state is left as it stood.
pub open spec fn exec_op(s: EmuView, op: u16, rnd: u8) -> (Result<(), Chip8Error>, EmuView) {
    let d1: u16 = nib1(op);
    let d2: u16 = nib2(op);
    let d3: u16 = nib3(op);
    let d4: u16 = nib4(op);
    let x: int = d2 as int;
    let y: int = d3 as int;
    let nn: u8 = imm_nn(op);
    let nnn: u16 = imm_nnn(op);
    if d1 == 0 {
        if d2 == 0 && d3 == 0 && d4 == 0 {
            (Ok(()), s)
        } else if d2 == 0 && d3 == 0xE && d4 == 0 {
            (Ok(()), EmuView { screen: Seq::new(s.screen.len(), |i: int| false), ..s })
        } else if d2 == 0 && d3 == 0xE && d4 == 0xE {
            if s.stack.len() == 0 {
                (Err(Chip8Error::StackUnderflow), s)
            } else {
                (Ok(()), EmuView { pc: s.stack.last(), stack: s.stack.drop_last(), ..s })
            }
        } else {
            (Err(Chip8Error::InvalidOpcode), s)
        }
    } else if d1 == 1 {
        (Ok(()), EmuView { pc: nnn, ..s })
    } else if d1 == 2 {
        if s.stack.len() >= 16 {
            (Err(Chip8Error::StackOverflow), s)
        } else {
            (Ok(()), EmuView { stack: s.stack.push(s.pc), pc: nnn, ..s })
        }
    } else if d1 == 3 {
        (Ok(()), if s.v_reg[x] == nn { skip_next(s) } else { s })
    } else if d1 == 4 {
        (Ok(()), if s.v_reg[x] != nn { skip_next(s) } else { s })
    } else if d1 == 5 {
        if d4 == 0 {
            (Ok(()), if s.v_reg[x] == s.v_reg[y] { skip_next(s) } else { s })
        } else {
            (Err(Chip8Error::InvalidOpcode), s)
        }
    } else if d1 == 6 {
        (Ok(()), EmuView { v_reg: s.v_reg.update(x, nn), ..s })
    } else if d1 == 7 {
        (Ok(()), EmuView { v_reg: s.v_reg.update(x, wrap_add8(s.v_reg[x], nn)), ..s })
    } else if d1 == 8 {
        exec_alu(s, x, y, d4)
    } else if d1 == 9 {
        if d4 == 0 {
            (Ok(()), if s.v_reg[x] != s.v_reg[y] { skip_next(s) } else { s })
        } else {
            (Err(Chip8Error::InvalidOpcode), s)
        }
    } else if d1 == 0xA {
        (Ok(()), EmuView { i_reg: nnn, ..s })
    } else if d1 == 0xB {
        (Ok(()), EmuView { pc: (nnn + s.v_reg[0]) as u16, ..s })
    } else if d1 == 0xC {
        (Ok(()), EmuView { v_reg: s.v_reg.update(x, rnd & nn), ..s })
    } else if d1 == 0xD {
        let n: int = d4 as int;
        let i: int = s.i_reg as int;
        let x0: int = s.v_reg[x] as int;
        let y0: int = s.v_reg[y] as int;
        if n > 0 && i + n > 4096 {
            (Err(Chip8Error::MemoryOutOfBounds), s)
        } else {
            let flag: bool = draw_flag(s.screen, s.ram, i, x0, y0, n);
            (Ok(()), EmuView {
                screen: draw_screen(s.screen, s.ram, i, x0, y0, n),
                v_reg: s.v_reg.update(15, if flag { 1u8 } else { 0u8 }),
                ..s
            })
        }
    } else if d1 == 0xE {
        if d3 == 9 && d4 == 0xE {
            if s.v_reg[x] >= 16 {
                (Err(Chip8Error::KeyOutOfRange), s)
            } else {
                (Ok(()), if s.keys[s.v_reg[x] as int] { skip_next(s) } else { s })
            }
        } else if d3 == 0xA && d4 == 1 {
            if s.v_reg[x] >= 16 {
                (Err(Chip8Error::KeyOutOfRange), s)
            } else {
                (Ok(()), if !s.keys[s.v_reg[x] as int] { skip_next(s) } else { s })
            }
        } else {
            (Err(Chip8Error::InvalidOpcode), s)
        }
    } else if d1 == 0xF {
        exec_fops(s, x, d3, d4)
    } else {
        (Err(Chip8Error::InvalidOpcode), s)
    }
}

/// The instruction word in memory at the program counter, big-endian.
pub open spec fn word_at(s: EmuView) -> u16 {
    ((s.ram[s.pc as int] as u16) << 8) | (s.ram[s.pc as int + 1] as u16)
}

/// One step of the machine. In a key-wait, the step consumes the lowest
/// pressed key or leaves the state as it stood. Otherwise the word at the
/// program counter is fetched (rejected if the counter has run off memory),
/// the counter advances by 2, and the instruction executes with `rnd` as
/// the drawn random byte.
pub open spec fn step(s: EmuView, rnd: u8) -> (Result<(), Chip8Error>, EmuView) {
    match s.waiting {
        Option::Some(x) => match first_pressed(s.keys) {
            Option::Some(k) => (Ok(()), EmuView {
                v_reg: s.v_reg.update(x as int, k),
                waiting: Option::None,
                ..s
            }),
            Option::None => (Ok(()), s),
        },
        Option::None => {
            if s.pc as int + 1 >= 4096 {
                (Err(Chip8Error::ProgramCounterOutOfBounds), s)
            } else {
                exec_op(EmuView { pc: (s.pc + 2) as u16, ..s }, word_at(s), rnd)
            }
        }
    }
}

} // verus!
