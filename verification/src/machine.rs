//! What the generated code does when it runs: a model of the CHIP-8
//! instructions that expressions, statements and calls compile to, and the
//! proofs that the code of each operator, of each expression and of an
//! assignment computes the values the language gives them.  Control flow
//! is in `control`, calls in `calls`.
use vstd::prelude::*;
use crate::ast::{Op, SExpr, SProgram, SStmt, SVarDecl};
use crate::analyzer::{lookup, key_index, assoc_insert, lemma_key_index_bounds};
use crate::codegen::{
    binop_code, binop_tail, block_code, load_code, stmt_code, Emitted, SCodegenError, GenState, init_globals, data_stage,
    initial_state, save_areas, lay_sprites, max_depth, emit_fns, generate_spec, set_word, jp, add_emitted,
    bind_globals, lemma_save_areas_shape, lemma_lay_sprites_shape, op, r8, r4, addr_of, GenEnv};

verus! {

/// The state of a CHIP-8 machine: registers `V0`..`VF`, the program
/// counter, the address register `I`, the data memory by address, the
/// return addresses of the calls in progress, the 64 x 32 screen, row by
/// row, which of the 16 keys are held down, the delay and sound timers,
/// and the byte the random source gives next. Instructions are fetched
/// from the program image (see `step`); `FX55` and `FX65` store to and load
/// from the data memory, `DXYN` draws rows of it.
pub struct Cpu {
    pub v: Seq<u8>,
    pub pc: int,
    pub i: int,
    pub mem: Seq<u8>,
    pub stack: Seq<int>,
    pub screen: Seq<bool>,
    pub keys: Seq<bool>,
    pub delay: u8,
    pub sound: u8,
    pub noise: u8,
}

/// The instructions that expressions, statements and calls compile to.
pub enum Instr {
    /// `1nnn`: jump to `nnn`.
    Jump(int),
    /// `3xkk`: skip the next instruction if `Vx == kk`.
    SkipEqImm(int, u8),
    /// `4xkk`: skip the next instruction if `Vx != kk`.
    SkipNeImm(int, u8),
    /// `5xy0`: skip the next instruction if `Vx == Vy`.
    SkipEqReg(int, int),
    /// `9xy0`: skip the next instruction if `Vx != Vy`.
    SkipNeReg(int, int),
    /// `6xkk`: `Vx = kk`.
    LoadImm(int, u8),
    /// `8xy0`: `Vx = Vy`.
    Copy(int, int),
    /// `8xy3`: `Vx = Vx ^ Vy`.
    Xor(int, int),
    /// `8xy4`: `Vx = Vx + Vy` modulo 256, `VF` = carry.
    Add(int, int),
    /// `8xy5`: `Vx = Vx - Vy` modulo 256, `VF` = 1 when there is no borrow.
    Sub(int, int),
    /// `2nnn`: call `nnn`, the return address on the stack.
    Call(int),
    /// `00EE`: return to the address on top of the stack.
    Return,
    /// `Annn`: `I = nnn`.
    SetI(int),
    /// `Fx55`: store `V0`..`Vx` at `I`..`I + x`.
    Store(int),
    /// `Fx65`: load `V0`..`Vx` from `I`..`I + x`.
    Load(int),
    /// `8xy2`: `Vx = Vx & Vy`.
    And(int, int),
    /// `Fx29`: `I` = the address of the font glyph of the digit `Vx`.
    Font(int),
    /// `Dxyn`: draw the `n` rows at `I` at (`Vx`, `Vy`), `VF` = collision.
    Draw(int, int, int),
    /// `Ex9E`: skip the next instruction if the key `Vx` is held down.
    SkipKey(int),
    /// `00E0`: clear the screen.
    Clear,
    /// `Fx07`: `Vx` = the delay timer.
    GetDelay(int),
    /// `Fx15`: the delay timer = `Vx`.
    SetDelay(int),
    /// `Fx18`: the sound timer = `Vx`.
    SetSound(int),
    /// `Cxkk`: `Vx` = a random byte `& kk`.
    Rand(int, u8),
    /// `Fx0A`: wait for a key; `Vx` = the key.
    WaitKey(int),
    /// Anything else: not described here.
    Other,
}

/// The instruction of the 16-bit word `w`.
#[verifier::opaque]
pub open spec fn decode(w: int) -> Instr {
    let hi = w / 4096;
    let x = (w / 256) % 16;
    let y = (w / 16) % 16;
    let n = w % 16;
    let kk = (w % 256) as u8;
    if w == 0x00EE {
        Instr::Return
    } else if hi == 1 {
        Instr::Jump(w % 4096)
    } else if hi == 2 {
        Instr::Call(w % 4096)
    } else if hi == 10 {
        Instr::SetI(w % 4096)
    } else if hi == 15 && w % 256 == 0x55 {
        Instr::Store(x)
    } else if hi == 15 && w % 256 == 0x65 {
        Instr::Load(x)

    } else if hi == 3 {
        Instr::SkipEqImm(x, kk)
    } else if hi == 4 {
        Instr::SkipNeImm(x, kk)
    } else if hi == 5 && n == 0 {
        Instr::SkipEqReg(x, y)
    } else if hi == 6 {
        Instr::LoadImm(x, kk)
    } else if hi == 8 && n == 0 {
        Instr::Copy(x, y)
    } else if hi == 8 && n == 3 {
        Instr::Xor(x, y)
    } else if hi == 8 && n == 4 {
        Instr::Add(x, y)
    } else if hi == 8 && n == 5 {
        Instr::Sub(x, y)
    } else if hi == 9 && n == 0 {
        Instr::SkipNeReg(x, y)
    } else if hi == 8 && n == 2 {
        Instr::And(x, y)
    } else if hi == 15 && w % 256 == 0x29 {
        Instr::Font(x)
    } else if hi == 13 {
        Instr::Draw(x, y, n)
    } else if hi == 14 && w % 256 == 0x9E {
        Instr::SkipKey(x)
    } else if w == 0x00E0 {
        Instr::Clear
    } else if hi == 15 && w % 256 == 0x07 {
        Instr::GetDelay(x)
    } else if hi == 15 && w % 256 == 0x15 {
        Instr::SetDelay(x)
    } else if hi == 15 && w % 256 == 0x18 {
        Instr::SetSound(x)
    } else if hi == 12 {
        Instr::Rand(x, kk)
    } else if hi == 15 && w % 256 == 0x0A {
        Instr::WaitKey(x)
    } else {
        Instr::Other
    }
}

/// The big-endian word at address `a` of a ROM loaded at 0x200.
pub open spec fn word_at(rom: Seq<u8>, a: int) -> int {
    let i = a - 0x200;
    if 0 <= i && i + 1 < rom.len() {
        rom[i] as int * 256 + rom[i + 1] as int
    } else {
        0
    }
}

pub open spec fn flag(b: bool) -> u8 {
    if b {
        1
    } else {
        0
    }
}

/// The machine after `i`, fetched at its program counter.
pub open spec fn execute(c: Cpu, i: Instr) -> Cpu {
    let next = c.pc + 2;
    match i {
        Instr::Jump(a) => Cpu { pc: a, ..c },
        Instr::SkipEqImm(x, k) => Cpu { pc: if c.v[x] == k { next + 2 } else { next }, ..c },
        Instr::SkipNeImm(x, k) => Cpu { pc: if c.v[x] != k { next + 2 } else { next }, ..c },
        Instr::SkipEqReg(x, y) => Cpu { pc: if c.v[x] == c.v[y] { next + 2 } else { next }, ..c },
        Instr::SkipNeReg(x, y) => Cpu { pc: if c.v[x] != c.v[y] { next + 2 } else { next }, ..c },
        Instr::LoadImm(x, k) => Cpu { v: c.v.update(x, k), pc: next, ..c },
        Instr::Copy(x, y) => Cpu { v: c.v.update(x, c.v[y]), pc: next, ..c },
        Instr::Xor(x, y) => Cpu { v: c.v.update(x, c.v[x] ^ c.v[y]), pc: next, ..c },
        Instr::Add(x, y) => {
            let s = c.v[x] + c.v[y];
            Cpu { v: c.v.update(x, (s % 256) as u8).update(15, flag(s > 255)), pc: next, ..c }
        },
        Instr::Sub(x, y) => {
            let d = c.v[x] - c.v[y];
            Cpu { v: c.v.update(x, ((d + 256) % 256) as u8).update(15, flag(c.v[x] >= c.v[y])), pc: next, ..c }
        },
        Instr::Call(a) => Cpu { pc: a, stack: c.stack.push(next), ..c },
        Instr::Return => if c.stack.len() > 0 {
            Cpu { pc: c.stack.last(), stack: c.stack.drop_last(), ..c }
        } else {
            c
        },
        Instr::SetI(a) => Cpu { i: a, pc: next, ..c },
        Instr::Store(x) => Cpu { mem: store_regs(c.mem, c.i, c.v, x), pc: next, ..c },
        Instr::Load(x) => Cpu { v: load_regs(c.v, c.mem, c.i, x), pc: next, ..c },
        Instr::And(x, y) => Cpu { v: c.v.update(x, c.v[x] & c.v[y]), pc: next, ..c },
        Instr::Font(x) => Cpu { i: glyph_addr(c.v[x]), pc: next, ..c },
        Instr::SkipKey(x) => Cpu { pc: if key_down(c.keys, c.v[x]) { next + 2 } else { next }, ..c },
        Instr::Clear => Cpu { screen: Seq::new(c.screen.len(), |p: int| false), pc: next, ..c },
        Instr::GetDelay(x) => Cpu { v: c.v.update(x, c.delay), pc: next, ..c },
        Instr::SetDelay(x) => Cpu { delay: c.v[x], pc: next, ..c },
        Instr::SetSound(x) => Cpu { sound: c.v[x], pc: next, ..c },
        Instr::Rand(x, k) => Cpu { v: c.v.update(x, c.noise & k), pc: next, ..c },
        Instr::WaitKey(x) => if first_key(c.keys, 0) < 16 {
            Cpu { v: c.v.update(x, first_key(c.keys, 0) as u8), pc: next, ..c }
        } else {
            c
        },
        Instr::Draw(x, y, n) => Cpu {
            v: c.v.update(15, flag(collides(c.screen, c.mem, c.i, n, c.v[x], c.v[y]))),
            screen: draw_rows(c.screen, c.mem, c.i, n, c.v[x], c.v[y]),
            pc: next,
            ..c
        },
        Instr::Other => c,
    }
}

/// The first key from `k` on that is held down, or 16 when none is.
pub open spec fn first_key(keys: Seq<bool>, k: nat) -> nat
    decreases 16 - k,
{
    if k >= 16 {
        16
    } else if key_down(keys, k as u8) {
        k
    } else {
        first_key(keys, k + 1)
    }
}

/// Whether key `k` is held down; there are keys 0 to 15 only.
#[verifier::opaque]
pub open spec fn key_down(keys: Seq<bool>, k: u8) -> bool {
    (k as int) < keys.len() && keys[k as int]
}

/// Where the built-in font keeps the glyph of the digit `d % 16`: five
/// bytes each, from address 0.
pub open spec fn glyph_addr(d: u8) -> int {
    5 * (d as int % 16)
}

/// Bit `b` of `byte`, from the left.
#[verifier::opaque]
pub open spec fn bit(byte: u8, b: int) -> bool {
    (byte as int / vstd::arithmetic::power2::pow2((7 - b) as nat) as int) % 2 == 1
}

/// Whether the `n` rows at address `i` of `mem`, drawn at (`x`, `y`), light
/// the pixel (`px`, `py`); the picture wraps at the edges.
#[verifier::opaque]
pub open spec fn sprite_pixel(mem: Seq<u8>, i: int, n: int, x: u8, y: u8, px: int, py: int) -> bool {
    let r = (py - y) % 32;
    let b = (px - x) % 64;
    r < n && b < 8 && 0 <= i + r < mem.len() && bit(mem[i + r], b)
}

/// The screen after drawing: each pixel the rows light is flipped.
#[verifier::opaque]
pub open spec fn draw_rows(screen: Seq<bool>, mem: Seq<u8>, i: int, n: int, x: u8, y: u8) -> Seq<bool> {
    Seq::new(screen.len(), |p: int| screen[p] != sprite_pixel(mem, i, n, x, y, p % 64, p / 64))
}

/// Whether drawing turns off a pixel that was on.
#[verifier::opaque]
pub open spec fn collides(screen: Seq<bool>, mem: Seq<u8>, i: int, n: int, x: u8, y: u8) -> bool {
    exists|p: int| 0 <= p < screen.len() && #[trigger] screen[p] && sprite_pixel(mem, i, n, x, y, p % 64, p / 64)
}

/// `f` has the address register, the data memory, the return addresses
/// and the screen of `c`.
pub open spec fn same_frame(c: Cpu, f: Cpu) -> bool {
    f.i == c.i && f.mem == c.mem && f.stack == c.stack && f.screen == c.screen
}

/// `mem` with `V0`..`Vx` of `v` written from address `i` on.
pub open spec fn store_regs(mem: Seq<u8>, i: int, v: Seq<u8>, x: int) -> Seq<u8> {
    Seq::new(mem.len(), |a: int| if i <= a <= i + x { v[a - i] } else { mem[a] })
}

/// `v` with `V0`..`Vx` read from address `i` of `mem` on.
pub open spec fn load_regs(v: Seq<u8>, mem: Seq<u8>, i: int, x: int) -> Seq<u8> {
    Seq::new(v.len(), |r: int| if r <= x { mem[i + r] } else { v[r] })
}

pub open spec fn step(rom: Seq<u8>, c: Cpu) -> Cpu {
    execute(c, decode(word_at(rom, c.pc)))
}

/// The machine after `k` instructions.
pub open spec fn run(rom: Seq<u8>, c: Cpu, k: nat) -> Cpu
    decreases k,
{
    if k == 0 {
        c
    } else {
        run(rom, step(rom, c), (k - 1) as nat)
    }
}

/// The 8-bit value of `a o b`: arithmetic modulo 256, comparisons and
/// logic as 1 or 0.
pub open spec fn op_value(o: Op, a: u8, b: u8) -> u8 {
    match o {
        Op::Add => ((a + b) % 256) as u8,
        Op::Sub => ((a - b + 256) % 256) as u8,
        Op::Mul => ((a * b) % 256) as u8,
        Op::Div => (a / b) as u8,
        Op::Mod => (a % b) as u8,
        Op::EqEq => flag(a == b),
        Op::NotEq => flag(a != b),
        Op::Lt => flag(a < b),
        Op::Gt => flag(a > b),
        Op::LtEq => flag(a <= b),
        Op::GtEq => flag(a >= b),
        Op::And => flag(a == 1 && b == 1),
        Op::Or => flag(a == 1 || b == 1),
    }
}

/// `code` sits in `rom` from offset `pc`.
pub open spec fn placed(rom: Seq<u8>, pc: nat, code: Seq<u8>) -> bool {
    &&& pc + code.len() <= rom.len()
    &&& forall|k: int| 0 <= k < code.len() ==> #[trigger] rom[pc + k] == code[k]
}

/// The operator's code takes the work register `next`.
pub open spec fn uses_next(o: Op) -> bool {
    o == Op::Mul || o == Op::Div || o == Op::Mod
}

/// The operator's code takes the work register `next + 1` too.
pub open spec fn uses_next2(o: Op) -> bool {
    o == Op::Div
}

/// Registers `V1`..`VE` that the code of `lr o rr` into `dest` leaves alone:
/// all but the destination, the operands and the work registers it takes.
pub open spec fn kept_regs(a: Seq<u8>, b: Seq<u8>, dest: u8, lr: u8, rr: u8, next: u8, o: Op) -> bool {
    forall|r: int|
        0 < r < 15 && r != dest && r != lr && r != rr && !(uses_next(o) && r == next) && !(uses_next2(o) && r == next + 1)
            ==> #[trigger] b[r] == a[r]
}

// ---------------------------------------------------------------------------
// Words
// ---------------------------------------------------------------------------

pub(crate) proof fn lemma_op_word(w: u16)
    ensures
        op(w)[0] as int * 256 + op(w)[1] as int == w as int,
{
    assert((((w >> 8u16) as u8) as u32) * 256 + (((w & 0xFFu16) as u8) as u32) == w as u32) by (bit_vector);
}

pub(crate) proof fn lemma_or_xy(base: u16, x: u8, y: u8)
    requires
        x < 16,
        y < 16,
        (base / 16) % 256 == 0,
    ensures
        (base | r8(x) | r4(y)) as int == base + 256 * x + 16 * y,
{
    assert((base | ((x as u16) << 8u16) | ((y as u16) << 4u16)) as u32 == (base as u32) + 256 * (x as u32) + 16 * (y as u32))
        by (bit_vector)
        requires
            x < 16,
            y < 16,
            (base / 16) % 256 == 0,
    ;
}

pub(crate) proof fn lemma_or_x(base: u16, x: u8)
    requires
        x < 16,
        (base / 256) % 16 == 0,
    ensures
        (base | r8(x)) as int == base + 256 * x,
{
    assert((base | ((x as u16) << 8u16)) as u32 == (base as u32) + 256 * (x as u32)) by (bit_vector)
        requires
            x < 16,
            (base / 256) % 16 == 0,
    ;
}

pub(crate) proof fn lemma_or_addr(a: u16)
    requires
        a < 0x1000,
    ensures
        (0x1000u16 | a) as int == 0x1000 + a,
{
    assert((0x1000u16 | a) as u32 == 0x1000u32 + (a as u32)) by (bit_vector)
        requires
            a < 0x1000,
    ;
}

/// The word at offset `off` of code placed at `pc`.
pub(crate) proof fn lemma_fetch(rom: Seq<u8>, pc: nat, code: Seq<u8>, off: int, w: u16)
    requires
        placed(rom, pc, code),
        0 <= off,
        off + 2 <= code.len(),
        code[off] == op(w)[0],
        code[off + 1] == op(w)[1],
    ensures
        word_at(rom, 0x200 + pc + off) == w as int,
{
    assert(rom[pc + off] == code[off]);
    assert(rom[pc + (off + 1)] == code[off + 1]);
    lemma_op_word(w);
}


/// The fields of the word `hi x y n`.
pub(crate) proof fn lemma_fields(hi: int, x: int, y: int, n: int)
    requires
        0 <= hi < 16,
        0 <= x < 16,
        0 <= y < 16,
        0 <= n < 16,
    ensures
        ({
            let w = hi * 4096 + x * 256 + y * 16 + n;
            &&& w / 4096 == hi
            &&& (w / 256) % 16 == x
            &&& (w / 16) % 16 == y
            &&& w % 16 == n
            &&& w % 256 == y * 16 + n
            &&& w % 4096 == x * 256 + y * 16 + n
        }),
{
    let w = hi * 4096 + x * 256 + y * 16 + n;
    assert(w / 4096 == hi) by (nonlinear_arith)
        requires
            w == hi * 4096 + x * 256 + y * 16 + n,
            0 <= x < 16,
            0 <= y < 16,
            0 <= n < 16,
    ;
    assert(w / 256 == hi * 16 + x) by (nonlinear_arith)
        requires
            w == hi * 4096 + x * 256 + y * 16 + n,
            0 <= y < 16,
            0 <= n < 16,
    ;
    assert((hi * 16 + x) % 16 == x) by (nonlinear_arith)
        requires
            0 <= x < 16,
            0 <= hi,
    ;
    assert(w / 16 == hi * 256 + x * 16 + y) by (nonlinear_arith)
        requires
            w == hi * 4096 + x * 256 + y * 16 + n,
            0 <= n < 16,
    ;
    assert((hi * 256 + x * 16 + y) % 16 == y) by (nonlinear_arith)
        requires
            0 <= y < 16,
            0 <= hi,
            0 <= x,
    ;
    assert(w % 16 == n) by (nonlinear_arith)
        requires
            w == hi * 4096 + x * 256 + y * 16 + n,
            0 <= n < 16,
    ;
    assert(w % 256 == y * 16 + n) by (nonlinear_arith)
        requires
            w == hi * 4096 + x * 256 + y * 16 + n,
            0 <= n < 16,
            0 <= y < 16,
    ;
    assert(w % 4096 == x * 256 + y * 16 + n) by (nonlinear_arith)
        requires
            w == hi * 4096 + x * 256 + y * 16 + n,
            0 <= n < 16,
            0 <= y < 16,
            0 <= x < 16,
    ;
}

/// One instruction of code placed at `pc`, executed at offset `off`.
pub(crate) proof fn lemma_step_at(rom: Seq<u8>, pc: nat, code: Seq<u8>, off: int, w: u16, c: Cpu)
    requires
        placed(rom, pc, code),
        0 <= off,
        off + 2 <= code.len(),
        code[off] == op(w)[0],
        code[off + 1] == op(w)[1],
        c.pc == 0x200 + pc + off,
    ensures
        step(rom, c) == execute(c, decode(w as int)),
{
    lemma_fetch(rom, pc, code, off, w);
}

/// `base | Vx | Vy` for a `base` with the two middle digits zero.
pub(crate) proof fn lemma_dec_xy(base: u16, hi: int, n: int, x: u8, y: u8)
    requires
        x < 16,
        y < 16,
        0 <= hi < 16,
        0 <= n < 16,
        base as int == hi * 4096 + n,
    ensures
        ({
            let w = (base | r8(x) | r4(y)) as int;
            &&& w == hi * 4096 + x * 256 + y * 16 + n
            &&& w / 4096 == hi
            &&& (w / 256) % 16 == x
            &&& (w / 16) % 16 == y
            &&& w % 16 == n
        }),
{
    assert((base as int / 16) % 256 == 0) by (nonlinear_arith)
        requires
            base as int == hi * 4096 + n,
            0 <= n < 16,
            0 <= hi < 16,
    ;
    lemma_or_xy(base, x, y);
    lemma_fields(hi, x as int, y as int, n);
}

/// `base | Vx` for a `base` with the second digit zero.
pub(crate) proof fn lemma_dec_x(base: u16, hi: int, kk: int, x: u8)
    requires
        x < 16,
        0 <= hi < 16,
        0 <= kk < 256,
        base as int == hi * 4096 + kk,
    ensures
        ({
            let w = (base | r8(x)) as int;
            &&& w == hi * 4096 + x * 256 + kk
            &&& w / 4096 == hi
            &&& (w / 256) % 16 == x
            &&& (w / 16) % 16 == kk / 16
            &&& w % 16 == kk % 16
            &&& w % 256 == kk
        }),
{
    assert((base as int / 256) % 16 == 0) by (nonlinear_arith)
        requires
            base as int == hi * 4096 + kk,
            0 <= kk < 256,
            0 <= hi < 16,
    ;
    lemma_or_x(base, x);
    lemma_fields(hi, x as int, kk / 16, kk % 16);
}

/// Running `a + b` steps is running `a` steps, then `b`.
pub(crate) proof fn lemma_run_add(rom: Seq<u8>, c: Cpu, a: nat, b: nat)
    ensures
        run(rom, c, a + b) == run(rom, run(rom, c, a), b),
    decreases a,
{
    if a > 0 {
        lemma_run_add(rom, step(rom, c), (a - 1) as nat, b);
        assert((a + b - 1) as nat == (a - 1) as nat + b);
    }
}

// ---------------------------------------------------------------------------
// Operators
// ---------------------------------------------------------------------------

/// The code of `lr o rr` into `dest`, placed in `rom` at `pc0` and about to
/// run: the operands and the destination are distinct registers `V1`..`VE`,
/// and so are the work registers `next` and `next + 1`.
pub open spec fn tail_ready(rom: Seq<u8>, pc0: nat, t: Seq<u8>, c: Cpu, dest: u8, lr: u8, rr: u8, next: u8, o: Op) -> bool {
    &&& placed(rom, pc0, t)
    &&& 0x200 + pc0 + t.len() < 0x1000
    &&& c.pc == 0x200 + pc0
    &&& c.v.len() == 16
    &&& 0 < dest < 15
    &&& 0 < lr < 15
    &&& 0 < rr < 15
    &&& dest != lr
    &&& dest != rr
    &&& lr != rr
    &&& uses_next(o) ==> 0 < next < 15 && next != dest && next != lr && next != rr
    &&& uses_next2(o) ==> next + 1 < 15 && next + 1 != dest && next + 1 != lr && next + 1 != rr
}

/// What running the code of `lr o rr` into `dest` leads to: the end of the
/// code, the value in `dest`, the other registers kept.
pub open spec fn tail_done(c: Cpu, e: Cpu, len: nat, o: Op, dest: u8, lr: u8, rr: u8, next: u8) -> bool {
    &&& e.pc == c.pc + len
    &&& same_frame(c, e)
    &&& e.v.len() == 16
    &&& e.v[dest as int] == op_value(o, c.v[lr as int], c.v[rr as int])
    &&& kept_regs(c.v, e.v, dest, lr, rr, next, o)
}

pub(crate) proof fn lemma_add_sub(env: GenEnv, pc0: nat, next: u8, dest: u8, lr: u8, rr: u8, o: Op, rom: Seq<u8>, c: Cpu) -> (k: nat)
    requires
        o == Op::Add || o == Op::Sub,
        tail_ready(rom, pc0, binop_tail(env, pc0, next, dest, lr, rr, o)->Ok_0.bytes, c, dest, lr, rr, next, o),
    ensures
        tail_done(c, run(rom, c, k), binop_tail(env, pc0, next, dest, lr, rr, o)->Ok_0.bytes.len(), o, dest, lr, rr, next),
{
    reveal(decode);
    let t = binop_tail(env, pc0, next, dest, lr, rr, o)->Ok_0.bytes;
    let n: int = if o == Op::Add { 4 } else { 5 };
    let w1 = if o == Op::Add { 0x8004u16 | r8(lr) | r4(rr) } else { 0x8005u16 | r8(lr) | r4(rr) };
    let w2 = 0x8000u16 | r8(dest) | r4(lr);
    assert(t =~= op(w1) + op(w2));
    if o == Op::Add {
        lemma_dec_xy(0x8004u16, 8, 4, lr, rr);
    } else {
        lemma_dec_xy(0x8005u16, 8, 5, lr, rr);
    }
    lemma_step_at(rom, pc0, t, 0, w1, c);
    let c1 = step(rom, c);
    lemma_dec_xy(0x8000u16, 8, 0, dest, lr);
    lemma_step_at(rom, pc0, t, 2, w2, c1);
    let c2 = step(rom, c1);
    assert(run(rom, c, 2) == c2) by {
        reveal_with_fuel(run, 3);
    }
    2
}

pub(crate) proof fn lemma_equality(env: GenEnv, pc0: nat, next: u8, dest: u8, lr: u8, rr: u8, o: Op, rom: Seq<u8>, c: Cpu) -> (k: nat)
    requires
        o == Op::EqEq || o == Op::NotEq,
        tail_ready(rom, pc0, binop_tail(env, pc0, next, dest, lr, rr, o)->Ok_0.bytes, c, dest, lr, rr, next, o),
    ensures
        tail_done(c, run(rom, c, k), binop_tail(env, pc0, next, dest, lr, rr, o)->Ok_0.bytes.len(), o, dest, lr, rr, next),
{
    reveal(decode);
    let t = binop_tail(env, pc0, next, dest, lr, rr, o)->Ok_0.bytes;
    let w1 = 0x6001u16 | r8(dest);
    let w2 = if o == Op::EqEq { 0x5000u16 | r8(lr) | r4(rr) } else { 0x9000u16 | r8(lr) | r4(rr) };
    let w3 = 0x6000u16 | r8(dest);
    assert(t =~= op(w1) + op(w2) + op(w3));
    lemma_dec_x(0x6001u16, 6, 1, dest);
    lemma_step_at(rom, pc0, t, 0, w1, c);
    let c1 = step(rom, c);
    if o == Op::EqEq {
        lemma_dec_xy(0x5000u16, 5, 0, lr, rr);
    } else {
        lemma_dec_xy(0x9000u16, 9, 0, lr, rr);
    }
    lemma_step_at(rom, pc0, t, 2, w2, c1);
    let c2 = step(rom, c1);
    if c2.pc == c.pc + 6 {
        assert(run(rom, c, 2) == c2) by {
            reveal_with_fuel(run, 3);
        }
        2
    } else {
        lemma_dec_x(0x6000u16, 6, 0, dest);
        lemma_step_at(rom, pc0, t, 4, w3, c2);
        let c3 = step(rom, c2);
        assert(run(rom, c, 3) == c3) by {
            reveal_with_fuel(run, 4);
        }
        3
    }
}

pub(crate) proof fn lemma_order(env: GenEnv, pc0: nat, next: u8, dest: u8, lr: u8, rr: u8, o: Op, rom: Seq<u8>, c: Cpu) -> (k: nat)
    requires
        o == Op::Lt || o == Op::Gt || o == Op::LtEq || o == Op::GtEq,
        tail_ready(rom, pc0, binop_tail(env, pc0, next, dest, lr, rr, o)->Ok_0.bytes, c, dest, lr, rr, next, o),
    ensures
        tail_done(c, run(rom, c, k), binop_tail(env, pc0, next, dest, lr, rr, o)->Ok_0.bytes.len(), o, dest, lr, rr, next),
{
    reveal(decode);
    let t = binop_tail(env, pc0, next, dest, lr, rr, o)->Ok_0.bytes;
    let swap = o == Op::Gt || o == Op::LtEq;
    let (x, y) = if swap { (rr, lr) } else { (lr, rr) };
    let w1 = 0x6001u16 | r8(dest);
    let w2 = 0x8005u16 | r8(x) | r4(y);
    let w3 = if o == Op::Lt || o == Op::Gt { 0x3F00u16 } else { 0x3F01u16 };
    let w4 = 0x6000u16 | r8(dest);
    assert(t =~= op(w1) + op(w2) + op(w3) + op(w4));
    lemma_dec_x(0x6001u16, 6, 1, dest);
    lemma_step_at(rom, pc0, t, 0, w1, c);
    let c1 = step(rom, c);
    lemma_dec_xy(0x8005u16, 8, 5, x, y);
    lemma_step_at(rom, pc0, t, 2, w2, c1);
    let c2 = step(rom, c1);
    if o == Op::Lt || o == Op::Gt {
        lemma_fields(3, 15, 0, 0);
    } else {
        lemma_fields(3, 15, 0, 1);
    }
    lemma_step_at(rom, pc0, t, 4, w3, c2);
    let c3 = step(rom, c2);
    if c3.pc == c.pc + 8 {
        assert(run(rom, c, 3) == c3) by {
            reveal_with_fuel(run, 4);
        }
        3
    } else {
        lemma_dec_x(0x6000u16, 6, 0, dest);
        lemma_step_at(rom, pc0, t, 6, w4, c3);
        let c4 = step(rom, c3);
        assert(run(rom, c, 4) == c4) by {
            reveal_with_fuel(run, 5);
        }
        4
    }
}

pub(crate) proof fn lemma_and(env: GenEnv, pc0: nat, next: u8, dest: u8, lr: u8, rr: u8, rom: Seq<u8>, c: Cpu) -> (k: nat)
    requires
        tail_ready(rom, pc0, binop_tail(env, pc0, next, dest, lr, rr, Op::And)->Ok_0.bytes, c, dest, lr, rr, next, Op::And),
    ensures
        tail_done(c, run(rom, c, k), binop_tail(env, pc0, next, dest, lr, rr, Op::And)->Ok_0.bytes.len(), Op::And, dest, lr, rr, next),
{
    reveal(decode);
    let t = binop_tail(env, pc0, next, dest, lr, rr, Op::And)->Ok_0.bytes;
    let w1 = 0x6001u16 | r8(dest);
    let w2 = 0x3001u16 | r8(lr);
    let w3 = 0x6000u16 | r8(dest);
    let w4 = 0x3001u16 | r8(rr);
    assert(t =~= op(w1) + op(w2) + op(w3) + op(w4) + op(w3));
    lemma_dec_x(0x6001u16, 6, 1, dest);
    lemma_dec_x(0x6000u16, 6, 0, dest);
    lemma_dec_x(0x3001u16, 3, 1, lr);
    lemma_dec_x(0x3001u16, 3, 1, rr);
    lemma_step_at(rom, pc0, t, 0, w1, c);
    let c1 = step(rom, c);
    lemma_step_at(rom, pc0, t, 2, w2, c1);
    let c2 = step(rom, c1);
    let (c3, k3) = if c2.pc == c.pc + 6 {
        (c2, 2nat)
    } else {
        lemma_step_at(rom, pc0, t, 4, w3, c2);
        (step(rom, c2), 3nat)
    };
    assert(run(rom, c, k3) == c3) by {
        reveal_with_fuel(run, 4);
    }
    lemma_step_at(rom, pc0, t, 6, w4, c3);
    let c4 = step(rom, c3);
    if c4.pc == c.pc + 10 {
        assert(run(rom, c3, 1) == c4) by {
            reveal_with_fuel(run, 2);
        }
        lemma_run_add(rom, c, k3, 1);
        k3 + 1
    } else {
        lemma_step_at(rom, pc0, t, 8, w3, c4);
        let c5 = step(rom, c4);
        assert(run(rom, c3, 2) == c5) by {
            reveal_with_fuel(run, 3);
        }
        lemma_run_add(rom, c, k3, 2);
        k3 + 2
    }
}

pub(crate) proof fn lemma_or(env: GenEnv, pc0: nat, next: u8, dest: u8, lr: u8, rr: u8, rom: Seq<u8>, c: Cpu) -> (k: nat)
    requires
        tail_ready(rom, pc0, binop_tail(env, pc0, next, dest, lr, rr, Op::Or)->Ok_0.bytes, c, dest, lr, rr, next, Op::Or),
    ensures
        tail_done(c, run(rom, c, k), binop_tail(env, pc0, next, dest, lr, rr, Op::Or)->Ok_0.bytes.len(), Op::Or, dest, lr, rr, next),
{
    reveal(decode);
    let t = binop_tail(env, pc0, next, dest, lr, rr, Op::Or)->Ok_0.bytes;
    let w1 = 0x6000u16 | r8(dest);
    let w2 = 0x3001u16 | r8(lr);
    let w3 = 0x4001u16 | r8(rr);
    let w4 = 0x6001u16 | r8(dest);
    assert(t =~= op(w1) + op(w2) + op(w3) + op(w4));
    lemma_dec_x(0x6000u16, 6, 0, dest);
    lemma_dec_x(0x3001u16, 3, 1, lr);
    lemma_dec_x(0x4001u16, 4, 1, rr);
    lemma_dec_x(0x6001u16, 6, 1, dest);
    lemma_step_at(rom, pc0, t, 0, w1, c);
    let c1 = step(rom, c);
    lemma_step_at(rom, pc0, t, 2, w2, c1);
    let c2 = step(rom, c1);
    if c2.pc == c.pc + 6 {
        lemma_step_at(rom, pc0, t, 6, w4, c2);
        let c3 = step(rom, c2);
        assert(run(rom, c, 3) == c3) by {
            reveal_with_fuel(run, 4);
        }
        3
    } else {
        lemma_step_at(rom, pc0, t, 4, w3, c2);
        let c3 = step(rom, c2);
        if c3.pc == c.pc + 8 {
            assert(run(rom, c, 3) == c3) by {
                reveal_with_fuel(run, 4);
            }
            3
        } else {
            lemma_step_at(rom, pc0, t, 6, w4, c3);
            let c4 = step(rom, c3);
            assert(run(rom, c, 4) == c4) by {
                reveal_with_fuel(run, 5);
            }
            4
        }
    }
}

/// `1nnn` for an address inside the memory.
pub(crate) proof fn lemma_dec_jump(a: u16)
    requires
        a < 0x1000,
    ensures
        decode((0x1000u16 | a) as int) == Instr::Jump(a as int),
{
    reveal(decode);
    lemma_or_addr(a);
    lemma_fields(1, a as int / 256, (a as int / 16) % 16, a as int % 16);
    assert((a as int / 256) * 256 + ((a as int / 16) % 16) * 16 + a as int % 16 == a as int) by (nonlinear_arith)
        requires
            0 <= a < 0x1000,
    ;
    assert(0 <= a as int / 256 < 16) by (nonlinear_arith)
        requires
            0 <= a < 0x1000,
    ;
}

/// The address of offset `pc + k` when the code ends inside the memory.
pub(crate) proof fn lemma_addr(pc: nat, k: nat, len: nat)
    requires
        k <= len,
        0x200 + pc + len < 0x1000,
    ensures
        addr_of(pc + k) as int == 0x200 + pc + k,
        addr_of(pc + k) < 0x1000,
{
}

/// The instruction at address `a` is `i`.
pub open spec fn instr_at(rom: Seq<u8>, a: int, i: Instr) -> bool {
    decode(word_at(rom, a)) == i
}

/// The word `w` sits at offset `off` of code placed at `pc`.
pub(crate) proof fn lemma_word_in(rom: Seq<u8>, pc: nat, code: Seq<u8>, off: int, w: u16)
    requires
        placed(rom, pc, code),
        0 <= off,
        off + 2 <= code.len(),
        code.subrange(off, off + 2) == op(w),
    ensures
        word_at(rom, 0x200 + pc + off) == w as int,
{
    assert(code.subrange(off, off + 2)[0] == code[off]);
    assert(code.subrange(off, off + 2)[1] == code[off + 1]);
    lemma_fetch(rom, pc, code, off, w);
}

/// The loop of the multiplication, for code starting at address `base`.
pub open spec fn mul_loop_at(rom: Seq<u8>, base: int, dest: int, lr: int, counter: int) -> bool {
    &&& instr_at(rom, base + 4, Instr::SkipNeImm(counter, 0))
    &&& instr_at(rom, base + 6, Instr::Jump(base + 16))
    &&& instr_at(rom, base + 8, Instr::Add(dest, lr))
    &&& instr_at(rom, base + 10, Instr::LoadImm(0, 1))
    &&& instr_at(rom, base + 12, Instr::Sub(counter, 0))
    &&& instr_at(rom, base + 14, Instr::Jump(base + 4))
}

/// The multiplication loop from its test, `b - m` additions done.
#[verifier::spinoff_prover]
#[verifier::rlimit(40)]
pub(crate) proof fn lemma_mul_loop(rom: Seq<u8>, base: int, dest: int, lr: int, counter: int, s: Cpu, a: u8, b: u8) -> (k: nat)
    requires
        mul_loop_at(rom, base, dest, lr, counter),
        s.v.len() == 16,
        s.pc == base + 4,
        0 < dest < 15,
        0 < lr < 15,
        0 < counter < 15,
        dest != counter,
        dest != lr,
        lr != counter,
        s.v[lr] == a,
        s.v[counter] <= b,
        s.v[dest] as int == (a * (b - s.v[counter])) % 256,
    ensures
        ({
            let e = run(rom, s, k);
            &&& same_frame(s, e)
            &&& e.pc == base + 16
            &&& e.v.len() == 16
            &&& e.v[dest] as int == (a * b) % 256
            &&& forall|r: int| 0 < r < 15 && r != dest && r != counter ==> #[trigger] e.v[r] == s.v[r]
        }),
    decreases s.v[counter],
{
    let m = s.v[counter];
    let s1 = step(rom, s);
    let s2 = step(rom, s1);
    if m == 0 {
        assert(run(rom, s, 2) == s2) by {
            reveal_with_fuel(run, 3);
        }
        assert(a * (b - 0) == a * b);
        2
    } else {
        let s3 = step(rom, s2);
        let s4 = step(rom, s3);
        let s5 = step(rom, s4);
        assert(run(rom, s, 5) == s5) by {
            reveal_with_fuel(run, 6);
        }
        let x = a * (b - m);
        assert(((x % 256) + a) % 256 == (a * (b - (m - 1))) % 256) by (nonlinear_arith)
            requires
                x == a * (b - m),
                0 <= x,
        ;
        let k2 = lemma_mul_loop(rom, base, dest, lr, counter, s5, a, b);
        lemma_run_add(rom, s, 5, k2);
        5 + k2
    }
}

pub(crate) proof fn lemma_mul(env: GenEnv, pc0: nat, next: u8, dest: u8, lr: u8, rr: u8, rom: Seq<u8>, c: Cpu) -> (k: nat)
    requires
        binop_tail(env, pc0, next, dest, lr, rr, Op::Mul) is Ok,
        tail_ready(rom, pc0, binop_tail(env, pc0, next, dest, lr, rr, Op::Mul)->Ok_0.bytes, c, dest, lr, rr, next, Op::Mul),
    ensures
        tail_done(c, run(rom, c, k), binop_tail(env, pc0, next, dest, lr, rr, Op::Mul)->Ok_0.bytes.len(), Op::Mul, dest, lr, rr, next),
{
    reveal(decode);
    let t = binop_tail(env, pc0, next, dest, lr, rr, Op::Mul)->Ok_0.bytes;
    let base: int = (0x200 + pc0) as int;
    let w0 = 0x6000u16 | r8(dest);
    let w1 = 0x8000u16 | r8(next) | r4(rr);
    let w2 = 0x4000u16 | r8(next);
    let w3 = 0x1000u16 | addr_of(pc0 + 16);
    let w4 = 0x8004u16 | r8(dest) | r4(lr);
    let w5 = 0x6001u16;
    let w6 = 0x8005u16 | r8(next);
    let w7 = 0x1000u16 | addr_of(pc0 + 4);
    assert(t =~= op(w0) + op(w1) + op(w2) + op(w3) + op(w4) + op(w5) + op(w6) + op(w7));
    assert(t.subrange(0, 2) =~= op(w0));
    assert(t.subrange(2, 4) =~= op(w1));
    assert(t.subrange(4, 6) =~= op(w2));
    assert(t.subrange(6, 8) =~= op(w3));
    assert(t.subrange(8, 10) =~= op(w4));
    assert(t.subrange(10, 12) =~= op(w5));
    assert(t.subrange(12, 14) =~= op(w6));
    assert(t.subrange(14, 16) =~= op(w7));
    lemma_word_in(rom, pc0, t, 0, w0);
    lemma_word_in(rom, pc0, t, 2, w1);
    lemma_word_in(rom, pc0, t, 4, w2);
    lemma_word_in(rom, pc0, t, 6, w3);
    lemma_word_in(rom, pc0, t, 8, w4);
    lemma_word_in(rom, pc0, t, 10, w5);
    lemma_word_in(rom, pc0, t, 12, w6);
    lemma_word_in(rom, pc0, t, 14, w7);
    lemma_addr(pc0, 4, 16);
    lemma_addr(pc0, 16, 16);
    lemma_dec_x(0x6000u16, 6, 0, dest);
    lemma_dec_xy(0x8000u16, 8, 0, next, rr);
    lemma_dec_x(0x4000u16, 4, 0, next);
    lemma_dec_jump(addr_of(pc0 + 16));
    lemma_dec_xy(0x8004u16, 8, 4, dest, lr);
    lemma_fields(6, 0, 0, 1);
    lemma_dec_x(0x8005u16, 8, 5, next);
    lemma_dec_jump(addr_of(pc0 + 4));
    assert(mul_loop_at(rom, base, dest as int, lr as int, next as int));
    let c1 = step(rom, c);
    let c2 = step(rom, c1);
    assert(run(rom, c, 2) == c2) by {
        reveal_with_fuel(run, 3);
    }
    let a = c.v[lr as int];
    let b = c.v[rr as int];
    assert(c2.v[next as int] == b);
    assert(a * (b - b) == 0) by (nonlinear_arith);
    let k2 = lemma_mul_loop(rom, base, dest as int, lr as int, next as int, c2, a, b);
    lemma_run_add(rom, c, 2, k2);
    2 + k2
}

/// Registers of a division or remainder: distinct, in `V1`..`VE`.
pub open spec fn div_regs(dest: int, lr: int, rr: int, counter: int, tmp: int) -> bool {
    &&& 0 < dest < 15 && 0 < lr < 15 && 0 < rr < 15 && 0 < counter < 15 && 0 < tmp < 15
    &&& dest != lr && dest != rr && dest != counter && dest != tmp
    &&& lr != rr && lr != counter && lr != tmp
    &&& rr != counter && rr != tmp
    &&& counter != tmp
}

/// The loop of the division, for code starting at address `base`.
pub open spec fn div_loop_at(rom: Seq<u8>, base: int, dest: int, lr: int, rr: int, counter: int, tmp: int) -> bool {
    &&& instr_at(rom, base + 2, Instr::Copy(tmp, lr))
    &&& instr_at(rom, base + 4, Instr::Sub(tmp, rr))
    &&& instr_at(rom, base + 6, Instr::SkipEqImm(15, 1))
    &&& instr_at(rom, base + 8, Instr::Jump(base + 18))
    &&& instr_at(rom, base + 10, Instr::Sub(lr, rr))
    &&& instr_at(rom, base + 12, Instr::LoadImm(0, 1))
    &&& instr_at(rom, base + 14, Instr::Add(counter, 0))
    &&& instr_at(rom, base + 16, Instr::Jump(base + 2))
    &&& instr_at(rom, base + 18, Instr::Copy(dest, counter))
}

/// One round of the division loop, one more subtraction to make.
#[verifier::spinoff_prover]
#[verifier::rlimit(60)]
proof fn lemma_div_round(rom: Seq<u8>, base: int, dest: int, lr: int, rr: int, counter: int, tmp: int, s: Cpu)
    requires
        div_loop_at(rom, base, dest, lr, rr, counter, tmp),
        div_regs(dest, lr, rr, counter, tmp),
        s.v.len() == 16,
        s.pc == base + 2,
        s.v[lr] >= s.v[rr],
        s.v[counter] < 255,
    ensures
        ({
            let e = run(rom, s, 7);
            &&& same_frame(s, e)
            &&& e.pc == base + 2
            &&& e.v.len() == 16
            &&& e.v[lr] == s.v[lr] - s.v[rr]
            &&& e.v[counter] == s.v[counter] + 1
            &&& forall|r: int| 0 < r < 15 && r != lr && r != counter && r != tmp ==> #[trigger] e.v[r] == s.v[r]
        }),
{
    let s1 = step(rom, s);
    let s2 = step(rom, s1);
    let s3 = step(rom, s2);
    let s4 = step(rom, s3);
    let s5 = step(rom, s4);
    let s6 = step(rom, s5);
    let s7 = step(rom, s6);
    assert(run(rom, s, 7) == s7) by {
        reveal_with_fuel(run, 8);
    }
}

/// The last round of the division loop: the quotient goes to `dest`.
#[verifier::spinoff_prover]
#[verifier::rlimit(60)]
proof fn lemma_div_exit(rom: Seq<u8>, base: int, dest: int, lr: int, rr: int, counter: int, tmp: int, s: Cpu)
    requires
        div_loop_at(rom, base, dest, lr, rr, counter, tmp),
        div_regs(dest, lr, rr, counter, tmp),
        s.v.len() == 16,
        s.pc == base + 2,
        s.v[lr] < s.v[rr],
    ensures
        ({
            let e = run(rom, s, 5);
            &&& same_frame(s, e)
            &&& e.pc == base + 20
            &&& e.v.len() == 16
            &&& e.v[dest] == s.v[counter]
            &&& forall|r: int| 0 < r < 15 && r != dest && r != tmp ==> #[trigger] e.v[r] == s.v[r]
        }),
{
    let s1 = step(rom, s);
    let s2 = step(rom, s1);
    let s3 = step(rom, s2);
    let s4 = step(rom, s3);
    let s5 = step(rom, s4);
    assert(run(rom, s, 5) == s5) by {
        reveal_with_fuel(run, 6);
    }
}

/// The division loop from its head, `q` subtractions done.
#[verifier::spinoff_prover]
#[verifier::rlimit(40)]
pub(crate) proof fn lemma_div_loop(rom: Seq<u8>, base: int, dest: int, lr: int, rr: int, counter: int, tmp: int, s: Cpu, a: u8) -> (k: nat)
    requires
        div_loop_at(rom, base, dest, lr, rr, counter, tmp),
        div_regs(dest, lr, rr, counter, tmp),
        s.v.len() == 16,
        s.pc == base + 2,
        s.v[rr] > 0,
        s.v[counter] * s.v[rr] + s.v[lr] == a,
    ensures
        ({
            let e = run(rom, s, k);
            &&& same_frame(s, e)
            &&& e.pc == base + 20
            &&& e.v.len() == 16
            &&& e.v[dest] == a / s.v[rr]
            &&& forall|r: int| 0 < r < 15 && r != dest && r != lr && r != counter && r != tmp ==> #[trigger] e.v[r] == s.v[r]
        }),
    decreases s.v[lr],
{
    let b = s.v[rr];
    let q = s.v[counter];
    let x = s.v[lr];
    if x < b {
        lemma_div_exit(rom, base, dest, lr, rr, counter, tmp, s);
        vstd::arithmetic::div_mod::lemma_fundamental_div_mod_converse(a as int, b as int, q as int, x as int);
        5
    } else {
        assert(q < 255) by (nonlinear_arith)
            requires
                q * b + x == a,
                x >= b,
                b >= 1,
                a < 256,
                q >= 0,
        ;
        lemma_div_round(rom, base, dest, lr, rr, counter, tmp, s);
        let s7 = run(rom, s, 7);
        assert((q + 1) * b + (x - b) == a) by (nonlinear_arith)
            requires
                q * b + x == a,
        ;
        let k2 = lemma_div_loop(rom, base, dest, lr, rr, counter, tmp, s7, a);
        lemma_run_add(rom, s, 7, k2);
        7 + k2
    }
}

pub(crate) proof fn lemma_div(env: GenEnv, pc0: nat, next: u8, dest: u8, lr: u8, rr: u8, rom: Seq<u8>, c: Cpu) -> (k: nat)
    requires
        binop_tail(env, pc0, next, dest, lr, rr, Op::Div) is Ok,
        tail_ready(rom, pc0, binop_tail(env, pc0, next, dest, lr, rr, Op::Div)->Ok_0.bytes, c, dest, lr, rr, next, Op::Div),
        c.v[rr as int] != 0,
    ensures
        tail_done(c, run(rom, c, k), binop_tail(env, pc0, next, dest, lr, rr, Op::Div)->Ok_0.bytes.len(), Op::Div, dest, lr, rr, next),
{
    reveal(decode);
    let t = binop_tail(env, pc0, next, dest, lr, rr, Op::Div)->Ok_0.bytes;
    let base: int = (0x200 + pc0) as int;
    let tmp = (next + 1) as u8;
    let w0 = 0x6000u16 | r8(next);
    let w1 = 0x8000u16 | r8(tmp) | r4(lr);
    let w2 = 0x8005u16 | r8(tmp) | r4(rr);
    let w3 = 0x3F01u16;
    let w4 = 0x1000u16 | addr_of(pc0 + 18);
    let w5 = 0x8005u16 | r8(lr) | r4(rr);
    let w6 = 0x6001u16;
    let w7 = 0x8004u16 | r8(next);
    let w8 = 0x1000u16 | addr_of(pc0 + 2);
    let w9 = 0x8000u16 | r8(dest) | r4(next);
    assert(t =~= op(w0) + op(w1) + op(w2) + op(w3) + op(w4) + op(w5) + op(w6) + op(w7) + op(w8) + op(w9));
    assert(t.subrange(0, 2) =~= op(w0));
    assert(t.subrange(2, 4) =~= op(w1));
    assert(t.subrange(4, 6) =~= op(w2));
    assert(t.subrange(6, 8) =~= op(w3));
    assert(t.subrange(8, 10) =~= op(w4));
    assert(t.subrange(10, 12) =~= op(w5));
    assert(t.subrange(12, 14) =~= op(w6));
    assert(t.subrange(14, 16) =~= op(w7));
    assert(t.subrange(16, 18) =~= op(w8));
    assert(t.subrange(18, 20) =~= op(w9));
    lemma_word_in(rom, pc0, t, 0, w0);
    lemma_word_in(rom, pc0, t, 2, w1);
    lemma_word_in(rom, pc0, t, 4, w2);
    lemma_word_in(rom, pc0, t, 6, w3);
    lemma_word_in(rom, pc0, t, 8, w4);
    lemma_word_in(rom, pc0, t, 10, w5);
    lemma_word_in(rom, pc0, t, 12, w6);
    lemma_word_in(rom, pc0, t, 14, w7);
    lemma_word_in(rom, pc0, t, 16, w8);
    lemma_word_in(rom, pc0, t, 18, w9);
    lemma_addr(pc0, 2, 20);
    lemma_addr(pc0, 18, 20);
    lemma_dec_x(0x6000u16, 6, 0, next);
    lemma_dec_xy(0x8000u16, 8, 0, tmp, lr);
    lemma_dec_xy(0x8005u16, 8, 5, tmp, rr);
    lemma_fields(3, 15, 0, 1);
    lemma_dec_jump(addr_of(pc0 + 18));
    lemma_dec_xy(0x8005u16, 8, 5, lr, rr);
    lemma_fields(6, 0, 0, 1);
    lemma_dec_x(0x8004u16, 8, 4, next);
    lemma_dec_jump(addr_of(pc0 + 2));
    lemma_dec_xy(0x8000u16, 8, 0, dest, next);
    assert(div_loop_at(rom, base, dest as int, lr as int, rr as int, next as int, tmp as int));
    let c1 = step(rom, c);
    assert(run(rom, c, 1) == c1) by {
        reveal_with_fuel(run, 2);
    }
    let a = c.v[lr as int];
    assert(c1.v[next as int] == 0);
    assert(0 * c.v[rr as int] + a == a) by (nonlinear_arith);
    let k2 = lemma_div_loop(rom, base, dest as int, lr as int, rr as int, next as int, tmp as int, c1, a);
    lemma_run_add(rom, c, 1, k2);
    1 + k2
}

/// The remainder, for code starting at address `base`.
pub open spec fn mod_loop_at(rom: Seq<u8>, base: int, dest: int, lr: int, rr: int, tmp: int) -> bool {
    &&& instr_at(rom, base, Instr::Copy(tmp, lr))
    &&& instr_at(rom, base + 2, Instr::Sub(tmp, rr))
    &&& instr_at(rom, base + 4, Instr::SkipEqImm(15, 1))
    &&& instr_at(rom, base + 6, Instr::Jump(base + 12))
    &&& instr_at(rom, base + 8, Instr::Sub(lr, rr))
    &&& instr_at(rom, base + 10, Instr::Jump(base))
    &&& instr_at(rom, base + 12, Instr::Copy(dest, lr))
}

/// The remainder loop from its head.
#[verifier::spinoff_prover]
#[verifier::rlimit(40)]
pub(crate) proof fn lemma_mod_loop(rom: Seq<u8>, base: int, dest: int, lr: int, rr: int, tmp: int, s: Cpu, a: u8) -> (k: nat)
    requires
        mod_loop_at(rom, base, dest, lr, rr, tmp),
        0 < dest < 15 && 0 < lr < 15 && 0 < rr < 15 && 0 < tmp < 15,
        dest != lr && dest != rr && dest != tmp && lr != rr && lr != tmp && rr != tmp,
        s.v.len() == 16,
        s.pc == base,
        s.v[rr] > 0,
        s.v[lr] as int % s.v[rr] as int == a as int % s.v[rr] as int,
    ensures
        ({
            let e = run(rom, s, k);
            &&& same_frame(s, e)
            &&& e.pc == base + 14
            &&& e.v.len() == 16
            &&& e.v[dest] == a % s.v[rr]
            &&& forall|r: int| 0 < r < 15 && r != dest && r != lr && r != tmp ==> #[trigger] e.v[r] == s.v[r]
        }),
    decreases s.v[lr],
{
    let b = s.v[rr];
    let x = s.v[lr];
    let s1 = step(rom, s);
    let s2 = step(rom, s1);
    let s3 = step(rom, s2);
    let s4 = step(rom, s3);
    let s5 = step(rom, s4);
    assert(run(rom, s, 5) == s5) by {
        reveal_with_fuel(run, 6);
    }
    if x < b {
        vstd::arithmetic::div_mod::lemma_small_mod(x as nat, b as nat);
        5
    } else {
        vstd::arithmetic::div_mod::lemma_mod_multiples_vanish(1, x - b, b as int);
        assert(b * 1 + (x - b) == x);
        let k2 = lemma_mod_loop(rom, base, dest, lr, rr, tmp, s5, a);
        lemma_run_add(rom, s, 5, k2);
        5 + k2
    }
}

pub(crate) proof fn lemma_mod(env: GenEnv, pc0: nat, next: u8, dest: u8, lr: u8, rr: u8, rom: Seq<u8>, c: Cpu) -> (k: nat)
    requires
        binop_tail(env, pc0, next, dest, lr, rr, Op::Mod) is Ok,
        tail_ready(rom, pc0, binop_tail(env, pc0, next, dest, lr, rr, Op::Mod)->Ok_0.bytes, c, dest, lr, rr, next, Op::Mod),
        c.v[rr as int] != 0,
    ensures
        tail_done(c, run(rom, c, k), binop_tail(env, pc0, next, dest, lr, rr, Op::Mod)->Ok_0.bytes.len(), Op::Mod, dest, lr, rr, next),
{
    reveal(decode);
    let t = binop_tail(env, pc0, next, dest, lr, rr, Op::Mod)->Ok_0.bytes;
    let base: int = (0x200 + pc0) as int;
    let w0 = 0x8000u16 | r8(next) | r4(lr);
    let w1 = 0x8005u16 | r8(next) | r4(rr);
    let w2 = 0x3F01u16;
    let w3 = 0x1000u16 | addr_of(pc0 + 12);
    let w4 = 0x8005u16 | r8(lr) | r4(rr);
    let w5 = 0x1000u16 | addr_of(pc0);
    let w6 = 0x8000u16 | r8(dest) | r4(lr);
    assert(t =~= op(w0) + op(w1) + op(w2) + op(w3) + op(w4) + op(w5) + op(w6));
    assert(t.subrange(0, 2) =~= op(w0));
    assert(t.subrange(2, 4) =~= op(w1));
    assert(t.subrange(4, 6) =~= op(w2));
    assert(t.subrange(6, 8) =~= op(w3));
    assert(t.subrange(8, 10) =~= op(w4));
    assert(t.subrange(10, 12) =~= op(w5));
    assert(t.subrange(12, 14) =~= op(w6));
    lemma_word_in(rom, pc0, t, 0, w0);
    lemma_word_in(rom, pc0, t, 2, w1);
    lemma_word_in(rom, pc0, t, 4, w2);
    lemma_word_in(rom, pc0, t, 6, w3);
    lemma_word_in(rom, pc0, t, 8, w4);
    lemma_word_in(rom, pc0, t, 10, w5);
    lemma_word_in(rom, pc0, t, 12, w6);
    lemma_addr(pc0, 0, 14);
    lemma_addr(pc0, 12, 14);
    lemma_dec_xy(0x8000u16, 8, 0, next, lr);
    lemma_dec_xy(0x8005u16, 8, 5, next, rr);
    lemma_fields(3, 15, 0, 1);
    lemma_dec_jump(addr_of(pc0 + 12));
    lemma_dec_xy(0x8005u16, 8, 5, lr, rr);
    lemma_dec_jump(addr_of(pc0));
    lemma_dec_xy(0x8000u16, 8, 0, dest, lr);
    assert(mod_loop_at(rom, base, dest as int, lr as int, rr as int, next as int));
    lemma_mod_loop(rom, base, dest as int, lr as int, rr as int, next as int, c, c.v[lr as int])
}

pub(crate) proof fn lemma_tail_runs(env: GenEnv, pc0: nat, next: u8, dest: u8, lr: u8, rr: u8, o: Op, rom: Seq<u8>, c: Cpu) -> (k: nat)
    requires
        binop_tail(env, pc0, next, dest, lr, rr, o) is Ok,
        tail_ready(rom, pc0, binop_tail(env, pc0, next, dest, lr, rr, o)->Ok_0.bytes, c, dest, lr, rr, next, o),
        o == Op::Div || o == Op::Mod ==> c.v[rr as int] != 0,
    ensures
        tail_done(c, run(rom, c, k), binop_tail(env, pc0, next, dest, lr, rr, o)->Ok_0.bytes.len(), o, dest, lr, rr, next),
{
    match o {
        Op::Add | Op::Sub => lemma_add_sub(env, pc0, next, dest, lr, rr, o, rom, c),
        Op::EqEq | Op::NotEq => lemma_equality(env, pc0, next, dest, lr, rr, o, rom, c),
        Op::Lt | Op::Gt | Op::LtEq | Op::GtEq => lemma_order(env, pc0, next, dest, lr, rr, o, rom, c),
        Op::And => lemma_and(env, pc0, next, dest, lr, rr, rom, c),
        Op::Or => lemma_or(env, pc0, next, dest, lr, rr, rom, c),
        Op::Mul => lemma_mul(env, pc0, next, dest, lr, rr, rom, c),
        Op::Div => lemma_div(env, pc0, next, dest, lr, rr, rom, c),
        Op::Mod => lemma_mod(env, pc0, next, dest, lr, rr, rom, c),
    }
}

/// The code that follows the operands of `l o r`, run with the value `a` of
/// `l` in `lr` and the value `b` of `r` in `rr` (`b` not 0 for `/` and `%`),
/// reaches its end with the 8-bit value of `a o b` in `dest`: the sum,
/// difference and product modulo 256, the quotient and remainder, 1 or 0 for
/// a comparison, `and` and `or` of flags. It changes no register of `V1`..`VE`
/// but `dest`, the operands and the work registers it takes.
pub proof fn lemma_operator_code_computes(
    env: GenEnv,
    pc0: nat,
    next: u8,
    dest: u8,
    lr: u8,
    rr: u8,
    o: Op,
    rom: Seq<u8>,
    c: Cpu,
)
    requires
        binop_tail(env, pc0, next, dest, lr, rr, o) is Ok,
        tail_ready(rom, pc0, binop_tail(env, pc0, next, dest, lr, rr, o)->Ok_0.bytes, c, dest, lr, rr, next, o),
        o == Op::Div || o == Op::Mod ==> c.v[rr as int] != 0,
    ensures
        exists|k: nat| tail_done(c, #[trigger] run(rom, c, k), binop_tail(env, pc0, next, dest, lr, rr, o)->Ok_0.bytes.len(), o, dest, lr, rr, next),
{
    let k = lemma_tail_runs(env, pc0, next, dest, lr, rr, o, rom, c);
    assert(tail_done(c, run(rom, c, k), binop_tail(env, pc0, next, dest, lr, rr, o)->Ok_0.bytes.len(), o, dest, lr, rr, next));
}

// ---------------------------------------------------------------------------
// Expressions
// ---------------------------------------------------------------------------

/// Literals, variables, binary operators and `not`.
pub open spec fn arith_expr(e: SExpr) -> bool
    decreases e,
{
    match e {
        SExpr::Int(_) | SExpr::Bool(_) | SExpr::Var(_) => true,
        SExpr::BinOp(l, _, r) => arith_expr(*l) && arith_expr(*r),
        SExpr::Not(x) => arith_expr(*x),
        _ => false,
    }
}

/// The 8-bit value of `e`, each variable read from its register in `v`;
/// `not` flips the lowest bit, which turns the flag 1 into 0 and 0 into 1.
pub open spec fn eval(env: GenEnv, e: SExpr, v: Seq<u8>) -> u8
    decreases e,
{
    match e {
        SExpr::Int(n) => n,
        SExpr::Bool(b) => flag(b),
        SExpr::Var(name) => match lookup(env.regs, name) {
            Some(r) => v[r as int],
            None => 0,
        },
        SExpr::BinOp(l, o, r) => op_value(o, eval(env, *l, v), eval(env, *r, v)),
        SExpr::Not(x) => eval(env, *x, v) ^ 1u8,
        _ => 0,
    }
}

/// Every divisor and modulus in `e` is nonzero.
pub open spec fn divisors_nonzero(env: GenEnv, e: SExpr, v: Seq<u8>) -> bool
    decreases e,
{
    match e {
        SExpr::BinOp(l, o, r) => {
            &&& divisors_nonzero(env, *l, v)
            &&& divisors_nonzero(env, *r, v)
            &&& (o == Op::Div || o == Op::Mod ==> eval(env, *r, v) != 0)
        },
        SExpr::Not(x) => divisors_nonzero(env, *x, v),
        _ => true,
    }
}

/// The registers of the variables of `e` are in `V1`..`VE`, and none is a
/// work register from `next` on.
pub open spec fn vars_apart(env: GenEnv, e: SExpr, next: u8) -> bool
    decreases e,
{
    match e {
        SExpr::Var(name) => match lookup(env.regs, name) {
            Some(r) => 0 < r < 15 && (r < next || r > env.work_end),
            None => true,
        },
        SExpr::BinOp(l, _, r) => vars_apart(env, *l, next) && vars_apart(env, *r, next),
        SExpr::Not(x) => vars_apart(env, *x, next),
        _ => true,
    }
}

/// Registers `V1`..`VE` below `next` or above the work registers agree.
pub open spec fn same_outside(env: GenEnv, a: Seq<u8>, b: Seq<u8>, next: u8) -> bool {
    forall|r: int| 0 < r < 15 && (r < next || r > env.work_end) ==> #[trigger] a[r] == b[r]
}

pub(crate) proof fn lemma_vars_apart_mono(env: GenEnv, e: SExpr, a: u8, b: u8)
    requires
        vars_apart(env, e, a),
        a <= b,
    ensures
        vars_apart(env, e, b),
    decreases e,
{
    match e {
        SExpr::BinOp(l, _, r) => {
            lemma_vars_apart_mono(env, *l, a, b);
            lemma_vars_apart_mono(env, *r, a, b);
        },
        SExpr::Not(x) => {
            lemma_vars_apart_mono(env, *x, a, b);
        },
        _ => {},
    }
}

/// `e` reads the same in two register files that agree outside the work
/// registers.
pub(crate) proof fn lemma_eval_frame(env: GenEnv, e: SExpr, v1: Seq<u8>, v2: Seq<u8>, next: u8)
    requires
        vars_apart(env, e, next),
        same_outside(env, v1, v2, next),
    ensures
        eval(env, e, v1) == eval(env, e, v2),
        divisors_nonzero(env, e, v1) == divisors_nonzero(env, e, v2),
    decreases e,
{
    match e {
        SExpr::Var(name) => {
            if let Some(r) = lookup(env.regs, name) {
                assert(v1[r as int] == v2[r as int]);
            }
        },
        SExpr::BinOp(l, _, r) => {
            lemma_eval_frame(env, *l, v1, v2, next);
            lemma_eval_frame(env, *r, v1, v2, next);
        },
        SExpr::Not(x) => {
            lemma_eval_frame(env, *x, v1, v2, next);
        },
        _ => {},
    }
}

pub(crate) proof fn lemma_or_imm(d: u8, n: u16)
    requires
        d < 16,
        n < 256,
    ensures
        (0x6000u16 | r8(d) | n) as int == 0x6000 + 256 * d + n,
{
    assert((0x6000u16 | ((d as u16) << 8u16) | n) as u32 == 0x6000u32 + 256 * (d as u32) + (n as u32)) by (bit_vector)
        requires
            d < 16,
            n < 256,
    ;
}

pub(crate) proof fn lemma_placed_split(rom: Seq<u8>, pc: nat, a: Seq<u8>, b: Seq<u8>)
    requires
        placed(rom, pc, a + b),
    ensures
        placed(rom, pc, a),
        placed(rom, pc + a.len(), b),
{
    assert forall|k: int| 0 <= k < a.len() implies #[trigger] rom[pc + k] == a[k] by {
        assert((a + b)[k] == a[k]);
    }
    assert forall|k: int| 0 <= k < b.len() implies #[trigger] rom[pc + a.len() + k] == b[k] by {
        assert((a + b)[a.len() + k] == b[k]);
        assert(rom[pc + (a.len() + k)] == (a + b)[a.len() + k]);
    }
}

/// Where the code of `e` into `dest` is about to run.
pub open spec fn load_ready(env: GenEnv, pc: nat, next: u8, dest: u8, e: SExpr, rom: Seq<u8>, c: Cpu) -> bool {
    &&& load_code(env, pc, next, dest, e) is Ok
    &&& arith_expr(e)
    &&& vars_apart(env, e, next)
    &&& divisors_nonzero(env, e, c.v)
    &&& placed(rom, pc, load_code(env, pc, next, dest, e)->Ok_0.bytes)
    &&& 0x200 + pc + load_code(env, pc, next, dest, e)->Ok_0.bytes.len() < 0x1000
    &&& c.pc == 0x200 + pc
    &&& c.v.len() == 16
    &&& env.work_end < 15
    &&& 0 < next
    &&& 0 < dest < 15
    &&& (dest < next || dest > env.work_end)
}

/// Where the code of `e` into `dest` ends: its value in `dest`, the other
/// registers of `V1`..`VE` outside the work registers unchanged.
pub open spec fn load_done(env: GenEnv, next: u8, dest: u8, e: SExpr, c: Cpu, f: Cpu, len: nat) -> bool {
    &&& f.pc == c.pc + len
    &&& same_frame(c, f)
    &&& f.v.len() == 16
    &&& f.v[dest as int] == eval(env, e, c.v)
    &&& forall|r: int| 0 < r < 15 && r != dest && (r < next || r > env.work_end) ==> #[trigger] f.v[r] == c.v[r]
}

#[verifier::rlimit(60)]
pub(crate) proof fn lemma_load_runs(env: GenEnv, pc: nat, next: u8, dest: u8, e: SExpr, rom: Seq<u8>, c: Cpu) -> (k: nat)
    requires
        load_ready(env, pc, next, dest, e, rom, c),
    ensures
        load_done(env, next, dest, e, c, run(rom, c, k), load_code(env, pc, next, dest, e)->Ok_0.bytes.len()),
    decreases e,
{
    reveal(decode);
    let code = load_code(env, pc, next, dest, e)->Ok_0.bytes;
    match e {
        SExpr::Int(n) => {
            let w = 0x6000u16 | r8(dest) | (n as u16);
            assert(code =~= op(w));
            assert(code.subrange(0, 2) =~= op(w));
            lemma_word_in(rom, pc, code, 0, w);
            lemma_or_imm(dest, n as u16);
            lemma_fields(6, dest as int, n as int / 16, n as int % 16);
            let c1 = step(rom, c);
            assert(run(rom, c, 1) == c1) by {
                reveal_with_fuel(run, 2);
            }
            1
        },
        SExpr::Bool(b) => {
            let n: u16 = if b { 1 } else { 0 };
            let w = 0x6000u16 | r8(dest) | n;
            assert(code =~= op(w));
            assert(code.subrange(0, 2) =~= op(w));
            lemma_word_in(rom, pc, code, 0, w);
            lemma_or_imm(dest, n);
            lemma_fields(6, dest as int, 0, n as int);
            let c1 = step(rom, c);
            assert(run(rom, c, 1) == c1) by {
                reveal_with_fuel(run, 2);
            }
            1
        },
        SExpr::Var(name) => {
            let src = lookup(env.regs, name)->Some_0;
            if src != dest {
                let w = 0x8000u16 | r8(dest) | r4(src);
                assert(code =~= op(w));
                assert(code.subrange(0, 2) =~= op(w));
                lemma_word_in(rom, pc, code, 0, w);
                lemma_dec_xy(0x8000u16, 8, 0, dest, src);
                let c1 = step(rom, c);
                assert(run(rom, c, 1) == c1) by {
                    reveal_with_fuel(run, 2);
                }
                1
            } else {
                assert(run(rom, c, 0) == c);
                0
            }
        },
        SExpr::BinOp(l, o, r) => {
            assert(load_code(env, pc, next, dest, e) == binop_code(env, pc, next, dest, e));
            assert(next <= env.work_end && next + 1 <= env.work_end);
            let lr = next;
            let rr = (next + 1) as u8;
            let n2 = (next + 2) as u8;
            let el = load_code(env, pc, n2, lr, *l)->Ok_0;
            let er = load_code(env, pc + el.bytes.len(), n2, rr, *r)->Ok_0;
            let pc0 = pc + el.bytes.len() + er.bytes.len();
            let et = binop_tail(env, pc0, n2, dest, lr, rr, o)->Ok_0;
            assert(code =~= el.bytes + er.bytes + et.bytes);
            lemma_placed_split(rom, pc, el.bytes + er.bytes, et.bytes);
            lemma_placed_split(rom, pc, el.bytes, er.bytes);
            lemma_vars_apart_mono(env, *l, next, n2);
            lemma_vars_apart_mono(env, *r, next, n2);
            let k1 = lemma_load_runs(env, pc, n2, lr, *l, rom, c);
            let c1 = run(rom, c, k1);
            assert(same_outside(env, c.v, c1.v, next));
            lemma_eval_frame(env, *r, c.v, c1.v, next);
            let k2 = lemma_load_runs(env, pc + el.bytes.len(), n2, rr, *r, rom, c1);
            let c2 = run(rom, c1, k2);
            assert(c2.v[lr as int] == c1.v[lr as int]);
            let k3 = lemma_tail_runs(env, pc0, n2, dest, lr, rr, o, rom, c2);
            let c3 = run(rom, c2, k3);
            lemma_run_add(rom, c, k1, k2);
            lemma_run_add(rom, c, k1 + k2, k3);
            k1 + k2 + k3
        },
        SExpr::Not(x) => {
            let ex = load_code(env, pc, next, dest, *x)->Ok_0;
            let w1 = 0x6001u16;
            let w2 = 0x8003u16 | r8(dest);
            let t = op(w1) + op(w2);
            assert(code =~= ex.bytes + t);
            lemma_placed_split(rom, pc, ex.bytes, t);
            let k1 = lemma_load_runs(env, pc, next, dest, *x, rom, c);
            let c1 = run(rom, c, k1);
            assert(t.subrange(0, 2) =~= op(w1));
            assert(t.subrange(2, 4) =~= op(w2));
            lemma_word_in(rom, pc + ex.bytes.len(), t, 0, w1);
            lemma_word_in(rom, pc + ex.bytes.len(), t, 2, w2);
            lemma_fields(6, 0, 0, 1);
            lemma_dec_x(0x8003u16, 8, 3, dest);
            let c2 = step(rom, c1);
            let c3 = step(rom, c2);
            assert(run(rom, c1, 2) == c3) by {
                reveal_with_fuel(run, 3);
            }
            lemma_run_add(rom, c, k1, 2);
            k1 + 2
        },
        _ => 0,
    }
}

/// Running the code that loads an expression made of literals, variables,
/// binary operators and `not` into `dest` (its divisors nonzero, its variables'
/// registers apart from the work registers) reaches the end of that code
/// with the expression's 8-bit value in `dest`, each variable read from its
/// register; the registers of `V1`..`VE` outside the work registers, but for
/// `dest`, keep their values.
pub proof fn lemma_expression_code_computes(env: GenEnv, pc: nat, next: u8, dest: u8, e: SExpr, rom: Seq<u8>, c: Cpu)
    requires
        load_ready(env, pc, next, dest, e, rom, c),
    ensures
        exists|k: nat| load_done(env, next, dest, e, c, #[trigger] run(rom, c, k), load_code(env, pc, next, dest, e)->Ok_0.bytes.len()),
{
    let k = lemma_load_runs(env, pc, next, dest, e, rom, c);
    assert(load_done(env, next, dest, e, c, run(rom, c, k), load_code(env, pc, next, dest, e)->Ok_0.bytes.len()));
}

pub(crate) proof fn lemma_or_nnn(base: u16, a: u16)
    requires
        a < 0x1000,
        base % 0x1000 == 0,
    ensures
        (base | a) as int == base + a,
{
    assert((base | a) as u32 == (base as u32) + (a as u32)) by (bit_vector)
        requires
            a < 0x1000,
            base % 0x1000 == 0,
    ;
}

pub(crate) proof fn lemma_or_y(base: u16, y: u8)
    requires
        y < 16,
        (base / 16) % 16 == 0,
    ensures
        (base | r4(y)) as int == base + 16 * y,
{
    assert((base | ((y as u16) << 4u16)) as u32 == (base as u32) + 16 * (y as u32)) by (bit_vector)
        requires
            y < 16,
            (base / 16) % 16 == 0,
    ;
}

/// `2nnn` and `Annn` for an address inside the memory.
pub(crate) proof fn lemma_dec_nnn(base: u16, hi: int, a: u16)
    requires
        a < 0x1000,
        base as int == hi * 4096,
        hi == 2 || hi == 10,
    ensures
        decode((base | a) as int) == if hi == 2 { Instr::Call(a as int) } else { Instr::SetI(a as int) },
{
    reveal(decode);
    lemma_or_nnn(base, a);
    lemma_fields(hi, a as int / 256, (a as int / 16) % 16, a as int % 16);
    assert((a as int / 256) * 256 + ((a as int / 16) % 16) * 16 + a as int % 16 == a as int) by (nonlinear_arith)
        requires
            0 <= a < 0x1000,
    ;
    assert(0 <= a as int / 256 < 16) by (nonlinear_arith)
        requires
            0 <= a < 0x1000,
    ;
}

proof fn lemma_dec_draw(x: u8, y: u8, h: u8)
    requires
        x < 16,
        y < 16,
        h < 16,
    ensures
        ({
            let w = (0xD000u16 | r8(x) | r4(y) | (h as u16)) as int;
            &&& w == 13 * 4096 + x * 256 + y * 16 + h
        }),
{
    assert((0xD000u16 | ((x as u16) << 8u16) | ((y as u16) << 4u16) | (h as u16)) as u32 == 0xD000u32 + 256 * (x as u32)
        + 16 * (y as u32) + (h as u32)) by (bit_vector)
        requires
            x < 16,
            y < 16,
            h < 16,
    ;
}

/// Law: the code of `draw(x, y, s)` into `dest`, its coordinates made of
/// literals, variables, binary operators and `not`, points `I` at the
/// sprite's address, draws its rows there at the values of `x` and `y`,
/// each lit pixel flipped and the picture wrapping at the edges, and leaves
/// in `dest` and `VF` 1 exactly when a pixel that was on went off.  The data
/// memory, the return addresses and the registers of `V1`..`VE` outside the
/// work registers, but for `dest`, are left alone.
#[verifier::spinoff_prover]
#[verifier::rlimit(60)]
pub proof fn lemma_draw_code_draws(
    env: GenEnv,
    pc: nat,
    next: u8,
    dest: u8,
    x: SExpr,
    y: SExpr,
    s: Seq<char>,
    rom: Seq<u8>,
    c: Cpu,
) -> (k: nat)
    requires
        load_code(env, pc, next, dest, SExpr::Draw(Box::new(x), Box::new(y), s)) is Ok,
        lookup(env.sprites, s) matches Some((a, h)) && a < 0x1000 && h < 16,
        arith_expr(x),
        arith_expr(y),
        vars_apart(env, x, next),
        vars_apart(env, y, next),
        divisors_nonzero(env, x, c.v),
        divisors_nonzero(env, y, c.v),
        placed(rom, pc, load_code(env, pc, next, dest, SExpr::Draw(Box::new(x), Box::new(y), s))->Ok_0.bytes),
        0x200 + pc + load_code(env, pc, next, dest, SExpr::Draw(Box::new(x), Box::new(y), s))->Ok_0.bytes.len() < 0x1000,
        c.pc == 0x200 + pc,
        c.v.len() == 16,
        env.work_end < 15,
        0 < next,
        0 < dest < 15,
        dest < next || dest > env.work_end,
    ensures
        ({
            let f = run(rom, c, k);
            let a = lookup(env.sprites, s)->Some_0.0 as int;
            let h = lookup(env.sprites, s)->Some_0.1 as int;
            let px = eval(env, x, c.v);
            let py = eval(env, y, c.v);
            let hit = collides(c.screen, c.mem, a, h, px, py);
            &&& f.pc == c.pc + load_code(env, pc, next, dest, SExpr::Draw(Box::new(x), Box::new(y), s))->Ok_0.bytes.len()
            &&& f.i == a
            &&& f.screen == draw_rows(c.screen, c.mem, a, h, px, py)
            &&& f.v.len() == 16
            &&& f.v[dest as int] == flag(hit)
            &&& f.v[15] == flag(hit)
            &&& f.mem == c.mem
            &&& f.stack == c.stack
            &&& forall|r: int| 0 < r < 15 && r != dest && (r < next || r > env.work_end) ==> #[trigger] f.v[r] == c.v[r]
        }),
{
    reveal(decode);
    let e = SExpr::Draw(Box::new(x), Box::new(y), s);
    let code = load_code(env, pc, next, dest, e)->Ok_0.bytes;
    assert(next <= env.work_end && next + 1 <= env.work_end);
    let (a, h) = lookup(env.sprites, s)->Some_0;
    let xr = next;
    let yr = (next + 1) as u8;
    let n2 = (next + 2) as u8;
    let ex = load_code(env, pc, n2, xr, x)->Ok_0;
    let ey = load_code(env, pc + ex.bytes.len(), n2, yr, y)->Ok_0;
    let w1 = 0xA000u16 | a;
    let w2 = 0xD000u16 | r8(xr) | r4(yr) | (h as u16);
    let w3 = 0x80F0u16 | r8(dest);
    let t = op(w1) + op(w2) + op(w3);
    assert(code =~= ex.bytes + ey.bytes + t);
    lemma_placed_split(rom, pc, ex.bytes + ey.bytes, t);
    lemma_placed_split(rom, pc, ex.bytes, ey.bytes);
    lemma_vars_apart_mono(env, x, next, n2);
    lemma_vars_apart_mono(env, y, next, n2);
    let k1 = lemma_load_runs(env, pc, n2, xr, x, rom, c);
    let c1 = run(rom, c, k1);
    assert(same_outside(env, c.v, c1.v, next));
    lemma_eval_frame(env, y, c.v, c1.v, next);
    let k2 = lemma_load_runs(env, pc + ex.bytes.len(), n2, yr, y, rom, c1);
    let c2 = run(rom, c1, k2);
    assert(c2.v[xr as int] == c1.v[xr as int]);
    let pt = pc + ex.bytes.len() + ey.bytes.len();
    assert(t.subrange(0, 2) =~= op(w1));
    assert(t.subrange(2, 4) =~= op(w2));
    assert(t.subrange(4, 6) =~= op(w3));
    lemma_word_in(rom, pt, t, 0, w1);
    lemma_word_in(rom, pt, t, 2, w2);
    lemma_word_in(rom, pt, t, 4, w3);
    lemma_dec_nnn(0xA000u16, 10, a);
    lemma_dec_draw(xr, yr, h);
    lemma_fields(13, xr as int, yr as int, h as int);
    lemma_dec_x(0x80F0u16, 8, 0xF0, dest);
    let c3 = step(rom, c2);
    let c4 = step(rom, c3);
    let c5 = step(rom, c4);
    assert(run(rom, c2, 3) == c5) by {
        reveal_with_fuel(run, 4);
    }
    lemma_run_add(rom, c, k1, k2);
    lemma_run_add(rom, c, k1 + k2, 3);
    k1 + k2 + 3
}

/// No instruction changes which keys are held down.
pub(crate) proof fn lemma_run_keeps_keys(rom: Seq<u8>, c: Cpu, k: nat)
    ensures
        run(rom, c, k).keys == c.keys,
    decreases k,
{
    if k > 0 {
        assert(step(rom, c).keys == c.keys);
        lemma_run_keeps_keys(rom, step(rom, c), (k - 1) as nat);
    }
}

/// Law: the code of `keypressed(k)` into `dest`, `k` made of literals,
/// variables, binary operators and `not`, leaves 1 in `dest` exactly when
/// the key numbered by the value of `k` is held down, and 0 otherwise.
/// `I`, the data memory, the return addresses, the screen and the
/// registers of `V1`..`VE` outside the work registers, but for `dest`, are
/// left alone.
#[verifier::spinoff_prover]
#[verifier::rlimit(60)]
pub proof fn lemma_keypressed_code_reads_key(
    env: GenEnv,
    pc: nat,
    next: u8,
    dest: u8,
    k: SExpr,
    rom: Seq<u8>,
    c: Cpu,
) -> (steps: nat)
    requires
        load_code(env, pc, next, dest, SExpr::KeyPressed(Box::new(k))) is Ok,
        arith_expr(k),
        vars_apart(env, k, next),
        divisors_nonzero(env, k, c.v),
        placed(rom, pc, load_code(env, pc, next, dest, SExpr::KeyPressed(Box::new(k)))->Ok_0.bytes),
        0x200 + pc + load_code(env, pc, next, dest, SExpr::KeyPressed(Box::new(k)))->Ok_0.bytes.len() < 0x1000,
        c.pc == 0x200 + pc,
        c.v.len() == 16,
        env.work_end < 15,
        0 < next,
        0 < dest < 15,
        dest < next || dest > env.work_end,
    ensures
        ({
            let f = run(rom, c, steps);
            &&& f.pc == c.pc + load_code(env, pc, next, dest, SExpr::KeyPressed(Box::new(k)))->Ok_0.bytes.len()
            &&& same_frame(c, f)
            &&& f.v.len() == 16
            &&& f.v[dest as int] == flag(key_down(c.keys, eval(env, k, c.v)))
            &&& forall|r: int| 0 < r < 15 && r != dest && (r < next || r > env.work_end) ==> #[trigger] f.v[r] == c.v[r]
        }),
{
    reveal(decode);
    let e = SExpr::KeyPressed(Box::new(k));
    let code = load_code(env, pc, next, dest, e)->Ok_0.bytes;
    assert(next <= env.work_end);
    let kr = next;
    let n1 = (next + 1) as u8;
    let ek = load_code(env, pc, n1, kr, k)->Ok_0;
    let w1 = 0x6001u16 | r8(dest);
    let w2 = 0xE09Eu16 | r8(kr);
    let w3 = 0x6000u16 | r8(dest);
    let t = op(w1) + op(w2) + op(w3);
    assert(code =~= ek.bytes + t);
    lemma_placed_split(rom, pc, ek.bytes, t);
    lemma_vars_apart_mono(env, k, next, n1);
    let k1 = lemma_load_runs(env, pc, n1, kr, k, rom, c);
    let c1 = run(rom, c, k1);
    lemma_run_keeps_keys(rom, c, k1);
    let pt = pc + ek.bytes.len();
    assert(t.subrange(0, 2) =~= op(w1));
    assert(t.subrange(2, 4) =~= op(w2));
    assert(t.subrange(4, 6) =~= op(w3));
    lemma_word_in(rom, pt, t, 0, w1);
    lemma_word_in(rom, pt, t, 2, w2);
    lemma_word_in(rom, pt, t, 4, w3);
    lemma_dec_x(0x6001u16, 6, 1, dest);
    lemma_dec_x(0xE09Eu16, 14, 0x9E, kr);
    lemma_dec_x(0x6000u16, 6, 0, dest);
    let c2 = step(rom, c1);
    let c3 = step(rom, c2);
    if key_down(c.keys, eval(env, k, c.v)) {
        assert(run(rom, c1, 2) == c3) by {
            reveal_with_fuel(run, 3);
        }
        lemma_run_add(rom, c, k1, 2);
        k1 + 2
    } else {
        let c4 = step(rom, c3);
        assert(run(rom, c1, 3) == c4) by {
            reveal_with_fuel(run, 4);
        }
        lemma_run_add(rom, c, k1, 3);
        k1 + 3
    }
}

/// Law: the code of `getdelay()` into `dest` leaves the delay timer's value
/// in `dest`; the other registers of `V1`..`VE`, `I`, the data memory, the
/// return addresses and the screen are left alone.
pub proof fn lemma_getdelay_code_reads_timer(env: GenEnv, pc: nat, next: u8, dest: u8, rom: Seq<u8>, c: Cpu)
    requires
        load_code(env, pc, next, dest, SExpr::GetDelay) is Ok,
        placed(rom, pc, load_code(env, pc, next, dest, SExpr::GetDelay)->Ok_0.bytes),
        c.pc == 0x200 + pc,
        c.v.len() == 16,
        0 < dest < 15,
    ensures
        ({
            let f = run(rom, c, 1);
            &&& f.pc == c.pc + load_code(env, pc, next, dest, SExpr::GetDelay)->Ok_0.bytes.len()
            &&& same_frame(c, f)
            &&& f.v.len() == 16
            &&& f.v[dest as int] == c.delay
            &&& forall|r: int| 0 <= r < 16 && r != dest ==> #[trigger] f.v[r] == c.v[r]
        }),
{
    reveal(decode);
    let w = 0xF007u16 | r8(dest);
    let code = load_code(env, pc, next, dest, SExpr::GetDelay)->Ok_0.bytes;
    assert(code =~= op(w));
    assert(code.subrange(0, 2) =~= op(w));
    lemma_word_in(rom, pc, code, 0, w);
    lemma_dec_x(0xF007u16, 15, 0x07, dest);
    assert(run(rom, c, 1) == step(rom, c)) by {
        reveal_with_fuel(run, 2);
    }
}

/// Law: the code of `rand(n)` into `dest` leaves the random byte masked
/// with `n` in `dest`; the other registers, `I`, the data memory, the
/// return addresses and the screen are left alone.
pub proof fn lemma_rand_code_masks(env: GenEnv, pc: nat, next: u8, dest: u8, n: u8, rom: Seq<u8>, c: Cpu)
    requires
        load_code(env, pc, next, dest, SExpr::Rand(Box::new(SExpr::Int(n)))) is Ok,
        placed(rom, pc, load_code(env, pc, next, dest, SExpr::Rand(Box::new(SExpr::Int(n))))->Ok_0.bytes),
        c.pc == 0x200 + pc,
        c.v.len() == 16,
        0 < dest < 15,
    ensures
        ({
            let f = run(rom, c, 1);
            &&& f.pc == c.pc + load_code(env, pc, next, dest, SExpr::Rand(Box::new(SExpr::Int(n))))->Ok_0.bytes.len()
            &&& same_frame(c, f)
            &&& f.v.len() == 16
            &&& f.v[dest as int] == c.noise & n
            &&& forall|r: int| 0 <= r < 16 && r != dest ==> #[trigger] f.v[r] == c.v[r]
        }),
{
    reveal(decode);
    let w = 0xC000u16 | r8(dest) | (n as u16);
    let code = load_code(env, pc, next, dest, SExpr::Rand(Box::new(SExpr::Int(n))))->Ok_0.bytes;
    assert(code =~= op(w));
    assert(code.subrange(0, 2) =~= op(w));
    lemma_word_in(rom, pc, code, 0, w);
    assert((0xC000u16 | ((dest as u16) << 8u16) | (n as u16)) as u32 == 0xC000u32 + 256 * (dest as u32) + (n as u32)) by (bit_vector)
        requires
            dest < 16,
    ;
    lemma_fields(12, dest as int, n as int / 16, n as int % 16);
    assert(run(rom, c, 1) == step(rom, c)) by {
        reveal_with_fuel(run, 2);
    }
}

/// Law: the code of `getkey()` into `dest` waits while no key is held
/// down; once one is, it leaves the lowest such key in `dest` and goes on,
/// the other registers left alone.
pub proof fn lemma_getkey_code_waits(env: GenEnv, pc: nat, next: u8, dest: u8, rom: Seq<u8>, c: Cpu)
    requires
        load_code(env, pc, next, dest, SExpr::GetKey) is Ok,
        placed(rom, pc, load_code(env, pc, next, dest, SExpr::GetKey)->Ok_0.bytes),
        c.pc == 0x200 + pc,
        c.v.len() == 16,
        0 < dest < 15,
    ensures
        first_key(c.keys, 0) >= 16 ==> run(rom, c, 1) == c,
        first_key(c.keys, 0) < 16 ==> ({
            let f = run(rom, c, 1);
            &&& f.pc == c.pc + load_code(env, pc, next, dest, SExpr::GetKey)->Ok_0.bytes.len()
            &&& same_frame(c, f)
            &&& f.v.len() == 16
            &&& f.v[dest as int] == first_key(c.keys, 0)
            &&& key_down(c.keys, f.v[dest as int])
            &&& forall|r: int| 0 <= r < 16 && r != dest ==> #[trigger] f.v[r] == c.v[r]
        }),
{
    reveal(decode);
    let w = 0xF00Au16 | r8(dest);
    let code = load_code(env, pc, next, dest, SExpr::GetKey)->Ok_0.bytes;
    assert(code =~= op(w));
    assert(code.subrange(0, 2) =~= op(w));
    lemma_word_in(rom, pc, code, 0, w);
    lemma_dec_x(0xF00Au16, 15, 0x0A, dest);
    assert(run(rom, c, 1) == step(rom, c)) by {
        reveal_with_fuel(run, 2);
    }
    lemma_first_key(c.keys, 0);
}

proof fn lemma_first_key(keys: Seq<bool>, k: nat)
    ensures
        k <= first_key(keys, k) <= 16 || (k > 16 && first_key(keys, k) == 16),
        first_key(keys, k) < 16 ==> key_down(keys, first_key(keys, k) as u8),
        forall|j: nat| k <= j < first_key(keys, k) ==> !#[trigger] key_down(keys, j as u8),
    decreases 16 - k,
{
    if k < 16 && !key_down(keys, k as u8) {
        lemma_first_key(keys, k + 1);
    }
}

/// Law: the code of `clear()` turns every pixel of the screen off, and
/// leaves the registers, `I`, the data memory and the return addresses
/// alone.
pub proof fn lemma_clear_code_blanks(env: GenEnv, pc: nat, next: u8, label: u32, rom: Seq<u8>, c: Cpu)
    requires
        placed(rom, pc, stmt_code(env, pc, next, label, SStmt::Clear)->Ok_0.0.bytes),
        c.pc == 0x200 + pc,
    ensures
        ({
            let f = run(rom, c, 1);
            &&& f.pc == c.pc + stmt_code(env, pc, next, label, SStmt::Clear)->Ok_0.0.bytes.len()
            &&& f.screen.len() == c.screen.len()
            &&& forall|p: int| 0 <= p < f.screen.len() ==> !#[trigger] f.screen[p]
            &&& f.v == c.v && f.i == c.i && f.mem == c.mem && f.stack == c.stack
        }),
{
    reveal(decode);
    let code = stmt_code(env, pc, next, label, SStmt::Clear)->Ok_0.0.bytes;
    assert(code =~= op(0x00E0u16));
    assert(code.subrange(0, 2) =~= op(0x00E0u16));
    lemma_word_in(rom, pc, code, 0, 0x00E0u16);
    assert(run(rom, c, 1) == step(rom, c)) by {
        reveal_with_fuel(run, 2);
    }
}

/// Law: the code of `delay(n)` for a literal `n` sets the delay timer to
/// `n`, and that of `beep(n)` sets the sound timer to `n`; the other timer,
/// the screen, `I`, the data memory and the return addresses are left
/// alone.
pub proof fn lemma_timer_code_sets(env: GenEnv, pc: nat, next: u8, label: u32, n: u8, sound: bool, rom: Seq<u8>, c: Cpu)
    requires
        ({
            let st = if sound { SStmt::Beep(SExpr::Int(n)) } else { SStmt::Delay(SExpr::Int(n)) };
            &&& stmt_code(env, pc, next, label, st) is Ok
            &&& placed(rom, pc, stmt_code(env, pc, next, label, st)->Ok_0.0.bytes)
        }),
        c.pc == 0x200 + pc,
        c.v.len() == 16,
    ensures
        ({
            let st = if sound { SStmt::Beep(SExpr::Int(n)) } else { SStmt::Delay(SExpr::Int(n)) };
            let f = run(rom, c, 2);
            &&& f.pc == c.pc + stmt_code(env, pc, next, label, st)->Ok_0.0.bytes.len()
            &&& same_frame(c, f)
            &&& (if sound { f.sound == n && f.delay == c.delay } else { f.delay == n && f.sound == c.sound })
            &&& forall|r: int| 0 < r < 16 ==> #[trigger] f.v[r] == c.v[r]
        }),
{
    reveal(decode);
    let st = if sound { SStmt::Beep(SExpr::Int(n)) } else { SStmt::Delay(SExpr::Int(n)) };
    let code = stmt_code(env, pc, next, label, st)->Ok_0.0.bytes;
    let w1 = 0x6000u16 | r8(0) | (n as u16);
    let w2: u16 = if sound { 0xF018u16 } else { 0xF015u16 };
    assert(code =~= op(w1) + op(w2));
    assert(code.subrange(0, 2) =~= op(w1));
    assert(code.subrange(2, 4) =~= op(w2));
    lemma_word_in(rom, pc, code, 0, w1);
    lemma_word_in(rom, pc, code, 2, w2);
    lemma_or_imm(0, n as u16);
    lemma_fields(6, 0, n as int / 16, n as int % 16);
    lemma_fields(15, 0, w2 as int % 256 / 16, w2 as int % 16);
    let c1 = step(rom, c);
    let c2 = step(rom, c1);
    assert(run(rom, c, 2) == c2) by {
        reveal_with_fuel(run, 3);
    }
}

proof fn lemma_low_nibble(d: u8)
    ensures
        (d & 15u8) as int % 16 == d as int % 16,
{
    assert((d & 15u8) % 16u8 == d % 16u8) by (bit_vector);
}

/// Law: the code of `drawdigit(x, y, n)` into `dest`, its operands made of
/// literals, variables, binary operators and `not`, points `I` at the font
/// glyph of the value of `n` modulo 16, draws its five rows at the values
/// of `x` and `y`, each lit pixel flipped and the picture wrapping at the
/// edges, and leaves in `dest` and `VF` 1 exactly when a pixel that was on
/// went off.  The data memory, the return addresses and the registers of
/// `V1`..`VE` outside the work registers, but for `dest`, are left alone.
#[verifier::spinoff_prover]
#[verifier::rlimit(60)]
pub proof fn lemma_drawdigit_code_draws(
    env: GenEnv,
    pc: nat,
    next: u8,
    dest: u8,
    x: SExpr,
    y: SExpr,
    n: SExpr,
    rom: Seq<u8>,
    c: Cpu,
) -> (k: nat)
    requires
        load_code(env, pc, next, dest, SExpr::DrawDigit(Box::new(x), Box::new(y), Box::new(n))) is Ok,
        arith_expr(x),
        arith_expr(y),
        arith_expr(n),
        vars_apart(env, x, next),
        vars_apart(env, y, next),
        vars_apart(env, n, next),
        divisors_nonzero(env, x, c.v),
        divisors_nonzero(env, y, c.v),
        divisors_nonzero(env, n, c.v),
        placed(rom, pc, load_code(env, pc, next, dest, SExpr::DrawDigit(Box::new(x), Box::new(y), Box::new(n)))->Ok_0.bytes),
        0x200 + pc + load_code(env, pc, next, dest, SExpr::DrawDigit(Box::new(x), Box::new(y), Box::new(n)))->Ok_0.bytes.len() < 0x1000,
        c.pc == 0x200 + pc,
        c.v.len() == 16,
        env.work_end < 15,
        0 < next,
        0 < dest < 15,
        dest < next || dest > env.work_end,
    ensures
        ({
            let f = run(rom, c, k);
            let a = eval(env, x, c.v);
            let b = eval(env, y, c.v);
            let d = eval(env, n, c.v);
            let hit = collides(c.screen, c.mem, glyph_addr(d), 5, a, b);
            &&& f.pc == c.pc + load_code(env, pc, next, dest, SExpr::DrawDigit(Box::new(x), Box::new(y), Box::new(n)))->Ok_0.bytes.len()
            &&& f.i == glyph_addr(d)
            &&& f.screen == draw_rows(c.screen, c.mem, glyph_addr(d), 5, a, b)
            &&& f.v.len() == 16
            &&& f.v[dest as int] == flag(hit)
            &&& f.v[15] == flag(hit)
            &&& f.mem == c.mem
            &&& f.stack == c.stack
            &&& forall|r: int| 0 < r < 15 && r != dest && (r < next || r > env.work_end) ==> #[trigger] f.v[r] == c.v[r]
        }),
{
    reveal(decode);
    let e = SExpr::DrawDigit(Box::new(x), Box::new(y), Box::new(n));
    let code = load_code(env, pc, next, dest, e)->Ok_0.bytes;
    assert(next <= env.work_end && next + 2 <= env.work_end);
    let xr = next;
    let yr = (next + 1) as u8;
    let nr = (next + 2) as u8;
    let n3 = (next + 3) as u8;
    let ex = load_code(env, pc, n3, xr, x)->Ok_0;
    let ey = load_code(env, pc + ex.bytes.len(), n3, yr, y)->Ok_0;
    let en = load_code(env, pc + ex.bytes.len() + ey.bytes.len(), n3, nr, n)->Ok_0;
    let w1 = 0x600Fu16;
    let w2 = 0x8002u16 | r8(nr);
    let w3 = 0xF029u16 | r8(nr);
    let w4 = 0xD005u16 | r8(xr) | r4(yr);
    let w5 = 0x80F0u16 | r8(dest);
    let t = op(w1) + op(w2) + op(w3) + op(w4) + op(w5);
    assert(code =~= ex.bytes + ey.bytes + en.bytes + t);
    lemma_placed_split(rom, pc, ex.bytes + ey.bytes + en.bytes, t);
    lemma_placed_split(rom, pc, ex.bytes + ey.bytes, en.bytes);
    lemma_placed_split(rom, pc, ex.bytes, ey.bytes);
    lemma_vars_apart_mono(env, x, next, n3);
    lemma_vars_apart_mono(env, y, next, n3);
    lemma_vars_apart_mono(env, n, next, n3);
    let k1 = lemma_load_runs(env, pc, n3, xr, x, rom, c);
    let c1 = run(rom, c, k1);
    assert(same_outside(env, c.v, c1.v, next));
    lemma_eval_frame(env, y, c.v, c1.v, next);
    lemma_eval_frame(env, n, c.v, c1.v, next);
    let k2 = lemma_load_runs(env, pc + ex.bytes.len(), n3, yr, y, rom, c1);
    let c2 = run(rom, c1, k2);
    assert(same_outside(env, c.v, c2.v, next));
    lemma_eval_frame(env, n, c.v, c2.v, next);
    let k3 = lemma_load_runs(env, pc + ex.bytes.len() + ey.bytes.len(), n3, nr, n, rom, c2);
    let c3 = run(rom, c2, k3);
    assert(c3.v[xr as int] == c1.v[xr as int]);
    assert(c3.v[yr as int] == c2.v[yr as int]);
    let pt = pc + ex.bytes.len() + ey.bytes.len() + en.bytes.len();
    assert(t.subrange(0, 2) =~= op(w1));
    assert(t.subrange(2, 4) =~= op(w2));
    assert(t.subrange(4, 6) =~= op(w3));
    assert(t.subrange(6, 8) =~= op(w4));
    assert(t.subrange(8, 10) =~= op(w5));
    lemma_word_in(rom, pt, t, 0, w1);
    lemma_word_in(rom, pt, t, 2, w2);
    lemma_word_in(rom, pt, t, 4, w3);
    lemma_word_in(rom, pt, t, 6, w4);
    lemma_word_in(rom, pt, t, 8, w5);
    lemma_fields(6, 0, 0, 15);
    lemma_dec_x(0x8002u16, 8, 2, nr);
    lemma_dec_x(0xF029u16, 15, 0x29, nr);
    lemma_dec_xy(0xD005u16, 13, 5, xr, yr);
    lemma_dec_x(0x80F0u16, 8, 0xF0, dest);
    let c4 = step(rom, c3);
    let c5 = step(rom, c4);
    let c6 = step(rom, c5);
    let c7 = step(rom, c6);
    let c8 = step(rom, c7);
    assert(run(rom, c3, 5) == c8) by {
        reveal_with_fuel(run, 6);
    }
    lemma_low_nibble(c3.v[nr as int]);
    assert(c4.v[0] == 15u8);
    assert(c5.v[nr as int] == c3.v[nr as int] & 15u8);
    lemma_run_add(rom, c, k1, k2);
    lemma_run_add(rom, c, k1 + k2, k3);
    lemma_run_add(rom, c, k1 + k2 + k3, 5);
    k1 + k2 + k3 + 5
}

// ---------------------------------------------------------------------------
// Straight-line blocks
// ---------------------------------------------------------------------------

/// Every statement of `b` assigns an expression of literals, variables,
/// binary operators and `not` to a variable.
pub open spec fn assignments_only(b: Seq<SStmt>) -> bool {
    forall|i: int| 0 <= i < b.len() ==> (#[trigger] b[i] matches SStmt::Assign(_, e) && arith_expr(e))
}

/// The registers after the assignments of `b`, in order, from `v`: each
/// stores its expression's value in its variable's register.
pub open spec fn assign_all(env: GenEnv, b: Seq<SStmt>, v: Seq<u8>) -> Seq<u8>
    decreases b.len(),
{
    if b.len() == 0 {
        v
    } else {
        let v1 = assign_all(env, b.drop_last(), v);
        match b[b.len() - 1] {
            SStmt::Assign(n, e) => {
                let r = lookup(env.regs, n)->Some_0 as int;
                if 0 <= r < v1.len() {
                    v1.update(r, eval(env, e, v1))
                } else {
                    v1
                }
            },
            _ => v1,
        }
    }
}

/// The assignments of `b` divide by no zero, their variables' registers (the
/// targets too) are in `V1`..`VE` apart from the work registers from `next`
/// on.
pub open spec fn assignments_fit(env: GenEnv, b: Seq<SStmt>, v: Seq<u8>, next: u8) -> bool
    decreases b.len(),
{
    if b.len() == 0 {
        true
    } else {
        &&& assignments_fit(env, b.drop_last(), v, next)
        &&& match b[b.len() - 1] {
            SStmt::Assign(n, e) => {
                &&& vars_apart(env, e, next)
                &&& divisors_nonzero(env, e, assign_all(env, b.drop_last(), v))
                &&& lookup(env.regs, n) matches Some(r) && 0 < r < 15 && (r < next || r > env.work_end)
            },
            _ => true,
        }
    }
}

pub(crate) proof fn lemma_assign_all_len(env: GenEnv, b: Seq<SStmt>, v: Seq<u8>)
    ensures
        assign_all(env, b, v).len() == v.len(),
    decreases b.len(),
{
    if b.len() > 0 {
        lemma_assign_all_len(env, b.drop_last(), v);
    }
}

pub(crate) proof fn lemma_block_runs(env: GenEnv, pc: nat, next: u8, label: u32, b: Seq<SStmt>, rom: Seq<u8>, c: Cpu, u: Seq<u8>) -> (k: nat)
    requires
        block_code(env, pc, next, label, b) is Ok,
        assignments_only(b),
        assignments_fit(env, b, u, next),
        placed(rom, pc, block_code(env, pc, next, label, b)->Ok_0.0.bytes),
        0x200 + pc + block_code(env, pc, next, label, b)->Ok_0.0.bytes.len() < 0x1000,
        c.pc == 0x200 + pc,
        c.v.len() == 16,
        u.len() == 16,
        same_outside(env, c.v, u, next),
        env.work_end < 15,
        0 < next,
    ensures
        ({
            let f = run(rom, c, k);
            &&& f.pc == c.pc + block_code(env, pc, next, label, b)->Ok_0.0.bytes.len()
            &&& same_frame(c, f)
            &&& f.v.len() == 16
            &&& same_outside(env, f.v, assign_all(env, b, u), next)
        }),
    decreases b.len(),
{
    if b.len() == 0 {
        assert(run(rom, c, 0) == c);
        0
    } else {
        let b1 = b.drop_last();
        assert forall|i: int| 0 <= i < b1.len() implies (#[trigger] b1[i] matches SStmt::Assign(_, e) && arith_expr(e)) by {
            assert(b1[i] == b[i]);
        }
        let (e1, l1) = block_code(env, pc, next, label, b1)->Ok_0;
        let last = b[b.len() - 1];
        assert(last matches SStmt::Assign(_, e) && arith_expr(e));
        let (n, e) = match last {
            SStmt::Assign(n, e) => (n, e),
            _ => (Seq::empty(), SExpr::GetKey),
        };
        let r = lookup(env.regs, n)->Some_0;
        let pc1 = pc + e1.bytes.len();
        assert(block_code(env, pc, next, label, b1) is Ok);
        assert(stmt_code(env, pc1, next, l1, last) is Ok);
        let e2 = load_code(env, pc1, next, r, e)->Ok_0;
        assert(stmt_code(env, pc1, next, l1, last) == Ok::<(Emitted, u32), SCodegenError>((e2, l1)));
        assert(block_code(env, pc, next, label, b)->Ok_0.0.bytes =~= e1.bytes + e2.bytes);
        lemma_placed_split(rom, pc, e1.bytes, e2.bytes);
        let k1 = lemma_block_runs(env, pc, next, label, b1, rom, c, u);
        let c1 = run(rom, c, k1);
        let v1 = assign_all(env, b1, u);
        lemma_eval_frame(env, e, c1.v, v1, next);
        let k2 = lemma_load_runs(env, pc1, next, r, e, rom, c1);
        let c2 = run(rom, c1, k2);
        lemma_run_add(rom, c, k1, k2);
        lemma_assign_all_len(env, b1, u);
        assert(assign_all(env, b, u) == v1.update(r as int, eval(env, e, v1)));
        assert forall|q: int| 0 < q < 15 && (q < next || q > env.work_end) implies #[trigger] c2.v[q] == assign_all(env, b, u)[q] by {
            if q != r {
                assert(c2.v[q] == c1.v[q]);
            }
        }
        k1 + k2
    }
}

/// Running the code of a block of assignments (each of an expression of
/// literals, variables, binary operators and `not`, dividing by no zero, its
/// variables' registers apart from the work registers) reaches the end of
/// that code with every register of `V1`..`VE` outside the work registers
/// holding what the assignments, done in order, leave there.
pub proof fn lemma_assignments_compute(env: GenEnv, pc: nat, next: u8, label: u32, b: Seq<SStmt>, rom: Seq<u8>, c: Cpu)
    requires
        block_code(env, pc, next, label, b) is Ok,
        assignments_only(b),
        assignments_fit(env, b, c.v, next),
        placed(rom, pc, block_code(env, pc, next, label, b)->Ok_0.0.bytes),
        0x200 + pc + block_code(env, pc, next, label, b)->Ok_0.0.bytes.len() < 0x1000,
        c.pc == 0x200 + pc,
        c.v.len() == 16,
        env.work_end < 15,
        0 < next,
    ensures
        exists|k: nat| {
            &&& (#[trigger] run(rom, c, k)).pc == c.pc + block_code(env, pc, next, label, b)->Ok_0.0.bytes.len()
            &&& run(rom, c, k).v.len() == 16
            &&& same_outside(env, run(rom, c, k).v, assign_all(env, b, c.v), next)
        },
{
    let k = lemma_block_runs(env, pc, next, label, b, rom, c, c.v);
    assert(run(rom, c, k).pc == c.pc + block_code(env, pc, next, label, b)->Ok_0.0.bytes.len());
}

// ---------------------------------------------------------------------------
// Whole programs
// ---------------------------------------------------------------------------

/// The initial values of the globals, as assignments in declaration order.
pub open spec fn init_stmts(vs: Seq<SVarDecl>) -> Seq<SStmt> {
    Seq::new(vs.len(), |i: int| SStmt::Assign(vs[i].name, vs[i].value))
}

/// The code of the globals' initial values is that of the assignments.
pub(crate) proof fn lemma_init_code(st: GenState, vs: Seq<SVarDecl>, label: u32)
    ensures
        init_globals(st, vs) matches Ok(s) ==> {
            &&& block_code(st.env, st.rom.len(), 1, label, init_stmts(vs)) is Ok
            &&& s.rom == st.rom + block_code(st.env, st.rom.len(), 1, label, init_stmts(vs))->Ok_0.0.bytes
            &&& s.fixups == st.fixups + block_code(st.env, st.rom.len(), 1, label, init_stmts(vs))->Ok_0.0.fixups
            &&& s.env == st.env
        },
    decreases vs.len(),
{
    if vs.len() > 0 {
        let vs1 = vs.drop_last();
        lemma_init_code(st, vs1, label);
        assert(init_stmts(vs).drop_last() =~= init_stmts(vs1));
        if let Ok(s1) = init_globals(st, vs1) {
            let (e1, l1) = block_code(st.env, st.rom.len(), 1, label, init_stmts(vs1))->Ok_0;
            let v = vs[vs.len() - 1];
            assert(init_stmts(vs)[vs.len() - 1] == SStmt::Assign(v.name, v.value));
            if let Some(r) = lookup(s1.env.regs, v.name) {
                if let Ok(e) = load_code(s1.env, s1.rom.len(), 1, r, v.value) {
                    assert(stmt_code(st.env, st.rom.len() + e1.bytes.len(), 1, l1, SStmt::Assign(v.name, v.value))
                        == Ok::<(Emitted, u32), SCodegenError>((e, l1)));
                    assert(add_emitted(s1, e).rom =~= st.rom + (e1.bytes + e.bytes));
                    assert(add_emitted(s1, e).fixups =~= st.fixups + (e1.fixups + e.fixups));
                }
            }
        }
    }
}

/// Expressions of literals, variables, binary operators and `not` call
/// nothing.
pub(crate) proof fn lemma_arith_no_fixups(env: GenEnv, pc: nat, next: u8, dest: u8, e: SExpr)
    requires
        arith_expr(e),
        load_code(env, pc, next, dest, e) is Ok,
    ensures
        load_code(env, pc, next, dest, e)->Ok_0.fixups.len() == 0,
    decreases e,
{
    if let SExpr::BinOp(l, o, r) = e {
        assert(load_code(env, pc, next, dest, e) == binop_code(env, pc, next, dest, e));
        let n2 = (next + 2) as u8;
        let lr = next;
        let rr = (next + 1) as u8;
        lemma_arith_no_fixups(env, pc, n2, lr, *l);
        let el = load_code(env, pc, n2, lr, *l)->Ok_0;
        lemma_arith_no_fixups(env, pc + el.bytes.len(), n2, rr, *r);
    } else if let SExpr::Not(x) = e {
        lemma_arith_no_fixups(env, pc, next, dest, *x);
    }
}

pub(crate) proof fn lemma_block_no_fixups(env: GenEnv, pc: nat, next: u8, label: u32, b: Seq<SStmt>)
    requires
        assignments_only(b),
        block_code(env, pc, next, label, b) is Ok,
    ensures
        block_code(env, pc, next, label, b)->Ok_0.0.fixups.len() == 0,
    decreases b.len(),
{
    if b.len() > 0 {
        let b1 = b.drop_last();
        assert forall|i: int| 0 <= i < b1.len() implies (#[trigger] b1[i] matches SStmt::Assign(_, e) && arith_expr(e)) by {
            assert(b1[i] == b[i]);
        }
        lemma_block_no_fixups(env, pc, next, label, b1);
        let (e1, l1) = block_code(env, pc, next, label, b1)->Ok_0;
        let last = b[b.len() - 1];
        assert(last matches SStmt::Assign(_, e) && arith_expr(e));
        if let SStmt::Assign(n, e) = last {
            let r = lookup(env.regs, n)->Some_0;
            assert(stmt_code(env, pc + e1.bytes.len(), next, l1, last) is Ok);
            lemma_arith_no_fixups(env, pc + e1.bytes.len(), next, r, e);
        }
    }
}

/// The registers of the generator, after the data.
pub open spec fn program_env(p: SProgram, files: Seq<(Seq<char>, Seq<u8>)>) -> GenEnv {
    data_stage(p, files)->Ok_0.env
}

/// No assignment of `b`, done in order from `v`, divides by zero.
pub open spec fn divides_safely(env: GenEnv, b: Seq<SStmt>, v: Seq<u8>) -> bool
    decreases b.len(),
{
    if b.len() == 0 {
        true
    } else {
        &&& divides_safely(env, b.drop_last(), v)
        &&& match b[b.len() - 1] {
            SStmt::Assign(_, e) => divisors_nonzero(env, e, assign_all(env, b.drop_last(), v)),
            _ => true,
        }
    }
}

/// Every register in `regs` is a global's: above the work registers, below `VF`.
pub open spec fn global_regs(regs: Seq<(Seq<char>, u8)>, work_end: u8) -> bool {
    forall|j: int| 0 <= j < regs.len() ==> work_end < (#[trigger] regs[j]).1 < 15
}

pub(crate) proof fn lemma_bind_globals_regs(regs: Seq<(Seq<char>, u8)>, vs: Seq<SVarDecl>, ng: nat)
    requires
        global_regs(regs, (14 - ng) as u8),
        vs.len() <= ng <= 14,
    ensures
        global_regs(bind_globals(regs, vs, ng), (14 - ng) as u8),
    decreases vs.len(),
{
    if vs.len() > 0 {
        let vs1 = vs.drop_last();
        lemma_bind_globals_regs(regs, vs1, ng);
        let t = bind_globals(regs, vs1, ng);
        let k = vs[vs.len() - 1].name;
        let r = ((15 - ng + vs.len() - 1) % 256) as u8;
        lemma_key_index_bounds(t, k);
        let t2 = assoc_insert(t, k, r);
        let we = (14 - ng) as u8;
        assert forall|j: int| 0 <= j < t2.len() implies we < (#[trigger] t2[j]).1 < 15 by {
            if key_index(t, k) >= 0 {
                if j != key_index(t, k) {
                    assert(t2[j] == t[j]);
                }
            } else {
                if j < t.len() {
                    assert(t2[j] == t[j]);
                }
            }
        }
    }
}

pub(crate) proof fn lemma_lookup_global(regs: Seq<(Seq<char>, u8)>, work_end: u8, k: Seq<char>)
    requires
        global_regs(regs, work_end),
    ensures
        lookup(regs, k) matches Some(r) ==> work_end < r < 15,
{
    lemma_key_index_bounds(regs, k);
}

pub(crate) proof fn lemma_vars_apart_globals(env: GenEnv, e: SExpr)
    requires
        global_regs(env.regs, env.work_end),
    ensures
        vars_apart(env, e, 1),
    decreases e,
{
    match e {
        SExpr::Var(name) => {
            lemma_lookup_global(env.regs, env.work_end, name);
        },
        SExpr::BinOp(l, _, r) => {
            lemma_vars_apart_globals(env, *l);
            lemma_vars_apart_globals(env, *r);
        },
        SExpr::Not(x) => {
            lemma_vars_apart_globals(env, *x);
        },
        _ => {},
    }
}

/// Assignments to globals that compile and divide by no zero fit the code's
/// register use.
pub(crate) proof fn lemma_globals_fit(env: GenEnv, pc: nat, label: u32, b: Seq<SStmt>, v: Seq<u8>)
    requires
        global_regs(env.regs, env.work_end),
        block_code(env, pc, 1, label, b) is Ok,
        assignments_only(b),
        divides_safely(env, b, v),
    ensures
        assignments_fit(env, b, v, 1),
    decreases b.len(),
{
    if b.len() > 0 {
        let b1 = b.drop_last();
        assert forall|i: int| 0 <= i < b1.len() implies (#[trigger] b1[i] matches SStmt::Assign(_, e) && arith_expr(e)) by {
            assert(b1[i] == b[i]);
        }
        assert(block_code(env, pc, 1, label, b1) is Ok);
        lemma_globals_fit(env, pc, label, b1, v);
        let (e1, l1) = block_code(env, pc, 1, label, b1)->Ok_0;
        let last = b[b.len() - 1];
        assert(last matches SStmt::Assign(_, e) && arith_expr(e));
        if let SStmt::Assign(n, e) = last {
            assert(stmt_code(env, pc + e1.bytes.len(), 1, l1, last) is Ok);
            lemma_lookup_global(env.regs, env.work_end, n);
            lemma_vars_apart_globals(env, e);
        }
    }
}

/// The word at offset `i` of `rom`.
pub(crate) proof fn lemma_word_at(rom: Seq<u8>, i: int, w: u16)
    requires
        0 <= i,
        i + 1 < rom.len(),
        rom[i] == op(w)[0],
        rom[i + 1] == op(w)[1],
    ensures
        word_at(rom, 0x200 + i) == w as int,
{
    lemma_op_word(w);
}

} // verus!
