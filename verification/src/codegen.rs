//! Code generation: lays out a CHIP-8 ROM image and emits the
//! intermediate representation beside it.
//!
//! Layout: a jump to the code, one register save area per call depth,
//! the sprite data (padded to an even length), the initial values of the
//! globals, a jump over the function bodies, the function bodies, `main`,
//! and an endless loop on its own address.
use vstd::prelude::*;
use crate::ast::{
    Expr, Op, SExpr, SStmt, SElseIf, Stmt, ElseIf, Program, SProgram, SpriteData, SSpriteData, FnDecl, SFnDecl,
    SpriteDecl, VarDecl,
    view_expr, view_exprs, view_stmt, view_stmts, view_elseifs, view_names,
};
use crate::analyzer::{key_index, lookup, assoc_insert, assoc_remove};
use crate::ir::{IrOp, Quad, SQuad, reg_name, label_name, numeral, view_quads};

verus! {

pub const ROM_START: u16 = 0x200;

/// Bytes available to a program: 0x200 to 0xFFF.
pub const ROM_MAX: usize = 3584;

/// Why no ROM could be made.
#[derive(Debug)]
pub enum CodegenError {
    /// A variable with no register.
    NoRegister(String),
    /// No work register left: the last one, `V{n}`.
    OutOfRegisters(u8),
    /// `draw` of a sprite that was not laid out.
    NoSpriteAddress(String),
    /// A call of a function that was never emitted.
    UnknownFunction(String),
    /// The ROM is larger than 3584 bytes: its size.
    ProgramTooLarge(usize),
    /// `rand` with a mask that is not a literal.
    RandMaskNotLiteral,
    /// A sprite file whose contents were not supplied.
    SpriteFileUnreadable(String),
    /// `/` with the literal `0` as its divisor.
    DivisionByZero,
    /// `%` with the literal `0` as its divisor.
    ModuloByZero,
}

pub enum SCodegenError {
    NoRegister(Seq<char>),
    OutOfRegisters(u8),
    NoSpriteAddress(Seq<char>),
    UnknownFunction(Seq<char>),
    ProgramTooLarge(usize),
    RandMaskNotLiteral,
    SpriteFileUnreadable(Seq<char>),
    DivisionByZero,
    ModuloByZero,
}

impl View for CodegenError {
    type V = SCodegenError;

    open spec fn view(&self) -> SCodegenError {
        match self {
            CodegenError::NoRegister(s) => SCodegenError::NoRegister(s@),
            CodegenError::OutOfRegisters(n) => SCodegenError::OutOfRegisters(*n),
            CodegenError::NoSpriteAddress(s) => SCodegenError::NoSpriteAddress(s@),
            CodegenError::UnknownFunction(s) => SCodegenError::UnknownFunction(s@),
            CodegenError::ProgramTooLarge(n) => SCodegenError::ProgramTooLarge(*n),
            CodegenError::RandMaskNotLiteral => SCodegenError::RandMaskNotLiteral,
            CodegenError::SpriteFileUnreadable(s) => SCodegenError::SpriteFileUnreadable(s@),
            CodegenError::DivisionByZero => SCodegenError::DivisionByZero,
            CodegenError::ModuloByZero => SCodegenError::ModuloByZero,
        }
    }
}

// ---------------------------------------------------------------------------
// The code of expressions
// ---------------------------------------------------------------------------

/// The two bytes of an instruction, high byte first.
pub open spec fn op(w: u16) -> Seq<u8> {
    seq![(w >> 8u16) as u8, (w & 0xFFu16) as u8]
}

/// The address of ROM offset `pc`, in 16 bits.
pub open spec fn addr_of(pc: nat) -> u16 {
    ((0x200 + pc) % 0x10000) as u16
}

/// What the code of a body sees: variable registers, sprites (address and
/// height), the functions emitted so far, the save areas, the call depth of
/// the body and the last work register.
pub struct GenEnv {
    pub regs: Seq<(Seq<char>, u8)>,
    pub sprites: Seq<(Seq<char>, (u16, u8))>,
    pub fns: Seq<(Seq<char>, u16)>,
    pub save_addrs: Seq<u16>,
    pub depth: nat,
    pub work_end: u8,
}

/// Bytes, quadruples, and calls left to patch (offset, function name).
pub struct Emitted {
    pub bytes: Seq<u8>,
    pub quads: Seq<SQuad>,
    pub fixups: Seq<(nat, Seq<char>)>,
}

pub type GenRes = Result<Emitted, SCodegenError>;

pub open spec fn nothing() -> Emitted {
    Emitted { bytes: Seq::empty(), quads: Seq::empty(), fixups: Seq::empty() }
}

pub open spec fn join(a: Emitted, b: Emitted) -> Emitted {
    Emitted { bytes: a.bytes + b.bytes, quads: a.quads + b.quads, fixups: a.fixups + b.fixups }
}

pub open spec fn code(bytes: Seq<u8>) -> Emitted {
    Emitted { bytes, quads: Seq::empty(), fixups: Seq::empty() }
}

pub open spec fn quad(op: IrOp, a1: Option<Seq<char>>, a2: Option<Seq<char>>, r: Option<Seq<char>>) -> Emitted {
    Emitted { bytes: Seq::empty(), quads: seq![SQuad { op, arg1: a1, arg2: a2, result: r }], fixups: Seq::empty() }
}

/// `a` then `b`, `b` placed after `a`'s bytes.
pub open spec fn then(a: GenRes, b: spec_fn(nat) -> GenRes) -> GenRes {
    match a {
        Err(x) => Err(x),
        Ok(ea) => match b(ea.bytes.len()) {
            Err(x) => Err(x),
            Ok(eb) => Ok(join(ea, eb)),
        },
    }
}

/// The register `next`, if it is still a work register.
pub open spec fn take_reg(env: GenEnv, next: u8) -> Result<u8, SCodegenError> {
    if next > env.work_end {
        Err(SCodegenError::OutOfRegisters(env.work_end))
    } else {
        Ok(next)
    }
}

pub open spec fn r8(r: u8) -> u16 {
    (r as u16) << 8u16
}

pub open spec fn r4(r: u8) -> u16 {
    (r as u16) << 4u16
}

/// The code of `l op r` into `dest`, from ROM offset `pc`, with `next`
/// the first free work register.
pub open spec fn binop_code(env: GenEnv, pc: nat, next: u8, dest: u8, e: SExpr) -> GenRes
    decreases e, 1int,
{
    match e {
        SExpr::BinOp(l, o, r) => match take_reg(env, next) {
            Err(x) => Err(x),
            Ok(lr) => match take_reg(env, (next + 1) as u8) {
                Err(x) => Err(x),
                Ok(rr) => {
                    let n2 = (next + 2) as u8;
                    match load_code(env, pc, n2, lr, *l) {
                        Err(x) => Err(x),
                        Ok(el) => match load_code(env, pc + el.bytes.len(), n2, rr, *r) {
                            Err(x) => Err(x),
                            Ok(er) => if o == Op::Div && *r == SExpr::Int(0) {
                                Err(SCodegenError::DivisionByZero)
                            } else if o == Op::Mod && *r == SExpr::Int(0) {
                                Err(SCodegenError::ModuloByZero)
                            } else {
                                let pc0 = pc + el.bytes.len() + er.bytes.len();
                                match binop_tail(env, pc0, n2, dest, lr, rr, o) {
                                    Err(x) => Err(x),
                                    Ok(et) => Ok(join(join(el, er), et)),
                                }
                            },
                        },
                    }
                },
            },
        },
        _ => Ok(nothing()),
    }
}

pub open spec fn binop_ir(o: Op) -> IrOp {
    match o {
        Op::Add => IrOp::Add,
        Op::Sub => IrOp::Sub,
        Op::Mul => IrOp::Mul,
        Op::Div => IrOp::Div,
        Op::Mod => IrOp::Mod,
        Op::EqEq => IrOp::CmpEq,
        Op::NotEq => IrOp::CmpNeq,
        Op::Lt => IrOp::CmpLt,
        Op::Gt => IrOp::CmpGt,
        Op::LtEq => IrOp::CmpLtEq,
        Op::GtEq => IrOp::CmpGtEq,
        Op::And => IrOp::And,
        Op::Or => IrOp::Or,
    }
}

/// What follows the operands of `lr op rr` at ROM offset `pc0`: the
/// quadruple and the instructions computing `dest`.
pub open spec fn binop_tail(env: GenEnv, pc0: nat, next: u8, dest: u8, lr: u8, rr: u8, o: Op) -> GenRes {
    let q = quad(binop_ir(o), Some(reg_name(lr)), Some(reg_name(rr)), Some(reg_name(dest)));
    let d = r8(dest);
    match o {
        Op::Add => Ok(join(q, code(op(0x8004u16 | r8(lr) | r4(rr)) + op(0x8000u16 | d | r4(lr))))),
        Op::Sub => Ok(join(q, code(op(0x8005u16 | r8(lr) | r4(rr)) + op(0x8000u16 | d | r4(lr))))),
        Op::Mul => match take_reg(env, next) {
            Err(x) => Err(x),
            Ok(counter) => {
                let loop_start = addr_of(pc0 + 4);
                let end = addr_of(pc0 + 16);
                Ok(join(q, code(
                    op(0x6000u16 | d) + op(0x8000u16 | r8(counter) | r4(rr)) + op(0x4000u16 | r8(counter))
                        + op(0x1000u16 | end) + op(0x8004u16 | d | r4(lr)) + op(0x6001u16)
                        + op(0x8005u16 | r8(counter)) + op(0x1000u16 | loop_start),
                )))
            },
        },
        Op::Div => match take_reg(env, next) {
            Err(x) => Err(x),
            Ok(counter) => match take_reg(env, (next + 1) as u8) {
                Err(x) => Err(x),
                Ok(tmp) => {
                    let loop_start = addr_of(pc0 + 2);
                    let end = addr_of(pc0 + 18);
                    Ok(join(q, code(
                        op(0x6000u16 | r8(counter)) + op(0x8000u16 | r8(tmp) | r4(lr))
                            + op(0x8005u16 | r8(tmp) | r4(rr)) + op(0x3F01u16) + op(0x1000u16 | end)
                            + op(0x8005u16 | r8(lr) | r4(rr)) + op(0x6001u16) + op(0x8004u16 | r8(counter))
                            + op(0x1000u16 | loop_start) + op(0x8000u16 | d | r4(counter)),
                    )))
                },
            },
        },
        Op::Mod => match take_reg(env, next) {
            Err(x) => Err(x),
            Ok(tmp) => {
                let loop_start = addr_of(pc0);
                let end = addr_of(pc0 + 12);
                Ok(join(q, code(
                    op(0x8000u16 | r8(tmp) | r4(lr)) + op(0x8005u16 | r8(tmp) | r4(rr)) + op(0x3F01u16)
                        + op(0x1000u16 | end) + op(0x8005u16 | r8(lr) | r4(rr)) + op(0x1000u16 | loop_start)
                        + op(0x8000u16 | d | r4(lr)),
                )))
            },
        },
        Op::EqEq => Ok(join(q, code(op(0x6001u16 | d) + op(0x5000u16 | r8(lr) | r4(rr)) + op(0x6000u16 | d)))),
        Op::NotEq => Ok(join(q, code(op(0x6001u16 | d) + op(0x9000u16 | r8(lr) | r4(rr)) + op(0x6000u16 | d)))),
        Op::Lt => Ok(join(q, code(op(0x6001u16 | d) + op(0x8005u16 | r8(lr) | r4(rr)) + op(0x3F00u16) + op(0x6000u16 | d)))),
        Op::Gt => Ok(join(q, code(op(0x6001u16 | d) + op(0x8005u16 | r8(rr) | r4(lr)) + op(0x3F00u16) + op(0x6000u16 | d)))),
        Op::LtEq => Ok(join(q, code(op(0x6001u16 | d) + op(0x8005u16 | r8(rr) | r4(lr)) + op(0x3F01u16) + op(0x6000u16 | d)))),
        Op::GtEq => Ok(join(q, code(op(0x6001u16 | d) + op(0x8005u16 | r8(lr) | r4(rr)) + op(0x3F01u16) + op(0x6000u16 | d)))),
        Op::And => Ok(join(q, code(
            op(0x6001u16 | d) + op(0x3001u16 | r8(lr)) + op(0x6000u16 | d) + op(0x3001u16 | r8(rr)) + op(0x6000u16 | d),
        ))),
        Op::Or => Ok(join(q, code(op(0x6000u16 | d) + op(0x3001u16 | r8(lr)) + op(0x4001u16 | r8(rr)) + op(0x6001u16 | d)))),
    }
}

/// The code that leaves the value of `e` in register `dest`, from ROM
/// offset `pc`, with `next` the first free work register.
pub open spec fn load_code(env: GenEnv, pc: nat, next: u8, dest: u8, e: SExpr) -> GenRes
    decreases e, 2int,
{
    let ds = reg_name(dest);
    match e {
        SExpr::Int(n) => Ok(join(
            quad(IrOp::LoadImm, Some(numeral(n as nat, 10)), None, Some(ds)),
            code(op(0x6000u16 | r8(dest) | (n as u16))),
        )),
        SExpr::Bool(b) => {
            let n: u16 = if b { 1 } else { 0 };
            Ok(join(quad(IrOp::LoadImm, Some(numeral(n as nat, 10)), None, Some(ds)), code(op(0x6000u16 | r8(dest) | n))))
        },
        SExpr::Var(name) => match lookup(env.regs, name) {
            None => Err(SCodegenError::NoRegister(name)),
            Some(src) => if src != dest {
                Ok(join(quad(IrOp::Copy, Some(name), None, Some(ds)), code(op(0x8000u16 | r8(dest) | r4(src)))))
            } else {
                Ok(nothing())
            },
        },
        SExpr::BinOp(..) => binop_code(env, pc, next, dest, e),
        SExpr::Not(x) => match load_code(env, pc, next, dest, *x) {
            Err(err) => Err(err),
            Ok(ex) => Ok(join(
                join(ex, quad(IrOp::Not, Some(ds), None, Some(ds))),
                code(op(0x6001u16) + op(0x8003u16 | r8(dest))),
            )),
        },
        SExpr::Call(name, args) => call_code(env, pc, next, name, args, Some(dest)),
        SExpr::Draw(x, y, s) => match take_reg(env, next) {
            Err(err) => Err(err),
            Ok(xr) => match take_reg(env, (next + 1) as u8) {
                Err(err) => Err(err),
                Ok(yr) => {
                    let n2 = (next + 2) as u8;
                    let q = quad(IrOp::Draw, Some(reg_name(xr)), Some(reg_name(yr)), Some(s));
                    match load_code(env, pc, n2, xr, *x) {
                        Err(err) => Err(err),
                        Ok(ex) => match load_code(env, pc + ex.bytes.len(), n2, yr, *y) {
                            Err(err) => Err(err),
                            Ok(ey) => match lookup(env.sprites, s) {
                                None => Err(SCodegenError::NoSpriteAddress(s)),
                                Some((a, h)) => Ok(join(
                                    join(join(q, ex), ey),
                                    code(
                                        op(0xA000u16 | a) + op(0xD000u16 | r8(xr) | r4(yr) | (h as u16)) + op(
                                            0x80F0u16 | r8(dest),
                                        ),
                                    ),
                                )),
                            },
                        },
                    }
                },
            },
        },
        SExpr::DrawDigit(x, y, n) => match take_reg(env, next) {
            Err(err) => Err(err),
            Ok(xr) => match take_reg(env, (next + 1) as u8) {
                Err(err) => Err(err),
                Ok(yr) => match take_reg(env, (next + 2) as u8) {
                    Err(err) => Err(err),
                    Ok(nr) => {
                        let n3 = (next + 3) as u8;
                        let q = quad(IrOp::DrawDigit, Some(reg_name(xr)), Some(reg_name(yr)), Some(reg_name(nr)));
                        match load_code(env, pc, n3, xr, *x) {
                            Err(err) => Err(err),
                            Ok(ex) => match load_code(env, pc + ex.bytes.len(), n3, yr, *y) {
                                Err(err) => Err(err),
                                Ok(ey) => match load_code(env, pc + ex.bytes.len() + ey.bytes.len(), n3, nr, *n) {
                                    Err(err) => Err(err),
                                    Ok(en) => Ok(join(
                                        join(join(join(q, ex), ey), en),
                                        code(
                                            op(0x600Fu16) + op(0x8002u16 | r8(nr)) + op(0xF029u16 | r8(nr)) + op(
                                                0xD005u16 | r8(xr) | r4(yr),
                                            ) + op(0x80F0u16 | r8(dest)),
                                        ),
                                    )),
                                },
                            },
                        }
                    },
                },
            },
        },
        SExpr::GetKey => Ok(join(quad(IrOp::GetKey, None, None, Some(ds)), code(op(0xF00Au16 | r8(dest))))),
        SExpr::GetDelay => Ok(join(quad(IrOp::GetDelay, None, None, Some(ds)), code(op(0xF007u16 | r8(dest))))),
        SExpr::KeyPressed(k) => match take_reg(env, next) {
            Err(err) => Err(err),
            Ok(kr) => match load_code(env, pc, (next + 1) as u8, kr, *k) {
                Err(err) => Err(err),
                Ok(ek) => Ok(join(
                    join(quad(IrOp::KeyPressed, Some(reg_name(kr)), None, Some(ds)), ek),
                    code(op(0x6001u16 | r8(dest)) + op(0xE09Eu16 | r8(kr)) + op(0x6000u16 | r8(dest))),
                )),
            },
        },
        SExpr::Rand(m) => match *m {
            SExpr::Int(n) => Ok(join(
                quad(IrOp::Rand, Some(numeral(n as nat, 10)), None, Some(ds)),
                code(op(0xC000u16 | r8(dest) | (n as u16))),
            )),
            _ => Err(SCodegenError::RandMaskNotLiteral),
        },
    }
}

/// Evaluates arguments `i..` of a call, argument `j` into `V(next + j)`,
/// from ROM offset `pc`; each is computed above the ones before it.
pub open spec fn args_code(env: GenEnv, pc: nat, next: u8, args: Seq<SExpr>, i: int) -> GenRes
    decreases args, args.len() - i,
{
    if i < 0 || i >= args.len() {
        Ok(nothing())
    } else if next + i > env.work_end {
        Err(SCodegenError::OutOfRegisters(env.work_end))
    } else {
        let t = (next + i) as u8;
        match load_code(env, pc, ((next + i + 1) % 256) as u8, t, args[i]) {
            Err(x) => Err(x),
            Ok(ea) => match args_code(env, pc + ea.bytes.len(), next, args, i + 1) {
                Err(x) => Err(x),
                Ok(rest) => Ok(join(ea, rest)),
            },
        }
    }
}

/// Copies `V(next + j)` into `V(j + 1)` for the arguments `j` from `i` on,
/// in order, where the two registers differ.
pub open spec fn arg_moves(next: u8, argc: int, i: int) -> Seq<u8>
    decreases argc - i,
{
    if i < 0 || i >= argc {
        Seq::empty()
    } else {
        let t = ((next + i) % 256) as u8;
        let r = ((i + 1) % 256) as u8;
        (if t == r { Seq::<u8>::empty() } else { op(0x8000u16 | r8(r) | r4(t)) }) + arg_moves(next, argc, i + 1)
    }
}

/// A call of `name`: save the registers of this depth, compute the
/// arguments into work registers and then move them to `V1`.., call (or
/// leave the target to patch), take the result through `VF`, restore the
/// registers, and copy the result to `dest` if wanted.
pub open spec fn call_code(env: GenEnv, pc: nat, next: u8, name: Seq<char>, args: Seq<SExpr>, dest: Option<u8>) -> GenRes
    decreases args, args.len() + 1,
{
    let argc = (args.len() % 256) as u8;
    let we = env.work_end;
    let save = env.save_addrs[env.depth as int];
    let head = join(
        quad(IrOp::Call, Some(name), Some(numeral(argc as nat, 10)), None),
        code(op(0xA000u16 | save) + op(0xF055u16 | r8(we))),
    );
    match args_code(env, pc + 4, next, args, 0) {
        Err(x) => Err(x),
        Ok(ea) => {
            let moves = arg_moves(next, args.len() as int, 0);
            let at = pc + 4 + ea.bytes.len() + moves.len();
            let call = match lookup(env.fns, name) {
                Some(a) => code(op(0x2000u16 | a)),
                None => Emitted { bytes: op(0x2000u16), quads: Seq::empty(), fixups: seq![(at, name)] },
            };
            let ret = ((argc as nat + 1) % 256) as u8;
            let tail = code(
                op(0x8F00u16 | r4(ret)) + op(0xA000u16 | save) + op(0xF065u16 | r8(we)) + match dest {
                    Some(d) => op(0x80F0u16 | r8(d)),
                    None => Seq::empty(),
                },
            );
            Ok(join(join(join(join(head, ea), code(moves)), call), tail))
        },
    }
}

pub open spec fn is_comparison(o: Op) -> bool {
    o == Op::EqEq || o == Op::NotEq || o == Op::Lt || o == Op::Gt || o == Op::LtEq || o == Op::GtEq
}

/// The code that tests `cond` before a conditional jump: afterwards the
/// next instruction (the jump) is skipped when the condition holds.
#[verifier::opaque]
pub open spec fn cond_prefix(env: GenEnv, pc: nat, next: u8, cond: SExpr) -> GenRes {
    match cond {
        SExpr::Var(name) => match lookup(env.regs, name) {
            None => Err(SCodegenError::NoRegister(name)),
            Some(r) => Ok(code(op(0x3001u16 | r8(r)))),
        },
        SExpr::BinOp(l, o, r) => if is_comparison(o) {
            match take_reg(env, next) {
                Err(x) => Err(x),
                Ok(lr) => match take_reg(env, (next + 1) as u8) {
                    Err(x) => Err(x),
                    Ok(rr) => {
                        let n2 = (next + 2) as u8;
                        match load_code(env, pc, n2, lr, *l) {
                            Err(x) => Err(x),
                            Ok(el) => match load_code(env, pc + el.bytes.len(), n2, rr, *r) {
                                Err(x) => Err(x),
                                Ok(er) => Ok(join(join(el, er), code(
                                    if o == Op::EqEq {
                                        op(0x5000u16 | r8(lr) | r4(rr))
                                    } else if o == Op::NotEq {
                                        op(0x9000u16 | r8(lr) | r4(rr))
                                    } else if o == Op::Lt {
                                        op(0x8005u16 | r8(lr) | r4(rr)) + op(0x3F00u16)
                                    } else if o == Op::Gt {
                                        op(0x8005u16 | r8(rr) | r4(lr)) + op(0x3F00u16)
                                    } else if o == Op::LtEq {
                                        op(0x8005u16 | r8(rr) | r4(lr)) + op(0x3F01u16)
                                    } else {
                                        op(0x8005u16 | r8(lr) | r4(rr)) + op(0x3F01u16)
                                    },
                                ))),
                            },
                        }
                    },
                },
            }
        } else {
            value_test(env, pc, next, cond)
        },
        _ => value_test(env, pc, next, cond),
    }
}

/// Computes `cond` into a fresh work register, then skips the jump that
/// follows if that register holds 1.
pub open spec fn value_test(env: GenEnv, pc: nat, next: u8, cond: SExpr) -> GenRes {
    match take_reg(env, next) {
        Err(x) => Err(x),
        Ok(r) => match load_code(env, pc, (next + 1) as u8, r, cond) {
            Err(x) => Err(x),
            Ok(e) => Ok(join(e, code(op(0x3001u16 | r8(r))))),
        },
    }
}


// ---------------------------------------------------------------------------
// Statements
// ---------------------------------------------------------------------------

pub type StmtRes = Result<(Emitted, u32), SCodegenError>;

pub type ElifRes = Result<(Emitted, Seq<nat>, u32), SCodegenError>;

/// `JP t`.
pub open spec fn jp(t: u16) -> Seq<u8> {
    op(0x1000u16 | t)
}

pub open spec fn next_label(l: u32) -> u32 {
    if l == u32::MAX {
        0
    } else {
        (l + 1) as u32
    }
}

pub open spec fn cond_name() -> Seq<char> {
    seq!['c', 'o', 'n', 'd']
}

pub open spec fn v0_name() -> Seq<char> {
    seq!['V', '0']
}

/// `s` with the two bytes at `k` replaced by instruction `w`.
pub open spec fn set_word(s: Seq<u8>, k: int, w: u16) -> Seq<u8> {
    s.update(k, (w >> 8u16) as u8).update(k + 1, (w & 0xFFu16) as u8)
}

/// `s` (starting at ROM offset `base`) with a jump to `t` at each offset of `offs`.
pub open spec fn patch_jumps(s: Seq<u8>, base: nat, offs: Seq<nat>, t: u16) -> Seq<u8>
    decreases offs.len(),
{
    if offs.len() == 0 {
        s
    } else {
        set_word(patch_jumps(s, base, offs.drop_last(), t), offs[offs.len() - 1] - base, 0x1000u16 | t)
    }
}

pub open spec fn with_bytes(e: Emitted, b: Seq<u8>) -> Emitted {
    Emitted { bytes: b, ..e }
}

/// The code of one statement from ROM offset `pc`, with `next` the first
/// free work register and `label` the next label number; gives the label
/// number after.
pub open spec fn stmt_code(env: GenEnv, pc: nat, next: u8, label: u32, s: SStmt) -> StmtRes
    decreases s, 2int,
{
    match s {
        SStmt::Assign(n, e) => match lookup(env.regs, n) {
            None => Err(SCodegenError::NoRegister(n)),
            Some(r) => match load_code(env, pc, next, r, e) {
                Err(x) => Err(x),
                Ok(ee) => Ok((ee, label)),
            },
        },
        SStmt::If(..) => if_code(env, pc, next, label, s),
        SStmt::Loop(body) => {
            let lbl = label_name(label);
            match block_code(env, pc, next, next_label(label), body) {
                Err(x) => Err(x),
                Ok((eb, l2)) => Ok((
                    join(join(quad(IrOp::Label, Some(lbl), None, None), eb), join(
                        quad(IrOp::Jump, Some(lbl), None, None),
                        code(jp(addr_of(pc))),
                    )),
                    l2,
                )),
            }
        },
        SStmt::While(c, body) => {
            let loop_lbl = label_name(label);
            let end_lbl = label_name(next_label(label));
            match cond_prefix(env, pc, next, c) {
                Err(x) => Err(x),
                Ok(ec) => {
                    let pc1 = pc + ec.bytes.len() + 2;
                    match block_code(env, pc1, next, next_label(next_label(label)), body) {
                        Err(x) => Err(x),
                        Ok((eb, l2)) => {
                            let loop_end = addr_of(pc1 + eb.bytes.len() + 2);
                            Ok((
                                join(
                                    join(
                                        join(
                                            quad(IrOp::Label, Some(loop_lbl), None, None),
                                            quad(IrOp::JumpFalse, Some(cond_name()), Some(end_lbl), None),
                                        ),
                                        join(join(ec, code(jp(loop_end))), eb),
                                    ),
                                    join(
                                        join(quad(IrOp::Jump, Some(loop_lbl), None, None), code(jp(addr_of(pc)))),
                                        quad(IrOp::Label, Some(end_lbl), None, None),
                                    ),
                                ),
                                l2,
                            ))
                        },
                    }
                },
            }
        },
        SStmt::Call(n, args) => match call_code(env, pc, next, n, args, None) {
            Err(x) => Err(x),
            Ok(ec) => Ok((ec, label)),
        },
        SStmt::Clear => Ok((join(quad(IrOp::Clear, None, None, None), code(op(0x00E0u16))), label)),
        SStmt::Delay(e) => match load_code(env, pc, next, 0, e) {
            Err(x) => Err(x),
            Ok(ee) => Ok((join(join(quad(IrOp::SetDelay, Some(v0_name()), None, None), ee), code(op(0xF015u16))), label)),
        },
        SStmt::Beep(e) => match load_code(env, pc, next, 0, e) {
            Err(x) => Err(x),
            Ok(ee) => Ok((join(join(quad(IrOp::SetSound, Some(v0_name()), None, None), ee), code(op(0xF018u16))), label)),
        },
    }
}

/// A conditional branch: skip label, test, jump over the body when false,
/// body, jump to the end (left to patch), skip label.  Gives the code with
/// the jump to the end as `JP 0`, its offset, and the label number after.
pub open spec fn branch_code(env: GenEnv, pc: nat, next: u8, label: u32, end_lbl: Seq<char>, c: SExpr, body: Seq<SStmt>) -> ElifRes
    decreases body, 1int,
{
    let skip_lbl = label_name(label);
    match cond_prefix(env, pc, next, c) {
        Err(x) => Err(x),
        Ok(ec) => {
            let pc1 = pc + ec.bytes.len() + 2;
            match block_code(env, pc1, next, next_label(label), body) {
                Err(x) => Err(x),
                Ok((eb, l2)) => {
                    let pc2 = pc1 + eb.bytes.len();
                    let after = addr_of(pc2 + 2);
                    Ok((
                        join(
                            join(
                                quad(IrOp::JumpFalse, Some(cond_name()), Some(skip_lbl), None),
                                join(join(ec, code(jp(after))), eb),
                            ),
                            join(
                                join(quad(IrOp::Jump, Some(end_lbl), None, None), code(op(0x1000u16))),
                                quad(IrOp::Label, Some(skip_lbl), None, None),
                            ),
                        ),
                        seq![pc2],
                        l2,
                    ))
                },
            }
        },
    }
}

/// The `elif` branches from position `i` on.
pub open spec fn elifs_code(env: GenEnv, pc: nat, next: u8, label: u32, end_lbl: Seq<char>, es: Seq<SElseIf>, i: int) -> ElifRes
    decreases es, es.len() - i,
{
    if i < 0 || i >= es.len() {
        Ok((nothing(), Seq::empty(), label))
    } else {
        match branch_code(env, pc, next, label, end_lbl, es[i].condition, es[i].body) {
            Err(x) => Err(x),
            Ok((e1, o1, l1)) => match elifs_code(env, pc + e1.bytes.len(), next, l1, end_lbl, es, i + 1) {
                Err(x) => Err(x),
                Ok((e2, o2, l2)) => Ok((join(e1, e2), o1 + o2, l2)),
            },
        }
    }
}

/// `if`/`elif`/`else`: each branch tests its condition and jumps to the
/// common end after its body.
pub open spec fn if_code(env: GenEnv, pc: nat, next: u8, label: u32, s: SStmt) -> StmtRes
    decreases s, 1int,
{
    match s {
        SStmt::If(c, body, elifs, els) => {
            let end_lbl = label_name(label);
            match branch_code(env, pc, next, next_label(label), end_lbl, c, body) {
                Err(x) => Err(x),
                Ok((e1, o1, l1)) => match elifs_code(env, pc + e1.bytes.len(), next, l1, end_lbl, elifs, 0) {
                    Err(x) => Err(x),
                    Ok((e2, o2, l2)) => {
                        let pc3 = pc + e1.bytes.len() + e2.bytes.len();
                        match match els {
                            Some(b) => block_code(env, pc3, next, l2, b),
                            None => Ok((nothing(), l2)),
                        } {
                            Err(x) => Err(x),
                            Ok((e3, l3)) => {
                                let all = join(join(join(e1, e2), e3), quad(IrOp::Label, Some(end_lbl), None, None));
                                let end = addr_of(pc3 + e3.bytes.len());
                                Ok((with_bytes(all, patch_jumps(all.bytes, pc, o1 + o2, end)), l3))
                            },
                        }
                    },
                },
            }
        },
        _ => Ok((nothing(), label)),
    }
}

/// The statements of a block, in order.
pub open spec fn block_code(env: GenEnv, pc: nat, next: u8, label: u32, b: Seq<SStmt>) -> StmtRes
    decreases b, 0int,
{
    if b.len() == 0 {
        Ok((nothing(), label))
    } else {
        match block_code(env, pc, next, label, b.drop_last()) {
            Err(x) => Err(x),
            Ok((e1, l1)) => match stmt_code(env, pc + e1.bytes.len(), next, l1, b[b.len() - 1]) {
                Err(x) => Err(x),
                Ok((e2, l2)) => Ok((join(e1, e2), l2)),
            },
        }
    }
}


// ---------------------------------------------------------------------------
// Functions and the program
// ---------------------------------------------------------------------------

/// Registers of the parameters: the `i`-th in `V(i+1)`.
pub open spec fn bind_args(regs: Seq<(Seq<char>, u8)>, args: Seq<Seq<char>>) -> Seq<(Seq<char>, u8)>
    decreases args.len(),
{
    if args.len() == 0 {
        regs
    } else {
        assoc_insert(bind_args(regs, args.drop_last()), args[args.len() - 1], (args.len() % 256) as u8)
    }
}

pub open spec fn unbind(regs: Seq<(Seq<char>, u8)>, names: Seq<Seq<char>>) -> Seq<(Seq<char>, u8)>
    decreases names.len(),
{
    if names.len() == 0 {
        regs
    } else {
        assoc_remove(unbind(regs, names.drop_last()), names[names.len() - 1])
    }
}

/// The register of a function's return variable: the one after its
/// parameters.
pub open spec fn ret_reg(f: SFnDecl) -> u8 {
    ((f.args.len() + 1) % 256) as u8
}

/// A function body at call depth `depth`: label, parameters and return
/// variable in `V1`..., body, return.  Gives the code, the label number
/// after, and the variable registers after (its own names removed).
pub open spec fn fn_code(env: GenEnv, pc: nat, label: u32, f: SFnDecl, depth: nat) -> Result<
    (Emitted, u32, Seq<(Seq<char>, u8)>),
    SCodegenError,
> {
    let regs = assoc_insert(bind_args(env.regs, f.args), f.ret, ret_reg(f));
    let next = ((ret_reg(f) as nat + 1) % 256) as u8;
    match block_code(GenEnv { regs, depth, ..env }, pc, next, label, f.body) {
        Err(x) => Err(x),
        Ok((eb, l2)) => Ok((
            join(join(quad(IrOp::Label, Some(f.name), None, None), eb), join(
                quad(IrOp::Return, None, None, None),
                code(op(0x00EEu16)),
            )),
            l2,
            assoc_remove(unbind(regs, f.args), f.ret),
        )),
    }
}

/// The call depth used for the save area of function `name`.
pub open spec fn depth_of(g: crate::callgraph::SCallGraph, name: Seq<char>) -> nat {
    let i = crate::callgraph::node_index(g, name);
    if i >= 0 {
        crate::callgraph::frame_depths(g)[i]
    } else {
        0
    }
}

pub open spec fn max_seq(s: Seq<nat>) -> nat
    decreases s.len(),
{
    if s.len() == 0 {
        0
    } else {
        crate::callgraph::max_nat(max_seq(s.drop_last()), s[s.len() - 1])
    }
}

/// ROM and generator state after each stage of `generate`.
pub struct GenState {
    pub rom: Seq<u8>,
    pub quads: Seq<SQuad>,
    pub fixups: Seq<(nat, Seq<char>)>,
    pub label: u32,
    pub env: GenEnv,
}

pub open spec fn add_emitted(st: GenState, e: Emitted) -> GenState {
    GenState { rom: st.rom + e.bytes, quads: st.quads + e.quads, fixups: st.fixups + e.fixups, ..st }
}

/// `n` zero bytes.
pub open spec fn zeros(n: nat) -> Seq<u8> {
    Seq::new(n, |i: int| 0u8)
}

/// Save areas for depths `0..count`, each of `size` zero bytes, recording
/// their addresses.
pub open spec fn save_areas(st: GenState, count: nat, size: nat) -> GenState
    decreases count,
{
    if count == 0 {
        st
    } else {
        let s1 = save_areas(st, (count - 1) as nat, size);
        GenState {
            rom: s1.rom + zeros(size),
            env: GenEnv { save_addrs: s1.env.save_addrs.push(addr_of(s1.rom.len())), ..s1.env },
            ..s1
        }
    }
}

/// The rows of a sprite: inline, or the file contents listed in `files`.
pub open spec fn sprite_bytes(d: SSpriteData, files: Seq<(Seq<char>, Seq<u8>)>) -> Result<Seq<u8>, SCodegenError> {
    match d {
        SSpriteData::Inline(b) => Ok(b),
        SSpriteData::File(path) => match lookup(files, path) {
            None => Err(SCodegenError::SpriteFileUnreadable(path)),
            Some(b) => Ok(b),
        },
    }
}

/// The sprite data laid out in order, each recorded with its address and
/// height (in 8 bits) and a quadruple.
pub open spec fn lay_sprites(st: GenState, ss: Seq<crate::ast::SSpriteDecl>, files: Seq<(Seq<char>, Seq<u8>)>) -> Result<
    GenState,
    SCodegenError,
>
    decreases ss.len(),
{
    if ss.len() == 0 {
        Ok(st)
    } else {
        match lay_sprites(st, ss.drop_last(), files) {
            Err(x) => Err(x),
            Ok(s1) => {
                let sp = ss[ss.len() - 1];
                match sprite_bytes(sp.data, files) {
                    Err(x) => Err(x),
                    Ok(b) => {
                        let a = addr_of(s1.rom.len());
                        Ok(GenState {
                            rom: s1.rom + b,
                            quads: s1.quads.push(SQuad {
                                op: IrOp::SpriteData,
                                arg1: Some(sp.name),
                                arg2: Some(numeral(a as nat, 10)),
                                result: None,
                            }),
                            env: GenEnv {
                                sprites: assoc_insert(s1.env.sprites, sp.name, (a, (b.len() % 256) as u8)),
                                ..s1.env
                            },
                            ..s1
                        })
                    },
                }
            },
        }
    }
}

/// Registers of the globals: the `i`-th of `ng` in `V(15 - ng + i)`.
pub open spec fn bind_globals(regs: Seq<(Seq<char>, u8)>, vs: Seq<crate::ast::SVarDecl>, ng: nat) -> Seq<(Seq<char>, u8)>
    decreases vs.len(),
{
    if vs.len() == 0 {
        regs
    } else {
        assoc_insert(bind_globals(regs, vs.drop_last(), ng), vs[vs.len() - 1].name, ((15 - ng + vs.len() - 1) % 256) as u8)
    }
}

/// The initial values of the globals, loaded into their registers in order.
pub open spec fn init_globals(st: GenState, vs: Seq<crate::ast::SVarDecl>) -> Result<GenState, SCodegenError>
    decreases vs.len(),
{
    if vs.len() == 0 {
        Ok(st)
    } else {
        match init_globals(st, vs.drop_last()) {
            Err(x) => Err(x),
            Ok(s1) => {
                let v = vs[vs.len() - 1];
                match lookup(s1.env.regs, v.name) {
                    None => Err(SCodegenError::NoRegister(v.name)),
                    Some(r) => match load_code(s1.env, s1.rom.len(), 1, r, v.value) {
                        Err(x) => Err(x),
                        Ok(e) => Ok(add_emitted(s1, e)),
                    },
                }
            },
        }
    }
}

/// The function bodies in order, each recorded at its address.
pub open spec fn emit_fns(st: GenState, fs: Seq<SFnDecl>, g: crate::callgraph::SCallGraph) -> Result<GenState, SCodegenError>
    decreases fs.len(),
{
    if fs.len() == 0 {
        Ok(st)
    } else {
        match emit_fns(st, fs.drop_last(), g) {
            Err(x) => Err(x),
            Ok(s1) => {
                let f = fs[fs.len() - 1];
                let env1 = GenEnv { fns: assoc_insert(s1.env.fns, f.name, addr_of(s1.rom.len())), ..s1.env };
                match fn_code(env1, s1.rom.len(), s1.label, f, depth_of(g, f.name)) {
                    Err(x) => Err(x),
                    Ok((e, l, regs)) => Ok(GenState {
                        rom: s1.rom + e.bytes,
                        quads: s1.quads + e.quads,
                        fixups: s1.fixups + e.fixups,
                        label: l,
                        env: GenEnv { regs, depth: depth_of(g, f.name), ..env1 },
                    }),
                }
            },
        }
    }
}

/// Every call left to patch gets its function's address, in order; a
/// function that was never emitted is an error.
pub open spec fn apply_fixups(rom: Seq<u8>, fixups: Seq<(nat, Seq<char>)>, fns: Seq<(Seq<char>, u16)>) -> Result<Seq<u8>, SCodegenError>
    decreases fixups.len(),
{
    if fixups.len() == 0 {
        Ok(rom)
    } else {
        match apply_fixups(rom, fixups.drop_last(), fns) {
            Err(x) => Err(x),
            Ok(r) => {
                let (o, name) = fixups[fixups.len() - 1];
                match lookup(fns, name) {
                    None => Err(SCodegenError::UnknownFunction(name)),
                    Some(a) => if o + 1 < r.len() {
                        Ok(set_word(r, o as int, 0x2000u16 | a))
                    } else {
                        Ok(r)
                    },
                }
            },
        }
    }
}

/// The deepest save area needed.
pub open spec fn max_depth(p: SProgram) -> nat {
    max_seq(crate::callgraph::frame_depths(crate::callgraph::call_graph(p)))
}

proof fn lemma_max_seq_bound(s: Seq<nat>, b: nat)
    requires
        forall|i: int| 0 <= i < s.len() ==> #[trigger] s[i] <= b,
    ensures
        max_seq(s) <= b,
    decreases s.len(),
{
    if s.len() > 0 {
        lemma_max_seq_bound(s.drop_last(), b);
    }
}

/// Law: a program needs at most one save area more than it has functions:
/// no chain of calls without repeats is longer than the call graph has
/// nodes.  So a program of at most 254 functions has a frame depth of at
/// most 255.
pub proof fn lemma_max_depth_bound(p: SProgram)
    ensures
        max_depth(p) <= p.functions.len() + 1,
{
    let g = crate::callgraph::call_graph(p);
    crate::callgraph::lemma_frame_levels_bound(g, g.names.len());
    crate::callgraph::lemma_call_graph_len(p);
    let d = crate::callgraph::frame_depths(g);
    assert forall|i: int| 0 <= i < d.len() implies #[trigger] d[i] <= p.functions.len() + 1 by {}
    lemma_max_seq_bound(d, p.functions.len() + 1);
}

/// Before anything is laid out: a jump to the code, to patch.
pub open spec fn initial_state(p: SProgram) -> GenState {
    GenState {
        rom: op(0x1000u16),
        quads: Seq::empty(),
        fixups: Seq::empty(),
        label: 0,
        env: GenEnv {
            regs: Seq::empty(),
            sprites: Seq::empty(),
            fns: Seq::empty(),
            save_addrs: Seq::empty(),
            depth: 0,
            work_end: (14 - p.vars.len()) as u8,
        },
    }
}

/// Save areas, sprites, padding to an even length, the first jump patched
/// to the code, and the registers of the globals.
pub open spec fn data_stage(p: SProgram, files: Seq<(Seq<char>, Seq<u8>)>) -> Result<GenState, SCodegenError> {
    let st0 = initial_state(p);
    let st1 = save_areas(st0, max_depth(p) + 1, st0.env.work_end as nat + 1);
    match lay_sprites(st1, p.sprites, files) {
        Err(x) => Err(x),
        Ok(st2) => {
            let padded = if st2.rom.len() % 2 == 1 { st2.rom.push(0u8) } else { st2.rom };
            Ok(GenState {
                rom: set_word(padded, 0, 0x1000u16 | addr_of(padded.len())),
                env: GenEnv { regs: bind_globals(st2.env.regs, p.vars, p.vars.len()), ..st2.env },
                ..st2
            })
        },
    }
}

/// After the function bodies (which start after a jump at `fn_jump`):
/// that jump patched, `main`, the endless loop, the calls patched, and
/// the size checked.
pub open spec fn finish(p: SProgram, fn_jump: nat, st6: GenState) -> Result<(Seq<u8>, Seq<SQuad>), SCodegenError> {
    let rom7 = set_word(st6.rom, fn_jump as int, 0x1000u16 | addr_of(st6.rom.len()));
    let env7 = GenEnv { depth: 0, ..st6.env };
    match block_code(env7, rom7.len(), 1, st6.label, p.main) {
        Err(x) => Err(x),
        Ok((em, _)) => {
            let rom8 = rom7 + em.bytes;
            let rom9 = rom8 + jp(addr_of(rom8.len()));
            match apply_fixups(rom9, st6.fixups + em.fixups, env7.fns) {
                Err(x) => Err(x),
                Ok(rom10) => if rom10.len() > ROM_MAX {
                    Err(SCodegenError::ProgramTooLarge(rom10.len() as usize))
                } else {
                    Ok((rom10, st6.quads + em.quads))
                },
            }
        },
    }
}

/// The ROM image and the quadruples of `p`, whose sprite files have the
/// contents listed in `files` (path, bytes).
pub open spec fn generate_spec(p: SProgram, files: Seq<(Seq<char>, Seq<u8>)>) -> Result<(Seq<u8>, Seq<SQuad>), SCodegenError> {
    match data_stage(p, files) {
        Err(x) => Err(x),
        Ok(st3) => match init_globals(st3, p.vars) {
            Err(x) => Err(x),
            Ok(st4) => match emit_fns(GenState { rom: st4.rom + op(0x1000u16), ..st4 }, p.functions, crate::callgraph::call_graph(p)) {
                Err(x) => Err(x),
                Ok(st6) => finish(p, st4.rom.len(), st6),
            },
        },
    }
}


// ---------------------------------------------------------------------------
// The generator
// ---------------------------------------------------------------------------

/// Builds the ROM image and the quadruples of a program.
pub struct Codegen {
    rom: Vec<u8>,
    ir: Vec<Quad>,
    ir_label: u32,
    /// Register of each variable in scope.
    registers: Vec<(String, u8)>,
    /// Address and height of each sprite.
    sprites: Vec<(String, (u16, u8))>,
    /// Address of each function emitted so far.
    fn_addrs: Vec<(String, u16)>,
    /// First free work register.
    next_reg: u8,
    /// Calls whose target is patched at the end: offset, function name.
    call_fixups: Vec<(usize, String)>,
    save_area_addrs: Vec<u16>,
    current_depth: usize,
    /// Last work register: `V1`..`V{work_end}` hold temporaries.
    work_end: u8,
}

spec fn view_regs(t: Seq<(String, u8)>) -> Seq<(Seq<char>, u8)> {
    t.map_values(|p: (String, u8)| (p.0@, p.1))
}

spec fn view_sprites(t: Seq<(String, (u16, u8))>) -> Seq<(Seq<char>, (u16, u8))> {
    t.map_values(|p: (String, (u16, u8))| (p.0@, p.1))
}

spec fn view_fn_addrs(t: Seq<(String, u16)>) -> Seq<(Seq<char>, u16)> {
    t.map_values(|p: (String, u16)| (p.0@, p.1))
}

spec fn view_fixups(t: Seq<(usize, String)>) -> Seq<(nat, Seq<char>)> {
    t.map_values(|p: (usize, String)| (p.0 as nat, p.1@))
}

impl Codegen {
    pub closed spec fn env(&self) -> GenEnv {
        GenEnv {
            regs: view_regs(self.registers@),
            sprites: view_sprites(self.sprites@),
            fns: view_fn_addrs(self.fn_addrs@),
            save_addrs: self.save_area_addrs@,
            depth: self.current_depth as nat,
            work_end: self.work_end,
        }
    }

    pub closed spec fn rom(&self) -> Seq<u8> {
        self.rom@
    }

    pub closed spec fn quads(&self) -> Seq<SQuad> {
        view_quads(self.ir@)
    }

    pub closed spec fn fixups(&self) -> Seq<(nat, Seq<char>)> {
        view_fixups(self.call_fixups@)
    }

    pub closed spec fn next(&self) -> u8 {
        self.next_reg
    }

    pub closed spec fn label(&self) -> u32 {
        self.ir_label
    }

    /// The emitter can keep going: its save area for the current depth exists.
    pub closed spec fn ready(&self) -> bool {
        &&& self.current_depth < self.save_area_addrs@.len()
        &&& self.work_end < 15
    }

    /// Nothing emitted yet: the state `new` gives.
    pub closed spec fn fresh(&self) -> bool {
        &&& self.rom@.len() == 0
        &&& self.ir@.len() == 0
        &&& self.ir_label == 0
        &&& self.registers@.len() == 0
        &&& self.sprites@.len() == 0
        &&& self.fn_addrs@.len() == 0
        &&& self.next_reg == 1
        &&& self.call_fixups@.len() == 0
        &&& self.save_area_addrs@.len() == 0
        &&& self.current_depth == 0
    }

    pub fn new() -> (c: Codegen)
        ensures
            c.fresh(),
            c.rom() == Seq::<u8>::empty(),
            c.quads() == Seq::<SQuad>::empty(),
    {
        let c = Codegen {
            rom: Vec::new(),
            ir: Vec::new(),
            ir_label: 0,
            registers: Vec::new(),
            sprites: Vec::new(),
            fn_addrs: Vec::new(),
            next_reg: 1,
            call_fixups: Vec::new(),
            save_area_addrs: Vec::new(),
            current_depth: 0,
            work_end: 14,
        };
        assert(view_quads(c.ir@) =~= Seq::<SQuad>::empty());
        c
    }

    /// The quadruples emitted so far.
    pub fn get_ir(&self) -> (r: &Vec<Quad>)
        ensures
            view_quads(r@) == self.quads(),
    {
        &self.ir
    }
}

/// `after` is `before` with `e` appended, everything else unchanged.
spec fn appended(before: Codegen, after: Codegen, e: Emitted) -> bool {
    &&& after.rom() == before.rom() + e.bytes
    &&& after.quads() == before.quads() + e.quads
    &&& after.fixups() == before.fixups() + e.fixups
    &&& after.env() == before.env()
    &&& after.next() == before.next()
    &&& after.label() == before.label()
    &&& after.ready() == before.ready()
}

/// `r` is the outcome of an emission whose model is `s`.
spec fn emit_outcome(s: GenRes, r: Result<(), CodegenError>, before: Codegen, after: Codegen) -> bool {
    match s {
        Ok(e) => r is Ok && appended(before, after, e),
        Err(x) => r is Err && r->Err_0@ == x,
    }
}

proof fn lemma_appended_trans(a: Codegen, b: Codegen, c: Codegen, e1: Emitted, e2: Emitted)
    requires
        appended(a, b, e1),
        appended(b, c, e2),
    ensures
        appended(a, c, join(e1, e2)),
{
    assert(a.rom() + e1.bytes + e2.bytes =~= a.rom() + (e1.bytes + e2.bytes));
    assert(a.quads() + e1.quads + e2.quads =~= a.quads() + (e1.quads + e2.quads));
    assert(a.fixups() + e1.fixups + e2.fixups =~= a.fixups() + (e1.fixups + e2.fixups));
}

proof fn lemma_appended_refl(a: Codegen)
    ensures
        appended(a, a, nothing()),
{
    assert(a.rom() + Seq::<u8>::empty() =~= a.rom());
    assert(a.quads() + Seq::<SQuad>::empty() =~= a.quads());
    assert(a.fixups() + Seq::<(nat, Seq<char>)>::empty() =~= a.fixups());
}

proof fn lemma_set_word(a: Seq<u8>, w0: u16, b: Seq<u8>, w: u16)
    ensures
        set_word(a + op(w0) + b, a.len() as int, w) == a + op(w) + b,
{
    assert(set_word(a + op(w0) + b, a.len() as int, w) =~= a + op(w) + b);
}

impl Codegen {
    fn emit(&mut self, w: u16)
        ensures
            appended(*old(self), *final(self), code(op(w))),
    {
        let ghost q0 = self.quads();
        self.rom.push((w >> 8) as u8);
        self.rom.push((w & 0xFF) as u8);
        assert(self.rom@ =~= old(self).rom@ + op(w));
        assert(self.quads() =~= q0 + Seq::<SQuad>::empty());
        assert(self.fixups() =~= old(self).fixups() + Seq::<(nat, Seq<char>)>::empty());
    }

    fn push_quad(&mut self, op: IrOp, a1: Option<String>, a2: Option<String>, r: Option<String>)
        ensures
            appended(
                *old(self),
                *final(self),
                quad(op, crate::ir::view_opt_string(a1), crate::ir::view_opt_string(a2), crate::ir::view_opt_string(r)),
            ),
    {
        let q = Quad { op, arg1: a1, arg2: a2, result: r };
        let ghost q0 = self.ir@;
        self.ir.push(q);
        assert(view_quads(self.ir@) =~= view_quads(q0).push(q@));
        assert(self.quads() =~= old(self).quads() + seq![q@]);
        assert(self.rom@ =~= old(self).rom@ + Seq::<u8>::empty());
        assert(self.fixups() =~= old(self).fixups() + Seq::<(nat, Seq<char>)>::empty());
    }

    fn current_addr(&self) -> (a: u16)
        ensures
            a == addr_of(self.rom().len()),
    {
        ((self.rom.len() % 0x10000 + 0x200) % 0x10000) as u16
    }

    fn patch(&mut self, offset: usize, w: u16)
        requires
            offset + 1 < old(self).rom().len(),
        ensures
            final(self).rom() == set_word(old(self).rom(), offset as int, w),
            final(self).quads() == old(self).quads(),
            final(self).fixups() == old(self).fixups(),
            final(self).env() == old(self).env(),
            final(self).next() == old(self).next(),
            final(self).label() == old(self).label(),
            final(self).ready() == old(self).ready(),
    {
        let n = self.rom.len();
        assert(offset + 1 < n);
        let o1 = offset + 1;
        self.rom.set(offset, (w >> 8) as u8);
        self.rom.set(o1, (w & 0xFF) as u8);
    }

    /// Takes the next work register; see `take_reg`.
    fn alloc_reg(&mut self) -> (r: Result<u8, CodegenError>)
        requires
            old(self).ready(),
        ensures
            match take_reg(old(self).env(), old(self).next()) {
                Ok(x) => r == Ok::<u8, CodegenError>(x) && appended(
                    *old(self),
                    Codegen { next_reg: old(self).next_reg, ..*final(self) },
                    nothing(),
                ) && final(self).next() == (old(self).next() + 1) as u8,
                Err(e) => r is Err && r->Err_0@ == e,
            },
    {
        if self.next_reg > self.work_end {
            return Err(CodegenError::OutOfRegisters(self.work_end));
        }
        let r = self.next_reg;
        self.next_reg = self.next_reg + 1;
        proof { lemma_appended_refl(Codegen { next_reg: old(self).next_reg, ..*self }); }
        Ok(r)
    }

    fn reg_of(&self, name: &String) -> (r: Option<u8>)
        ensures
            r == lookup(self.env().regs, name@),
    {
        let ghost t = self.env().regs;
        let mut i: usize = 0;
        while i < self.registers.len()
            invariant
                i <= self.registers.len(),
                t == view_regs(self.registers@),
                forall|j: int| 0 <= j < i ==> t[j].0 != name@,
            decreases self.registers.len() - i,
        {
            if self.registers[i].0 == *name {
                proof { crate::analyzer::lemma_key_index(t, name@, i as int); }
                return Some(self.registers[i].1);
            }
            i += 1;
        }
        proof { crate::analyzer::lemma_key_index(t, name@, i as int); }
        None
    }

    fn sprite_of(&self, name: &String) -> (r: Option<(u16, u8)>)
        ensures
            r == lookup(self.env().sprites, name@),
    {
        let ghost t = self.env().sprites;
        let mut i: usize = 0;
        while i < self.sprites.len()
            invariant
                i <= self.sprites.len(),
                t == view_sprites(self.sprites@),
                forall|j: int| 0 <= j < i ==> t[j].0 != name@,
            decreases self.sprites.len() - i,
        {
            if self.sprites[i].0 == *name {
                proof { crate::analyzer::lemma_key_index(t, name@, i as int); }
                return Some(self.sprites[i].1);
            }
            i += 1;
        }
        proof { crate::analyzer::lemma_key_index(t, name@, i as int); }
        None
    }

    fn fn_addr_of(&self, name: &String) -> (r: Option<u16>)
        ensures
            r == lookup(self.env().fns, name@),
    {
        let ghost t = self.env().fns;
        let mut i: usize = 0;
        while i < self.fn_addrs.len()
            invariant
                i <= self.fn_addrs.len(),
                t == view_fn_addrs(self.fn_addrs@),
                forall|j: int| 0 <= j < i ==> t[j].0 != name@,
            decreases self.fn_addrs.len() - i,
        {
            if self.fn_addrs[i].0 == *name {
                proof { crate::analyzer::lemma_key_index(t, name@, i as int); }
                return Some(self.fn_addrs[i].1);
            }
            i += 1;
        }
        proof { crate::analyzer::lemma_key_index(t, name@, i as int); }
        None
    }
}


spec fn with_next(c: Codegen, n: u8) -> Codegen {
    Codegen { next_reg: n, ..c }
}

fn ir_of(o: Op) -> (r: IrOp)
    ensures
        r == binop_ir(o),
{
    match o {
        Op::Add => IrOp::Add,
        Op::Sub => IrOp::Sub,
        Op::Mul => IrOp::Mul,
        Op::Div => IrOp::Div,
        Op::Mod => IrOp::Mod,
        Op::EqEq => IrOp::CmpEq,
        Op::NotEq => IrOp::CmpNeq,
        Op::Lt => IrOp::CmpLt,
        Op::Gt => IrOp::CmpGt,
        Op::LtEq => IrOp::CmpLtEq,
        Op::GtEq => IrOp::CmpGtEq,
        Op::And => IrOp::And,
        Op::Or => IrOp::Or,
    }
}

impl Codegen {
    /// The address `k` bytes past the end of the ROM so far.
    fn addr_ahead(&self, k: usize) -> (a: u16)
        requires
            k <= 0x100,
        ensures
            a == addr_of(self.rom().len() + k as nat),
    {
        let m = self.rom.len() % 0x10000;
        proof {
            vstd::arithmetic::div_mod::lemma_add_mod_noop(self.rom@.len() as int, (0x200 + k) as int, 0x10000);
            vstd::arithmetic::div_mod::lemma_small_mod((0x200 + k) as nat, 0x10000);
        }
        ((m + 0x200 + k) % 0x10000) as u16
    }

    /// The quadruple of `lr op rr` into `dest`.
    fn push_binop_quad(&mut self, dest: u8, lr: u8, rr: u8, o: Op)
        ensures
            appended(*old(self), *final(self), quad(binop_ir(o), Some(reg_name(lr)), Some(reg_name(rr)), Some(reg_name(dest)))),
    {
        let k = ir_of(o);
        self.push_quad(k, Some(crate::ir::register_name(lr)), Some(crate::ir::register_name(rr)), Some(crate::ir::register_name(dest)));
    }

    /// Multiplication by repeated addition; see `binop_tail`.
    fn emit_mul(&mut self, dest: u8, lr: u8, rr: u8) -> (r: Result<(), CodegenError>)
        requires
            old(self).ready(),
        ensures
            emit_outcome(binop_tail(old(self).env(), old(self).rom().len(), old(self).next(), dest, lr, rr, Op::Mul), r, *old(self), *final(self)),
    {
        let ghost s0 = *self;
        let saved = self.next_reg;
        self.push_binop_quad(dest, lr, rr, Op::Mul);
        let counter = match self.alloc_reg() {
            Err(x) => { return Err(x); },
            Ok(c) => c,
        };
        let d = (dest as u16) << 8u16;
        let c8 = (counter as u16) << 8u16;
        let loop_start = self.addr_ahead(4);
        let end = self.addr_ahead(16);
        let ghost s1 = *self;
        self.emit(0x6000 | d);
        self.emit(0x8000 | c8 | ((rr as u16) << 4u16));
        self.emit(0x4000 | c8);
        self.emit(0x1000 | end);
        self.emit(0x8004 | d | ((lr as u16) << 4u16));
        self.emit(0x6001);
        self.emit(0x8005 | c8);
        self.emit(0x1000 | loop_start);
        self.next_reg = saved;
        proof {
            let b = op(0x6000u16 | r8(dest)) + op(0x8000u16 | r8(counter) | r4(rr)) + op(0x4000u16 | r8(counter))
                + op(0x1000u16 | end) + op(0x8004u16 | r8(dest) | r4(lr)) + op(0x6001u16)
                + op(0x8005u16 | r8(counter)) + op(0x1000u16 | loop_start);
            assert(self.rom@ =~= s0.rom@ + b);
            assert(self.quads() =~= s0.quads() + binop_tail(s0.env(), s0.rom().len(), s0.next(), dest, lr, rr, Op::Mul)->Ok_0.quads);
            assert(self.fixups() =~= s0.fixups() + Seq::<(nat, Seq<char>)>::empty());
        }
        Ok(())
    }

    /// Division by repeated subtraction; see `binop_tail`.
    fn emit_div(&mut self, dest: u8, lr: u8, rr: u8) -> (r: Result<(), CodegenError>)
        requires
            old(self).ready(),
        ensures
            emit_outcome(binop_tail(old(self).env(), old(self).rom().len(), old(self).next(), dest, lr, rr, Op::Div), r, *old(self), *final(self)),
    {
        let ghost s0 = *self;
        let saved = self.next_reg;
        self.push_binop_quad(dest, lr, rr, Op::Div);
        let counter = match self.alloc_reg() {
            Err(x) => { return Err(x); },
            Ok(c) => c,
        };
        let tmp = match self.alloc_reg() {
            Err(x) => { return Err(x); },
            Ok(t) => t,
        };
        let c8 = (counter as u16) << 8u16;
        let t8 = (tmp as u16) << 8u16;
        let lr4 = (lr as u16) << 4u16;
        let rr4 = (rr as u16) << 4u16;
        let loop_start = self.addr_ahead(2);
        let end = self.addr_ahead(18);
        self.emit(0x6000 | c8);
        self.emit(0x8000 | t8 | lr4);
        self.emit(0x8005 | t8 | rr4);
        self.emit(0x3F01);
        self.emit(0x1000 | end);
        self.emit(0x8005 | ((lr as u16) << 8u16) | rr4);
        self.emit(0x6001);
        self.emit(0x8004 | c8);
        self.emit(0x1000 | loop_start);
        self.emit(0x8000 | ((dest as u16) << 8u16) | ((counter as u16) << 4u16));
        self.next_reg = saved;
        proof {
            let b = op(0x6000u16 | r8(counter)) + op(0x8000u16 | r8(tmp) | r4(lr))
                + op(0x8005u16 | r8(tmp) | r4(rr)) + op(0x3F01u16) + op(0x1000u16 | end)
                + op(0x8005u16 | r8(lr) | r4(rr)) + op(0x6001u16) + op(0x8004u16 | r8(counter))
                + op(0x1000u16 | loop_start) + op(0x8000u16 | r8(dest) | r4(counter));
            assert(self.rom@ =~= s0.rom@ + b);
            assert(self.quads() =~= s0.quads() + binop_tail(s0.env(), s0.rom().len(), s0.next(), dest, lr, rr, Op::Div)->Ok_0.quads);
            assert(self.fixups() =~= s0.fixups() + Seq::<(nat, Seq<char>)>::empty());
        }
        Ok(())
    }

    /// Remainder by repeated subtraction; see `binop_tail`.
    fn emit_mod(&mut self, dest: u8, lr: u8, rr: u8) -> (r: Result<(), CodegenError>)
        requires
            old(self).ready(),
        ensures
            emit_outcome(binop_tail(old(self).env(), old(self).rom().len(), old(self).next(), dest, lr, rr, Op::Mod), r, *old(self), *final(self)),
    {
        let ghost s0 = *self;
        let saved = self.next_reg;
        self.push_binop_quad(dest, lr, rr, Op::Mod);
        let tmp = match self.alloc_reg() {
            Err(x) => { return Err(x); },
            Ok(t) => t,
        };
        let t8 = (tmp as u16) << 8u16;
        let lr4 = (lr as u16) << 4u16;
        let rr4 = (rr as u16) << 4u16;
        let loop_start = self.addr_ahead(0);
        let end = self.addr_ahead(12);
        self.emit(0x8000 | t8 | lr4);
        self.emit(0x8005 | t8 | rr4);
        self.emit(0x3F01);
        self.emit(0x1000 | end);
        self.emit(0x8005 | ((lr as u16) << 8u16) | rr4);
        self.emit(0x1000 | loop_start);
        self.emit(0x8000 | ((dest as u16) << 8u16) | lr4);
        self.next_reg = saved;
        proof {
            let b = op(0x8000u16 | r8(tmp) | r4(lr)) + op(0x8005u16 | r8(tmp) | r4(rr)) + op(0x3F01u16)
                + op(0x1000u16 | end) + op(0x8005u16 | r8(lr) | r4(rr)) + op(0x1000u16 | loop_start)
                + op(0x8000u16 | r8(dest) | r4(lr));
            assert(self.rom@ =~= s0.rom@ + b);
            assert(self.quads() =~= s0.quads() + binop_tail(s0.env(), s0.rom().len(), s0.next(), dest, lr, rr, Op::Mod)->Ok_0.quads);
            assert(self.fixups() =~= s0.fixups() + Seq::<(nat, Seq<char>)>::empty());
        }
        Ok(())
    }

    /// Addition, subtraction, `==` and `!=`; see `binop_tail`.
    fn emit_short_op(&mut self, dest: u8, lr: u8, rr: u8, o: Op) -> (r: Result<(), CodegenError>)
        requires
            o == Op::Add || o == Op::Sub || o == Op::EqEq || o == Op::NotEq,
        ensures
            emit_outcome(binop_tail(old(self).env(), old(self).rom().len(), old(self).next(), dest, lr, rr, o), r, *old(self), *final(self)),
    {
        let ghost s0 = *self;
        self.push_binop_quad(dest, lr, rr, o);
        let d = (dest as u16) << 8u16;
        let lr8 = (lr as u16) << 8u16;
        let lr4 = (lr as u16) << 4u16;
        let rr4 = (rr as u16) << 4u16;
        match o {
            Op::Add => {
                self.emit(0x8004 | lr8 | rr4);
                self.emit(0x8000 | d | lr4);
            },
            Op::Sub => {
                self.emit(0x8005 | lr8 | rr4);
                self.emit(0x8000 | d | lr4);
            },
            Op::EqEq => {
                self.emit(0x6001 | d);
                self.emit(0x5000 | lr8 | rr4);
                self.emit(0x6000 | d);
            },
            _ => {
                self.emit(0x6001 | d);
                self.emit(0x9000 | lr8 | rr4);
                self.emit(0x6000 | d);
            },
        }
        proof {
            let t = binop_tail(s0.env(), s0.rom().len(), s0.next(), dest, lr, rr, o)->Ok_0;
            assert(self.rom@ =~= s0.rom@ + t.bytes);
            assert(self.quads() =~= s0.quads() + t.quads);
            assert(self.fixups() =~= s0.fixups() + t.fixups);
        }
        Ok(())
    }

    /// `<`, `>`, `<=`, `>=`, `and`, `or`; see `binop_tail`.
    fn emit_test_op(&mut self, dest: u8, lr: u8, rr: u8, o: Op) -> (r: Result<(), CodegenError>)
        requires
            o == Op::Lt || o == Op::Gt || o == Op::LtEq || o == Op::GtEq || o == Op::And || o == Op::Or,
        ensures
            emit_outcome(binop_tail(old(self).env(), old(self).rom().len(), old(self).next(), dest, lr, rr, o), r, *old(self), *final(self)),
    {
        let ghost s0 = *self;
        self.push_binop_quad(dest, lr, rr, o);
        let d = (dest as u16) << 8u16;
        let lr8 = (lr as u16) << 8u16;
        let lr4 = (lr as u16) << 4u16;
        let rr8 = (rr as u16) << 8u16;
        let rr4 = (rr as u16) << 4u16;
        match o {
            Op::Lt => {
                self.emit(0x6001 | d);
                self.emit(0x8005 | lr8 | rr4);
                self.emit(0x3F00);
                self.emit(0x6000 | d);
            },
            Op::Gt => {
                self.emit(0x6001 | d);
                self.emit(0x8005 | rr8 | lr4);
                self.emit(0x3F00);
                self.emit(0x6000 | d);
            },
            Op::LtEq => {
                self.emit(0x6001 | d);
                self.emit(0x8005 | rr8 | lr4);
                self.emit(0x3F01);
                self.emit(0x6000 | d);
            },
            Op::GtEq => {
                self.emit(0x6001 | d);
                self.emit(0x8005 | lr8 | rr4);
                self.emit(0x3F01);
                self.emit(0x6000 | d);
            },
            Op::And => {
                self.emit(0x6001 | d);
                self.emit(0x3001 | lr8);
                self.emit(0x6000 | d);
                self.emit(0x3001 | rr8);
                self.emit(0x6000 | d);
            },
            _ => {
                self.emit(0x6000 | d);
                self.emit(0x3001 | lr8);
                self.emit(0x4001 | rr8);
                self.emit(0x6001 | d);
            },
        }
        proof {
            let t = binop_tail(s0.env(), s0.rom().len(), s0.next(), dest, lr, rr, o)->Ok_0;
            assert(self.rom@ =~= s0.rom@ + t.bytes);
            assert(self.quads() =~= s0.quads() + t.quads);
            assert(self.fixups() =~= s0.fixups() + t.fixups);
        }
        Ok(())
    }

    /// The instructions that follow the operands of `lr op rr`; see `binop_tail`.
    fn emit_binop_tail(&mut self, dest: u8, lr: u8, rr: u8, o: Op) -> (r: Result<(), CodegenError>)
        requires
            old(self).ready(),
        ensures
            emit_outcome(binop_tail(old(self).env(), old(self).rom().len(), old(self).next(), dest, lr, rr, o), r, *old(self), *final(self)),
    {
        match o {
            Op::Mul => self.emit_mul(dest, lr, rr),
            Op::Div => self.emit_div(dest, lr, rr),
            Op::Mod => self.emit_mod(dest, lr, rr),
            Op::Add | Op::Sub | Op::EqEq | Op::NotEq => self.emit_short_op(dest, lr, rr, o),
            _ => self.emit_test_op(dest, lr, rr, o),
        }
    }
}


proof fn lemma_join_assoc(a: Emitted, b: Emitted, c: Emitted)
    ensures
        join(join(a, b), c) == join(a, join(b, c)),
{
    assert(join(join(a, b), c).bytes =~= join(a, join(b, c)).bytes);
    assert(join(join(a, b), c).quads =~= join(a, join(b, c)).quads);
    assert(join(join(a, b), c).fixups =~= join(a, join(b, c)).fixups);
}

proof fn lemma_join_nothing(a: Emitted)
    ensures
        join(a, nothing()) == a,
        join(nothing(), a) == a,
{
    assert(join(a, nothing()).bytes =~= a.bytes);
    assert(join(a, nothing()).quads =~= a.quads);
    assert(join(a, nothing()).fixups =~= a.fixups);
    assert(join(nothing(), a).bytes =~= a.bytes);
    assert(join(nothing(), a).quads =~= a.quads);
    assert(join(nothing(), a).fixups =~= a.fixups);
}

/// `(n + k) % 256` for a small `k`, without overflow.
fn wrap8(n: usize, k: u8) -> (r: u8)
    requires
        k <= 2,
    ensures
        r == ((n + k) % 256) as u8,
{
    let m: u8 = (n % 256) as u8;
    assert((n + k) % 256 == ((n % 256) + k) % 256) by {
        vstd::arithmetic::div_mod::lemma_add_mod_noop(n as int, k as int, 256);
        vstd::arithmetic::div_mod::lemma_small_mod(k as nat, 256);
    }
    if m as u16 + k as u16 >= 256 {
        (m as u16 + k as u16 - 256) as u8
    } else {
        m + k
    }
}

impl Codegen {
    /// An instruction preceded by its quadruple.
    fn quad_then(&mut self, k: IrOp, a1: Option<String>, a2: Option<String>, res: Option<String>, w: u16)
        ensures
            appended(
                *old(self),
                *final(self),
                join(
                    quad(k, crate::ir::view_opt_string(a1), crate::ir::view_opt_string(a2), crate::ir::view_opt_string(res)),
                    code(op(w)),
                ),
            ),
    {
        let ghost s0 = *self;
        self.push_quad(k, a1, a2, res);
        let ghost s1 = *self;
        self.emit(w);
        proof {
            lemma_appended_trans(
                s0,
                s1,
                *self,
                quad(k, crate::ir::view_opt_string(a1), crate::ir::view_opt_string(a2), crate::ir::view_opt_string(res)),
                code(op(w)),
            );
        }
    }

    /// The code of `expr` into register `dest`; see `load_code`.
    fn emit_load_expr(&mut self, dest: u8, expr: &Expr) -> (r: Result<(), CodegenError>)
        requires
            old(self).ready(),
        ensures
            emit_outcome(load_code(old(self).env(), old(self).rom().len(), old(self).next(), dest, view_expr(*expr)), r, *old(self), *final(self)),
        decreases expr, 2int,
    {
        let d = (dest as u16) << 8u16;
        match expr {
            Expr::Int(n) => {
                let v: u8 = *n;
                let ds = crate::ir::decimal(v as u32);
                assert(ds@ == numeral(v as nat, 10));
                self.quad_then(IrOp::LoadImm, Some(ds), None, Some(crate::ir::register_name(dest)), 0x6000 | d | (v as u16));
                Ok(())
            },
            Expr::Bool(b) => {
                let n: u16 = if *b { 1 } else { 0 };
                self.quad_then(IrOp::LoadImm, Some(crate::ir::decimal(n as u32)), None, Some(crate::ir::register_name(dest)), 0x6000 | d | n);
                Ok(())
            },
            Expr::Var(name) => {
                let src = match self.reg_of(name) {
                    None => { return Err(CodegenError::NoRegister(name.clone())); },
                    Some(r) => r,
                };
                if src != dest {
                    self.quad_then(IrOp::Copy, Some(name.clone()), None, Some(crate::ir::register_name(dest)), 0x8000 | d | ((src as u16) << 4u16));
                } else {
                    proof { lemma_appended_refl(*self); }
                }
                Ok(())
            },
            Expr::BinOp(..) => self.emit_binop(dest, expr),
            Expr::Not(x) => self.emit_not(dest, expr),
            Expr::Call(name, args) => {
                assert(decreases_to!(expr => args));
                self.emit_call(name, args, Some(dest))
            },
            Expr::Draw(..) => self.emit_draw(dest, expr),
            Expr::DrawDigit(..) => self.emit_draw_digit(dest, expr),
            Expr::GetKey => {
                self.quad_then(IrOp::GetKey, None, None, Some(crate::ir::register_name(dest)), 0xF00A | d);
                Ok(())
            },
            Expr::GetDelay => {
                self.quad_then(IrOp::GetDelay, None, None, Some(crate::ir::register_name(dest)), 0xF007 | d);
                Ok(())
            },
            Expr::KeyPressed(..) => self.emit_key_pressed(dest, expr),
            Expr::Rand(..) => self.emit_rand(dest, expr),
        }
    }

    /// `rand(mask)` into `dest`: the mask must be a literal.
    fn emit_rand(&mut self, dest: u8, expr: &Expr) -> (r: Result<(), CodegenError>)
        requires
            *expr is Rand,
        ensures
            emit_outcome(load_code(old(self).env(), old(self).rom().len(), old(self).next(), dest, view_expr(*expr)), r, *old(self), *final(self)),
    {
        match expr {
            Expr::Rand(mask) => {
                match &**mask {
                    Expr::Int(n) => {
                        let v: u8 = *n;
                        assert(view_expr(**mask) == SExpr::Int(v));
                        let ds = crate::ir::decimal(v as u32);
                        self.quad_then(IrOp::Rand, Some(ds), None, Some(crate::ir::register_name(dest)), 0xC000 | ((dest as u16) << 8u16) | (v as u16));
                        Ok(())
                    },
                    _ => {
                        assert(view_expr(**mask) !is Int);
                        Err(CodegenError::RandMaskNotLiteral)
                    },
                }
            },
            _ => Ok(()),
        }
    }

    /// `not x` into `dest`: `x`, then an exclusive or with 1 through `V0`.
    fn emit_not(&mut self, dest: u8, expr: &Expr) -> (r: Result<(), CodegenError>)
        requires
            old(self).ready(),
            *expr is Not,
        ensures
            emit_outcome(load_code(old(self).env(), old(self).rom().len(), old(self).next(), dest, view_expr(*expr)), r, *old(self), *final(self)),
        decreases expr, 1int,
    {
        let ghost s0 = *self;
        match expr {
            Expr::Not(x) => {
                match self.emit_load_expr(dest, x) {
                    Err(err) => { return Err(err); },
                    Ok(()) => {},
                }
                let ghost s1 = *self;
                self.push_quad(IrOp::Not, Some(crate::ir::register_name(dest)), None, Some(crate::ir::register_name(dest)));
                self.emit(0x6001);
                self.emit(0x8003 | ((dest as u16) << 8u16));
                proof {
                    let ex = load_code(s0.env(), s0.rom().len(), s0.next(), dest, view_expr(**x))->Ok_0;
                    let q = quad(IrOp::Not, Some(reg_name(dest)), None, Some(reg_name(dest)));
                    let tail = op(0x6001u16) + op(0x8003u16 | r8(dest));
                    assert(self.rom@ =~= s0.rom@ + (ex.bytes + tail));
                    assert(self.quads() =~= s0.quads() + (ex.quads + q.quads));
                    assert(self.fixups() =~= s0.fixups() + ex.fixups);
                    let all = join(join(ex, q), code(tail));
                    assert(all.bytes =~= ex.bytes + tail);
                    assert(all.quads =~= ex.quads + q.quads);
                    assert(all.fixups =~= ex.fixups);
                }
                Ok(())
            },
            _ => Ok(()),
        }
    }

    /// `draw(x, y, sprite)` into `dest` (the collision flag); see `load_code`.
    fn emit_draw(&mut self, dest: u8, expr: &Expr) -> (r: Result<(), CodegenError>)
        requires
            old(self).ready(),
            *expr is Draw,
        ensures
            emit_outcome(load_code(old(self).env(), old(self).rom().len(), old(self).next(), dest, view_expr(*expr)), r, *old(self), *final(self)),
        decreases expr, 1int,
    {
        let ghost s0 = *self;
        match expr {
            Expr::Draw(x, y, sprite) => {
                let saved = self.next_reg;
                let xr = match self.alloc_reg() {
                    Err(err) => { return Err(err); },
                    Ok(r) => r,
                };
                let yr = match self.alloc_reg() {
                    Err(err) => { return Err(err); },
                    Ok(r) => r,
                };
                self.push_quad(IrOp::Draw, Some(crate::ir::register_name(xr)), Some(crate::ir::register_name(yr)), Some(sprite.clone()));
                match self.emit_load_expr(xr, x) {
                    Err(err) => { return Err(err); },
                    Ok(()) => {},
                }
                match self.emit_load_expr(yr, y) {
                    Err(err) => { return Err(err); },
                    Ok(()) => {},
                }
                let (a, h) = match self.sprite_of(sprite) {
                    None => { return Err(CodegenError::NoSpriteAddress(sprite.clone())); },
                    Some(p) => p,
                };
                self.emit(0xA000 | a);
                self.emit(0xD000 | ((xr as u16) << 8u16) | ((yr as u16) << 4u16) | (h as u16));
                self.emit(0x80F0 | ((dest as u16) << 8u16));
                self.next_reg = saved;
                proof {
                    let n2 = (s0.next() + 2) as u8;
                    let q = quad(IrOp::Draw, Some(reg_name(xr)), Some(reg_name(yr)), Some(sprite@));
                    let ex = load_code(s0.env(), s0.rom().len(), n2, xr, view_expr(**x))->Ok_0;
                    let ey = load_code(s0.env(), s0.rom().len() + ex.bytes.len(), n2, yr, view_expr(**y))->Ok_0;
                    let tail = op(0xA000u16 | a) + op(0xD000u16 | r8(xr) | r4(yr) | (h as u16)) + op(0x80F0u16 | r8(dest));
                    assert(self.rom@ =~= s0.rom@ + (ex.bytes + ey.bytes + tail));
                    assert(self.quads() =~= s0.quads() + (q.quads + ex.quads + ey.quads));
                    assert(self.fixups() =~= s0.fixups() + (ex.fixups + ey.fixups));
                    let all = join(join(join(q, ex), ey), code(tail));
                    assert(all.bytes =~= ex.bytes + ey.bytes + tail);
                    assert(all.quads =~= q.quads + ex.quads + ey.quads);
                    assert(all.fixups =~= ex.fixups + ey.fixups);
                }
                Ok(())
            },
            _ => Ok(()),
        }
    }

    /// `drawdigit(x, y, n)` into `dest`; see `load_code`.
    fn emit_draw_digit(&mut self, dest: u8, expr: &Expr) -> (r: Result<(), CodegenError>)
        requires
            old(self).ready(),
            *expr is DrawDigit,
        ensures
            emit_outcome(load_code(old(self).env(), old(self).rom().len(), old(self).next(), dest, view_expr(*expr)), r, *old(self), *final(self)),
        decreases expr, 1int,
    {
        let ghost s0 = *self;
        match expr {
            Expr::DrawDigit(x, y, n) => {
                let saved = self.next_reg;
                let xr = match self.alloc_reg() {
                    Err(err) => { return Err(err); },
                    Ok(r) => r,
                };
                let yr = match self.alloc_reg() {
                    Err(err) => { return Err(err); },
                    Ok(r) => r,
                };
                let nr = match self.alloc_reg() {
                    Err(err) => { return Err(err); },
                    Ok(r) => r,
                };
                self.push_quad(IrOp::DrawDigit, Some(crate::ir::register_name(xr)), Some(crate::ir::register_name(yr)), Some(crate::ir::register_name(nr)));
                match self.emit_load_expr(xr, x) {
                    Err(err) => { return Err(err); },
                    Ok(()) => {},
                }
                match self.emit_load_expr(yr, y) {
                    Err(err) => { return Err(err); },
                    Ok(()) => {},
                }
                match self.emit_load_expr(nr, n) {
                    Err(err) => { return Err(err); },
                    Ok(()) => {},
                }
                let n8 = (nr as u16) << 8u16;
                self.emit(0x600F);
                self.emit(0x8002 | n8);
                self.emit(0xF029 | n8);
                self.emit(0xD005 | ((xr as u16) << 8u16) | ((yr as u16) << 4u16));
                self.emit(0x80F0 | ((dest as u16) << 8u16));
                self.next_reg = saved;
                proof {
                    let n3 = (s0.next() + 3) as u8;
                    let q = quad(IrOp::DrawDigit, Some(reg_name(xr)), Some(reg_name(yr)), Some(reg_name(nr)));
                    let ex = load_code(s0.env(), s0.rom().len(), n3, xr, view_expr(**x))->Ok_0;
                    let ey = load_code(s0.env(), s0.rom().len() + ex.bytes.len(), n3, yr, view_expr(**y))->Ok_0;
                    let en = load_code(s0.env(), s0.rom().len() + ex.bytes.len() + ey.bytes.len(), n3, nr, view_expr(**n))->Ok_0;
                    let tail = op(0x600Fu16) + op(0x8002u16 | r8(nr)) + op(0xF029u16 | r8(nr)) + op(0xD005u16 | r8(xr) | r4(yr))
                        + op(0x80F0u16 | r8(dest));
                    assert(self.rom@ =~= s0.rom@ + (ex.bytes + ey.bytes + en.bytes + tail));
                    assert(self.quads() =~= s0.quads() + (q.quads + ex.quads + ey.quads + en.quads));
                    assert(self.fixups() =~= s0.fixups() + (ex.fixups + ey.fixups + en.fixups));
                    let all = join(join(join(join(q, ex), ey), en), code(tail));
                    assert(all.bytes =~= ex.bytes + ey.bytes + en.bytes + tail);
                    assert(all.quads =~= q.quads + ex.quads + ey.quads + en.quads);
                    assert(all.fixups =~= ex.fixups + ey.fixups + en.fixups);
                }
                Ok(())
            },
            _ => Ok(()),
        }
    }

    /// `keypressed(k)` into `dest`; see `load_code`.
    fn emit_key_pressed(&mut self, dest: u8, expr: &Expr) -> (r: Result<(), CodegenError>)
        requires
            old(self).ready(),
            *expr is KeyPressed,
        ensures
            emit_outcome(load_code(old(self).env(), old(self).rom().len(), old(self).next(), dest, view_expr(*expr)), r, *old(self), *final(self)),
        decreases expr, 1int,
    {
        let ghost s0 = *self;
        match expr {
            Expr::KeyPressed(k) => {
                let saved = self.next_reg;
                let kr = match self.alloc_reg() {
                    Err(err) => { return Err(err); },
                    Ok(r) => r,
                };
                self.push_quad(IrOp::KeyPressed, Some(crate::ir::register_name(kr)), None, Some(crate::ir::register_name(dest)));
                match self.emit_load_expr(kr, k) {
                    Err(err) => { return Err(err); },
                    Ok(()) => {},
                }
                let d = (dest as u16) << 8u16;
                self.emit(0x6001 | d);
                self.emit(0xE09E | ((kr as u16) << 8u16));
                self.emit(0x6000 | d);
                self.next_reg = saved;
                proof {
                    let q = quad(IrOp::KeyPressed, Some(reg_name(kr)), None, Some(reg_name(dest)));
                    let ek = load_code(s0.env(), s0.rom().len(), (s0.next() + 1) as u8, kr, view_expr(**k))->Ok_0;
                    let tail = op(0x6001u16 | r8(dest)) + op(0xE09Eu16 | r8(kr)) + op(0x6000u16 | r8(dest));
                    assert(self.rom@ =~= s0.rom@ + (ek.bytes + tail));
                    assert(self.quads() =~= s0.quads() + (q.quads + ek.quads));
                    assert(self.fixups() =~= s0.fixups() + ek.fixups);
                    let all = join(join(q, ek), code(tail));
                    assert(all.bytes =~= ek.bytes + tail);
                    assert(all.quads =~= q.quads + ek.quads);
                    assert(all.fixups =~= ek.fixups);
                }
                Ok(())
            },
            _ => Ok(()),
        }
    }

    /// The code of a binary operation into `dest`; see `binop_code`.
    fn emit_binop(&mut self, dest: u8, expr: &Expr) -> (r: Result<(), CodegenError>)
        requires
            old(self).ready(),
        ensures
            emit_outcome(binop_code(old(self).env(), old(self).rom().len(), old(self).next(), dest, view_expr(*expr)), r, *old(self), *final(self)),
        decreases expr, 1int,
    {
        let ghost s0 = *self;
        match expr {
            Expr::BinOp(left, o, right) => {
                let saved = self.next_reg;
                let lr = match self.alloc_reg() {
                    Err(err) => { return Err(err); },
                    Ok(r) => r,
                };
                let rr = match self.alloc_reg() {
                    Err(err) => { return Err(err); },
                    Ok(r) => r,
                };
                match self.emit_load_expr(lr, left) {
                    Err(err) => { return Err(err); },
                    Ok(()) => {},
                }
                match self.emit_load_expr(rr, right) {
                    Err(err) => { return Err(err); },
                    Ok(()) => {},
                }
                let zero_divisor = match **right {
                    Expr::Int(0) => true,
                    _ => false,
                };
                if zero_divisor {
                    match o {
                        Op::Div => { return Err(CodegenError::DivisionByZero); },
                        Op::Mod => { return Err(CodegenError::ModuloByZero); },
                        _ => {},
                    }
                }
                match self.emit_binop_tail(dest, lr, rr, *o) {
                    Err(err) => { return Err(err); },
                    Ok(()) => {},
                }
                self.next_reg = saved;
                proof {
                    let n2 = (s0.next() + 2) as u8;
                    let el = load_code(s0.env(), s0.rom().len(), n2, lr, view_expr(**left))->Ok_0;
                    let er = load_code(s0.env(), s0.rom().len() + el.bytes.len(), n2, rr, view_expr(**right))->Ok_0;
                    let et = binop_tail(s0.env(), s0.rom().len() + el.bytes.len() + er.bytes.len(), n2, dest, lr, rr, *o)->Ok_0;
                    assert(self.rom@ =~= s0.rom@ + (el.bytes + er.bytes + et.bytes));
                    assert(self.quads() =~= s0.quads() + (el.quads + er.quads + et.quads));
                    assert(self.fixups() =~= s0.fixups() + (el.fixups + er.fixups + et.fixups));
                }
                Ok(())
            },
            _ => {
                proof { lemma_appended_refl(*self); }
                Ok(())
            },
        }
    }

    /// A call of `name` with `args`; see `call_code`.
    #[verifier::rlimit(50)]
    fn emit_call(&mut self, name: &String, args: &Vec<Expr>, dest: Option<u8>) -> (r: Result<(), CodegenError>)
        requires
            old(self).ready(),
        ensures
            emit_outcome(call_code(old(self).env(), old(self).rom().len(), old(self).next(), name@, view_exprs(args@), dest), r, *old(self), *final(self)),
        decreases args, args@.len() + 1,
    {
        let ghost s0 = *self;
        let ghost env = self.env();
        let ghost av = view_exprs(args@);
        let argc = (args.len() % 256) as u8;
        let we = self.work_end;
        let save_addr = self.save_area_addrs[self.current_depth];
        self.push_quad(IrOp::Call, Some(name.clone()), Some(crate::ir::decimal(argc as u32)), None);
        self.emit(0xA000 | save_addr);
        self.emit(0xF055 | ((we as u16) << 8));
        let ghost s1 = *self;
        let saved_next = self.next_reg;
        let ghost pc1 = self.rom().len();
        let ghost mut acc = nothing();
        let mut i: usize = 0;
        proof { lemma_appended_refl(*self); }
        while i < args.len()
            invariant
                i <= args.len(),
                s0 == *old(self),
                env == s0.env(),
                pc1 == s0.rom().len() + 4,
                av == view_exprs(args@),
                self.ready(),
                self.env() == env,
                saved_next == s0.next(),
                s1.rom().len() == pc1,
                s1.next() == saved_next,
                i > 0 ==> saved_next + i - 1 <= env.work_end,
                appended(with_next(s1, self.next()), *self, acc),
                args_code(env, pc1, saved_next, av, 0) == match args_code(env, pc1 + acc.bytes.len(), saved_next, av, i as int) {
                    Ok(rest) => Ok::<Emitted, SCodegenError>(join(acc, rest)),
                    Err(x) => Err(x),
                },
            decreases args.len() - i,
        {
            assert(decreases_to!(args => args@[i as int]));
            if i > 255 || saved_next as usize + i > self.work_end as usize {
                return Err(CodegenError::OutOfRegisters(self.work_end));
            }
            let t = (saved_next as usize + i) as u8;
            self.next_reg = t + 1;
            let ghost si = *self;
            proof { lemma_appended_refl(si); }
            match self.emit_load_expr(t, &args[i]) {
                Err(err) => { return Err(err); },
                Ok(()) => {},
            }
            proof {
                let n1 = ((saved_next + i + 1) % 256) as u8;
                assert(n1 == si.next());
                let ea = load_code(env, pc1 + acc.bytes.len(), n1, t, av[i as int])->Ok_0;
                lemma_appended_trans(with_next(s1, si.next()), si, *self, acc, ea);
                let rest = args_code(env, pc1 + acc.bytes.len() + ea.bytes.len(), saved_next, av, i + 1);
                if rest is Ok {
                    lemma_join_assoc(acc, ea, rest->Ok_0);
                }
                acc = join(acc, ea);
            }
            i += 1;
        }
        proof { lemma_join_nothing(acc); }
        self.next_reg = saved_next;
        let ghost sm = *self;
        let ghost mut mv: Seq<u8> = Seq::empty();
        let mut j: usize = 0;
        while j < args.len()
            invariant
                j <= args.len(),
                args.len() > 0 ==> saved_next + args.len() - 1 <= sm.env().work_end,
                sm.env().work_end < 15,
                self.ready(),
                appended(sm, *self, code(mv)),
                arg_moves(saved_next, args.len() as int, 0) == mv + arg_moves(saved_next, args.len() as int, j as int),
            decreases args.len() - j,
        {
            let t = (saved_next as usize + j) as u8;
            let r = (j + 1) as u8;
            let ghost sj = *self;
            proof {
                assert(((saved_next + j) % 256) as u8 == t);
                assert(((j + 1) % 256) as u8 == r);
            }
            if t != r {
                self.emit(0x8000 | ((r as u16) << 8u16) | ((t as u16) << 4u16));
                proof {
                    let w = op(0x8000u16 | r8(r) | r4(t));
                    lemma_appended_trans(sm, sj, *self, code(mv), code(w));
                    assert(join(code(mv), code(w)) == code(mv + w));
                    assert(mv + (w + arg_moves(saved_next, args.len() as int, j + 1)) =~= (mv + w) + arg_moves(saved_next, args.len() as int, j + 1));
                    mv = mv + w;
                }
            } else {
                proof {
                    assert(mv + (Seq::<u8>::empty() + arg_moves(saved_next, args.len() as int, j + 1)) =~= mv + arg_moves(saved_next, args.len() as int, j + 1));
                }
            }
            j += 1;
        }
        proof {
            assert(arg_moves(saved_next, args.len() as int, j as int) =~= Seq::<u8>::empty());
            assert(mv =~= arg_moves(saved_next, args.len() as int, 0));
        }
        let ghost s2 = *self;
        match self.fn_addr_of(name) {
            Some(a) => {
                self.emit(0x2000 | a);
            },
            None => {
                let off = self.rom.len();
                self.emit(0x2000);
                let ghost f0 = self.call_fixups@;
                self.call_fixups.push((off, name.clone()));
                assert(view_fixups(self.call_fixups@) =~= view_fixups(f0).push((off as nat, name@)));
            },
        }
        let ghost s3 = *self;
        let ret: u8 = if argc == 255 { 0 } else { argc + 1 };
        self.emit(0x8F00 | ((ret as u16) << 4));
        self.emit(0xA000 | save_addr);
        self.emit(0xF065 | ((we as u16) << 8));
        match dest {
            Some(dd) => {
                self.emit(0x80F0 | ((dd as u16) << 8));
            },
            None => {},
        }
        self.next_reg = saved_next;
        proof {
            let head = join(
                quad(IrOp::Call, Some(name@), Some(numeral(argc as nat, 10)), None),
                code(op(0xA000u16 | save_addr) + op(0xF055u16 | r8(we))),
            );
            let call = match lookup(env.fns, name@) {
                Some(a) => code(op(0x2000u16 | a)),
                None => Emitted { bytes: op(0x2000u16), quads: Seq::empty(), fixups: seq![(pc1 + acc.bytes.len() + mv.len(), name@)] },
            };
            let tail_b = op(0x8F00u16 | r4(ret)) + op(0xA000u16 | save_addr) + op(0xF065u16 | r8(we)) + match dest {
                Some(dd) => op(0x80F0u16 | r8(dd)),
                None => Seq::empty(),
            };
            assert(self.rom@ =~= s0.rom@ + (head.bytes + acc.bytes + mv + call.bytes + tail_b));
            assert(self.quads() =~= s0.quads() + (head.quads + acc.quads + call.quads));
            assert(self.fixups() =~= s0.fixups() + (acc.fixups + call.fixups));
            let all = join(join(join(join(head, acc), code(mv)), call), code(tail_b));
            assert(all.bytes =~= head.bytes + acc.bytes + mv + call.bytes + tail_b);
            assert(all.quads =~= head.quads + acc.quads + call.quads);
            assert(all.fixups =~= acc.fixups + call.fixups);
        }
        Ok(())
    }
}


/// Like `appended`, the label counter ending at `l`.
spec fn appended_at(before: Codegen, after: Codegen, e: Emitted, l: u32) -> bool {
    &&& after.rom() == before.rom() + e.bytes
    &&& after.quads() == before.quads() + e.quads
    &&& after.fixups() == before.fixups() + e.fixups
    &&& after.env() == before.env()
    &&& after.next() == before.next()
    &&& after.label() == l
    &&& after.ready() == before.ready()
}

spec fn stmt_outcome(s: StmtRes, r: Result<(), CodegenError>, before: Codegen, after: Codegen) -> bool {
    match s {
        Ok((e, l)) => r is Ok && appended_at(before, after, e, l),
        Err(x) => r is Err && r->Err_0@ == x,
    }
}

proof fn lemma_appended_at_trans(a: Codegen, b: Codegen, c: Codegen, e1: Emitted, e2: Emitted, l1: u32, l2: u32)
    requires
        appended_at(a, b, e1, l1),
        appended_at(b, c, e2, l2),
    ensures
        appended_at(a, c, join(e1, e2), l2),
{
    assert(a.rom() + e1.bytes + e2.bytes =~= a.rom() + (e1.bytes + e2.bytes));
    assert(a.quads() + e1.quads + e2.quads =~= a.quads() + (e1.quads + e2.quads));
    assert(a.fixups() + e1.fixups + e2.fixups =~= a.fixups() + (e1.fixups + e2.fixups));
}

impl Codegen {
    /// The test of a comparison `l op r`: both sides into fresh work
    /// registers, then the skip; see `cond_prefix`.
    fn emit_compare_test(&mut self, cond: &Expr) -> (r: Result<(), CodegenError>)
        requires
            old(self).ready(),
            *cond matches Expr::BinOp(_, o, _) && is_comparison(o),
        ensures
            emit_outcome(cond_prefix(old(self).env(), old(self).rom().len(), old(self).next(), view_expr(*cond)), r, *old(self), *final(self)),
    {
        proof { reveal(cond_prefix); }
        let ghost s0 = *self;
        match cond {
            Expr::BinOp(left, o, right) => {
                let saved = self.next_reg;
                let lr = match self.alloc_reg() {
                    Err(x) => { return Err(x); },
                    Ok(r) => r,
                };
                let rr = match self.alloc_reg() {
                    Err(x) => { return Err(x); },
                    Ok(r) => r,
                };
                match self.emit_load_expr(lr, left) {
                    Err(x) => { return Err(x); },
                    Ok(()) => {},
                }
                match self.emit_load_expr(rr, right) {
                    Err(x) => { return Err(x); },
                    Ok(()) => {},
                }
                let ghost s3 = *self;
                let lr8 = (lr as u16) << 8u16;
                let lr4 = (lr as u16) << 4u16;
                let rr8 = (rr as u16) << 8u16;
                let rr4 = (rr as u16) << 4u16;
                match *o {
                    Op::EqEq => { self.emit(0x5000 | lr8 | rr4); },
                    Op::NotEq => { self.emit(0x9000 | lr8 | rr4); },
                    Op::Lt => {
                        self.emit(0x8005 | lr8 | rr4);
                        self.emit(0x3F00);
                    },
                    Op::Gt => {
                        self.emit(0x8005 | rr8 | lr4);
                        self.emit(0x3F00);
                    },
                    Op::LtEq => {
                        self.emit(0x8005 | rr8 | lr4);
                        self.emit(0x3F01);
                    },
                    _ => {
                        self.emit(0x8005 | lr8 | rr4);
                        self.emit(0x3F01);
                    },
                }
                self.next_reg = saved;
                proof {
                    let n2 = (s0.next() + 2) as u8;
                    let el = load_code(s0.env(), s0.rom().len(), n2, lr, view_expr(**left))->Ok_0;
                    let er = load_code(s0.env(), s0.rom().len() + el.bytes.len(), n2, rr, view_expr(**right))->Ok_0;
                    let pre = cond_prefix(s0.env(), s0.rom().len(), s0.next(), view_expr(*cond))->Ok_0;
                    let o = *o;
                    let tb = if o == Op::EqEq {
                        op(0x5000u16 | r8(lr) | r4(rr))
                    } else if o == Op::NotEq {
                        op(0x9000u16 | r8(lr) | r4(rr))
                    } else if o == Op::Lt {
                        op(0x8005u16 | r8(lr) | r4(rr)) + op(0x3F00u16)
                    } else if o == Op::Gt {
                        op(0x8005u16 | r8(rr) | r4(lr)) + op(0x3F00u16)
                    } else if o == Op::LtEq {
                        op(0x8005u16 | r8(rr) | r4(lr)) + op(0x3F01u16)
                    } else {
                        op(0x8005u16 | r8(lr) | r4(rr)) + op(0x3F01u16)
                    };
                    assert(self.rom@ =~= s3.rom@ + tb);
                    assert(pre == join(join(el, er), code(tb)));
                    assert(self.rom@ =~= s0.rom@ + pre.bytes);
                    assert(self.quads() =~= s0.quads() + pre.quads);
                    assert(self.fixups() =~= s0.fixups() + pre.fixups);
                }
                Ok(())
            },
            _ => Ok(()),
        }
    }

    /// The value of `cond` into a fresh work register, then the skip; see
    /// `value_test`.
    fn emit_value_test(&mut self, cond: &Expr) -> (r: Result<(), CodegenError>)
        requires
            old(self).ready(),
        ensures
            emit_outcome(value_test(old(self).env(), old(self).rom().len(), old(self).next(), view_expr(*cond)), r, *old(self), *final(self)),
    {
        let ghost s0 = *self;
        let saved = self.next_reg;
        let r = match self.alloc_reg() {
            Err(x) => { return Err(x); },
            Ok(r) => r,
        };
        match self.emit_load_expr(r, cond) {
            Err(x) => { return Err(x); },
            Ok(()) => {},
        }
        self.emit(0x3001 | ((r as u16) << 8u16));
        self.next_reg = saved;
        proof {
            let ev = load_code(s0.env(), s0.rom().len(), (s0.next() + 1) as u8, r, view_expr(*cond))->Ok_0;
            let pre = join(ev, code(op(0x3001u16 | r8(r))));
            assert(self.rom@ =~= s0.rom@ + pre.bytes);
            assert(self.quads() =~= s0.quads() + pre.quads);
            assert(self.fixups() =~= s0.fixups() + pre.fixups);
        }
        Ok(())
    }

    /// The test of `cond`, after which the next instruction is skipped
    /// when the condition holds; see `cond_prefix`.
    fn emit_cond_prefix(&mut self, cond: &Expr) -> (r: Result<(), CodegenError>)
        requires
            old(self).ready(),
        ensures
            emit_outcome(cond_prefix(old(self).env(), old(self).rom().len(), old(self).next(), view_expr(*cond)), r, *old(self), *final(self)),
    {
        proof { reveal(cond_prefix); }
        match cond {
            Expr::Var(name) => {
                let r = match self.reg_of(name) {
                    None => { return Err(CodegenError::NoRegister(name.clone())); },
                    Some(r) => r,
                };
                self.emit(0x3001 | ((r as u16) << 8u16));
                Ok(())
            },
            Expr::BinOp(_, o, _) => {
                if *o == Op::EqEq || *o == Op::NotEq || *o == Op::Lt || *o == Op::Gt || *o == Op::LtEq || *o == Op::GtEq {
                    self.emit_compare_test(cond)
                } else {
                    self.emit_value_test(cond)
                }
            },
            _ => self.emit_value_test(cond),
        }
    }

    /// The test of `cond` and a jump to patch, taken when the condition
    /// fails; gives the jump's offset.
    fn emit_cond_jump(&mut self, cond: &Expr) -> (r: Result<usize, CodegenError>)
        requires
            old(self).ready(),
        ensures
            match cond_prefix(old(self).env(), old(self).rom().len(), old(self).next(), view_expr(*cond)) {
                Ok(e) => r is Ok && r->Ok_0 == old(self).rom().len() + e.bytes.len() && appended(
                    *old(self),
                    *final(self),
                    join(e, code(op(0x1000u16))),
                ),
                Err(x) => r is Err && r->Err_0@ == x,
            },
    {
        let ghost s0 = *self;
        match self.emit_cond_prefix(cond) {
            Err(x) => { return Err(x); },
            Ok(()) => {},
        }
        let ghost s1 = *self;
        let offset = self.rom.len();
        self.emit(0x1000);
        proof {
            let pre = cond_prefix(s0.env(), s0.rom().len(), s0.next(), view_expr(*cond))->Ok_0;
            lemma_appended_trans(s0, s1, *self, pre, code(op(0x1000u16)));
        }
        Ok(offset)
    }
}


proof fn lemma_block_code_err(env: GenEnv, pc: nat, next: u8, label: u32, b: Seq<SStmt>, k: int)
    requires
        0 <= k <= b.len(),
        block_code(env, pc, next, label, b.take(k)) is Err,
    ensures
        block_code(env, pc, next, label, b) == block_code(env, pc, next, label, b.take(k)),
    decreases b.len() - k,
{
    if k < b.len() {
        assert(b.take(k + 1).drop_last() == b.take(k));
        lemma_block_code_err(env, pc, next, label, b, k + 1);
    } else {
        assert(b.take(k) == b);
    }
}

pub(crate) proof fn lemma_set_word_concat(a: Seq<u8>, x: Seq<u8>, k: int, w: u16)
    requires
        0 <= k,
        k + 1 < x.len(),
    ensures
        set_word(a + x, a.len() + k, w) == a + set_word(x, k, w),
{
    assert(set_word(a + x, a.len() + k, w) =~= a + set_word(x, k, w));
}

/// Jumps to patch lie inside the code that records them.
pub open spec fn offsets_inside(offs: Seq<nat>, pc: nat, len: nat) -> bool {
    forall|k: int| 0 <= k < offs.len() ==> pc <= #[trigger] offs[k] && offs[k] + 2 <= pc + len
}

#[verifier::rlimit(30)]
pub(crate) proof fn lemma_elifs_offsets(env: GenEnv, pc: nat, next: u8, label: u32, end_lbl: Seq<char>, es: Seq<SElseIf>, i: int)
    requires
        elifs_code(env, pc, next, label, end_lbl, es, i) is Ok,
    ensures
        ({
            let (e, offs, l) = elifs_code(env, pc, next, label, end_lbl, es, i)->Ok_0;
            offsets_inside(offs, pc, e.bytes.len())
        }),
    decreases es.len() - i,
{
    if 0 <= i < es.len() {
        let (e1, o1, l1) = branch_code(env, pc, next, label, end_lbl, es[i].condition, es[i].body)->Ok_0;
        lemma_elifs_offsets(env, pc + e1.bytes.len(), next, l1, end_lbl, es, i + 1);
        let (e2, o2, l2) = elifs_code(env, pc + e1.bytes.len(), next, l1, end_lbl, es, i + 1)->Ok_0;
        let offs = o1 + o2;
        assert forall|k: int| 0 <= k < offs.len() implies pc <= #[trigger] offs[k] && offs[k] + 2 <= pc + e1.bytes.len() + e2.bytes.len() by {
            if k >= 1 {
                assert(offs[k] == o2[k - 1]);
            }
        }
    }
}

pub(crate) proof fn lemma_patch_len(s: Seq<u8>, base: nat, offs: Seq<nat>, t: u16)
    requires
        offsets_inside(offs, base, s.len()),
    ensures
        patch_jumps(s, base, offs, t).len() == s.len(),
    decreases offs.len(),
{
    if offs.len() > 0 {
        lemma_patch_len(s, base, offs.drop_last(), t);
    }
}

/// The states of `emit_branch` put together: the jump over the body
/// patched to `after`.
proof fn lemma_branch_pieces(
    s0: Codegen, sa: Codegen, s1: Codegen, s2: Codegen, s3: Codegen, s5: Codegen, s6: Codegen,
    ec: Emitted, eb: Emitted, q_jf: Emitted, q_j: Emitted, q_l: Emitted, skip_n: u32, l2: u32, after: u16,
)
    requires
        appended_at(s0, sa, nothing(), next_label(skip_n)),
        appended(sa, s1, q_jf),
        appended(s1, s2, join(ec, code(op(0x1000u16)))),
        appended_at(s2, s3, eb, l2),
        appended(s3, s5, join(join(q_j, code(op(0x1000u16))), q_l)),
        q_jf.bytes.len() == 0,
        q_j.bytes.len() == 0,
        q_l.bytes.len() == 0,
        s6.rom() == set_word(s5.rom(), (s0.rom().len() + ec.bytes.len()) as int, 0x1000u16 | after),
        s6.quads() == s5.quads(),
        s6.fixups() == s5.fixups(),
        s6.env() == s5.env(),
        s6.next() == s5.next(),
        s6.label() == s5.label(),
        s6.ready() == s5.ready(),
    ensures
        appended_at(
            s0,
            s6,
            join(
                join(q_jf, join(join(ec, code(jp(after))), eb)),
                join(join(q_j, code(op(0x1000u16))), q_l),
            ),
            l2,
        ),
{
    let all = join(
        join(q_jf, join(join(ec, code(jp(after))), eb)),
        join(join(q_j, code(op(0x1000u16))), q_l),
    );
    assert(s5.rom() =~= s0.rom() + ec.bytes + op(0x1000u16) + (eb.bytes + op(0x1000u16)));
    lemma_set_word(s0.rom() + ec.bytes, 0x1000u16, eb.bytes + op(0x1000u16), 0x1000u16 | after);
    assert(s6.rom() =~= s0.rom() + all.bytes);
    assert(s6.quads() =~= s0.quads() + all.quads);
    assert(s6.fixups() =~= s0.fixups() + all.fixups);
}

impl Codegen {
    fn fresh_label(&mut self) -> (n: u32)
        ensures
            n == old(self).label(),
            appended_at(*old(self), *final(self), nothing(), next_label(n)),
    {
        let n = self.ir_label;
        if self.ir_label == u32::MAX {
            self.ir_label = 0;
        } else {
            self.ir_label = self.ir_label + 1;
        }
        proof { lemma_appended_refl(*old(self)); }
        n
    }

    /// The statements of a block; see `block_code`.
    fn emit_block(&mut self, stmts: &Vec<Stmt>) -> (r: Result<(), CodegenError>)
        requires
            old(self).ready(),
        ensures
            stmt_outcome(block_code(old(self).env(), old(self).rom().len(), old(self).next(), old(self).label(), view_stmts(stmts@)), r, *old(self), *final(self)),
        decreases stmts, 0int,
    {
        let ghost s0 = *self;
        let ghost b = view_stmts(stmts@);
        let ghost mut acc = nothing();
        let mut i: usize = 0;
        proof { lemma_appended_refl(s0); }
        assert(b.take(0) =~= Seq::<SStmt>::empty());
        while i < stmts.len()
            invariant
                i <= stmts.len(),
                b == view_stmts(stmts@),
                s0 == *old(self),
                self.ready(),
                appended_at(s0, *self, acc, self.label()),
                block_code(s0.env(), s0.rom().len(), s0.next(), s0.label(), b.take(i as int)) == Ok::<(Emitted, u32), SCodegenError>((acc, self.label())),
            decreases stmts.len() - i,
        {
            assert(decreases_to!(stmts => stmts@[i as int]));
            assert(b.take(i + 1).drop_last() == b.take(i as int));
            assert(b.take(i + 1)[i as int] == view_stmt(stmts@[i as int]));
            let ghost si = *self;
            match self.emit_stmt(&stmts[i]) {
                Err(x) => {
                    proof { lemma_block_code_err(s0.env(), s0.rom().len(), s0.next(), s0.label(), b, i + 1); }
                    return Err(x);
                },
                Ok(()) => {},
            }
            proof {
                let (e2, l2) = stmt_code(s0.env(), s0.rom().len() + acc.bytes.len(), s0.next(), si.label(), b[i as int])->Ok_0;
                lemma_appended_at_trans(s0, si, *self, acc, e2, si.label(), l2);
                acc = join(acc, e2);
            }
            i += 1;
        }
        assert(b.take(i as int) == b);
        Ok(())
    }

    /// One branch of an `if`; gives the offset of its jump to the end.
    /// See `branch_code`.
    fn emit_branch(&mut self, end_lbl: &String, c: &Expr, body: &Vec<Stmt>) -> (r: Result<usize, CodegenError>)
        requires
            old(self).ready(),
        ensures
            match branch_code(old(self).env(), old(self).rom().len(), old(self).next(), old(self).label(), end_lbl@, view_expr(*c), view_stmts(body@)) {
                Ok((e, offs, l)) => r is Ok && offs == seq![r->Ok_0 as nat] && appended_at(*old(self), *final(self), e, l),
                Err(x) => r is Err && r->Err_0@ == x,
            },
        decreases body, 1int,
    {
        let ghost s0 = *self;
        let skip_n = self.fresh_label();
        let ghost sa = *self;
        let skip_s = crate::ir::label_string(skip_n);
        proof { reveal_strlit("cond"); }
        assert("cond"@ =~= cond_name());
        let cs = String::from_str("cond");
        self.push_quad(IrOp::JumpFalse, Some(cs), Some(skip_s.clone()), None);
        let ghost s1 = *self;
        let skip = match self.emit_cond_jump(c) {
            Err(x) => { return Err(x); },
            Ok(o) => o,
        };
        let ghost s2 = *self;
        match self.emit_block(body) {
            Err(x) => { return Err(x); },
            Ok(()) => {},
        }
        let ghost s3 = *self;
        let end_name = end_lbl.clone();
        self.push_quad(IrOp::Jump, Some(end_name), None, None);
        let ghost s3b = *self;
        let end_off = self.rom.len();
        self.emit(0x1000);
        let ghost s4 = *self;
        let after = self.current_addr();
        self.push_quad(IrOp::Label, Some(skip_s), None, None);
        let ghost s5 = *self;
        self.patch(skip, 0x1000 | after);
        proof {
            let skip_lbl = label_name(skip_n);
            let q_jf = quad(IrOp::JumpFalse, Some(cond_name()), Some(skip_lbl), None);
            let q_j = quad(IrOp::Jump, Some(end_lbl@), None, None);
            let q_l = quad(IrOp::Label, Some(skip_lbl), None, None);
            lemma_appended_trans(s3, s3b, s4, q_j, code(op(0x1000u16)));
            lemma_appended_trans(s3, s4, s5, join(q_j, code(op(0x1000u16))), q_l);
            let ec = cond_prefix(s0.env(), s0.rom().len(), s0.next(), view_expr(*c))->Ok_0;
            let (eb, l2) = block_code(s0.env(), s0.rom().len() + ec.bytes.len() + 2, s0.next(), next_label(skip_n), view_stmts(body@))->Ok_0;
            lemma_branch_pieces(s0, sa, s1, s2, s3, s5, *self, ec, eb, q_jf, q_j, q_l, skip_n, l2, after);
        }
        Ok(end_off)
    }
}


impl Codegen {
    /// The code of one statement; see `stmt_code`.
    #[verifier::rlimit(40)]
    fn emit_stmt(&mut self, stmt: &Stmt) -> (r: Result<(), CodegenError>)
        requires
            old(self).ready(),
        ensures
            stmt_outcome(stmt_code(old(self).env(), old(self).rom().len(), old(self).next(), old(self).label(), view_stmt(*stmt)), r, *old(self), *final(self)),
        decreases stmt, 2int,
    {
        let ghost s0 = *self;
        match stmt {
            Stmt::Assign(name, e) => {
                let reg = match self.reg_of(name) {
                    None => { return Err(CodegenError::NoRegister(name.clone())); },
                    Some(r) => r,
                };
                self.emit_load_expr(reg, e)
            },
            Stmt::If(..) => self.emit_if(stmt),
            Stmt::Loop(body) => self.emit_loop(stmt),
            Stmt::While(..) => self.emit_while(stmt),
            Stmt::Call(name, args) => self.emit_call(name, args, None),
            Stmt::Clear => {
                self.push_quad(IrOp::Clear, None, None, None);
                let ghost s1 = *self;
                self.emit(0x00E0);
                proof {
                    lemma_appended_trans(s0, s1, *self, quad(IrOp::Clear, None, None, None), code(op(0x00E0u16)));
                }
                Ok(())
            },
            Stmt::Delay(e) => {
                proof { reveal_strlit("V0"); }
                assert("V0"@ =~= v0_name());
                let v0 = String::from_str("V0");
                self.push_quad(IrOp::SetDelay, Some(v0), None, None);
                match self.emit_load_expr(0, e) {
                    Err(x) => { return Err(x); },
                    Ok(()) => {},
                }
                self.emit(0xF015);
                proof {
                    let ee = load_code(s0.env(), s0.rom().len(), s0.next(), 0, view_expr(*e))->Ok_0;
                    let all = join(join(quad(IrOp::SetDelay, Some(v0_name()), None, None), ee), code(op(0xF015u16)));
                    assert(self.rom@ =~= s0.rom@ + all.bytes);
                    assert(self.quads() =~= s0.quads() + all.quads);
                    assert(self.fixups() =~= s0.fixups() + all.fixups);
                }
                Ok(())
            },
            Stmt::Beep(e) => {
                proof { reveal_strlit("V0"); }
                assert("V0"@ =~= v0_name());
                let v0 = String::from_str("V0");
                self.push_quad(IrOp::SetSound, Some(v0), None, None);
                match self.emit_load_expr(0, e) {
                    Err(x) => { return Err(x); },
                    Ok(()) => {},
                }
                self.emit(0xF018);
                proof {
                    let ee = load_code(s0.env(), s0.rom().len(), s0.next(), 0, view_expr(*e))->Ok_0;
                    let all = join(join(quad(IrOp::SetSound, Some(v0_name()), None, None), ee), code(op(0xF018u16)));
                    assert(self.rom@ =~= s0.rom@ + all.bytes);
                    assert(self.quads() =~= s0.quads() + all.quads);
                    assert(self.fixups() =~= s0.fixups() + all.fixups);
                }
                Ok(())
            },
        }
    }

    /// `loop { body }`.
    fn emit_loop(&mut self, stmt: &Stmt) -> (r: Result<(), CodegenError>)
        requires
            old(self).ready(),
            *stmt is Loop,
        ensures
            stmt_outcome(stmt_code(old(self).env(), old(self).rom().len(), old(self).next(), old(self).label(), view_stmt(*stmt)), r, *old(self), *final(self)),
        decreases stmt, 1int,
    {
        let ghost s0 = *self;
        match stmt {
            Stmt::Loop(body) => {
                let lbl = self.fresh_label();
                let ls = crate::ir::label_string(lbl);
                self.push_quad(IrOp::Label, Some(ls.clone()), None, None);
                let loop_start = self.current_addr();
                match self.emit_block(body) {
                    Err(x) => { return Err(x); },
                    Ok(()) => {},
                }
                self.push_quad(IrOp::Jump, Some(ls), None, None);
                self.emit(0x1000 | loop_start);
                proof {
                    let (eb, l2) = block_code(s0.env(), s0.rom().len(), s0.next(), next_label(lbl), view_stmts(body@))->Ok_0;
                    let name = label_name(lbl);
                    let all = join(join(quad(IrOp::Label, Some(name), None, None), eb), join(
                        quad(IrOp::Jump, Some(name), None, None),
                        code(jp(addr_of(s0.rom().len()))),
                    ));
                    assert(self.rom@ =~= s0.rom@ + all.bytes);
                    assert(self.quads() =~= s0.quads() + all.quads);
                    assert(self.fixups() =~= s0.fixups() + all.fixups);
                }
                Ok(())
            },
            _ => Err(CodegenError::RandMaskNotLiteral),
        }
    }

    /// `while (c) { body }`.
    fn emit_while(&mut self, stmt: &Stmt) -> (r: Result<(), CodegenError>)
        requires
            old(self).ready(),
            *stmt is While,
        ensures
            stmt_outcome(stmt_code(old(self).env(), old(self).rom().len(), old(self).next(), old(self).label(), view_stmt(*stmt)), r, *old(self), *final(self)),
        decreases stmt, 1int,
    {
        let ghost s0 = *self;
        match stmt {
            Stmt::While(c, body) => {
                let loop_n = self.fresh_label();
                let end_n = self.fresh_label();
                let loop_s = crate::ir::label_string(loop_n);
                let end_s = crate::ir::label_string(end_n);
                self.push_quad(IrOp::Label, Some(loop_s.clone()), None, None);
                let loop_start = self.current_addr();
                proof { reveal_strlit("cond"); }
                assert("cond"@ =~= cond_name());
                let cs = String::from_str("cond");
                self.push_quad(IrOp::JumpFalse, Some(cs), Some(end_s.clone()), None);
                let skip = match self.emit_cond_jump(c) {
                    Err(x) => { return Err(x); },
                    Ok(o) => o,
                };
                match self.emit_block(body) {
                    Err(x) => { return Err(x); },
                    Ok(()) => {},
                }
                self.push_quad(IrOp::Jump, Some(loop_s), None, None);
                self.emit(0x1000 | loop_start);
                let loop_end = self.current_addr();
                self.push_quad(IrOp::Label, Some(end_s), None, None);
                let ghost before_patch = self.rom@;
                self.patch(skip, 0x1000 | loop_end);
                proof {
                    let ec = cond_prefix(s0.env(), s0.rom().len(), s0.next(), view_expr(*c))->Ok_0;
                    let pc1 = s0.rom().len() + ec.bytes.len() + 2;
                    let (eb, l2) = block_code(s0.env(), pc1, s0.next(), next_label(next_label(loop_n)), view_stmts(body@))->Ok_0;
                    let ln = label_name(loop_n);
                    let en = label_name(end_n);
                    let all = join(
                        join(
                            join(quad(IrOp::Label, Some(ln), None, None), quad(IrOp::JumpFalse, Some(cond_name()), Some(en), None)),
                            join(join(ec, code(jp(loop_end))), eb),
                        ),
                        join(
                            join(quad(IrOp::Jump, Some(ln), None, None), code(jp(addr_of(s0.rom().len())))),
                            quad(IrOp::Label, Some(en), None, None),
                        ),
                    );
                    assert(before_patch =~= s0.rom@ + ec.bytes + op(0x1000u16) + (eb.bytes + jp(addr_of(s0.rom().len()))));
                    lemma_set_word(s0.rom@ + ec.bytes, 0x1000u16, eb.bytes + jp(addr_of(s0.rom().len())), 0x1000u16 | loop_end);
                    assert(self.rom@ =~= s0.rom@ + all.bytes);
                    assert(self.quads() =~= s0.quads() + all.quads);
                    assert(self.fixups() =~= s0.fixups() + all.fixups);
                }
                Ok(())
            },
            _ => Err(CodegenError::RandMaskNotLiteral),
        }
    }

    /// The `elif` branches, each recording the offset of its jump to the
    /// end in `end_jumps`; see `elifs_code`.
    fn emit_elifs(&mut self, end_s: &String, elseifs: &Vec<ElseIf>, end_jumps: &mut Vec<usize>) -> (r: Result<(), CodegenError>)
        requires
            old(self).ready(),
        ensures
            match elifs_code(old(self).env(), old(self).rom().len(), old(self).next(), old(self).label(), end_s@, view_elseifs(elseifs@), 0) {
                Ok((e, offs, l)) => r is Ok && appended_at(*old(self), *final(self), e, l)
                    && final(end_jumps)@.map_values(|x: usize| x as nat) == old(end_jumps)@.map_values(|x: usize| x as nat) + offs,
                Err(x) => r is Err && r->Err_0@ == x,
            },
        decreases elseifs, 0int,
    {
        let ghost s0 = *self;
        let ghost env = s0.env();
        let ghost nx = s0.next();
        let ghost es = view_elseifs(elseifs@);
        let ghost j0 = end_jumps@.map_values(|x: usize| x as nat);
        let ghost mut acc = nothing();
        let ghost mut offs: Seq<nat> = Seq::empty();
        proof {
            lemma_appended_refl(s0);
            assert(j0 + offs =~= j0);
        }
        let mut i: usize = 0;
        while i < elseifs.len()
            invariant
                i <= elseifs.len(),
                s0 == *old(self),
                j0 == old(end_jumps)@.map_values(|x: usize| x as nat),
                es == view_elseifs(elseifs@),
                env == s0.env(),
                nx == s0.next(),
                self.ready(),
                appended_at(s0, *self, acc, self.label()),
                end_jumps@.map_values(|x: usize| x as nat) == j0 + offs,
                elifs_code(env, s0.rom().len(), nx, s0.label(), end_s@, es, 0) == match elifs_code(
                    env,
                    s0.rom().len() + acc.bytes.len(),
                    nx,
                    self.label(),
                    end_s@,
                    es,
                    i as int,
                ) {
                    Ok((e2, o2, l2)) => Ok::<(Emitted, Seq<nat>, u32), SCodegenError>((join(acc, e2), offs + o2, l2)),
                    Err(x) => Err(x),
                },
            decreases elseifs.len() - i,
        {
            assert(decreases_to!(elseifs => elseifs@[i as int]));
            assert(decreases_to!(elseifs@[i as int] => elseifs@[i as int].body));
            let ghost si = *self;
            let e = &elseifs[i];
            assert(es[i as int] == crate::ast::view_elseif(*e));
            let o = match self.emit_branch(end_s, &e.condition, &e.body) {
                Err(x) => {
                    return Err(x);
                },
                Ok(o) => o,
            };
            let ghost jb = end_jumps@;
            end_jumps.push(o);
            proof {
                let (eb, ob, lb) = branch_code(env, s0.rom().len() + acc.bytes.len(), nx, si.label(), end_s@, es[i as int].condition, es[i as int].body)->Ok_0;
                lemma_appended_at_trans(s0, si, *self, acc, eb, si.label(), lb);
                let rest = elifs_code(env, s0.rom().len() + acc.bytes.len() + eb.bytes.len(), nx, lb, end_s@, es, i + 1);
                if rest is Ok {
                    lemma_join_assoc(acc, eb, rest->Ok_0.0);
                    assert(offs + ob + rest->Ok_0.1 =~= offs + (ob + rest->Ok_0.1));
                }
                assert(end_jumps@.map_values(|x: usize| x as nat) =~= jb.map_values(|x: usize| x as nat).push(o as nat));
                assert(j0 + offs + ob =~= j0 + (offs + ob));
                acc = join(acc, eb);
                offs = offs + ob;
            }
            i += 1;
        }
        proof {
            lemma_join_nothing(acc);
            assert(offs + Seq::<nat>::empty() =~= offs);
        }
        Ok(())
    }

    /// Points each recorded jump (at offsets from `base` on) to `target`.
    fn patch_end_jumps(&mut self, jumps: &Vec<usize>, base: usize, target: u16)
        requires
            base <= old(self).rom().len(),
            offsets_inside(jumps@.map_values(|x: usize| x as nat), base as nat, (old(self).rom().len() - base) as nat),
        ensures
            final(self).rom() == old(self).rom().subrange(0, base as int) + patch_jumps(
                old(self).rom().subrange(base as int, old(self).rom().len() as int),
                base as nat,
                jumps@.map_values(|x: usize| x as nat),
                target,
            ),
            final(self).quads() == old(self).quads(),
            final(self).fixups() == old(self).fixups(),
            final(self).env() == old(self).env(),
            final(self).next() == old(self).next(),
            final(self).label() == old(self).label(),
            final(self).ready() == old(self).ready(),
    {
        let ghost s0 = *self;
        let ghost head = s0.rom().subrange(0, base as int);
        let ghost tail = s0.rom().subrange(base as int, s0.rom().len() as int);
        let ghost offs = jumps@.map_values(|x: usize| x as nat);
        assert(s0.rom() =~= head + tail);
        assert(jumps@.take(0).map_values(|x: usize| x as nat) =~= Seq::<nat>::empty());
        let mut k: usize = 0;
        while k < jumps.len()
            invariant
                k <= jumps@.len(),
                s0 == *old(self),
                head == s0.rom().subrange(0, base as int),
                tail == s0.rom().subrange(base as int, s0.rom().len() as int),
                offs == jumps@.map_values(|x: usize| x as nat),
                base <= s0.rom().len(),
                offsets_inside(offs, base as nat, tail.len()),
                self.rom() == head + patch_jumps(tail, base as nat, jumps@.take(k as int).map_values(|x: usize| x as nat), target),
                self.quads() == s0.quads(),
                self.fixups() == s0.fixups(),
                self.env() == s0.env(),
                self.next() == s0.next(),
                self.label() == s0.label(),
                self.ready() == s0.ready(),
            decreases jumps@.len() - k,
        {
            let o = jumps[k];
            let ghost done = jumps@.take(k as int).map_values(|x: usize| x as nat);
            let ghost x = patch_jumps(tail, base as nat, done, target);
            proof {
                assert(offsets_inside(done, base as nat, tail.len())) by {
                    assert forall|j: int| 0 <= j < done.len() implies base <= #[trigger] done[j] && done[j] + 2 <= base + tail.len() by {
                        assert(done[j] == offs[j]);
                    }
                }
                lemma_patch_len(tail, base as nat, done, target);
                assert(offs[k as int] == o as nat);
                lemma_set_word_concat(head, x, o - base, 0x1000u16 | target);
            }
            self.patch(o, 0x1000 | target);
            proof {
                assert(jumps@.take(k + 1).map_values(|x: usize| x as nat).drop_last() =~= done);
                assert(jumps@.take(k + 1).map_values(|x: usize| x as nat)[k as int] == o as nat);
            }
            k += 1;
        }
        assert(jumps@.take(k as int) =~= jumps@);
    }

    /// `if`/`elif`/`else`; see `if_code`.
    #[verifier::rlimit(50)]
    fn emit_if(&mut self, stmt: &Stmt) -> (r: Result<(), CodegenError>)
        requires
            old(self).ready(),
            *stmt is If,
        ensures
            stmt_outcome(stmt_code(old(self).env(), old(self).rom().len(), old(self).next(), old(self).label(), view_stmt(*stmt)), r, *old(self), *final(self)),
        decreases stmt, 1int,
    {
        let ghost s0 = *self;
        match stmt {
            Stmt::If(cond, body, elseifs, else_body) => {
                let ghost env = s0.env();
                let ghost pc = s0.rom().len();
                let ghost nx = s0.next();
                let base = self.rom.len();
                let end_n = self.fresh_label();
                let end_s = crate::ir::label_string(end_n);
                let ghost end_lbl = label_name(end_n);
                let ghost s1 = *self;
                let o1 = match self.emit_branch(&end_s, cond, body) {
                    Err(x) => { return Err(x); },
                    Ok(o) => o,
                };
                let ghost s2 = *self;
                let mut end_jumps: Vec<usize> = Vec::new();
                end_jumps.push(o1);
                assert(decreases_to!(stmt => elseifs));
                match self.emit_elifs(&end_s, elseifs, &mut end_jumps) {
                    Err(x) => { return Err(x); },
                    Ok(()) => {},
                }
                let ghost s3 = *self;
                match else_body {
                    Some(b) => {
                        assert(decreases_to!(stmt => else_body));
                        match self.emit_block(b) {
                            Err(x) => { return Err(x); },
                            Ok(()) => {},
                        }
                    },
                    None => {
                        proof { lemma_appended_refl(s3); }
                    },
                }
                let ghost s4 = *self;
                self.push_quad(IrOp::Label, Some(end_s), None, None);
                let end_addr = self.current_addr();
                let ghost s5 = *self;
                proof {
                    let (e1, o1s, l1) = branch_code(env, pc, nx, next_label(end_n), end_lbl, view_expr(*cond), view_stmts(body@))->Ok_0;
                    let es = view_elseifs(elseifs@);
                    let (e2, o2, l2) = elifs_code(env, pc + e1.bytes.len(), nx, l1, end_lbl, es, 0)->Ok_0;
                    lemma_elifs_offsets(env, pc + e1.bytes.len(), nx, l1, end_lbl, es, 0);
                    assert(end_jumps@.map_values(|x: usize| x as nat) =~= o1s + o2);
                    let e3 = match else_body {
                        Some(bb) => block_code(env, pc + e1.bytes.len() + e2.bytes.len(), nx, l2, view_stmts(bb@))->Ok_0.0,
                        None => nothing(),
                    };
                    let all = join(join(join(e1, e2), e3), quad(IrOp::Label, Some(end_lbl), None, None));
                    assert(s5.rom() =~= s0.rom() + all.bytes);
                    assert(s5.rom().subrange(0, base as int) =~= s0.rom());
                    assert(s5.rom().subrange(base as int, s5.rom().len() as int) =~= all.bytes);
                }
                self.patch_end_jumps(&end_jumps, base, end_addr);
                proof {
                    let (e1, o1s, l1) = branch_code(env, pc, nx, next_label(end_n), end_lbl, view_expr(*cond), view_stmts(body@))->Ok_0;
                    let es = view_elseifs(elseifs@);
                    let (e2, o2, l2) = elifs_code(env, pc + e1.bytes.len(), nx, l1, end_lbl, es, 0)->Ok_0;
                    let e3 = match else_body {
                        Some(bb) => block_code(env, pc + e1.bytes.len() + e2.bytes.len(), nx, l2, view_stmts(bb@))->Ok_0.0,
                        None => nothing(),
                    };
                    let all = join(join(join(e1, e2), e3), quad(IrOp::Label, Some(end_lbl), None, None));
                    assert(self.quads() =~= s0.quads() + all.quads);
                    assert(self.fixups() =~= s0.fixups() + all.fixups);
                }
                Ok(())
            },
            _ => Ok(()),
        }
    }
}


proof fn lemma_fixups_err(rom: Seq<u8>, fx: Seq<(nat, Seq<char>)>, fns: Seq<(Seq<char>, u16)>, k: int)
    requires
        0 <= k <= fx.len(),
        apply_fixups(rom, fx.take(k), fns) is Err,
    ensures
        apply_fixups(rom, fx, fns) == apply_fixups(rom, fx.take(k), fns),
    decreases fx.len() - k,
{
    if k < fx.len() {
        assert(fx.take(k + 1).drop_last() == fx.take(k));
        lemma_fixups_err(rom, fx, fns, k + 1);
    } else {
        assert(fx.take(k) == fx);
    }
}

impl Codegen {
    fn set_reg(&mut self, name: String, r: u8)
        ensures
            final(self).env() == (GenEnv { regs: assoc_insert(old(self).env().regs, name@, r), ..old(self).env() }),
            appended(*old(self), Codegen { registers: old(self).registers, ..*final(self) }, nothing()),
    {
        let ghost v0 = view_regs(self.registers@);
        proof {
            crate::analyzer::lemma_key_index_bounds(v0, name@);
            lemma_appended_refl(*old(self));
        }
        match self.reg_index(&name) {
            Some(i) => {
                let ghost n = name@;
                self.registers.set(i, (name, r));
                assert(view_regs(self.registers@) =~= v0.update(i as int, (n, r)));
            },
            None => {
                let ghost n = name@;
                self.registers.push((name, r));
                assert(view_regs(self.registers@) =~= v0.push((n, r)));
            },
        }
    }

    fn remove_reg(&mut self, name: &String)
        ensures
            final(self).env() == (GenEnv { regs: assoc_remove(old(self).env().regs, name@), ..old(self).env() }),
            appended(*old(self), Codegen { registers: old(self).registers, ..*final(self) }, nothing()),
    {
        let ghost v0 = view_regs(self.registers@);
        proof {
            crate::analyzer::lemma_key_index_bounds(v0, name@);
            lemma_appended_refl(*old(self));
        }
        match self.reg_index(name) {
            Some(i) => {
                self.registers.remove(i);
                assert(view_regs(self.registers@) =~= v0.remove(i as int));
            },
            None => {},
        }
    }

    fn reg_index(&self, name: &String) -> (r: Option<usize>)
        ensures
            match r {
                Some(i) => i < self.registers@.len() && i as int == key_index(self.env().regs, name@),
                None => key_index(self.env().regs, name@) == -1,
            },
    {
        let ghost t = self.env().regs;
        let mut i: usize = 0;
        while i < self.registers.len()
            invariant
                i <= self.registers.len(),
                t == view_regs(self.registers@),
                forall|j: int| 0 <= j < i ==> t[j].0 != name@,
            decreases self.registers.len() - i,
        {
            if self.registers[i].0 == *name {
                proof { crate::analyzer::lemma_key_index(t, name@, i as int); }
                return Some(i);
            }
            i += 1;
        }
        proof { crate::analyzer::lemma_key_index(t, name@, i as int); }
        None
    }

    /// A function body at call depth `depth`; see `fn_code`.
    fn emit_fn(&mut self, f: &FnDecl, depth: usize) -> (r: Result<(), CodegenError>)
        requires
            old(self).ready(),
            depth < old(self).env().save_addrs.len(),
        ensures
            match fn_code(old(self).env(), old(self).rom().len(), old(self).label(), f@, depth as nat) {
                Ok((e, l, regs)) => r is Ok && final(self).rom() == old(self).rom() + e.bytes
                    && final(self).quads() == old(self).quads() + e.quads
                    && final(self).fixups() == old(self).fixups() + e.fixups
                    && final(self).label() == l
                    && final(self).env() == (GenEnv { regs, depth: depth as nat, ..old(self).env() })
                    && final(self).next() == 1
                    && final(self).ready(),
                Err(x) => r is Err && r->Err_0@ == x,
            },
    {
        let ghost s0 = *self;
        let ghost args = view_names(f.args@);
        self.push_quad(IrOp::Label, Some(f.name.clone()), None, None);
        let ghost s1 = *self;
        self.current_depth = depth;
        let mut i: usize = 0;
        assert(args.take(0) =~= Seq::<Seq<char>>::empty());
        while i < f.args.len()
            invariant
                i <= f.args.len(),
                args == view_names(f.args@),
                self.env() == (GenEnv { regs: bind_args(s0.env().regs, args.take(i as int)), depth: depth as nat, ..s0.env() }),
                self.rom() == s1.rom(),
                self.quads() == s1.quads(),
                self.fixups() == s1.fixups(),
                self.label() == s1.label(),
                self.ready(),
            decreases f.args.len() - i,
        {
            assert(args.take(i + 1).drop_last() == args.take(i as int));
            let r = wrap8(i, 1);
            assert(args.take(i + 1).len() == i + 1);
            self.set_reg(f.args[i].clone(), r);
            i += 1;
        }
        assert(args.take(i as int) == args);
        let ret = wrap8(f.args.len(), 1);
        self.set_reg(f.ret.clone(), ret);
        self.next_reg = if ret == 255 { 0 } else { ret + 1 };
        let ghost s2 = *self;
        match self.emit_block(&f.body) {
            Err(x) => { return Err(x); },
            Ok(()) => {},
        }
        let ghost s3 = *self;
        self.push_quad(IrOp::Return, None, None, None);
        self.emit(0x00EE);
        let ghost s4 = *self;
        let ghost inner = self.env().regs;
        let mut k: usize = 0;
        assert(args.take(0) =~= Seq::<Seq<char>>::empty());
        while k < f.args.len()
            invariant
                k <= f.args.len(),
                args == view_names(f.args@),
                self.env() == (GenEnv { regs: unbind(inner, args.take(k as int)), ..s4.env() }),
                self.rom() == s4.rom(),
                self.quads() == s4.quads(),
                self.fixups() == s4.fixups(),
                self.label() == s4.label(),
                self.ready(),
            decreases f.args.len() - k,
        {
            assert(args.take(k + 1).drop_last() == args.take(k as int));
            self.remove_reg(&f.args[k]);
            k += 1;
        }
        assert(args.take(k as int) == args);
        self.remove_reg(&f.ret);
        self.next_reg = 1;
        proof {
            let regs = assoc_insert(bind_args(s0.env().regs, args), f.ret@, ret_reg(f@));
            let (eb, l2) = block_code(GenEnv { regs, depth: depth as nat, ..s0.env() }, s0.rom().len(), s2.next(), s1.label(), f@.body)->Ok_0;
            let all = join(join(quad(IrOp::Label, Some(f.name@), None, None), eb), join(
                quad(IrOp::Return, None, None, None),
                code(op(0x00EEu16)),
            ));
            assert(self.rom@ =~= s0.rom@ + all.bytes);
            assert(self.quads() =~= s0.quads() + all.quads);
            assert(self.fixups() =~= s0.fixups() + all.fixups);
        }
        Ok(())
    }
}


// ---------------------------------------------------------------------------
// The whole program
// ---------------------------------------------------------------------------

/// The generator's state in the terms of `generate_spec`.
spec fn state(c: Codegen) -> GenState {
    GenState { rom: c.rom(), quads: c.quads(), fixups: c.fixups(), label: c.label(), env: c.env() }
}

/// The sprite files' model: path and contents.
pub open spec fn view_files(files: Seq<(String, Vec<u8>)>) -> Seq<(Seq<char>, Seq<u8>)> {
    files.map_values(|f: (String, Vec<u8>)| (f.0@, f.1@))
}

proof fn lemma_lay_sprites_err(st: GenState, ss: Seq<crate::ast::SSpriteDecl>, files: Seq<(Seq<char>, Seq<u8>)>, k: int)
    requires
        0 <= k <= ss.len(),
        lay_sprites(st, ss.take(k), files) is Err,
    ensures
        lay_sprites(st, ss, files) == lay_sprites(st, ss.take(k), files),
    decreases ss.len() - k,
{
    if k < ss.len() {
        assert(ss.take(k + 1).drop_last() == ss.take(k));
        lemma_lay_sprites_err(st, ss, files, k + 1);
    } else {
        assert(ss.take(k) == ss);
    }
}

/// The rows of a sprite; see `sprite_bytes`.
fn sprite_rows(d: &SpriteData, files: &Vec<(String, Vec<u8>)>) -> (r: Result<Vec<u8>, CodegenError>)
    ensures
        match sprite_bytes(d@, view_files(files@)) {
            Ok(b) => r is Ok && r->Ok_0@ == b,
            Err(x) => r is Err && r->Err_0@ == x,
        },
{
    match d {
        SpriteData::Inline(b) => Ok(b.clone()),
        SpriteData::File(path) => {
            let ghost t = view_files(files@);
            let mut i: usize = 0;
            while i < files.len()
                invariant
                    i <= files.len(),
                    d@ == SSpriteData::File(path@),
                    t == view_files(files@),
                    forall|j: int| 0 <= j < i ==> t[j].0 != path@,
                decreases files.len() - i,
            {
                if files[i].0 == *path {
                    proof {
                        crate::analyzer::lemma_key_index(t, path@, i as int);
                        assert(t[i as int] == (files@[i as int].0@, files@[i as int].1@));
                    }
                    let c = files[i].1.clone();
                    return Ok(c);
                }
                i += 1;
            }
            proof { crate::analyzer::lemma_key_index(t, path@, i as int); }
            Err(CodegenError::SpriteFileUnreadable(path.clone()))
        },
    }
}

impl Codegen {
    /// `count` save areas of `size` zero bytes each; see `save_areas`.
    fn lay_save_areas(&mut self, count: usize, size: usize)
        ensures
            state(*final(self)) == save_areas(state(*old(self)), count as nat, size as nat),
            final(self).next() == old(self).next(),
    {
        let ghost st0 = state(*self);
        let mut d: usize = 0;
        while d < count
            invariant
                d <= count,
                st0 == state(*old(self)),
                state(*self) == save_areas(st0, d as nat, size as nat),
                self.next() == old(self).next(),
            decreases count - d,
        {
            let ghost sb = state(*self);
            let addr = self.current_addr();
            self.save_area_addrs.push(addr);
            let ghost sm = state(*self);
            assert(sm.env.save_addrs =~= sb.env.save_addrs.push(addr_of(sb.rom.len())));
            let ghost r0 = self.rom@;
            let mut j: usize = 0;
            assert(r0 + zeros(0) =~= r0);
            while j < size
                invariant
                    j <= size,
                    state(*self) == (GenState { rom: r0 + zeros(j as nat), ..sm }),
                    self.next() == old(self).next(),
                decreases size - j,
            {
                self.rom.push(0);
                assert(r0 + zeros((j + 1) as nat) =~= (r0 + zeros(j as nat)).push(0u8));
                j += 1;
            }
            d += 1;
        }
    }

    /// Records the address and height of sprite `name`.
    fn set_sprite(&mut self, name: String, v: (u16, u8))
        ensures
            final(self).env() == (GenEnv { sprites: assoc_insert(old(self).env().sprites, name@, v), ..old(self).env() }),
            final(self).rom() == old(self).rom(),
            final(self).quads() == old(self).quads(),
            final(self).fixups() == old(self).fixups(),
            final(self).label() == old(self).label(),
            final(self).next() == old(self).next(),
    {
        let ghost v0 = view_sprites(self.sprites@);
        proof { crate::analyzer::lemma_key_index_bounds(v0, name@); }
        let mut i: usize = 0;
        while i < self.sprites.len()
            invariant
                i <= self.sprites.len(),
                *self == *old(self),
                v0 == view_sprites(self.sprites@),
                forall|j: int| 0 <= j < i ==> v0[j].0 != name@,
            decreases self.sprites.len() - i,
        {
            if self.sprites[i].0 == name {
                proof { crate::analyzer::lemma_key_index(v0, name@, i as int); }
                let ghost n = name@;
                self.sprites.set(i, (name, v));
                assert(view_sprites(self.sprites@) =~= v0.update(i as int, (n, v)));
                return;
            }
            i += 1;
        }
        proof { crate::analyzer::lemma_key_index(v0, name@, i as int); }
        let ghost n = name@;
        self.sprites.push((name, v));
        assert(view_sprites(self.sprites@) =~= v0.push((n, v)));
    }

    /// The sprite data in order; see `lay_sprites`.
    fn lay_sprite_data(&mut self, sprites: &Vec<SpriteDecl>, files: &Vec<(String, Vec<u8>)>) -> (r: Result<(), CodegenError>)
        ensures
            match lay_sprites(state(*old(self)), sprites@.map_values(|d: SpriteDecl| d@), view_files(files@)) {
                Ok(st) => r is Ok && state(*final(self)) == st && final(self).next() == old(self).next(),
                Err(x) => r is Err && r->Err_0@ == x,
            },
    {
        let ghost st0 = state(*self);
        let ghost ss = sprites@.map_values(|d: SpriteDecl| d@);
        let ghost fv = view_files(files@);
        let mut i: usize = 0;
        assert(ss.take(0) =~= Seq::<crate::ast::SSpriteDecl>::empty());
        while i < sprites.len()
            invariant
                i <= sprites.len(),
                st0 == state(*old(self)),
                ss == sprites@.map_values(|d: SpriteDecl| d@),
                fv == view_files(files@),
                lay_sprites(st0, ss.take(i as int), fv) == Ok::<GenState, SCodegenError>(state(*self)),
                self.next() == old(self).next(),
            decreases sprites.len() - i,
        {
            assert(ss.take(i + 1).drop_last() =~= ss.take(i as int));
            assert(ss.take(i + 1)[i as int] == sprites@[i as int]@);
            let sp = &sprites[i];
            let rows = match sprite_rows(&sp.data, files) {
                Err(x) => {
                    proof { lemma_lay_sprites_err(st0, ss, fv, i + 1); }
                    return Err(x);
                },
                Ok(b) => b,
            };
            let ghost s1 = state(*self);
            let addr = self.current_addr();
            let h = (rows.len() % 256) as u8;
            self.set_sprite(sp.name.clone(), (addr, h));
            let ghost r0 = self.rom@;
            let mut j: usize = 0;
            assert(r0 + rows@.take(0) =~= r0);
            while j < rows.len()
                invariant
                    j <= rows.len(),
                    self.rom@ == r0 + rows@.take(j as int),
                    self.quads() == s1.quads,
                    self.fixups() == s1.fixups,
                    self.label() == s1.label,
                    self.env() == (GenEnv { sprites: assoc_insert(s1.env.sprites, sp.name@, (addr, h)), ..s1.env }),
                    self.next() == old(self).next(),
                decreases rows.len() - j,
            {
                self.rom.push(rows[j]);
                assert(r0 + rows@.take(j + 1) =~= (r0 + rows@.take(j as int)).push(rows@[j as int]));
                j += 1;
            }
            assert(rows@.take(j as int) =~= rows@);
            self.push_quad(IrOp::SpriteData, Some(sp.name.clone()), Some(crate::ir::decimal(addr as u32)), None);
            proof {
                let q = SQuad { op: IrOp::SpriteData, arg1: Some(sp.name@), arg2: Some(numeral(addr as nat, 10)), result: None };
                assert(self.quads() =~= s1.quads.push(q));
            }
            i += 1;
        }
        assert(ss.take(i as int) =~= ss);
        Ok(())
    }
}


/// What `save_areas` keeps: everything but the ROM's end and the save
/// area addresses, one more of which per area.
pub(crate) proof fn lemma_save_areas_shape(st: GenState, count: nat, size: nat)
    ensures
        ({
            let s = save_areas(st, count, size);
            &&& s.quads == st.quads
            &&& s.fixups == st.fixups
            &&& s.label == st.label
            &&& s.env.regs == st.env.regs
            &&& s.env.sprites == st.env.sprites
            &&& s.env.fns == st.env.fns
            &&& s.env.depth == st.env.depth
            &&& s.env.work_end == st.env.work_end
            &&& s.env.save_addrs.len() == st.env.save_addrs.len() + count
            &&& s.rom.len() >= st.rom.len()
            &&& s.rom.subrange(0, st.rom.len() as int) == st.rom
        }),
    decreases count,
{
    if count > 0 {
        lemma_save_areas_shape(st, (count - 1) as nat, size);
        let s1 = save_areas(st, (count - 1) as nat, size);
        assert((s1.rom + zeros(size)).subrange(0, st.rom.len() as int) =~= s1.rom.subrange(0, st.rom.len() as int));
    } else {
        assert(st.rom.subrange(0, st.rom.len() as int) =~= st.rom);
    }
}

/// What `lay_sprites` keeps: everything but the ROM's end, the
/// quadruples' end and the sprite table.
pub(crate) proof fn lemma_lay_sprites_shape(st: GenState, ss: Seq<crate::ast::SSpriteDecl>, files: Seq<(Seq<char>, Seq<u8>)>)
    ensures
        lay_sprites(st, ss, files) matches Ok(s) ==> {
            &&& s.fixups == st.fixups
            &&& s.label == st.label
            &&& s.env.regs == st.env.regs
            &&& s.env.fns == st.env.fns
            &&& s.env.save_addrs == st.env.save_addrs
            &&& s.env.depth == st.env.depth
            &&& s.env.work_end == st.env.work_end
            &&& s.rom.len() >= st.rom.len()
            &&& s.rom.subrange(0, st.rom.len() as int) == st.rom
        },
    decreases ss.len(),
{
    if ss.len() > 0 {
        lemma_lay_sprites_shape(st, ss.drop_last(), files);
        if let Ok(s1) = lay_sprites(st, ss.drop_last(), files) {
            if let Ok(b) = sprite_bytes(ss[ss.len() - 1].data, files) {
                assert((s1.rom + b).subrange(0, st.rom.len() as int) =~= s1.rom.subrange(0, st.rom.len() as int));
            }
        }
    } else {
        assert(st.rom.subrange(0, st.rom.len() as int) =~= st.rom);
    }
}

/// No entry exceeds the largest.
proof fn lemma_max_seq(s: Seq<nat>, i: int)
    requires
        0 <= i < s.len(),
    ensures
        s[i] <= max_seq(s),
    decreases s.len(),
{
    if i < s.len() - 1 {
        lemma_max_seq(s.drop_last(), i);
    }
}

/// The largest entry of a table of depths; see `max_seq`.
fn max_entry(v: &Vec<usize>) -> (m: usize)
    ensures
        m as nat == max_seq(v@.map_values(|x: usize| x as nat)),
{
    let ghost s = v@.map_values(|x: usize| x as nat);
    let mut m: usize = 0;
    let mut i: usize = 0;
    assert(s.take(0) =~= Seq::<nat>::empty());
    while i < v.len()
        invariant
            i <= v.len(),
            s == v@.map_values(|x: usize| x as nat),
            m as nat == max_seq(s.take(i as int)),
        decreases v.len() - i,
    {
        assert(s.take(i + 1).drop_last() =~= s.take(i as int));
        if v[i] > m {
            m = v[i];
        }
        i += 1;
    }
    assert(s.take(i as int) =~= s);
    m
}

/// Depths held at `usize::MAX` are the depths themselves when none exceeds 255.
proof fn lemma_capped_small(s: Seq<nat>)
    requires
        max_seq(s) <= 255,
    ensures
        crate::callgraph::capped(s).map_values(|x: usize| x as nat) == s,
{
    assert forall|i: int| 0 <= i < s.len() implies crate::callgraph::capped(s).map_values(|x: usize| x as nat)[i] == s[i] by {
        lemma_max_seq(s, i);
    }
    assert(crate::callgraph::capped(s).map_values(|x: usize| x as nat) =~= s);
}

impl Codegen {
    /// The registers of the globals; see `bind_globals`.
    fn bind_global_regs(&mut self, vars: &Vec<VarDecl>)
        requires
            vars@.len() <= 14,
            old(self).work_end as int == 14 - vars@.len(),
        ensures
            final(self).env() == (GenEnv {
                regs: bind_globals(old(self).env().regs, vars@.map_values(|d: VarDecl| d@), vars@.len() as nat),
                ..old(self).env()
            }),
            final(self).rom() == old(self).rom(),
            final(self).quads() == old(self).quads(),
            final(self).fixups() == old(self).fixups(),
            final(self).label() == old(self).label(),
            final(self).next() == old(self).next(),
    {
        let ghost vs = vars@.map_values(|d: VarDecl| d@);
        let ghost ng = vars@.len() as nat;
        let ng_e = vars.len();
        let mut i: usize = 0;
        assert(vs.take(0) =~= Seq::<crate::ast::SVarDecl>::empty());
        while i < vars.len()
            invariant
                i <= vars.len(),
                ng_e == vars@.len(),
                ng == vars@.len(),
                vars@.len() <= 14,
                vs == vars@.map_values(|d: VarDecl| d@),
                self.env() == (GenEnv { regs: bind_globals(old(self).env().regs, vs.take(i as int), ng), ..old(self).env() }),
                self.rom() == old(self).rom(),
                self.quads() == old(self).quads(),
                self.fixups() == old(self).fixups(),
                self.label() == old(self).label(),
                self.next() == old(self).next(),
            decreases vars.len() - i,
        {
            assert(vs.take(i + 1).drop_last() =~= vs.take(i as int));
            assert(vs.take(i + 1)[i as int] == vars@[i as int]@);
            let r: u8 = (15 - ng_e + i) as u8;
            assert(r as int == (15 - ng + i) % 256);
            self.set_reg(vars[i].name.clone(), r);
            i += 1;
        }
        assert(vs.take(i as int) =~= vs);
    }

    /// Save areas, sprites, padding, the first jump, and the registers of
    /// the globals; see `data_stage`.  `maxd` is the deepest save area.
    fn lay_data(&mut self, program: &Program, files: &Vec<(String, Vec<u8>)>, maxd: usize) -> (r: Result<(), CodegenError>)
        requires
            old(self).fresh(),
            program@.vars.len() <= 14,
            maxd == max_depth(program@),
            maxd <= 255,
        ensures
            match data_stage(program@, view_files(files@)) {
                Ok(st) => r is Ok && state(*final(self)) == st && final(self).next() == 1 && final(self).ready()
                    && st.env.save_addrs.len() == maxd + 1,
                Err(x) => r is Err && r->Err_0@ == x,
            },
    {
        let ng = program.vars.len();
        assert(program@.vars.len() == program.vars@.len());
        self.work_end = (14 - ng) as u8;
        self.emit(0x1000);
        assert(self.quads() =~= Seq::<SQuad>::empty());
        assert(self.fixups() =~= Seq::<(nat, Seq<char>)>::empty());
        assert(self.env().regs =~= Seq::<(Seq<char>, u8)>::empty());
        assert(self.env().sprites =~= Seq::<(Seq<char>, (u16, u8))>::empty());
        assert(self.env().fns =~= Seq::<(Seq<char>, u16)>::empty());
        assert(self.env().save_addrs =~= Seq::<u16>::empty());
        assert(self.rom() =~= op(0x1000u16));
        assert(state(*self) == initial_state(program@));
        let size = (self.work_end as usize) + 1;
        self.lay_save_areas(maxd + 1, size);
        let ghost st1 = state(*self);
        proof { lemma_save_areas_shape(initial_state(program@), (maxd + 1) as nat, size as nat); }
        match self.lay_sprite_data(&program.sprites, files) {
            Err(x) => { return Err(x); },
            Ok(()) => {},
        }
        let ghost st2 = state(*self);
        proof { lemma_lay_sprites_shape(st1, program@.sprites, view_files(files@)); }
        if self.rom.len() % 2 == 1 {
            self.rom.push(0);
        }
        let ghost padded = self.rom@;
        assert(padded == if st2.rom.len() % 2 == 1 { st2.rom.push(0u8) } else { st2.rom });
        let code_start = self.current_addr();
        self.patch(0, 0x1000 | code_start);
        self.bind_global_regs(&program.vars);
        Ok(())
    }
}


proof fn lemma_init_globals_err(st: GenState, vs: Seq<crate::ast::SVarDecl>, k: int)
    requires
        0 <= k <= vs.len(),
        init_globals(st, vs.take(k)) is Err,
    ensures
        init_globals(st, vs) == init_globals(st, vs.take(k)),
    decreases vs.len() - k,
{
    if k < vs.len() {
        assert(vs.take(k + 1).drop_last() == vs.take(k));
        lemma_init_globals_err(st, vs, k + 1);
    } else {
        assert(vs.take(k) == vs);
    }
}

proof fn lemma_emit_fns_err(st: GenState, fs: Seq<SFnDecl>, g: crate::callgraph::SCallGraph, k: int)
    requires
        0 <= k <= fs.len(),
        emit_fns(st, fs.take(k), g) is Err,
    ensures
        emit_fns(st, fs, g) == emit_fns(st, fs.take(k), g),
    decreases fs.len() - k,
{
    if k < fs.len() {
        assert(fs.take(k + 1).drop_last() == fs.take(k));
        lemma_emit_fns_err(st, fs, g, k + 1);
    } else {
        assert(fs.take(k) == fs);
    }
}

impl Codegen {
    /// The initial values of the globals; see `init_globals`.
    fn init_global_values(&mut self, vars: &Vec<VarDecl>) -> (r: Result<(), CodegenError>)
        requires
            old(self).ready(),
            old(self).next() == 1,
        ensures
            match init_globals(state(*old(self)), vars@.map_values(|d: VarDecl| d@)) {
                Ok(st) => r is Ok && state(*final(self)) == st && final(self).next() == 1 && final(self).ready(),
                Err(x) => r is Err && r->Err_0@ == x,
            },
    {
        let ghost st0 = state(*self);
        let ghost vs = vars@.map_values(|d: VarDecl| d@);
        let mut i: usize = 0;
        assert(vs.take(0) =~= Seq::<crate::ast::SVarDecl>::empty());
        while i < vars.len()
            invariant
                i <= vars.len(),
                st0 == state(*old(self)),
                vs == vars@.map_values(|d: VarDecl| d@),
                init_globals(st0, vs.take(i as int)) == Ok::<GenState, SCodegenError>(state(*self)),
                self.next() == 1,
                self.ready(),
            decreases vars.len() - i,
        {
            assert(vs.take(i + 1).drop_last() =~= vs.take(i as int));
            assert(vs.take(i + 1)[i as int] == vars@[i as int]@);
            let v = &vars[i];
            let reg = match self.reg_of(&v.name) {
                None => {
                    proof { lemma_init_globals_err(st0, vs, i + 1); }
                    return Err(CodegenError::NoRegister(v.name.clone()));
                },
                Some(r) => r,
            };
            let ghost s1 = *self;
            match self.emit_load_expr(reg, &v.value) {
                Err(x) => {
                    proof { lemma_init_globals_err(st0, vs, i + 1); }
                    return Err(x);
                },
                Ok(()) => {},
            }
            i += 1;
        }
        assert(vs.take(i as int) =~= vs);
        Ok(())
    }

    /// Records the address of function `name`.
    fn set_fn_addr(&mut self, name: String, a: u16)
        ensures
            final(self).env() == (GenEnv { fns: assoc_insert(old(self).env().fns, name@, a), ..old(self).env() }),
            final(self).rom() == old(self).rom(),
            final(self).quads() == old(self).quads(),
            final(self).fixups() == old(self).fixups(),
            final(self).label() == old(self).label(),
            final(self).next() == old(self).next(),
    {
        let ghost v0 = view_fn_addrs(self.fn_addrs@);
        proof { crate::analyzer::lemma_key_index_bounds(v0, name@); }
        let mut i: usize = 0;
        while i < self.fn_addrs.len()
            invariant
                i <= self.fn_addrs.len(),
                *self == *old(self),
                v0 == view_fn_addrs(self.fn_addrs@),
                forall|j: int| 0 <= j < i ==> v0[j].0 != name@,
            decreases self.fn_addrs.len() - i,
        {
            if self.fn_addrs[i].0 == name {
                proof { crate::analyzer::lemma_key_index(v0, name@, i as int); }
                let ghost n = name@;
                self.fn_addrs.set(i, (name, a));
                assert(view_fn_addrs(self.fn_addrs@) =~= v0.update(i as int, (n, a)));
                return;
            }
            i += 1;
        }
        proof { crate::analyzer::lemma_key_index(v0, name@, i as int); }
        let ghost n = name@;
        self.fn_addrs.push((name, a));
        assert(view_fn_addrs(self.fn_addrs@) =~= v0.push((n, a)));
    }

    /// The function bodies in order, each at the depth `table` gives its
    /// node in `g`; see `emit_fns`.
    fn emit_functions(&mut self, fns: &Vec<FnDecl>, g: &crate::callgraph::CallGraph, table: &Vec<usize>) -> (r: Result<(), CodegenError>)
        requires
            old(self).ready(),
            old(self).next() == 1,
            g.wf(),
            table@.map_values(|x: usize| x as nat) == crate::callgraph::frame_depths(g.view_graph()),
            max_seq(crate::callgraph::frame_depths(g.view_graph())) < old(self).env().save_addrs.len(),
        ensures
            match emit_fns(state(*old(self)), fns@.map_values(|f: FnDecl| f@), g.view_graph()) {
                Ok(st) => r is Ok && state(*final(self)) == st && final(self).next() == 1 && final(self).ready(),
                Err(x) => r is Err && r->Err_0@ == x,
            },
    {
        let ghost st0 = state(*self);
        let ghost fs = fns@.map_values(|f: FnDecl| f@);
        let ghost gv = g.view_graph();
        let mut i: usize = 0;
        assert(fs.take(0) =~= Seq::<SFnDecl>::empty());
        while i < fns.len()
            invariant
                i <= fns.len(),
                st0 == state(*old(self)),
                fs == fns@.map_values(|f: FnDecl| f@),
                gv == g.view_graph(),
                g.wf(),
                table@.map_values(|x: usize| x as nat) == crate::callgraph::frame_depths(gv),
                max_seq(crate::callgraph::frame_depths(gv)) < self.env().save_addrs.len(),
                emit_fns(st0, fs.take(i as int), gv) == Ok::<GenState, SCodegenError>(state(*self)),
                self.next() == 1,
                self.ready(),
            decreases fns.len() - i,
        {
            assert(fs.take(i + 1).drop_last() =~= fs.take(i as int));
            assert(fs.take(i + 1)[i as int] == fns@[i as int]@);
            let f = &fns[i];
            let addr = self.current_addr();
            self.set_fn_addr(f.name.clone(), addr);
            let depth: usize = match crate::callgraph::node_of(&g.names, &f.name) {
                Some(k) => {
                    proof {
                        assert(table@.map_values(|x: usize| x as nat)[k as int] == table@[k as int] as nat);
                        lemma_max_seq(crate::callgraph::frame_depths(gv), k as int);
                    }
                    table[k]
                },
                None => 0,
            };
            assert(depth as nat == depth_of(gv, f@.name));
            match self.emit_fn(f, depth) {
                Err(x) => {
                    proof { lemma_emit_fns_err(st0, fs, gv, i + 1); }
                    return Err(x);
                },
                Ok(()) => {},
            }
            i += 1;
        }
        assert(fs.take(i as int) =~= fs);
        Ok(())
    }
}


impl Codegen {
    /// Every call left to patch gets its function's address; see
    /// `apply_fixups`.
    fn patch_calls(&mut self) -> (r: Result<(), CodegenError>)
        ensures
            match apply_fixups(old(self).rom(), old(self).fixups(), old(self).env().fns) {
                Ok(rom) => r is Ok && final(self).rom() == rom && final(self).quads() == old(self).quads(),
                Err(x) => r is Err && r->Err_0@ == x,
            },
    {
        let ghost s0 = *self;
        let ghost fx = s0.fixups();
        let ghost fns = s0.env().fns;
        let mut k: usize = 0;
        assert(fx.take(0) =~= Seq::<(nat, Seq<char>)>::empty());
        while k < self.call_fixups.len()
            invariant
                k <= self.call_fixups@.len(),
                s0 == *old(self),
                fx == s0.fixups(),
                fns == s0.env().fns,
                self.fixups() == fx,
                self.env() == s0.env(),
                self.quads() == s0.quads(),
                apply_fixups(s0.rom(), fx.take(k as int), fns) == Ok::<Seq<u8>, SCodegenError>(self.rom()),
            decreases self.call_fixups@.len() - k,
        {
            assert(fx.take(k + 1).drop_last() =~= fx.take(k as int));
            let o = self.call_fixups[k].0;
            let name = self.call_fixups[k].1.clone();
            assert(fx.take(k + 1)[k as int] == (o as nat, name@));
            match self.fn_addr_of(&name) {
                None => {
                    proof { lemma_fixups_err(s0.rom(), fx, fns, k + 1); }
                    return Err(CodegenError::UnknownFunction(name));
                },
                Some(a) => {
                    if o < self.rom.len() && o + 1 < self.rom.len() {
                        self.patch(o, 0x2000 | a);
                    }
                },
            }
            k += 1;
        }
        assert(fx.take(k as int) =~= fx);
        Ok(())
    }

    /// The jump over the function bodies patched, `main`, the endless loop,
    /// the calls patched, and the size checked; see `finish`.
    fn finish_rom(&mut self, program: &Program, fn_jump: usize) -> (r: Result<Vec<u8>, CodegenError>)
        requires
            old(self).ready(),
            old(self).next() == 1,
            fn_jump + 1 < old(self).rom().len(),
        ensures
            match finish(program@, fn_jump as nat, state(*old(self))) {
                Ok((rom, quads)) => r is Ok && r->Ok_0@ == rom && final(self).quads() == quads,
                Err(x) => r is Err && r->Err_0@ == x,
            },
    {
        let ghost st6 = state(*self);
        let after = self.current_addr();
        self.patch(fn_jump, 0x1000 | after);
        self.current_depth = 0;
        let ghost s7 = *self;
        assert(self.env() == (GenEnv { depth: 0, ..st6.env }));
        match self.emit_block(&program.main) {
            Err(x) => { return Err(x); },
            Ok(()) => {},
        }
        let end = self.current_addr();
        self.emit(0x1000 | end);
        let ghost s9 = *self;
        match self.patch_calls() {
            Err(x) => { return Err(x); },
            Ok(()) => {},
        }
        if self.rom.len() > ROM_MAX {
            return Err(CodegenError::ProgramTooLarge(self.rom.len()));
        }
        Ok(self.rom.clone())
    }

    /// The ROM image of `program`, whose sprite files have the contents
    /// listed in `files` (path, bytes); the quadruples are left in the
    /// generator (see `get_ir`).  See `generate_spec`.
    pub fn generate(&mut self, program: &Program, files: &Vec<(String, Vec<u8>)>) -> (r: Result<Vec<u8>, CodegenError>)
        requires
            old(self).fresh(),
            program@.vars.len() <= 14,
            max_depth(program@) <= 255,
        ensures
            match generate_spec(program@, view_files(files@)) {
                Ok((rom, quads)) => r is Ok && r->Ok_0@ == rom && final(self).quads() == quads,
                Err(x) => r is Err && r->Err_0@ == x,
            },
    {
        let g = crate::callgraph::build_call_graph(program);
        let table = crate::callgraph::frame_depth_table(&g);
        let ghost depths = crate::callgraph::frame_depths(g.view_graph());
        let maxd = max_entry(&table);
        proof {
            lemma_capped_small(depths);
            assert(table@.map_values(|x: usize| x as nat) == depths);
        }
        match self.lay_data(program, files, maxd) {
            Err(x) => { return Err(x); },
            Ok(()) => {},
        }
        match self.init_global_values(&program.vars) {
            Err(x) => { return Err(x); },
            Ok(()) => {},
        }
        let ghost st4 = state(*self);
        proof {
            let st3 = data_stage(program@, view_files(files@))->Ok_0;
            lemma_init_globals_env(st3, program@.vars);
        }
        let fn_jump = self.rom.len();
        self.emit(0x1000);
        assert(state(*self) == (GenState { rom: st4.rom + op(0x1000u16), ..st4 }));
        match self.emit_functions(&program.functions, &g, &table) {
            Err(x) => { return Err(x); },
            Ok(()) => {},
        }
        proof {
            lemma_emit_fns_len(GenState { rom: st4.rom + op(0x1000u16), ..st4 }, program@.functions, g.view_graph());
        }
        self.finish_rom(program, fn_jump)
    }
}


/// `init_globals` only adds code.
proof fn lemma_init_globals_env(st: GenState, vs: Seq<crate::ast::SVarDecl>)
    ensures
        init_globals(st, vs) matches Ok(s) ==> s.env == st.env,
    decreases vs.len(),
{
    if vs.len() > 0 {
        lemma_init_globals_env(st, vs.drop_last());
    }
}

/// `emit_fns` only adds code.
proof fn lemma_emit_fns_len(st: GenState, fs: Seq<SFnDecl>, g: crate::callgraph::SCallGraph)
    ensures
        emit_fns(st, fs, g) matches Ok(s) ==> s.rom.len() >= st.rom.len(),
    decreases fs.len(),
{
    if fs.len() > 0 {
        lemma_emit_fns_len(st, fs.drop_last(), g);
    }
}



// ---------------------------------------------------------------------------
// Where calls are patched
// ---------------------------------------------------------------------------

/// The code is made of whole two-byte instructions, and every call left to
/// patch lies inside it; it starts at ROM offset `pc`.
pub open spec fn whole_code(e: Emitted, pc: nat) -> bool {
    &&& e.bytes.len() % 2 == 0
    &&& forall|k: int| 0 <= k < e.fixups.len() ==> pc <= (#[trigger] e.fixups[k]).0 && e.fixups[k].0 + 2 <= pc + e.bytes.len()
}

proof fn lemma_join_inside(a: Emitted, b: Emitted, pc: nat)
    requires
        whole_code(a, pc),
        whole_code(b, pc + a.bytes.len()),
    ensures
        whole_code(join(a, b), pc),
{
    let j = join(a, b);
    assert forall|k: int| 0 <= k < j.fixups.len() implies pc <= (#[trigger] j.fixups[k]).0 && j.fixups[k].0 + 2 <= pc + j.bytes.len() by {
        if k >= a.fixups.len() {
            assert(j.fixups[k] == b.fixups[k - a.fixups.len()]);
        } else {
            assert(j.fixups[k] == a.fixups[k]);
        }
    }
}

proof fn lemma_load_inside(env: GenEnv, pc: nat, next: u8, dest: u8, e: SExpr)
    ensures
        load_code(env, pc, next, dest, e) matches Ok(x) ==> whole_code(x, pc),
    decreases e, 2int,
{
    match e {
        SExpr::BinOp(..) => {
            lemma_binop_inside(env, pc, next, dest, e);
        },
        SExpr::Not(x) => {
            lemma_load_inside(env, pc, next, dest, *x);
            if let Ok(ex) = load_code(env, pc, next, dest, *x) {
                let q = quad(IrOp::Not, Some(reg_name(dest)), None, Some(reg_name(dest)));
                lemma_join_inside(ex, q, pc);
                lemma_join_inside(join(ex, q), code(op(0x6001u16) + op(0x8003u16 | r8(dest))), pc);
            }
        },
        SExpr::Call(name, args) => {
            lemma_call_inside(env, pc, next, name, args, Some(dest));
        },
        SExpr::Draw(x, y, s) => {
            let n2 = (next + 2) as u8;
            if let Ok(xr) = take_reg(env, next) {
                if let Ok(yr) = take_reg(env, (next + 1) as u8) {
                    let q = quad(IrOp::Draw, Some(reg_name(xr)), Some(reg_name(yr)), Some(s));
                    lemma_load_inside(env, pc, n2, xr, *x);
                    if let Ok(ex) = load_code(env, pc, n2, xr, *x) {
                        lemma_load_inside(env, pc + ex.bytes.len(), n2, yr, *y);
                        if let Ok(ey) = load_code(env, pc + ex.bytes.len(), n2, yr, *y) {
                            if let Some((a, h)) = lookup(env.sprites, s) {
                                lemma_join_inside(q, ex, pc);
                                lemma_join_inside(join(q, ex), ey, pc);
                                let tail = code(op(0xA000u16 | a) + op(0xD000u16 | r8(xr) | r4(yr) | (h as u16)) + op(0x80F0u16 | r8(dest)));
                                lemma_join_inside(join(join(q, ex), ey), tail, pc);
                            }
                        }
                    }
                }
            }
        },
        SExpr::DrawDigit(x, y, n) => {
            let n3 = (next + 3) as u8;
            if let Ok(xr) = take_reg(env, next) {
                if let Ok(yr) = take_reg(env, (next + 1) as u8) {
                    if let Ok(nr) = take_reg(env, (next + 2) as u8) {
                        let q = quad(IrOp::DrawDigit, Some(reg_name(xr)), Some(reg_name(yr)), Some(reg_name(nr)));
                        lemma_load_inside(env, pc, n3, xr, *x);
                        if let Ok(ex) = load_code(env, pc, n3, xr, *x) {
                            lemma_load_inside(env, pc + ex.bytes.len(), n3, yr, *y);
                            if let Ok(ey) = load_code(env, pc + ex.bytes.len(), n3, yr, *y) {
                                lemma_load_inside(env, pc + ex.bytes.len() + ey.bytes.len(), n3, nr, *n);
                                if let Ok(en) = load_code(env, pc + ex.bytes.len() + ey.bytes.len(), n3, nr, *n) {
                                    lemma_join_inside(q, ex, pc);
                                    lemma_join_inside(join(q, ex), ey, pc);
                                    lemma_join_inside(join(join(q, ex), ey), en, pc);
                                    let tail = code(
                                        op(0x600Fu16) + op(0x8002u16 | r8(nr)) + op(0xF029u16 | r8(nr)) + op(0xD005u16 | r8(xr) | r4(yr))
                                            + op(0x80F0u16 | r8(dest)),
                                    );
                                    lemma_join_inside(join(join(join(q, ex), ey), en), tail, pc);
                                }
                            }
                        }
                    }
                }
            }
        },
        SExpr::KeyPressed(k) => {
            if let Ok(kr) = take_reg(env, next) {
                lemma_load_inside(env, pc, (next + 1) as u8, kr, *k);
                if let Ok(ek) = load_code(env, pc, (next + 1) as u8, kr, *k) {
                    let q = quad(IrOp::KeyPressed, Some(reg_name(kr)), None, Some(reg_name(dest)));
                    lemma_join_inside(q, ek, pc);
                    let tail = code(op(0x6001u16 | r8(dest)) + op(0xE09Eu16 | r8(kr)) + op(0x6000u16 | r8(dest)));
                    lemma_join_inside(join(q, ek), tail, pc);
                }
            }
        },
        _ => {},
    }
}

proof fn lemma_binop_inside(env: GenEnv, pc: nat, next: u8, dest: u8, e: SExpr)
    ensures
        binop_code(env, pc, next, dest, e) matches Ok(x) ==> whole_code(x, pc),
    decreases e, 1int,
{
    if let SExpr::BinOp(l, o, r) = e {
        if let Ok(lr) = take_reg(env, next) {
            if let Ok(rr) = take_reg(env, (next + 1) as u8) {
                let n2 = (next + 2) as u8;
                lemma_load_inside(env, pc, n2, lr, *l);
                if let Ok(el) = load_code(env, pc, n2, lr, *l) {
                    lemma_load_inside(env, pc + el.bytes.len(), n2, rr, *r);
                    if let Ok(er) = load_code(env, pc + el.bytes.len(), n2, rr, *r) {
                        let pc0 = pc + el.bytes.len() + er.bytes.len();
                        if let Ok(et) = binop_tail(env, pc0, n2, dest, lr, rr, o) {
                            lemma_join_inside(el, er, pc);
                            lemma_join_inside(join(el, er), et, pc);
                        }
                    }
                }
            }
        }
    }
}

proof fn lemma_arg_moves_even(next: u8, argc: int, i: int)
    ensures
        arg_moves(next, argc, i).len() % 2 == 0,
    decreases argc - i,
{
    if 0 <= i < argc {
        lemma_arg_moves_even(next, argc, i + 1);
    }
}

proof fn lemma_args_inside(env: GenEnv, pc: nat, next: u8, args: Seq<SExpr>, i: int)
    ensures
        args_code(env, pc, next, args, i) matches Ok(x) ==> whole_code(x, pc),
    decreases args, args.len() - i,
{
    if 0 <= i < args.len() && next + i <= env.work_end {
        let t = (next + i) as u8;
        let n1 = ((next + i + 1) % 256) as u8;
        lemma_load_inside(env, pc, n1, t, args[i]);
        if let Ok(ea) = load_code(env, pc, n1, t, args[i]) {
            lemma_args_inside(env, pc + ea.bytes.len(), next, args, i + 1);
            if let Ok(rest) = args_code(env, pc + ea.bytes.len(), next, args, i + 1) {
                lemma_join_inside(ea, rest, pc);
            }
        }
    }
}

proof fn lemma_call_inside(env: GenEnv, pc: nat, next: u8, name: Seq<char>, args: Seq<SExpr>, dest: Option<u8>)
    ensures
        call_code(env, pc, next, name, args, dest) matches Ok(x) ==> whole_code(x, pc),
    decreases args, args.len() + 1,
{
    let argc = (args.len() % 256) as u8;
    let we = env.work_end;
    let save = env.save_addrs[env.depth as int];
    let head = join(
        quad(IrOp::Call, Some(name), Some(numeral(argc as nat, 10)), None),
        code(op(0xA000u16 | save) + op(0xF055u16 | r8(we))),
    );
    lemma_args_inside(env, pc + 4, next, args, 0);
    if let Ok(ea) = args_code(env, pc + 4, next, args, 0) {
        let moves = arg_moves(next, args.len() as int, 0);
        lemma_arg_moves_even(next, args.len() as int, 0);
        let at = pc + 4 + ea.bytes.len() + moves.len();
        let call = match lookup(env.fns, name) {
            Some(a) => code(op(0x2000u16 | a)),
            None => Emitted { bytes: op(0x2000u16), quads: Seq::empty(), fixups: seq![(at, name)] },
        };
        let ret = ((argc as nat + 1) % 256) as u8;
        let tail = code(
            op(0x8F00u16 | r4(ret)) + op(0xA000u16 | save) + op(0xF065u16 | r8(we)) + match dest {
                Some(d) => op(0x80F0u16 | r8(d)),
                None => Seq::empty(),
            },
        );
        assert(head.bytes.len() == 4);
        lemma_join_inside(head, ea, pc);
        lemma_join_inside(join(head, ea), code(moves), pc);
        lemma_join_inside(join(join(head, ea), code(moves)), call, pc);
        lemma_join_inside(join(join(join(head, ea), code(moves)), call), tail, pc);
    }
}


proof fn lemma_value_test_inside(env: GenEnv, pc: nat, next: u8, cond: SExpr)
    ensures
        value_test(env, pc, next, cond) matches Ok(x) ==> whole_code(x, pc),
{
    if let Ok(r) = take_reg(env, next) {
        lemma_load_inside(env, pc, (next + 1) as u8, r, cond);
        if let Ok(e) = load_code(env, pc, (next + 1) as u8, r, cond) {
            lemma_join_inside(e, code(op(0x3001u16 | r8(r))), pc);
        }
    }
}

proof fn lemma_cond_inside(env: GenEnv, pc: nat, next: u8, cond: SExpr)
    ensures
        cond_prefix(env, pc, next, cond) matches Ok(x) ==> whole_code(x, pc),
{
    reveal(cond_prefix);
    lemma_value_test_inside(env, pc, next, cond);
    if let SExpr::BinOp(l, o, r) = cond {
        if is_comparison(o) {
            if let Ok(lr) = take_reg(env, next) {
                if let Ok(rr) = take_reg(env, (next + 1) as u8) {
                    let n2 = (next + 2) as u8;
                    lemma_load_inside(env, pc, n2, lr, *l);
                    if let Ok(el) = load_code(env, pc, n2, lr, *l) {
                        lemma_load_inside(env, pc + el.bytes.len(), n2, rr, *r);
                        if let Ok(er) = load_code(env, pc + el.bytes.len(), n2, rr, *r) {
                            lemma_join_inside(el, er, pc);
                            let tb = if o == Op::EqEq {
                                op(0x5000u16 | r8(lr) | r4(rr))
                            } else if o == Op::NotEq {
                                op(0x9000u16 | r8(lr) | r4(rr))
                            } else if o == Op::Lt {
                                op(0x8005u16 | r8(lr) | r4(rr)) + op(0x3F00u16)
                            } else if o == Op::Gt {
                                op(0x8005u16 | r8(rr) | r4(lr)) + op(0x3F00u16)
                            } else if o == Op::LtEq {
                                op(0x8005u16 | r8(rr) | r4(lr)) + op(0x3F01u16)
                            } else {
                                op(0x8005u16 | r8(lr) | r4(rr)) + op(0x3F01u16)
                            };
                            lemma_join_inside(join(el, er), code(tb), pc);
                        }
                    }
                }
            }
        }
    }
}

proof fn lemma_stmt_inside(env: GenEnv, pc: nat, next: u8, label: u32, s: SStmt)
    ensures
        stmt_code(env, pc, next, label, s) matches Ok((x, _)) ==> whole_code(x, pc),
    decreases s, 2int,
{
    match s {
        SStmt::Assign(n, e) => {
            if let Some(r) = lookup(env.regs, n) {
                lemma_load_inside(env, pc, next, r, e);
            }
        },
        SStmt::If(..) => {
            lemma_if_inside(env, pc, next, label, s);
        },
        SStmt::Loop(body) => {
            let lbl = label_name(label);
            lemma_block_inside(env, pc, next, next_label(label), body);
            if let Ok((eb, l2)) = block_code(env, pc, next, next_label(label), body) {
                let q = quad(IrOp::Label, Some(lbl), None, None);
                let t = join(quad(IrOp::Jump, Some(lbl), None, None), code(jp(addr_of(pc))));
                lemma_join_inside(q, eb, pc);
                lemma_join_inside(join(q, eb), t, pc);
            }
        },
        SStmt::While(c, body) => {
            let loop_lbl = label_name(label);
            let end_lbl = label_name(next_label(label));
            lemma_cond_inside(env, pc, next, c);
            if let Ok(ec) = cond_prefix(env, pc, next, c) {
                let pc1 = pc + ec.bytes.len() + 2;
                lemma_block_inside(env, pc1, next, next_label(next_label(label)), body);
                if let Ok((eb, l2)) = block_code(env, pc1, next, next_label(next_label(label)), body) {
                    let loop_end = addr_of(pc1 + eb.bytes.len() + 2);
                    let q0 = join(
                        quad(IrOp::Label, Some(loop_lbl), None, None),
                        quad(IrOp::JumpFalse, Some(cond_name()), Some(end_lbl), None),
                    );
                    lemma_join_inside(ec, code(jp(loop_end)), pc);
                    lemma_join_inside(join(ec, code(jp(loop_end))), eb, pc);
                    lemma_join_inside(q0, join(join(ec, code(jp(loop_end))), eb), pc);
                    let t = join(
                        join(quad(IrOp::Jump, Some(loop_lbl), None, None), code(jp(addr_of(pc)))),
                        quad(IrOp::Label, Some(end_lbl), None, None),
                    );
                    lemma_join_inside(join(q0, join(join(ec, code(jp(loop_end))), eb)), t, pc);
                }
            }
        },
        SStmt::Call(n, args) => {
            lemma_call_inside(env, pc, next, n, args, None);
        },
        SStmt::Delay(e) => {
            lemma_load_inside(env, pc, next, 0, e);
            if let Ok(ee) = load_code(env, pc, next, 0, e) {
                let q = quad(IrOp::SetDelay, Some(v0_name()), None, None);
                lemma_join_inside(q, ee, pc);
                lemma_join_inside(join(q, ee), code(op(0xF015u16)), pc);
            }
        },
        SStmt::Beep(e) => {
            lemma_load_inside(env, pc, next, 0, e);
            if let Ok(ee) = load_code(env, pc, next, 0, e) {
                let q = quad(IrOp::SetSound, Some(v0_name()), None, None);
                lemma_join_inside(q, ee, pc);
                lemma_join_inside(join(q, ee), code(op(0xF018u16)), pc);
            }
        },
        SStmt::Clear => {},
    }
}

proof fn lemma_branch_inside(env: GenEnv, pc: nat, next: u8, label: u32, end_lbl: Seq<char>, c: SExpr, body: Seq<SStmt>)
    ensures
        branch_code(env, pc, next, label, end_lbl, c, body) matches Ok((x, _, _)) ==> whole_code(x, pc),
    decreases body, 1int,
{
    let skip_lbl = label_name(label);
    lemma_cond_inside(env, pc, next, c);
    if let Ok(ec) = cond_prefix(env, pc, next, c) {
        let pc1 = pc + ec.bytes.len() + 2;
        lemma_block_inside(env, pc1, next, next_label(label), body);
        if let Ok((eb, l2)) = block_code(env, pc1, next, next_label(label), body) {
            let pc2 = pc1 + eb.bytes.len();
            let after = addr_of(pc2 + 2);
            let q = quad(IrOp::JumpFalse, Some(cond_name()), Some(skip_lbl), None);
            lemma_join_inside(ec, code(jp(after)), pc);
            lemma_join_inside(join(ec, code(jp(after))), eb, pc);
            lemma_join_inside(q, join(join(ec, code(jp(after))), eb), pc);
            let t = join(
                join(quad(IrOp::Jump, Some(end_lbl), None, None), code(op(0x1000u16))),
                quad(IrOp::Label, Some(skip_lbl), None, None),
            );
            lemma_join_inside(join(q, join(join(ec, code(jp(after))), eb)), t, pc);
        }
    }
}

proof fn lemma_elifs_inside(env: GenEnv, pc: nat, next: u8, label: u32, end_lbl: Seq<char>, es: Seq<SElseIf>, i: int)
    ensures
        elifs_code(env, pc, next, label, end_lbl, es, i) matches Ok((x, _, _)) ==> whole_code(x, pc),
    decreases es, es.len() - i,
{
    if 0 <= i < es.len() {
        lemma_branch_inside(env, pc, next, label, end_lbl, es[i].condition, es[i].body);
        if let Ok((e1, o1, l1)) = branch_code(env, pc, next, label, end_lbl, es[i].condition, es[i].body) {
            lemma_elifs_inside(env, pc + e1.bytes.len(), next, l1, end_lbl, es, i + 1);
            if let Ok((e2, o2, l2)) = elifs_code(env, pc + e1.bytes.len(), next, l1, end_lbl, es, i + 1) {
                lemma_join_inside(e1, e2, pc);
            }
        }
    }
}

/// The jumps of a branch lie inside it.
proof fn lemma_branch_offsets(env: GenEnv, pc: nat, next: u8, label: u32, end_lbl: Seq<char>, c: SExpr, body: Seq<SStmt>)
    ensures
        branch_code(env, pc, next, label, end_lbl, c, body) matches Ok((x, offs, _)) ==> offsets_inside(offs, pc, x.bytes.len()),
{
}

proof fn lemma_if_inside(env: GenEnv, pc: nat, next: u8, label: u32, s: SStmt)
    ensures
        if_code(env, pc, next, label, s) matches Ok((x, _)) ==> whole_code(x, pc),
    decreases s, 1int,
{
    if let SStmt::If(c, body, elifs, els) = s {
        let end_lbl = label_name(label);
        lemma_branch_inside(env, pc, next, next_label(label), end_lbl, c, body);
        lemma_branch_offsets(env, pc, next, next_label(label), end_lbl, c, body);
        if let Ok((e1, o1, l1)) = branch_code(env, pc, next, next_label(label), end_lbl, c, body) {
            lemma_elifs_inside(env, pc + e1.bytes.len(), next, l1, end_lbl, elifs, 0);
            if let Ok((e2, o2, l2)) = elifs_code(env, pc + e1.bytes.len(), next, l1, end_lbl, elifs, 0) {
                let pc3 = pc + e1.bytes.len() + e2.bytes.len();
                if let Some(b) = els {
                    lemma_block_inside(env, pc3, next, l2, b);
                }
                let r3 = match els {
                    Some(b) => block_code(env, pc3, next, l2, b),
                    None => Ok((nothing(), l2)),
                };
                if let Ok((e3, l3)) = r3 {
                    let all = join(join(join(e1, e2), e3), quad(IrOp::Label, Some(end_lbl), None, None));
                    lemma_join_inside(e1, e2, pc);
                    lemma_join_inside(join(e1, e2), e3, pc);
                    lemma_join_inside(join(join(e1, e2), e3), quad(IrOp::Label, Some(end_lbl), None, None), pc);
                    lemma_elifs_offsets(env, pc + e1.bytes.len(), next, l1, end_lbl, elifs, 0);
                    let offs = o1 + o2;
                    assert(offsets_inside(offs, pc, all.bytes.len())) by {
                        assert forall|k: int| 0 <= k < offs.len() implies pc <= #[trigger] offs[k] && offs[k] + 2 <= pc + all.bytes.len() by {
                            if k >= o1.len() {
                                assert(offs[k] == o2[k - o1.len()]);
                            } else {
                                assert(offs[k] == o1[k]);
                            }
                        }
                    }
                    let end = addr_of(pc3 + e3.bytes.len());
                    lemma_patch_len(all.bytes, pc, offs, end);
                }
            }
        }
    }
}

proof fn lemma_block_inside(env: GenEnv, pc: nat, next: u8, label: u32, b: Seq<SStmt>)
    ensures
        block_code(env, pc, next, label, b) matches Ok((x, _)) ==> whole_code(x, pc),
    decreases b, 0int,
{
    if b.len() > 0 {
        lemma_block_inside(env, pc, next, label, b.drop_last());
        if let Ok((e1, l1)) = block_code(env, pc, next, label, b.drop_last()) {
            lemma_stmt_inside(env, pc + e1.bytes.len(), next, l1, b[b.len() - 1]);
            if let Ok((e2, l2)) = stmt_code(env, pc + e1.bytes.len(), next, l1, b[b.len() - 1]) {
                lemma_join_inside(e1, e2, pc);
            }
        }
    }
}


proof fn lemma_fn_inside(env: GenEnv, pc: nat, label: u32, f: SFnDecl, depth: nat)
    ensures
        fn_code(env, pc, label, f, depth) matches Ok((x, _, _)) ==> whole_code(x, pc),
{
    let regs = assoc_insert(bind_args(env.regs, f.args), f.ret, ret_reg(f));
    let next = ((ret_reg(f) as nat + 1) % 256) as u8;
    let env2 = GenEnv { regs, depth, ..env };
    lemma_block_inside(env2, pc, next, label, f.body);
    if let Ok((eb, l2)) = block_code(env2, pc, next, label, f.body) {
        let q = quad(IrOp::Label, Some(f.name), None, None);
        let t = join(quad(IrOp::Return, None, None, None), code(op(0x00EEu16)));
        lemma_join_inside(q, eb, pc);
        lemma_join_inside(join(q, eb), t, pc);
    }
}

/// Calls left to patch lie between offsets `lo` and `hi`.
pub open spec fn fixups_within(fx: Seq<(nat, Seq<char>)>, lo: nat, hi: nat) -> bool {
    forall|k: int| 0 <= k < fx.len() ==> lo <= (#[trigger] fx[k]).0 && fx[k].0 + 2 <= hi
}

/// The ROM so far followed by `e`, placed at its end, keeps the calls to
/// patch between `lo` and the new end.
proof fn lemma_add_emitted_within(st: GenState, e: Emitted, lo: nat)
    requires
        fixups_within(st.fixups, lo, st.rom.len()),
        whole_code(e, st.rom.len()),
        lo <= st.rom.len(),
    ensures
        fixups_within(add_emitted(st, e).fixups, lo, add_emitted(st, e).rom.len()),
        add_emitted(st, e).rom.subrange(0, st.rom.len() as int) == st.rom,
{
    let s = add_emitted(st, e);
    assert forall|k: int| 0 <= k < s.fixups.len() implies lo <= (#[trigger] s.fixups[k]).0 && s.fixups[k].0 + 2 <= s.rom.len() by {
        if k >= st.fixups.len() {
            assert(s.fixups[k] == e.fixups[k - st.fixups.len()]);
        } else {
            assert(s.fixups[k] == st.fixups[k]);
        }
    }
    assert(s.rom.subrange(0, st.rom.len() as int) =~= st.rom);
}

proof fn lemma_init_globals_within(st: GenState, vs: Seq<crate::ast::SVarDecl>, lo: nat)
    requires
        fixups_within(st.fixups, lo, st.rom.len()),
        lo <= st.rom.len(),
    ensures
        init_globals(st, vs) matches Ok(s) ==> {
            &&& fixups_within(s.fixups, lo, s.rom.len())
            &&& s.rom.len() >= st.rom.len()
            &&& s.rom.subrange(0, st.rom.len() as int) == st.rom
            &&& (st.rom.len() % 2 == 0 ==> s.rom.len() % 2 == 0)
        },
    decreases vs.len(),
{
    if vs.len() > 0 {
        lemma_init_globals_within(st, vs.drop_last(), lo);
        if let Ok(s1) = init_globals(st, vs.drop_last()) {
            let v = vs[vs.len() - 1];
            if let Some(r) = lookup(s1.env.regs, v.name) {
                lemma_load_inside(s1.env, s1.rom.len(), 1, r, v.value);
                if let Ok(e) = load_code(s1.env, s1.rom.len(), 1, r, v.value) {
                    lemma_add_emitted_within(s1, e, lo);
                    assert(add_emitted(s1, e).rom.subrange(0, st.rom.len() as int) =~= s1.rom.subrange(0, st.rom.len() as int));
                }
            }
        }
    } else {
        assert(st.rom.subrange(0, st.rom.len() as int) =~= st.rom);
    }
}

proof fn lemma_emit_fns_within(st: GenState, fs: Seq<SFnDecl>, g: crate::callgraph::SCallGraph, lo: nat)
    requires
        fixups_within(st.fixups, lo, st.rom.len()),
        lo <= st.rom.len(),
    ensures
        emit_fns(st, fs, g) matches Ok(s) ==> {
            &&& fixups_within(s.fixups, lo, s.rom.len())
            &&& s.rom.len() >= st.rom.len()
            &&& s.rom.subrange(0, st.rom.len() as int) == st.rom
            &&& (st.rom.len() % 2 == 0 ==> s.rom.len() % 2 == 0)
        },
    decreases fs.len(),
{
    if fs.len() > 0 {
        lemma_emit_fns_within(st, fs.drop_last(), g, lo);
        if let Ok(s1) = emit_fns(st, fs.drop_last(), g) {
            let f = fs[fs.len() - 1];
            let env1 = GenEnv { fns: assoc_insert(s1.env.fns, f.name, addr_of(s1.rom.len())), ..s1.env };
            lemma_fn_inside(env1, s1.rom.len(), s1.label, f, depth_of(g, f.name));
            if let Ok((e, l, regs)) = fn_code(env1, s1.rom.len(), s1.label, f, depth_of(g, f.name)) {
                lemma_add_emitted_within(s1, e, lo);
                assert(add_emitted(s1, e).rom.subrange(0, st.rom.len() as int) =~= s1.rom.subrange(0, st.rom.len() as int));
            }
        }
    } else {
        assert(st.rom.subrange(0, st.rom.len() as int) =~= st.rom);
    }
}

/// Patching calls between `lo` and `hi` leaves the bytes outside alone.
proof fn lemma_apply_fixups_within(rom: Seq<u8>, fx: Seq<(nat, Seq<char>)>, fns: Seq<(Seq<char>, u16)>, lo: nat, hi: nat)
    requires
        fixups_within(fx, lo, hi),
        hi <= rom.len(),
    ensures
        apply_fixups(rom, fx, fns) matches Ok(r) ==> {
            &&& r.len() == rom.len()
            &&& forall|i: int| 0 <= i < lo ==> #[trigger] r[i] == rom[i]
            &&& forall|i: int| hi <= i < rom.len() ==> #[trigger] r[i] == rom[i]
        },
    decreases fx.len(),
{
    if fx.len() > 0 {
        assert(fixups_within(fx.drop_last(), lo, hi)) by {
            assert forall|k: int| 0 <= k < fx.drop_last().len() implies lo <= (#[trigger] fx.drop_last()[k]).0 && fx.drop_last()[k].0 + 2 <= hi by {
                assert(fx.drop_last()[k] == fx[k]);
            }
        }
        lemma_apply_fixups_within(rom, fx.drop_last(), fns, lo, hi);
        assert(fx[fx.len() - 1] == fx[fx.len() - 1]);
    }
}

/// Law: a generated ROM is made of whole two-byte words; it starts with a
/// jump to an even address inside it, past the jump itself (the code after
/// the data), and ends with a jump to its own address, the endless loop
/// after `main`; it fits the program space.
#[verifier::spinoff_prover]
#[verifier::rlimit(80)]
pub proof fn lemma_rom_shape(p: SProgram, files: Seq<(Seq<char>, Seq<u8>)>)
    ensures
        generate_spec(p, files) matches Ok((rom, _)) ==> {
            &&& 4 <= rom.len() <= ROM_MAX
            &&& rom.len() % 2 == 0
            &&& rom[0] & 0xF0u8 == 0x10u8
            &&& ({
                let target = (rom[0] & 0x0Fu8) as int * 256 + rom[1] as int;
                &&& 0x202 <= target < 0x200 + rom.len()
                &&& target % 2 == 0
            })
            &&& rom.subrange(rom.len() - 2, rom.len() as int) == jp(addr_of((rom.len() - 2) as nat))
        },
{
    if let Ok(st3) = data_stage(p, files) {
        let st0 = initial_state(p);
        let st1 = save_areas(st0, max_depth(p) + 1, st0.env.work_end as nat + 1);
        lemma_save_areas_shape(st0, max_depth(p) + 1, st0.env.work_end as nat + 1);
        lemma_lay_sprites_shape(st1, p.sprites, files);
        let st2 = lay_sprites(st1, p.sprites, files)->Ok_0;
        let padded = if st2.rom.len() % 2 == 1 { st2.rom.push(0u8) } else { st2.rom };
        let code_start = addr_of(padded.len());
        assert(st3.rom == set_word(padded, 0, 0x1000u16 | code_start));
        assert(st3.rom.len() == padded.len());
        assert(st3.rom[0] == ((0x1000u16 | code_start) >> 8u16) as u8);
        assert(st3.fixups.len() == 0);
        lemma_init_globals_within(st3, p.vars, 2);
        if let Ok(st4) = init_globals(st3, p.vars) {
            let st5 = GenState { rom: st4.rom + op(0x1000u16), ..st4 };
            assert(st5.rom.subrange(0, st4.rom.len() as int) =~= st4.rom);
            let g = crate::callgraph::call_graph(p);
            lemma_emit_fns_within(st5, p.functions, g, 2);
            if let Ok(st6) = emit_fns(st5, p.functions, g) {
                let fn_jump = st4.rom.len();
                let rom7 = set_word(st6.rom, fn_jump as int, 0x1000u16 | addr_of(st6.rom.len()));
                let env7 = GenEnv { depth: 0, ..st6.env };
                lemma_block_inside(env7, rom7.len(), 1, st6.label, p.main);
                if let Ok((em, _)) = block_code(env7, rom7.len(), 1, st6.label, p.main) {
                    let rom8 = rom7 + em.bytes;
                    let rom9 = rom8 + jp(addr_of(rom8.len()));
                    let fx = st6.fixups + em.fixups;
                    assert(fixups_within(fx, 2, rom8.len())) by {
                        assert forall|k: int| 0 <= k < fx.len() implies 2 <= (#[trigger] fx[k]).0 && fx[k].0 + 2 <= rom8.len() by {
                            if k >= st6.fixups.len() {
                                assert(fx[k] == em.fixups[k - st6.fixups.len()]);
                            } else {
                                assert(fx[k] == st6.fixups[k]);
                            }
                        }
                    }
                    lemma_apply_fixups_within(rom9, fx, env7.fns, 2, rom8.len());
                    if let Ok(rom10) = apply_fixups(rom9, fx, env7.fns) {
                        if rom10.len() <= ROM_MAX {
                            assert(rom10[0] == rom9[0]);
                            assert(rom9[0] == st3.rom[0]) by {
                                assert(st4.rom.subrange(0, st3.rom.len() as int)[0] == st3.rom[0]);
                                assert(st6.rom.subrange(0, st5.rom.len() as int)[0] == st5.rom[0]);
                            }
                            assert(padded.len() + 2 <= rom10.len());
                            assert(code_start < 0x1000);
                            let b = ((0x1000u16 | code_start) >> 8u16) as u8;
                            let b1 = ((0x1000u16 | code_start) & 0xFFu16) as u8;
                            assert(b & 0xF0u8 == 0x10u8 && (b & 0x0Fu8) as u32 * 256 + b1 as u32 == code_start as u32) by (bit_vector)
                                requires
                                    code_start < 0x1000u16,
                                    b == ((0x1000u16 | code_start) >> 8u16) as u8,
                                    b1 == ((0x1000u16 | code_start) & 0xFFu16) as u8;
                            assert(rom10[1] == rom9[1]);
                            assert(rom9[1] == st3.rom[1]) by {
                                assert(st4.rom.subrange(0, st3.rom.len() as int)[1] == st3.rom[1]);
                                assert(st6.rom.subrange(0, st5.rom.len() as int)[1] == st5.rom[1]);
                            }
                            assert(st3.rom[1] == b1);
                            assert(padded.len() % 2 == 0);
                            assert(padded.len() >= 2);
                            assert(rom10.subrange(rom10.len() - 2, rom10.len() as int) =~= jp(addr_of(rom8.len())));
                        }
                    }
                }
            }
        }
    }
}

} // verus!
