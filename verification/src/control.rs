//! What the code of branches and loops does when it runs: a semantics of
//! blocks of assignments, `if`/`elif`/`else`, `while` and `loop`, and the
//! proof that running their code follows it.
use vstd::prelude::*;
use crate::ast::{Op, SExpr, SStmt, SElseIf};
use crate::analyzer::{lookup, lemma_key_index_bounds};
use crate::codegen::{
    cond_prefix, value_test, is_comparison, take_reg, load_code, block_code, stmt_code, if_code, branch_code, elifs_code,
    patch_jumps, set_word, offsets_inside, jp, op, r8, r4, addr_of, next_label, GenEnv, Emitted,
    SCodegenError, lemma_elifs_offsets, lemma_patch_len, lemma_set_word_concat,
};
use crate::machine::{
    Cpu, Instr, decode, run, step, placed, eval, arith_expr, vars_apart, divisors_nonzero, same_outside, flag,
    op_value, same_frame, lemma_load_runs, lemma_run_add, lemma_word_in, lemma_placed_split, lemma_dec_x, lemma_dec_xy,
    lemma_dec_jump, lemma_fields, lemma_eval_frame, lemma_vars_apart_mono, lemma_addr,
};
use crate::ir::label_name;
use crate::ast::SProgram;
use crate::codegen::{
    initial_state, save_areas, lay_sprites, max_depth, data_stage, init_globals, emit_fns, generate_spec, GenState,
    lemma_save_areas_shape, lemma_lay_sprites_shape,
};
use crate::machine::{
    init_stmts, divides_safely, global_regs, assign_all, assignments_only, program_env, lemma_bind_globals_regs,
    lemma_init_code, lemma_block_no_fixups, lemma_globals_fit, lemma_block_runs, lemma_assign_all_len, lemma_word_at,
    lemma_arith_no_fixups,
};

verus! {

// ---------------------------------------------------------------------------
// Registers
// ---------------------------------------------------------------------------

/// Every variable's register is in `V1`..`VE` and is not a work register
/// from `next` on.
pub open spec fn regs_apart(env: GenEnv, next: u8) -> bool {
    forall|j: int|
        0 <= j < env.regs.len() ==> 0 < (#[trigger] env.regs[j]).1 < 15 && (env.regs[j].1 < next || env.regs[j].1 > env.work_end)
}

pub(crate) proof fn lemma_lookup_apart(env: GenEnv, next: u8, name: Seq<char>)
    requires
        regs_apart(env, next),
    ensures
        lookup(env.regs, name) matches Some(r) ==> 0 < r < 15 && (r < next || r > env.work_end),
{
    lemma_key_index_bounds(env.regs, name);
}

pub(crate) proof fn lemma_all_vars_apart(env: GenEnv, e: SExpr, next: u8)
    requires
        regs_apart(env, next),
    ensures
        vars_apart(env, e, next),
    decreases e,
{
    match e {
        SExpr::Var(name) => lemma_lookup_apart(env, next, name),
        SExpr::BinOp(l, _, r) => {
            lemma_all_vars_apart(env, *l, next);
            lemma_all_vars_apart(env, *r, next);
        },
        SExpr::Not(x) => lemma_all_vars_apart(env, *x, next),
        SExpr::Call(_, args) => {},
        SExpr::Draw(x, y, _) => {},
        _ => {},
    }
}

// ---------------------------------------------------------------------------
// Conditions
// ---------------------------------------------------------------------------

/// A condition holds when its value is 1.
pub open spec fn holds(env: GenEnv, c: SExpr, v: Seq<u8>) -> bool {
    eval(env, c, v) == 1
}

/// Where the test of `cond` is about to run.
pub open spec fn cond_ready(env: GenEnv, pc: nat, next: u8, cond: SExpr, rom: Seq<u8>, c: Cpu) -> bool {
    &&& cond_prefix(env, pc, next, cond) is Ok
    &&& arith_expr(cond)
    &&& regs_apart(env, next)
    &&& divisors_nonzero(env, cond, c.v)
    &&& placed(rom, pc, cond_prefix(env, pc, next, cond)->Ok_0.bytes)
    &&& 0x200 + pc + cond_prefix(env, pc, next, cond)->Ok_0.bytes.len() + 2 < 0x1000
    &&& c.pc == 0x200 + pc
    &&& c.v.len() == 16
    &&& env.work_end < 15
    &&& 0 < next
}

/// The test of a condition ends past its code, and past the instruction
/// after it too when the condition holds; it changes no register of
/// `V1`..`VE` outside the work registers.
pub(crate) proof fn lemma_cond_runs(env: GenEnv, pc: nat, next: u8, cond: SExpr, rom: Seq<u8>, c: Cpu) -> (k: nat)
    requires
        cond_ready(env, pc, next, cond, rom, c),
    ensures
        ({
            let f = run(rom, c, k);
            let len = cond_prefix(env, pc, next, cond)->Ok_0.bytes.len();
            &&& f.pc == c.pc + len + if holds(env, cond, c.v) { 2int } else { 0int }
            &&& f.v.len() == 16
            &&& same_frame(c, f)
            &&& same_outside(env, f.v, c.v, next)
        }),
{
    reveal(cond_prefix);
    reveal(decode);
    lemma_all_vars_apart(env, cond, next);
    let code = cond_prefix(env, pc, next, cond)->Ok_0.bytes;
    if let SExpr::Var(name) = cond {
        let r = lookup(env.regs, name)->Some_0;
        lemma_lookup_apart(env, next, name);
        let w = 0x3001u16 | r8(r);
        assert(code =~= op(w));
        assert(code.subrange(0, 2) =~= op(w));
        lemma_word_in(rom, pc, code, 0, w);
        lemma_dec_x(0x3001u16, 3, 1, r);
        let c1 = step(rom, c);
        assert(run(rom, c, 1) == c1) by {
            reveal_with_fuel(run, 2);
        }
        1
    } else if cond matches SExpr::BinOp(l, o, r) && is_comparison(o) {
        let (l, o, r) = match cond {
            SExpr::BinOp(l, o, r) => (*l, o, *r),
            _ => (cond, Op::Add, cond),
        };
        let lr = next;
        let rr = (next + 1) as u8;
        let n2 = (next + 2) as u8;
        assert(next <= env.work_end && next + 1 <= env.work_end);
        let el = load_code(env, pc, n2, lr, l)->Ok_0;
        let er = load_code(env, pc + el.bytes.len(), n2, rr, r)->Ok_0;
        let tb = if o == Op::EqEq {
            op(0x5000u16 | r8(lr) | r4(rr))
        } else if o == Op::NotEq {
            op(0x9000u16 | r8(lr) | r4(rr))
        } else if o == Op::Lt {
            op(0x8005u16 | r8(lr) | r4(rr)) + op(0x3F00u16)
        } else if o == Op::Gt {
            op(0x8005u16 | r8(rr) | r4(lr)) + op(0x3F00u16)
        } else if o == Op::LtEq {
            op(0x8005u16 | r8(rr) | r4(lr)) + op(0x3F01u16)
        } else {
            op(0x8005u16 | r8(lr) | r4(rr)) + op(0x3F01u16)
        };
        assert(code =~= el.bytes + er.bytes + tb);
        lemma_placed_split(rom, pc, el.bytes + er.bytes, tb);
        lemma_placed_split(rom, pc, el.bytes, er.bytes);
        lemma_vars_apart_mono(env, l, next, n2);
        lemma_vars_apart_mono(env, r, next, n2);
        let k1 = lemma_load_runs(env, pc, n2, lr, l, rom, c);
        let c1 = run(rom, c, k1);
        assert(same_outside(env, c.v, c1.v, next));
        lemma_eval_frame(env, r, c.v, c1.v, next);
        let k2 = lemma_load_runs(env, pc + el.bytes.len(), n2, rr, r, rom, c1);
        let c2 = run(rom, c1, k2);
        assert(c2.v[lr as int] == c1.v[lr as int]);
        lemma_run_add(rom, c, k1, k2);
        let a = eval(env, l, c.v);
        let b = eval(env, r, c.v);
        let pt = pc + el.bytes.len() + er.bytes.len();
        if o == Op::EqEq || o == Op::NotEq {
            let w = if o == Op::EqEq { 0x5000u16 | r8(lr) | r4(rr) } else { 0x9000u16 | r8(lr) | r4(rr) };
            assert(tb.subrange(0, 2) =~= op(w));
            lemma_word_in(rom, pt, tb, 0, w);
            if o == Op::EqEq {
                lemma_dec_xy(0x5000u16, 5, 0, lr, rr);
            } else {
                lemma_dec_xy(0x9000u16, 9, 0, lr, rr);
            }
            let c3 = step(rom, c2);
            assert(run(rom, c2, 1) == c3) by {
                reveal_with_fuel(run, 2);
            }
            lemma_run_add(rom, c, k1 + k2, 1);
            k1 + k2 + 1
        } else {
            let swap = o == Op::Gt || o == Op::LtEq;
            let (x, y) = if swap { (rr, lr) } else { (lr, rr) };
            let w1 = 0x8005u16 | r8(x) | r4(y);
            let w2 = if o == Op::Lt || o == Op::Gt { 0x3F00u16 } else { 0x3F01u16 };
            assert(tb =~= op(w1) + op(w2));
            assert(tb.subrange(0, 2) =~= op(w1));
            assert(tb.subrange(2, 4) =~= op(w2));
            lemma_word_in(rom, pt, tb, 0, w1);
            lemma_word_in(rom, pt, tb, 2, w2);
            lemma_dec_xy(0x8005u16, 8, 5, x, y);
            if o == Op::Lt || o == Op::Gt {
                lemma_fields(3, 15, 0, 0);
            } else {
                lemma_fields(3, 15, 0, 1);
            }
            let c3 = step(rom, c2);
            let c4 = step(rom, c3);
            assert(run(rom, c2, 2) == c4) by {
                reveal_with_fuel(run, 3);
            }
            lemma_run_add(rom, c, k1 + k2, 2);
            k1 + k2 + 2
        }
    } else {
        let r = next;
        let n1 = (next + 1) as u8;
        assert(next <= env.work_end);
        let ev = load_code(env, pc, n1, r, cond)->Ok_0;
        let w = 0x3001u16 | r8(r);
        assert(code =~= ev.bytes + op(w));
        lemma_placed_split(rom, pc, ev.bytes, op(w));
        lemma_vars_apart_mono(env, cond, next, n1);
        let k1 = lemma_load_runs(env, pc, n1, r, cond, rom, c);
        let c1 = run(rom, c, k1);
        assert(op(w).subrange(0, 2) =~= op(w));
        lemma_word_in(rom, pc + ev.bytes.len(), op(w), 0, w);
        lemma_dec_x(0x3001u16, 3, 1, r);
        let c2 = step(rom, c1);
        assert(run(rom, c1, 1) == c2) by {
            reveal_with_fuel(run, 2);
        }
        lemma_run_add(rom, c, k1, 1);
        k1 + 1
    }
}

// ---------------------------------------------------------------------------
// Patched jumps
// ---------------------------------------------------------------------------

pub(crate) proof fn lemma_set_word_prefix(x: Seq<u8>, b: Seq<u8>, k: int, w: u16)
    requires
        0 <= k,
        k + 1 < x.len(),
    ensures
        set_word(x + b, k, w) == set_word(x, k, w) + b,
{
    assert(set_word(x + b, k, w) =~= set_word(x, k, w) + b);
}

/// Patching the jumps of two pieces of code, each inside its own piece.
pub(crate) proof fn lemma_patch_concat(a: Seq<u8>, b: Seq<u8>, pc: nat, oa: Seq<nat>, ob: Seq<nat>, t: u16)
    requires
        offsets_inside(oa, pc, a.len()),
        offsets_inside(ob, pc + a.len(), b.len()),
    ensures
        patch_jumps(a + b, pc, oa + ob, t) == patch_jumps(a, pc, oa, t) + patch_jumps(b, pc + a.len(), ob, t),
    decreases ob.len(), oa.len(),
{
    let w = 0x1000u16 | t;
    if ob.len() > 0 {
        let ob1 = ob.drop_last();
        assert((oa + ob).drop_last() =~= oa + ob1);
        assert((oa + ob)[(oa + ob).len() - 1] == ob[ob.len() - 1]);
        assert(offsets_inside(ob1, pc + a.len(), b.len())) by {
            assert forall|k: int| 0 <= k < ob1.len() implies pc + a.len() <= #[trigger] ob1[k] && ob1[k] + 2 <= pc + a.len() + b.len() by {
                assert(ob1[k] == ob[k]);
            }
        }
        lemma_patch_concat(a, b, pc, oa, ob1, t);
        lemma_patch_len(a, pc, oa, t);
        lemma_patch_len(b, pc + a.len(), ob1, t);
        let o = ob[ob.len() - 1];
        let k = o - pc - a.len();
        lemma_set_word_concat(patch_jumps(a, pc, oa, t), patch_jumps(b, pc + a.len(), ob1, t), k, w);
    } else if oa.len() > 0 {
        let oa1 = oa.drop_last();
        assert(oa + ob =~= oa);
        assert(oa1 + ob =~= oa1);
        assert(offsets_inside(oa1, pc, a.len())) by {
            assert forall|k: int| 0 <= k < oa1.len() implies pc <= #[trigger] oa1[k] && oa1[k] + 2 <= pc + a.len() by {
                assert(oa1[k] == oa[k]);
            }
        }
        lemma_patch_concat(a, b, pc, oa1, ob, t);
        lemma_patch_len(a, pc, oa1, t);
        let o = oa[oa.len() - 1];
        lemma_set_word_prefix(patch_jumps(a, pc, oa1, t), b, o - pc, w);
    } else {
        assert(oa + ob =~= Seq::<nat>::empty());
    }
}

// ---------------------------------------------------------------------------
// The semantics
// ---------------------------------------------------------------------------

/// `n = e` on the registers `u`: the variable's register gets the value.
pub open spec fn assign_one(env: GenEnv, n: Seq<char>, e: SExpr, u: Seq<u8>) -> Seq<u8> {
    let r = lookup(env.regs, n)->Some_0 as int;
    if 0 <= r < u.len() {
        u.update(r, eval(env, e, u))
    } else {
        u
    }
}

/// A condition or assigned expression the semantics describes: literals,
/// variables, binary operators and `not`, dividing by no zero.
pub open spec fn describable(env: GenEnv, e: SExpr, u: Seq<u8>) -> bool {
    arith_expr(e) && divisors_nonzero(env, e, u)
}

/// The first `elif` from `i` on whose condition holds, or the number of
/// branches if none does.
pub open spec fn first_taken(env: GenEnv, es: Seq<SElseIf>, i: int, u: Seq<u8>) -> int
    decreases es.len() - i,
{
    if i < 0 || i >= es.len() {
        es.len() as int
    } else if holds(env, es[i].condition, u) {
        i
    } else {
        first_taken(env, es, i + 1, u)
    }
}

/// The conditions of the `elif` branches from `i` up to `j` (included when
/// it is a branch) are describable.
pub open spec fn conds_describable(env: GenEnv, es: Seq<SElseIf>, i: int, j: int, u: Seq<u8>) -> bool {
    forall|m: int| i <= m <= j && 0 <= m < es.len() ==> describable(env, #[trigger] es[m].condition, u)
}

/// The registers after the statements of `b`, in order, from `u`; `None`
/// when a `while` runs more than `fuel` rounds, a `loop` is reached, or a
/// statement or condition is not one the semantics describes.
pub open spec fn exec_block(env: GenEnv, b: Seq<SStmt>, u: Seq<u8>, fuel: nat) -> Option<Seq<u8>>
    decreases fuel, b, 0int,
{
    if b.len() == 0 {
        Some(u)
    } else {
        match exec_block(env, b.drop_last(), u, fuel) {
            None => None,
            Some(u1) => exec_stmt(env, b[b.len() - 1], u1, fuel),
        }
    }
}

/// The registers after `s` from `u`: an assignment stores its value, an
/// `if` runs the body of the first branch whose condition holds (else the
/// `else` block, if any), a `while` runs its body while its condition
/// holds, a `loop` never ends.
pub open spec fn exec_stmt(env: GenEnv, s: SStmt, u: Seq<u8>, fuel: nat) -> Option<Seq<u8>>
    decreases fuel, s, 2int,
{
    match s {
        SStmt::Assign(n, e) => if describable(env, e, u) {
            Some(assign_one(env, n, e, u))
        } else {
            None
        },
        SStmt::If(c, body, elifs, els) => if !describable(env, c, u) {
            None
        } else if holds(env, c, u) {
            exec_block(env, body, u, fuel)
        } else {
            let j = first_taken(env, elifs, 0, u);
            if !conds_describable(env, elifs, 0, j, u) {
                None
            } else if 0 <= j < elifs.len() {
                proof {
                    assert(decreases_to!(elifs => elifs[j]));
                }
                exec_block(env, elifs[j].body, u, fuel)
            } else {
                match els {
                    Some(b) => exec_block(env, b, u, fuel),
                    None => Some(u),
                }
            }
        },
        SStmt::While(c, body) => if !describable(env, c, u) {
            None
        } else if !holds(env, c, u) {
            Some(u)
        } else if fuel == 0 {
            None
        } else {
            match exec_block(env, body, u, fuel) {
                None => None,
                Some(u1) => exec_stmt(env, s, u1, (fuel - 1) as nat),
            }
        },
        _ => None,
    }
}

// ---------------------------------------------------------------------------
// Running statements
// ---------------------------------------------------------------------------

/// `bytes` placed at `pc` and about to run, the registers `V1`..`VE`
/// outside the work registers holding `u`.
pub open spec fn code_ready(env: GenEnv, pc: nat, next: u8, bytes: Seq<u8>, rom: Seq<u8>, c: Cpu, u: Seq<u8>) -> bool {
    &&& placed(rom, pc, bytes)
    &&& 0x200 + pc + bytes.len() < 0x1000
    &&& c.pc == 0x200 + pc
    &&& c.v.len() == 16
    &&& u.len() == 16
    &&& same_outside(env, c.v, u, next)
    &&& env.work_end < 15
    &&& 0 < next
    &&& regs_apart(env, next)
}

/// A jump at offset `off` of code placed at `pc`, to address `t`.
pub(crate) proof fn lemma_jump_at(rom: Seq<u8>, pc: nat, code: Seq<u8>, off: int, t: u16, c: Cpu)
    requires
        placed(rom, pc, code),
        0 <= off,
        off + 2 <= code.len(),
        code.subrange(off, off + 2) == jp(t),
        t < 0x1000,
        c.pc == 0x200 + pc + off,
    ensures
        run(rom, c, 1) == (Cpu { pc: t as int, ..c }),
{
    reveal(decode);
    lemma_word_in(rom, pc, code, off, 0x1000u16 | t);
    lemma_dec_jump(t);
    assert(run(rom, c, 1) == step(rom, c)) by {
        reveal_with_fuel(run, 2);
    }
}

pub(crate) proof fn lemma_patch_last(x: Seq<u8>, pc: nat, t: u16)
    ensures
        patch_jumps(x + op(0x1000u16), pc, seq![pc + x.len()], t) == x + jp(t),
{
    assert(seq![pc + x.len()].drop_last() =~= Seq::<nat>::empty());
    reveal_with_fuel(patch_jumps, 2);
    assert(set_word(x + op(0x1000u16), x.len() as int, 0x1000u16 | t) =~= x + jp(t));
}

/// A branch: when its condition holds, its body runs and the jump after
/// it goes to `t`; otherwise the branch is skipped.
#[verifier::spinoff_prover]
#[verifier::rlimit(40)]
pub(crate) proof fn lemma_branch_exec(
    env: GenEnv,
    pc: nat,
    next: u8,
    label: u32,
    end_lbl: Seq<char>,
    cnd: SExpr,
    body: Seq<SStmt>,
    rom: Seq<u8>,
    c: Cpu,
    u: Seq<u8>,
    fuel: nat,
    t: u16,
) -> (k: nat)
    requires
        branch_code(env, pc, next, label, end_lbl, cnd, body) is Ok,
        code_ready(
            env,
            pc,
            next,
            patch_jumps(branch_code(env, pc, next, label, end_lbl, cnd, body)->Ok_0.0.bytes, pc, branch_code(env, pc, next, label, end_lbl, cnd, body)->Ok_0.1, t),
            rom,
            c,
            u,
        ),
        describable(env, cnd, u),
        holds(env, cnd, u) ==> exec_block(env, body, u, fuel) is Some,
        t < 0x1000,
    ensures
        ({
            let f = run(rom, c, k);
            &&& f.v.len() == 16
            &&& same_frame(c, f)
            &&& holds(env, cnd, u) ==> f.pc == t && same_outside(env, f.v, exec_block(env, body, u, fuel)->Some_0, next)
            &&& !holds(env, cnd, u) ==> f.pc == c.pc + branch_code(env, pc, next, label, end_lbl, cnd, body)->Ok_0.0.bytes.len()
                && same_outside(env, f.v, u, next)
        }),
    decreases fuel, body, 1int,
{
    let ec = cond_prefix(env, pc, next, cnd)->Ok_0;
    let pc1 = pc + ec.bytes.len() + 2;
    let (eb, l2) = block_code(env, pc1, next, next_label(label), body)->Ok_0;
    let pc2 = pc1 + eb.bytes.len();
    let after = addr_of(pc2 + 2);
    let e = branch_code(env, pc, next, label, end_lbl, cnd, body)->Ok_0.0;
    let x = ec.bytes + jp(after) + eb.bytes;
    assert(e.bytes =~= x + op(0x1000u16));
    assert(branch_code(env, pc, next, label, end_lbl, cnd, body)->Ok_0.1 == seq![pc2]);
    lemma_patch_last(x, pc, t);
    let pb = x + jp(t);
    lemma_placed_split(rom, pc, ec.bytes, jp(after) + eb.bytes + jp(t));
    assert(pb =~= ec.bytes + (jp(after) + eb.bytes + jp(t)));
    lemma_addr(pc, e.bytes.len(), e.bytes.len());
    lemma_all_vars_apart(env, cnd, next);
    lemma_eval_frame(env, cnd, c.v, u, next);
    let k1 = lemma_cond_runs(env, pc, next, cnd, rom, c);
    let c1 = run(rom, c, k1);
    if holds(env, cnd, u) {
        assert(pb.subrange(pc1 - pc, pc2 - pc) =~= eb.bytes);
        assert(placed(rom, pc1, eb.bytes)) by {
            assert forall|m: int| 0 <= m < eb.bytes.len() implies #[trigger] rom[pc1 + m] == eb.bytes[m] by {
                assert(rom[pc + (pc1 - pc + m)] == pb[pc1 - pc + m]);
            }
        }
        let k2 = lemma_block_exec(env, pc1, next, next_label(label), body, rom, c1, u, fuel);
        let c2 = run(rom, c1, k2);
        assert(pb.subrange(pc2 - pc, pc2 - pc + 2) =~= jp(t));
        lemma_jump_at(rom, pc, pb, pc2 - pc, t, c2);
        lemma_run_add(rom, c, k1, k2);
        lemma_run_add(rom, c, k1 + k2, 1);
        k1 + k2 + 1
    } else {
        assert(pb.subrange(ec.bytes.len() as int, ec.bytes.len() + 2int) =~= jp(after));
        lemma_jump_at(rom, pc, pb, ec.bytes.len() as int, after, c1);
        lemma_run_add(rom, c, k1, 1);
        k1 + 1
    }
}

pub(crate) proof fn lemma_first_taken_from(env: GenEnv, es: Seq<SElseIf>, i: int, u: Seq<u8>)
    requires
        0 <= i < es.len(),
    ensures
        i <= first_taken(env, es, i, u) <= es.len(),
    decreases es.len() - i,
{
    if !holds(env, es[i].condition, u) {
        if i + 1 < es.len() {
            lemma_first_taken_from(env, es, i + 1, u);
        } else {
            assert(first_taken(env, es, i + 1, u) == es.len());
        }
    }
}

/// The `elif` branches from `i` on: the first whose condition holds runs
/// its body and jumps to `t`; if none holds, all are skipped.
pub(crate) proof fn lemma_elifs_exec(
    env: GenEnv,
    pc: nat,
    next: u8,
    label: u32,
    end_lbl: Seq<char>,
    es: Seq<SElseIf>,
    i: int,
    rom: Seq<u8>,
    c: Cpu,
    u: Seq<u8>,
    fuel: nat,
    t: u16,
) -> (k: nat)
    requires
        0 <= i,
        elifs_code(env, pc, next, label, end_lbl, es, i) is Ok,
        code_ready(
            env,
            pc,
            next,
            patch_jumps(elifs_code(env, pc, next, label, end_lbl, es, i)->Ok_0.0.bytes, pc, elifs_code(env, pc, next, label, end_lbl, es, i)->Ok_0.1, t),
            rom,
            c,
            u,
        ),
        conds_describable(env, es, i, first_taken(env, es, i, u), u),
        0 <= first_taken(env, es, i, u) < es.len() ==> exec_block(env, es[first_taken(env, es, i, u)].body, u, fuel) is Some,
        t < 0x1000,
    ensures
        ({
            let f = run(rom, c, k);
            let j = first_taken(env, es, i, u);
            &&& f.v.len() == 16
            &&& same_frame(c, f)
            &&& 0 <= j < es.len() ==> f.pc == t && same_outside(env, f.v, exec_block(env, es[j].body, u, fuel)->Some_0, next)
            &&& !(0 <= j < es.len()) ==> f.pc == c.pc + elifs_code(env, pc, next, label, end_lbl, es, i)->Ok_0.0.bytes.len()
                && same_outside(env, f.v, u, next)
        }),
    decreases fuel, es, es.len() - i,
{
    if i >= es.len() {
        assert(run(rom, c, 0) == c);
        0
    } else {
        let (e1, o1, l1) = branch_code(env, pc, next, label, end_lbl, es[i].condition, es[i].body)->Ok_0;
        let (e2, o2, l2) = elifs_code(env, pc + e1.bytes.len(), next, l1, end_lbl, es, i + 1)->Ok_0;
        lemma_elifs_offsets(env, pc + e1.bytes.len(), next, l1, end_lbl, es, i + 1);
        assert(offsets_inside(o1, pc, e1.bytes.len()));
        lemma_patch_concat(e1.bytes, e2.bytes, pc, o1, o2, t);
        lemma_patch_len(e1.bytes, pc, o1, t);
        assert(elifs_code(env, pc, next, label, end_lbl, es, i)->Ok_0.0.bytes =~= e1.bytes + e2.bytes);
        lemma_placed_split(rom, pc, patch_jumps(e1.bytes, pc, o1, t), patch_jumps(e2.bytes, pc + e1.bytes.len(), o2, t));
        lemma_patch_len(e2.bytes, pc + e1.bytes.len(), o2, t);
        lemma_first_taken_from(env, es, i, u);
        assert(describable(env, es[i].condition, u));
        assert(decreases_to!(es => es[i]));
        let k1 = lemma_branch_exec(env, pc, next, label, end_lbl, es[i].condition, es[i].body, rom, c, u, fuel, t);
        let c1 = run(rom, c, k1);
        if holds(env, es[i].condition, u) {
            k1
        } else {
            assert(first_taken(env, es, i, u) == first_taken(env, es, i + 1, u));
            let k2 = lemma_elifs_exec(env, pc + e1.bytes.len(), next, l1, end_lbl, es, i + 1, rom, c1, u, fuel, t);
            lemma_run_add(rom, c, k1, k2);
            k1 + k2
        }
    }
}

/// The statements of a block, each run in turn.
pub(crate) proof fn lemma_block_exec(env: GenEnv, pc: nat, next: u8, label: u32, b: Seq<SStmt>, rom: Seq<u8>, c: Cpu, u: Seq<u8>, fuel: nat) -> (k: nat)
    requires
        block_code(env, pc, next, label, b) is Ok,
        exec_block(env, b, u, fuel) is Some,
        code_ready(env, pc, next, block_code(env, pc, next, label, b)->Ok_0.0.bytes, rom, c, u),
    ensures
        ({
            let f = run(rom, c, k);
            &&& f.pc == c.pc + block_code(env, pc, next, label, b)->Ok_0.0.bytes.len()
            &&& f.v.len() == 16
            &&& same_frame(c, f)
            &&& same_outside(env, f.v, exec_block(env, b, u, fuel)->Some_0, next)
        }),
    decreases fuel, b, 0int,
{
    if b.len() == 0 {
        assert(run(rom, c, 0) == c);
        0
    } else {
        let b1 = b.drop_last();
        let (e1, l1) = block_code(env, pc, next, label, b1)->Ok_0;
        let last = b[b.len() - 1];
        let pc1 = pc + e1.bytes.len();
        let (e2, l2) = stmt_code(env, pc1, next, l1, last)->Ok_0;
        assert(block_code(env, pc, next, label, b)->Ok_0.0.bytes =~= e1.bytes + e2.bytes);
        lemma_placed_split(rom, pc, e1.bytes, e2.bytes);
        let k1 = lemma_block_exec(env, pc, next, label, b1, rom, c, u, fuel);
        let c1 = run(rom, c, k1);
        let u1 = exec_block(env, b1, u, fuel)->Some_0;
        lemma_exec_len(env, b1, u, fuel);
        let k2 = lemma_stmt_exec(env, pc1, next, l1, last, rom, c1, u1, fuel);
        lemma_run_add(rom, c, k1, k2);
        k1 + k2
    }
}

/// The semantics keeps sixteen registers.
pub(crate) proof fn lemma_exec_len(env: GenEnv, b: Seq<SStmt>, u: Seq<u8>, fuel: nat)
    ensures
        exec_block(env, b, u, fuel) matches Some(w) ==> w.len() == u.len(),
    decreases fuel, b, 0int,
{
    if b.len() > 0 {
        lemma_exec_len(env, b.drop_last(), u, fuel);
        if let Some(u1) = exec_block(env, b.drop_last(), u, fuel) {
            lemma_stmt_len(env, b[b.len() - 1], u1, fuel);
        }
    }
}

pub(crate) proof fn lemma_stmt_len(env: GenEnv, s: SStmt, u: Seq<u8>, fuel: nat)
    ensures
        exec_stmt(env, s, u, fuel) matches Some(w) ==> w.len() == u.len(),
    decreases fuel, s, 2int,
{
    match s {
        SStmt::If(c, body, elifs, els) => {
            lemma_exec_len(env, body, u, fuel);
            let j = first_taken(env, elifs, 0, u);
            if 0 <= j < elifs.len() {
                assert(decreases_to!(elifs => elifs[j]));
                lemma_exec_len(env, elifs[j].body, u, fuel);
            }
            if let Some(b) = els {
                lemma_exec_len(env, b, u, fuel);
            }
        },
        SStmt::While(c, body) => {
            lemma_exec_len(env, body, u, fuel);
            if fuel > 0 {
                if let Some(u1) = exec_block(env, body, u, fuel) {
                    lemma_stmt_len(env, s, u1, (fuel - 1) as nat);
                }
            }
        },
        _ => {},
    }
}

/// One statement.
#[verifier::spinoff_prover]
#[verifier::rlimit(80)]
pub(crate) proof fn lemma_stmt_exec(env: GenEnv, pc: nat, next: u8, label: u32, s: SStmt, rom: Seq<u8>, c: Cpu, u: Seq<u8>, fuel: nat) -> (k: nat)
    requires
        stmt_code(env, pc, next, label, s) is Ok,
        exec_stmt(env, s, u, fuel) is Some,
        code_ready(env, pc, next, stmt_code(env, pc, next, label, s)->Ok_0.0.bytes, rom, c, u),
    ensures
        ({
            let f = run(rom, c, k);
            &&& f.pc == c.pc + stmt_code(env, pc, next, label, s)->Ok_0.0.bytes.len()
            &&& f.v.len() == 16
            &&& same_frame(c, f)
            &&& same_outside(env, f.v, exec_stmt(env, s, u, fuel)->Some_0, next)
        }),
    decreases fuel, s, 2int,
{
    match s {
        SStmt::Assign(n, e) => {
            let r = lookup(env.regs, n)->Some_0;
            lemma_lookup_apart(env, next, n);
            lemma_all_vars_apart(env, e, next);
            lemma_eval_frame(env, e, c.v, u, next);
            let k1 = lemma_load_runs(env, pc, next, r, e, rom, c);
            let c1 = run(rom, c, k1);
            assert(assign_one(env, n, e, u) == u.update(r as int, eval(env, e, u)));
            assert forall|q: int| 0 < q < 15 && (q < next || q > env.work_end) implies #[trigger] c1.v[q] == assign_one(env, n, e, u)[q] by {
                if q != r {
                    assert(c1.v[q] == c.v[q]);
                }
            }
            k1
        },
        SStmt::If(..) => lemma_if_exec(env, pc, next, label, s, rom, c, u, fuel),
        SStmt::While(cnd, body) => {
            let ec = cond_prefix(env, pc, next, cnd)->Ok_0;
            let pc1 = pc + ec.bytes.len() + 2;
            let (eb, l2) = block_code(env, pc1, next, next_label(next_label(label)), body)->Ok_0;
            let loop_end = addr_of(pc1 + eb.bytes.len() + 2);
            let code = stmt_code(env, pc, next, label, s)->Ok_0.0.bytes;
            assert(code =~= ec.bytes + jp(loop_end) + eb.bytes + jp(addr_of(pc)));
            lemma_placed_split(rom, pc, ec.bytes, jp(loop_end) + eb.bytes + jp(addr_of(pc)));
            assert(code =~= ec.bytes + (jp(loop_end) + eb.bytes + jp(addr_of(pc))));
            lemma_addr(pc, code.len(), code.len());
            lemma_addr(pc, 0, code.len());
            lemma_all_vars_apart(env, cnd, next);
            lemma_eval_frame(env, cnd, c.v, u, next);
            let k1 = lemma_cond_runs(env, pc, next, cnd, rom, c);
            let c1 = run(rom, c, k1);
            if !holds(env, cnd, u) {
                assert(code.subrange(ec.bytes.len() as int, ec.bytes.len() + 2int) =~= jp(loop_end));
                lemma_jump_at(rom, pc, code, ec.bytes.len() as int, loop_end, c1);
                lemma_run_add(rom, c, k1, 1);
                k1 + 1
            } else {
                assert(placed(rom, pc1, eb.bytes)) by {
                    assert forall|m: int| 0 <= m < eb.bytes.len() implies #[trigger] rom[pc1 + m] == eb.bytes[m] by {
                        assert(rom[pc + (pc1 - pc + m)] == code[pc1 - pc + m]);
                    }
                }
                let k2 = lemma_block_exec(env, pc1, next, next_label(next_label(label)), body, rom, c1, u, fuel);
                let c2 = run(rom, c1, k2);
                let u1 = exec_block(env, body, u, fuel)->Some_0;
                lemma_exec_len(env, body, u, fuel);
                let pj = pc1 + eb.bytes.len();
                assert(code.subrange(pj - pc, pj - pc + 2) =~= jp(addr_of(pc)));
                lemma_jump_at(rom, pc, code, pj - pc, addr_of(pc), c2);
                let c3 = run(rom, c2, 1);
                let k4 = lemma_stmt_exec(env, pc, next, label, s, rom, c3, u1, (fuel - 1) as nat);
                lemma_run_add(rom, c, k1, k2);
                lemma_run_add(rom, c, k1 + k2, 1);
                lemma_run_add(rom, c, k1 + k2 + 1, k4);
                k1 + k2 + 1 + k4
            }
        },
        _ => 0,
    }
}

/// `if`/`elif`/`else`.
#[verifier::spinoff_prover]
#[verifier::rlimit(80)]
pub(crate) proof fn lemma_if_exec(env: GenEnv, pc: nat, next: u8, label: u32, s: SStmt, rom: Seq<u8>, c: Cpu, u: Seq<u8>, fuel: nat) -> (k: nat)
    requires
        s is If,
        if_code(env, pc, next, label, s) is Ok,
        exec_stmt(env, s, u, fuel) is Some,
        code_ready(env, pc, next, if_code(env, pc, next, label, s)->Ok_0.0.bytes, rom, c, u),
    ensures
        ({
            let f = run(rom, c, k);
            &&& f.pc == c.pc + if_code(env, pc, next, label, s)->Ok_0.0.bytes.len()
            &&& f.v.len() == 16
            &&& same_frame(c, f)
            &&& same_outside(env, f.v, exec_stmt(env, s, u, fuel)->Some_0, next)
        }),
    decreases fuel, s, 1int,
{
    let (cnd, body, elifs, els) = match s {
        SStmt::If(cnd, body, elifs, els) => (cnd, body, elifs, els),
        _ => (SExpr::GetKey, Seq::empty(), Seq::empty(), None),
    };
    let end_lbl = label_name(label);
    let (e1, o1, l1) = branch_code(env, pc, next, next_label(label), end_lbl, cnd, body)->Ok_0;
    let (e2, o2, l2) = elifs_code(env, pc + e1.bytes.len(), next, l1, end_lbl, elifs, 0)->Ok_0;
    let pc3 = pc + e1.bytes.len() + e2.bytes.len();
    let (e3, l3) = match els {
        Some(b) => block_code(env, pc3, next, l2, b)->Ok_0,
        None => (crate::codegen::nothing(), l2),
    };
    let end = addr_of(pc3 + e3.bytes.len());
    let all_bytes = e1.bytes + e2.bytes + e3.bytes;
    let code = if_code(env, pc, next, label, s)->Ok_0.0.bytes;
    assert(code == patch_jumps(all_bytes, pc, o1 + o2, end)) by {
        assert(crate::codegen::join(crate::codegen::join(crate::codegen::join(e1, e2), e3), crate::codegen::quad(crate::ir::IrOp::Label, Some(end_lbl), None, None)).bytes =~= all_bytes);
    }
    lemma_elifs_offsets(env, pc + e1.bytes.len(), next, l1, end_lbl, elifs, 0);
    assert(offsets_inside(o1, pc, e1.bytes.len()));
    assert(offsets_inside(o1 + o2, pc, (e1.bytes + e2.bytes).len())) by {
        assert forall|m: int| 0 <= m < (o1 + o2).len() implies pc <= #[trigger] (o1 + o2)[m] && (o1 + o2)[m] + 2 <= pc + (e1.bytes + e2.bytes).len() by {
            if m < o1.len() {
                assert((o1 + o2)[m] == o1[m]);
            } else {
                assert((o1 + o2)[m] == o2[m - o1.len()]);
            }
        }
    }
    assert(offsets_inside(Seq::<nat>::empty(), pc + (e1.bytes + e2.bytes).len(), e3.bytes.len()));
    lemma_patch_concat(e1.bytes + e2.bytes, e3.bytes, pc, o1 + o2, Seq::empty(), end);
    assert(o1 + o2 + Seq::<nat>::empty() =~= o1 + o2);
    lemma_patch_concat(e1.bytes, e2.bytes, pc, o1, o2, end);
    lemma_patch_len(e1.bytes, pc, o1, end);
    lemma_patch_len(e2.bytes, pc + e1.bytes.len(), o2, end);
    let p1 = patch_jumps(e1.bytes, pc, o1, end);
    let p2 = patch_jumps(e2.bytes, pc + e1.bytes.len(), o2, end);
    assert(code == p1 + p2 + e3.bytes);
    lemma_placed_split(rom, pc, p1 + p2, e3.bytes);
    lemma_placed_split(rom, pc, p1, p2);
    lemma_addr(pc, code.len(), code.len());
    assert(end as int == c.pc + code.len());
    let k1 = lemma_branch_exec(env, pc, next, next_label(label), end_lbl, cnd, body, rom, c, u, fuel, end);
    let c1 = run(rom, c, k1);
    if holds(env, cnd, u) {
        k1
    } else {
        let k2 = lemma_elifs_exec(env, pc + e1.bytes.len(), next, l1, end_lbl, elifs, 0, rom, c1, u, fuel, end);
        let c2 = run(rom, c1, k2);
        lemma_run_add(rom, c, k1, k2);
        let j = first_taken(env, elifs, 0, u);
        if 0 <= j < elifs.len() {
            k1 + k2
        } else {
            match els {
                Some(b) => {
                    let k3 = lemma_block_exec(env, pc3, next, l2, b, rom, c2, u, fuel);
                    lemma_run_add(rom, c, k1 + k2, k3);
                    k1 + k2 + k3
                },
                None => k1 + k2,
            }
        }
    }
}

// ---------------------------------------------------------------------------
// Loops
// ---------------------------------------------------------------------------

/// The registers after `n` rounds of a `loop` body from `u`.
pub open spec fn loop_rounds(env: GenEnv, body: Seq<SStmt>, u: Seq<u8>, n: nat, fuel: nat) -> Option<Seq<u8>>
    decreases n,
{
    if n == 0 {
        Some(u)
    } else {
        match loop_rounds(env, body, u, (n - 1) as nat, fuel) {
            None => None,
            Some(u1) => exec_block(env, body, u1, fuel),
        }
    }
}

pub(crate) proof fn lemma_loop_runs(env: GenEnv, pc: nat, next: u8, label: u32, body: Seq<SStmt>, rom: Seq<u8>, c: Cpu, u: Seq<u8>, n: nat, fuel: nat) -> (k: nat)
    requires
        stmt_code(env, pc, next, label, SStmt::Loop(body)) is Ok,
        loop_rounds(env, body, u, n, fuel) is Some,
        code_ready(env, pc, next, stmt_code(env, pc, next, label, SStmt::Loop(body))->Ok_0.0.bytes, rom, c, u),
    ensures
        ({
            let f = run(rom, c, k);
            &&& f.pc == c.pc
            &&& f.v.len() == 16
            &&& same_frame(c, f)
            &&& loop_rounds(env, body, u, n, fuel)->Some_0.len() == 16
            &&& same_outside(env, f.v, loop_rounds(env, body, u, n, fuel)->Some_0, next)
        }),
    decreases n,
{
    if n == 0 {
        assert(run(rom, c, 0) == c);
        0
    } else {
        let k1 = lemma_loop_runs(env, pc, next, label, body, rom, c, u, (n - 1) as nat, fuel);
        let c1 = run(rom, c, k1);
        let u1 = loop_rounds(env, body, u, (n - 1) as nat, fuel)->Some_0;
        let (eb, l2) = block_code(env, pc, next, next_label(label), body)->Ok_0;
        let code = stmt_code(env, pc, next, label, SStmt::Loop(body))->Ok_0.0.bytes;
        assert(code =~= eb.bytes + jp(addr_of(pc)));
        lemma_placed_split(rom, pc, eb.bytes, jp(addr_of(pc)));
        lemma_addr(pc, 0, code.len());
        let k2 = lemma_block_exec(env, pc, next, next_label(label), body, rom, c1, u1, fuel);
        let c2 = run(rom, c1, k2);
        lemma_exec_len(env, body, u1, fuel);
        assert(code.subrange(eb.bytes.len() as int, eb.bytes.len() + 2int) =~= jp(addr_of(pc)));
        lemma_jump_at(rom, pc, code, eb.bytes.len() as int, addr_of(pc), c2);
        lemma_run_add(rom, c, k1, k2);
        lemma_run_add(rom, c, k1 + k2, 1);
        k1 + k2 + 1
    }
}

// ---------------------------------------------------------------------------
// The laws
// ---------------------------------------------------------------------------

/// Law: running the code of a block, from registers that hold `u` outside
/// the work registers, reaches the end of that code with the registers
/// the semantics gives (`exec_block`): assignments store their values,
/// `if`/`elif`/`else` runs the first branch whose condition is 1, `while`
/// repeats its body while its condition is 1. It holds wherever the
/// semantics gives a result within `fuel` rounds of each `while`.
pub proof fn lemma_block_follows_semantics(env: GenEnv, pc: nat, next: u8, label: u32, b: Seq<SStmt>, rom: Seq<u8>, c: Cpu, u: Seq<u8>, fuel: nat)
    requires
        block_code(env, pc, next, label, b) is Ok,
        exec_block(env, b, u, fuel) is Some,
        code_ready(env, pc, next, block_code(env, pc, next, label, b)->Ok_0.0.bytes, rom, c, u),
    ensures
        exists|k: nat| {
            &&& (#[trigger] run(rom, c, k)).pc == c.pc + block_code(env, pc, next, label, b)->Ok_0.0.bytes.len()
            &&& same_outside(env, run(rom, c, k).v, exec_block(env, b, u, fuel)->Some_0, next)
        },
{
    let k = lemma_block_exec(env, pc, next, label, b, rom, c, u, fuel);
    assert(run(rom, c, k).pc == c.pc + block_code(env, pc, next, label, b)->Ok_0.0.bytes.len());
}

/// Law: running the code of `loop { body }` comes back to its start after
/// each round of the body, the registers holding what `n` rounds of the
/// body give.
pub proof fn lemma_loop_follows_semantics(env: GenEnv, pc: nat, next: u8, label: u32, body: Seq<SStmt>, rom: Seq<u8>, c: Cpu, u: Seq<u8>, n: nat, fuel: nat)
    requires
        stmt_code(env, pc, next, label, SStmt::Loop(body)) is Ok,
        loop_rounds(env, body, u, n, fuel) is Some,
        code_ready(env, pc, next, stmt_code(env, pc, next, label, SStmt::Loop(body))->Ok_0.0.bytes, rom, c, u),
    ensures
        exists|k: nat| {
            &&& (#[trigger] run(rom, c, k)).pc == c.pc
            &&& same_outside(env, run(rom, c, k).v, loop_rounds(env, body, u, n, fuel)->Some_0, next)
        },
{
    let k = lemma_loop_runs(env, pc, next, label, body, rom, c, u, n, fuel);
    assert(run(rom, c, k).pc == c.pc);
}

// ---------------------------------------------------------------------------
// Programs
// ---------------------------------------------------------------------------

/// Blocks made of assignments, `if`/`elif`/`else`, `while` and `loop`, over
/// expressions of literals, variables, binary operators and `not`.
pub open spec fn plain_block(b: Seq<SStmt>) -> bool
    decreases b, 0int,
{
    if b.len() == 0 {
        true
    } else {
        plain_block(b.drop_last()) && plain_stmt(b[b.len() - 1])
    }
}

pub open spec fn plain_stmt(s: SStmt) -> bool
    decreases s, 2int,
{
    match s {
        SStmt::Assign(_, e) => arith_expr(e),
        SStmt::If(c, body, elifs, els) => {
            &&& arith_expr(c)
            &&& plain_block(body)
            &&& plain_elifs(elifs, 0)
            &&& match els {
                Some(b) => plain_block(b),
                None => true,
            }
        },
        SStmt::While(c, body) => arith_expr(c) && plain_block(body),
        SStmt::Loop(body) => plain_block(body),
        _ => false,
    }
}

pub open spec fn plain_elifs(es: Seq<SElseIf>, i: int) -> bool
    decreases es, es.len() - i,
{
    if i < 0 || i >= es.len() {
        true
    } else {
        &&& arith_expr(es[i].condition)
        &&& plain_block(es[i].body)
        &&& plain_elifs(es, i + 1)
    }
}

pub(crate) proof fn lemma_cond_no_fixups(env: GenEnv, pc: nat, next: u8, cnd: SExpr)
    requires
        arith_expr(cnd),
        cond_prefix(env, pc, next, cnd) is Ok,
    ensures
        cond_prefix(env, pc, next, cnd)->Ok_0.fixups.len() == 0,
{
    reveal(cond_prefix);
    if let SExpr::Var(_) = cnd {
    } else if cnd matches SExpr::BinOp(l, o, r) && is_comparison(o) {
        if let SExpr::BinOp(l, o, r) = cnd {
            let n2 = (next + 2) as u8;
            lemma_arith_no_fixups(env, pc, n2, next, *l);
            let el = load_code(env, pc, n2, next, *l)->Ok_0;
            lemma_arith_no_fixups(env, pc + el.bytes.len(), n2, (next + 1) as u8, *r);
        }
    } else {
        lemma_arith_no_fixups(env, pc, (next + 1) as u8, next, cnd);
    }
}

pub(crate) proof fn lemma_plain_block_no_fixups(env: GenEnv, pc: nat, next: u8, label: u32, b: Seq<SStmt>)
    requires
        plain_block(b),
        block_code(env, pc, next, label, b) is Ok,
    ensures
        block_code(env, pc, next, label, b)->Ok_0.0.fixups.len() == 0,
    decreases b, 0int,
{
    if b.len() > 0 {
        lemma_plain_block_no_fixups(env, pc, next, label, b.drop_last());
        let (e1, l1) = block_code(env, pc, next, label, b.drop_last())->Ok_0;
        lemma_plain_stmt_no_fixups(env, pc + e1.bytes.len(), next, l1, b[b.len() - 1]);
    }
}

pub(crate) proof fn lemma_plain_stmt_no_fixups(env: GenEnv, pc: nat, next: u8, label: u32, s: SStmt)
    requires
        plain_stmt(s),
        stmt_code(env, pc, next, label, s) is Ok,
    ensures
        stmt_code(env, pc, next, label, s)->Ok_0.0.fixups.len() == 0,
    decreases s, 2int,
{
    match s {
        SStmt::Assign(n, e) => {
            lemma_arith_no_fixups(env, pc, next, lookup(env.regs, n)->Some_0, e);
        },
        SStmt::If(cnd, body, elifs, els) => {
            let end_lbl = label_name(label);
            lemma_branch_no_fixups(env, pc, next, next_label(label), end_lbl, cnd, body);
            let (e1, o1, l1) = branch_code(env, pc, next, next_label(label), end_lbl, cnd, body)->Ok_0;
            lemma_elifs_no_fixups(env, pc + e1.bytes.len(), next, l1, end_lbl, elifs, 0);
            let (e2, o2, l2) = elifs_code(env, pc + e1.bytes.len(), next, l1, end_lbl, elifs, 0)->Ok_0;
            if let Some(b) = els {
                lemma_plain_block_no_fixups(env, pc + e1.bytes.len() + e2.bytes.len(), next, l2, b);
            }
        },
        SStmt::While(cnd, body) => {
            lemma_cond_no_fixups(env, pc, next, cnd);
            let ec = cond_prefix(env, pc, next, cnd)->Ok_0;
            lemma_plain_block_no_fixups(env, pc + ec.bytes.len() + 2, next, next_label(next_label(label)), body);
        },
        SStmt::Loop(body) => {
            lemma_plain_block_no_fixups(env, pc, next, next_label(label), body);
        },
        _ => {},
    }
}

pub(crate) proof fn lemma_branch_no_fixups(env: GenEnv, pc: nat, next: u8, label: u32, end_lbl: Seq<char>, cnd: SExpr, body: Seq<SStmt>)
    requires
        arith_expr(cnd),
        plain_block(body),
        branch_code(env, pc, next, label, end_lbl, cnd, body) is Ok,
    ensures
        branch_code(env, pc, next, label, end_lbl, cnd, body)->Ok_0.0.fixups.len() == 0,
    decreases body, 1int,
{
    lemma_cond_no_fixups(env, pc, next, cnd);
    let ec = cond_prefix(env, pc, next, cnd)->Ok_0;
    lemma_plain_block_no_fixups(env, pc + ec.bytes.len() + 2, next, next_label(label), body);
}

pub(crate) proof fn lemma_elifs_no_fixups(env: GenEnv, pc: nat, next: u8, label: u32, end_lbl: Seq<char>, es: Seq<SElseIf>, i: int)
    requires
        plain_elifs(es, i),
        elifs_code(env, pc, next, label, end_lbl, es, i) is Ok,
    ensures
        elifs_code(env, pc, next, label, end_lbl, es, i)->Ok_0.0.fixups.len() == 0,
    decreases es, es.len() - i,
{
    if 0 <= i < es.len() {
        assert(decreases_to!(es => es[i]));
        lemma_branch_no_fixups(env, pc, next, label, end_lbl, es[i].condition, es[i].body);
        let (e1, o1, l1) = branch_code(env, pc, next, label, end_lbl, es[i].condition, es[i].body)->Ok_0;
        lemma_elifs_no_fixups(env, pc + e1.bytes.len(), next, l1, end_lbl, es, i + 1);
    }
}

/// A program without functions whose globals start from expressions of
/// literals, variables, binary operators and `not`, and whose `main` is a
/// plain block.
pub open spec fn plain_program(p: SProgram) -> bool {
    &&& p.functions.len() == 0
    &&& p.vars.len() <= 14
    &&& forall|i: int| 0 <= i < p.vars.len() ==> arith_expr(#[trigger] p.vars[i].value)
    &&& plain_block(p.main)
}

/// The registers after the globals' initial values, from `v`.
pub open spec fn initial_regs(p: SProgram, files: Seq<(Seq<char>, Seq<u8>)>, v: Seq<u8>) -> Seq<u8> {
    assign_all(program_env(p, files), init_stmts(p.vars), v)
}

/// The ROM offset of `main`, after the initial values and the jump over the
/// (no) functions.
pub open spec fn main_offset(p: SProgram, files: Seq<(Seq<char>, Seq<u8>)>) -> nat {
    init_globals(data_stage(p, files)->Ok_0, p.vars)->Ok_0.rom.len() + 2
}

pub open spec fn main_label(p: SProgram, files: Seq<(Seq<char>, Seq<u8>)>) -> u32 {
    init_globals(data_stage(p, files)->Ok_0, p.vars)->Ok_0.label
}

/// From 0x200 to the start of `main`.
#[verifier::spinoff_prover]
#[verifier::rlimit(100)]
pub(crate) proof fn lemma_reach_main(p: SProgram, files: Seq<(Seq<char>, Seq<u8>)>, c: Cpu) -> (k: nat)
    requires
        generate_spec(p, files) is Ok,
        plain_program(p),
        divides_safely(program_env(p, files), init_stmts(p.vars), c.v),
        c.pc == 0x200,
        c.v.len() == 16,
    ensures
        ({
            let rom = generate_spec(p, files)->Ok_0.0;
            let env = program_env(p, files);
            let mo = main_offset(p, files);
            let em = block_code(env, mo, 1, main_label(p, files), p.main);
            &&& em is Ok
            &&& rom.len() == mo + em->Ok_0.0.bytes.len() + 2
            &&& rom.len() <= 3584
            &&& initial_regs(p, files, c.v).len() == 16
            &&& code_ready(env, mo, 1, em->Ok_0.0.bytes, rom, run(rom, c, k), initial_regs(p, files, c.v))
        }),
{
    reveal(decode);
    let st0 = initial_state(p);
    let st1 = save_areas(st0, max_depth(p) + 1, st0.env.work_end as nat + 1);
    lemma_save_areas_shape(st0, max_depth(p) + 1, st0.env.work_end as nat + 1);
    lemma_lay_sprites_shape(st1, p.sprites, files);
    let st2 = lay_sprites(st1, p.sprites, files)->Ok_0;
    let padded = if st2.rom.len() % 2 == 1 { st2.rom.push(0u8) } else { st2.rom };
    let st3 = data_stage(p, files)->Ok_0;
    let env = st3.env;
    let w0 = 0x1000u16 | addr_of(padded.len());
    assert(st3.rom == set_word(padded, 0, w0));
    assert(st3.rom.len() == padded.len());
    assert(padded.len() >= 2);
    assert(env.depth == 0);
    assert(env.work_end < 15);
    assert(global_regs(st2.env.regs, (14 - p.vars.len()) as u8));
    lemma_bind_globals_regs(st2.env.regs, p.vars, p.vars.len());
    assert(global_regs(env.regs, env.work_end));
    assert(regs_apart(env, 1));
    assert(st3.fixups.len() == 0);
    lemma_init_code(st3, p.vars, st3.label);
    let st4 = init_globals(st3, p.vars)->Ok_0;
    let inits = init_stmts(p.vars);
    assert forall|i: int| 0 <= i < inits.len() implies (#[trigger] inits[i] matches SStmt::Assign(_, e) && arith_expr(e)) by {
        assert(arith_expr(p.vars[i].value));
    }
    let ei = block_code(env, st3.rom.len(), 1, st3.label, inits)->Ok_0.0;
    lemma_globals_fit(env, st3.rom.len(), st3.label, inits, c.v);
    lemma_block_no_fixups(env, st3.rom.len(), 1, st3.label, inits);
    let st5 = GenState { rom: st4.rom + op(0x1000u16), ..st4 };
    assert(emit_fns(st5, p.functions, crate::callgraph::call_graph(p)) == Ok::<GenState, SCodegenError>(st5));
    let w1 = 0x1000u16 | addr_of(st5.rom.len());
    let rom7 = set_word(st5.rom, st4.rom.len() as int, w1);
    assert(GenEnv { depth: 0, ..st5.env } == env);
    let em = block_code(env, rom7.len(), 1, st5.label, p.main)->Ok_0.0;
    lemma_plain_block_no_fixups(env, rom7.len(), 1, st5.label, p.main);
    let rom8 = rom7 + em.bytes;
    let rom9 = rom8 + jp(addr_of(rom8.len()));
    assert(st5.fixups + em.fixups =~= Seq::<(nat, Seq<char>)>::empty());
    let rom = generate_spec(p, files)->Ok_0.0;
    assert(rom == rom9);
    assert(rom.len() <= 3584);
    assert(rom[0] == op(w0)[0] && rom[1] == op(w0)[1]) by {
        assert(rom9[0] == st5.rom[0] && rom9[1] == st5.rom[1]);
        assert(st5.rom[0] == st3.rom[0] && st5.rom[1] == st3.rom[1]);
    }
    lemma_word_at(rom, 0, w0);
    lemma_dec_jump(addr_of(padded.len()));
    let c1 = step(rom, c);
    assert(run(rom, c, 1) == c1) by {
        reveal_with_fuel(run, 2);
    }
    assert(placed(rom, st3.rom.len(), ei.bytes)) by {
        assert forall|k: int| 0 <= k < ei.bytes.len() implies #[trigger] rom[st3.rom.len() + k] == ei.bytes[k] by {
            assert(st4.rom[st3.rom.len() + k] == ei.bytes[k]);
            assert(rom9[st3.rom.len() + k] == st5.rom[st3.rom.len() + k]);
        }
    }
    let k2 = lemma_block_runs(env, st3.rom.len(), 1, st3.label, inits, rom, c1, c.v);
    let c2 = run(rom, c1, k2);
    lemma_assign_all_len(env, inits, c.v);
    assert(rom[st4.rom.len() as int] == op(w1)[0] && rom[st4.rom.len() + 1int] == op(w1)[1]) by {
        assert(rom9[st4.rom.len() as int] == rom7[st4.rom.len() as int]);
        assert(rom9[st4.rom.len() + 1int] == rom7[st4.rom.len() + 1int]);
    }
    lemma_word_at(rom, st4.rom.len() as int, w1);
    lemma_dec_jump(addr_of(st5.rom.len()));
    let c3 = step(rom, c2);
    assert(run(rom, c2, 1) == c3) by {
        reveal_with_fuel(run, 2);
    }
    assert(placed(rom, rom7.len(), em.bytes)) by {
        assert forall|k: int| 0 <= k < em.bytes.len() implies #[trigger] rom[rom7.len() + k] == em.bytes[k] by {
            assert(rom9[rom7.len() + k] == rom8[rom7.len() + k]);
        }
    }
    lemma_run_add(rom, c, 1, k2);
    lemma_run_add(rom, c, 1 + k2, 1);
    assert(run(rom, c, 1 + k2 + 1) == c3);
    1 + k2 + 1
}

/// Law: the ROM of a plain program (no functions, globals set from
/// expressions of literals, variables, binary operators and `not`, `main` a
/// block of assignments, `if`/`elif`/`else`, `while` and `loop` over such
/// expressions), run from 0x200, reaches its final jump to itself with
/// every global's register holding what the semantics gives for `main`
/// after the initial values, wherever it gives a result.
pub proof fn lemma_program_follows_semantics(p: SProgram, files: Seq<(Seq<char>, Seq<u8>)>, c: Cpu, fuel: nat)
    requires
        generate_spec(p, files) is Ok,
        plain_program(p),
        divides_safely(program_env(p, files), init_stmts(p.vars), c.v),
        exec_block(program_env(p, files), p.main, initial_regs(p, files, c.v), fuel) is Some,
        c.pc == 0x200,
        c.v.len() == 16,
    ensures
        exists|k: nat| {
            &&& (#[trigger] run(generate_spec(p, files)->Ok_0.0, c, k)).pc == 0x200 + generate_spec(p, files)->Ok_0.0.len() - 2
            &&& same_outside(
                program_env(p, files),
                run(generate_spec(p, files)->Ok_0.0, c, k).v,
                exec_block(program_env(p, files), p.main, initial_regs(p, files, c.v), fuel)->Some_0,
                1,
            )
        },
{
    let rom = generate_spec(p, files)->Ok_0.0;
    let env = program_env(p, files);
    let k1 = lemma_reach_main(p, files, c);
    let c1 = run(rom, c, k1);
    let k2 = lemma_block_exec(env, main_offset(p, files), 1, main_label(p, files), p.main, rom, c1, initial_regs(p, files, c.v), fuel);
    lemma_run_add(rom, c, k1, k2);
    assert(run(rom, c, k1 + k2).pc == 0x200 + rom.len() - 2);
}

/// The ROM offset of the last statement of `main`.
pub open spec fn last_offset(p: SProgram, files: Seq<(Seq<char>, Seq<u8>)>) -> nat {
    main_offset(p, files) + block_code(program_env(p, files), main_offset(p, files), 1, main_label(p, files), p.main.drop_last())->Ok_0.0.bytes.len()
}

/// Law: when `main` of a plain program ends with `loop { body }`, its ROM,
/// run from 0x200, comes to the start of that loop after the statements
/// before it and after each round of the body, every global's register
/// holding what the semantics gives: the statements before the loop, then
/// `n` rounds of its body.
pub proof fn lemma_program_loop_follows_semantics(
    p: SProgram,
    files: Seq<(Seq<char>, Seq<u8>)>,
    c: Cpu,
    body: Seq<SStmt>,
    n: nat,
    fuel: nat,
)
    requires
        generate_spec(p, files) is Ok,
        plain_program(p),
        p.main.len() > 0,
        p.main[p.main.len() - 1] == SStmt::Loop(body),
        divides_safely(program_env(p, files), init_stmts(p.vars), c.v),
        exec_block(program_env(p, files), p.main.drop_last(), initial_regs(p, files, c.v), fuel) is Some,
        loop_rounds(
            program_env(p, files),
            body,
            exec_block(program_env(p, files), p.main.drop_last(), initial_regs(p, files, c.v), fuel)->Some_0,
            n,
            fuel,
        ) is Some,
        c.pc == 0x200,
        c.v.len() == 16,
    ensures
        exists|k: nat| {
            &&& (#[trigger] run(generate_spec(p, files)->Ok_0.0, c, k)).pc == 0x200 + last_offset(p, files)
            &&& same_outside(
                program_env(p, files),
                run(generate_spec(p, files)->Ok_0.0, c, k).v,
                loop_rounds(
                    program_env(p, files),
                    body,
                    exec_block(program_env(p, files), p.main.drop_last(), initial_regs(p, files, c.v), fuel)->Some_0,
                    n,
                    fuel,
                )->Some_0,
                1,
            )
        },
{
    let rom = generate_spec(p, files)->Ok_0.0;
    let env = program_env(p, files);
    let mo = main_offset(p, files);
    let ml = main_label(p, files);
    let k1 = lemma_reach_main(p, files, c);
    let c1 = run(rom, c, k1);
    let pre = p.main.drop_last();
    let (e1, l1) = block_code(env, mo, 1, ml, pre)->Ok_0;
    let pc1 = mo + e1.bytes.len();
    let e2 = stmt_code(env, pc1, 1, l1, SStmt::Loop(body))->Ok_0.0;
    assert(block_code(env, mo, 1, ml, p.main)->Ok_0.0.bytes =~= e1.bytes + e2.bytes);
    lemma_placed_split(rom, mo, e1.bytes, e2.bytes);
    let u0 = initial_regs(p, files, c.v);
    let k2 = lemma_block_exec(env, mo, 1, ml, pre, rom, c1, u0, fuel);
    let c2 = run(rom, c1, k2);
    let u1 = exec_block(env, pre, u0, fuel)->Some_0;
    lemma_exec_len(env, pre, u0, fuel);
    let k3 = lemma_loop_runs(env, pc1, 1, l1, body, rom, c2, u1, n, fuel);
    lemma_run_add(rom, c, k1, k2);
    lemma_run_add(rom, c, k1 + k2, k3);
    assert(run(rom, c, k1 + k2 + k3).pc == 0x200 + last_offset(p, files));
}

/// The code of the first `i` statements of a block is the start of the
/// code of the block.
pub(crate) proof fn lemma_block_code_prefix(env: GenEnv, pc: nat, next: u8, label: u32, b: Seq<SStmt>, i: int)
    requires
        block_code(env, pc, next, label, b) is Ok,
        0 <= i <= b.len(),
    ensures
        block_code(env, pc, next, label, b.take(i)) is Ok,
        block_code(env, pc, next, label, b.take(i))->Ok_0.0.bytes.len() <= block_code(env, pc, next, label, b)->Ok_0.0.bytes.len(),
        block_code(env, pc, next, label, b)->Ok_0.0.bytes.subrange(
            0,
            block_code(env, pc, next, label, b.take(i))->Ok_0.0.bytes.len() as int,
        ) == block_code(env, pc, next, label, b.take(i))->Ok_0.0.bytes,
    decreases b.len(),
{
    let whole = block_code(env, pc, next, label, b)->Ok_0.0.bytes;
    if i == b.len() {
        assert(b.take(i) =~= b);
        assert(whole.subrange(0, whole.len() as int) =~= whole);
    } else {
        let b1 = b.drop_last();
        assert(b.take(i) =~= b1.take(i));
        lemma_block_code_prefix(env, pc, next, label, b1, i);
        let (e1, l1) = block_code(env, pc, next, label, b1)->Ok_0;
        let e2 = stmt_code(env, pc + e1.bytes.len(), next, l1, b[b.len() - 1])->Ok_0.0;
        assert(whole =~= e1.bytes + e2.bytes);
        let n = block_code(env, pc, next, label, b.take(i))->Ok_0.0.bytes.len() as int;
        assert(whole.subrange(0, n) =~= e1.bytes.subrange(0, n));
    }
}

/// Law: at each statement boundary of `main` of a plain program, the ROM,
/// run from 0x200, reaches the code of the next statement with every
/// global's register holding what the semantics gives for the statements
/// before it, after the initial values.
pub proof fn lemma_program_prefix_follows_semantics(p: SProgram, files: Seq<(Seq<char>, Seq<u8>)>, c: Cpu, i: int, fuel: nat)
    requires
        generate_spec(p, files) is Ok,
        plain_program(p),
        0 <= i <= p.main.len(),
        divides_safely(program_env(p, files), init_stmts(p.vars), c.v),
        exec_block(program_env(p, files), p.main.take(i), initial_regs(p, files, c.v), fuel) is Some,
        c.pc == 0x200,
        c.v.len() == 16,
    ensures
        exists|k: nat| {
            &&& (#[trigger] run(generate_spec(p, files)->Ok_0.0, c, k)).pc == 0x200 + main_offset(p, files)
                + block_code(program_env(p, files), main_offset(p, files), 1, main_label(p, files), p.main.take(i))->Ok_0.0.bytes.len()
            &&& same_outside(
                program_env(p, files),
                run(generate_spec(p, files)->Ok_0.0, c, k).v,
                exec_block(program_env(p, files), p.main.take(i), initial_regs(p, files, c.v), fuel)->Some_0,
                1,
            )
        },
{
    let rom = generate_spec(p, files)->Ok_0.0;
    let env = program_env(p, files);
    let mo = main_offset(p, files);
    let ml = main_label(p, files);
    let k1 = lemma_reach_main(p, files, c);
    let c1 = run(rom, c, k1);
    lemma_block_code_prefix(env, mo, 1, ml, p.main, i);
    let whole = block_code(env, mo, 1, ml, p.main)->Ok_0.0.bytes;
    let part = block_code(env, mo, 1, ml, p.main.take(i))->Ok_0.0.bytes;
    assert(placed(rom, mo, part)) by {
        assert forall|m: int| 0 <= m < part.len() implies #[trigger] rom[mo + m] == part[m] by {
            assert(part[m] == whole[m]);
        }
    }
    let u0 = initial_regs(p, files, c.v);
    let k2 = lemma_block_exec(env, mo, 1, ml, p.main.take(i), rom, c1, u0, fuel);
    lemma_run_add(rom, c, k1, k2);
    assert(run(rom, c, k1 + k2).pc == 0x200 + mo + part.len());
}

} // verus!
