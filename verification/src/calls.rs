//! What the code of a call does when it runs: the caller saves its
//! registers, computes the arguments from its own values and passes them in
//! `V1`..; the function runs its body and returns; the caller takes the
//! result and gets its registers back.
use vstd::prelude::*;
use crate::ast::{SExpr, SFnDecl};
use crate::analyzer::{lookup, key_index, assoc_insert, lemma_key_index_bounds};
use crate::codegen::{
    args_code, arg_moves, call_code, fn_code, bind_args, ret_reg, load_code, block_code, op, r8, r4, GenEnv, Emitted,
};
use crate::machine::{
    Cpu, Instr, decode, run, step, placed, eval, same_outside, same_frame, store_regs, global_regs,
    lemma_load_runs, lemma_run_add, lemma_word_in, lemma_placed_split, lemma_dec_x, lemma_dec_xy, lemma_fields,
    lemma_eval_frame, lemma_vars_apart_mono, lemma_or_y, lemma_dec_nnn,
};
use crate::control::{
    regs_apart, describable, exec_block, lemma_all_vars_apart, lemma_block_exec,
};

verus! {

/// Every argument is describable from `u`.
pub open spec fn args_describable(env: GenEnv, args: Seq<SExpr>, u: Seq<u8>) -> bool {
    forall|j: int| 0 <= j < args.len() ==> describable(env, #[trigger] args[j], u)
}

/// The arguments from `i` on, each computed into `V(next + j)`.
pub(crate) proof fn lemma_args_runs(env: GenEnv, pc: nat, next: u8, args: Seq<SExpr>, i: int, rom: Seq<u8>, c: Cpu, u: Seq<u8>) -> (k: nat)
    requires
        0 <= i <= args.len(),
        args_code(env, pc, next, args, i) is Ok,
        args_describable(env, args, u),
        placed(rom, pc, args_code(env, pc, next, args, i)->Ok_0.bytes),
        0x200 + pc + args_code(env, pc, next, args, i)->Ok_0.bytes.len() < 0x1000,
        c.pc == 0x200 + pc,
        c.v.len() == 16,
        u.len() == 16,
        same_outside(env, c.v, u, next),
        env.work_end < 15,
        0 < next,
        regs_apart(env, next),
    ensures
        ({
            let f = run(rom, c, k);
            &&& f.pc == c.pc + args_code(env, pc, next, args, i)->Ok_0.bytes.len()
            &&& same_frame(c, f)
            &&& f.v.len() == 16
            &&& forall|j: int| i <= j < args.len() ==> #[trigger] f.v[next + j] == eval(env, args[j], u)
            &&& forall|r: int| 0 < r < 15 && (r < next + i || r > env.work_end) ==> #[trigger] f.v[r] == c.v[r]
        }),
    decreases args.len() - i,
{
    if i >= args.len() {
        assert(run(rom, c, 0) == c);
        0
    } else {
        let t = (next + i) as u8;
        let n1 = ((next + i + 1) % 256) as u8;
        assert(n1 == next + i + 1);
        let ea = load_code(env, pc, n1, t, args[i])->Ok_0;
        let rest = args_code(env, pc + ea.bytes.len(), next, args, i + 1)->Ok_0;
        assert(args_code(env, pc, next, args, i)->Ok_0.bytes =~= ea.bytes + rest.bytes);
        lemma_placed_split(rom, pc, ea.bytes, rest.bytes);
        assert(describable(env, args[i], u));
        lemma_all_vars_apart(env, args[i], next);
        lemma_vars_apart_mono(env, args[i], next, n1);
        lemma_eval_frame(env, args[i], c.v, u, next);
        let k1 = lemma_load_runs(env, pc, n1, t, args[i], rom, c);
        let c1 = run(rom, c, k1);
        assert(same_outside(env, c1.v, u, next)) by {
            assert forall|r: int| 0 < r < 15 && (r < next || r > env.work_end) implies #[trigger] c1.v[r] == u[r] by {
                assert(c1.v[r] == c.v[r]);
            }
        }
        let k2 = lemma_args_runs(env, pc + ea.bytes.len(), next, args, i + 1, rom, c1, u);
        let c2 = run(rom, c1, k2);
        lemma_run_add(rom, c, k1, k2);
        assert(c2.v[next + i] == c1.v[next + i]);
        k1 + k2
    }
}

/// The moves of the arguments from `j` on into `V(j+1)`...
pub(crate) proof fn lemma_moves_runs(next: u8, argc: int, j: int, rom: Seq<u8>, pc: nat, c: Cpu) -> (k: nat)
    requires
        0 <= j <= argc,
        0 < next,
        j == argc || next + argc <= 15,
        placed(rom, pc, arg_moves(next, argc, j)),
        0x200 + pc + arg_moves(next, argc, j).len() < 0x1000,
        c.pc == 0x200 + pc,
        c.v.len() == 16,
    ensures
        ({
            let f = run(rom, c, k);
            &&& f.pc == c.pc + arg_moves(next, argc, j).len()
            &&& same_frame(c, f)
            &&& f.v.len() == 16
            &&& forall|m: int| j <= m < argc ==> #[trigger] f.v[m + 1] == c.v[next + m]
            &&& forall|r: int| 0 <= r < 16 && !(j + 1 <= r <= argc) ==> #[trigger] f.v[r] == c.v[r]
        }),
    decreases argc - j,
{
    reveal(decode);
    if j >= argc {
        assert(run(rom, c, 0) == c);
        0
    } else {
        let t = ((next + j) % 256) as u8;
        let r = ((j + 1) % 256) as u8;
        assert(t == next + j && r == j + 1);
        let rest = arg_moves(next, argc, j + 1);
        if t == r {
            assert(arg_moves(next, argc, j) =~= rest);
            let k2 = lemma_moves_runs(next, argc, j + 1, rom, pc, c);
            k2
        } else {
            let w = 0x8000u16 | r8(r) | r4(t);
            assert(arg_moves(next, argc, j) =~= op(w) + rest);
            lemma_placed_split(rom, pc, op(w), rest);
            assert(op(w).subrange(0, 2) =~= op(w));
            lemma_word_in(rom, pc, op(w), 0, w);
            lemma_dec_xy(0x8000u16, 8, 0, r, t);
            let c1 = step(rom, c);
            assert(run(rom, c, 1) == c1) by {
                reveal_with_fuel(run, 2);
            }
            let k2 = lemma_moves_runs(next, argc, j + 1, rom, pc + 2, c1);
            lemma_run_add(rom, c, 1, k2);
            1 + k2
        }
    }
}

/// The save area of the caller's depth.
pub open spec fn save_addr(env: GenEnv) -> u16 {
    env.save_addrs[env.depth as int]
}

/// The argument code of a call.
pub open spec fn call_args(env: GenEnv, pc: nat, next: u8, args: Seq<SExpr>) -> Emitted {
    args_code(env, pc + 4, next, args, 0)->Ok_0
}

/// The ROM offset just after the `2nnn` of a call: where it returns to.
pub open spec fn return_offset(env: GenEnv, pc: nat, next: u8, args: Seq<SExpr>) -> nat {
    pc + 4 + call_args(env, pc, next, args).bytes.len() + arg_moves(next, args.len() as int, 0).len() + 2
}

/// The code of a call of a function already at address `a`, placed in
/// `rom` and about to run.
pub open spec fn call_ready(
    env: GenEnv,
    pc: nat,
    next: u8,
    name: Seq<char>,
    args: Seq<SExpr>,
    dest: Option<u8>,
    rom: Seq<u8>,
    c: Cpu,
    u: Seq<u8>,
) -> bool {
    &&& call_code(env, pc, next, name, args, dest) is Ok
    &&& lookup(env.fns, name) matches Some(a) && a < 0x1000
    &&& placed(rom, pc, call_code(env, pc, next, name, args, dest)->Ok_0.bytes)
    &&& 0x200 + pc + call_code(env, pc, next, name, args, dest)->Ok_0.bytes.len() < 0x1000
    &&& c.pc == 0x200 + pc
    &&& c.v.len() == 16
    &&& u.len() == 16
    &&& same_outside(env, c.v, u, next)
    &&& env.work_end < 15
    &&& 0 < next
    &&& regs_apart(env, next)
    &&& args_describable(env, args, u)
    &&& 0 <= env.depth < env.save_addrs.len()
    &&& save_addr(env) + 16 < 0x1000
    &&& save_addr(env) + 16 <= c.mem.len()
    &&& (dest matches Some(d) ==> d < 15)
}

/// The call code up to the jump into the function: the caller's `V0`..`V(we)`
/// saved, each argument computed from the caller's values and passed in
/// `V1`.., the return address pushed.
#[verifier::spinoff_prover]
#[verifier::rlimit(60)]
pub(crate) proof fn lemma_call_enters(
    env: GenEnv,
    pc: nat,
    next: u8,
    name: Seq<char>,
    args: Seq<SExpr>,
    dest: Option<u8>,
    rom: Seq<u8>,
    c: Cpu,
    u: Seq<u8>,
) -> (k: nat)
    requires
        call_ready(env, pc, next, name, args, dest, rom, c, u),
    ensures
        ({
            let f = run(rom, c, k);
            let we = env.work_end;
            &&& f.pc == lookup(env.fns, name)->Some_0 as int
            &&& f.stack == c.stack.push((0x200 + return_offset(env, pc, next, args)) as int)
            &&& f.mem == store_regs(c.mem, save_addr(env) as int, c.v, we as int)
            &&& f.v.len() == 16
            &&& forall|j: int| 0 <= j < args.len() ==> #[trigger] f.v[j + 1] == eval(env, args[j], u)
            &&& forall|r: int| we < r < 15 ==> #[trigger] f.v[r] == c.v[r]
        }),
{
    reveal(decode);
    let we = env.work_end;
    let save = save_addr(env);
    let a = lookup(env.fns, name)->Some_0;
    let argc = args.len() as int;
    let ea = call_args(env, pc, next, args);
    let moves = arg_moves(next, argc, 0);
    let code = call_code(env, pc, next, name, args, dest)->Ok_0.bytes;
    let w0 = 0xA000u16 | save;
    let w1 = 0xF055u16 | r8(we);
    let wc = 0x2000u16 | a;
    let tail = code.subrange((4 + ea.bytes.len() + moves.len() + 2) as int, code.len() as int);
    assert(code =~= op(w0) + op(w1) + ea.bytes + moves + op(wc) + tail);
    assert(code.subrange(0, 2) =~= op(w0));
    assert(code.subrange(2, 4) =~= op(w1));
    lemma_word_in(rom, pc, code, 0, w0);
    lemma_word_in(rom, pc, code, 2, w1);
    lemma_dec_nnn(0xA000u16, 10, save);
    lemma_dec_x(0xF055u16, 15, 0x55, we);
    let c1 = step(rom, c);
    let c2 = step(rom, c1);
    assert(run(rom, c, 2) == c2) by {
        reveal_with_fuel(run, 3);
    }
    // the arguments
    let pa = pc + 4;
    assert(placed(rom, pa, ea.bytes)) by {
        assert forall|m: int| 0 <= m < ea.bytes.len() implies #[trigger] rom[pa + m] == ea.bytes[m] by {
            assert(rom[pc + (4 + m)] == code[4 + m]);
        }
    }
    assert(same_outside(env, c2.v, u, next));
    let k3 = lemma_args_runs(env, pa, next, args, 0, rom, c2, u);
    let c3 = run(rom, c2, k3);
    // the moves
    let pm = pa + ea.bytes.len();
    assert(argc == 0 || next + argc - 1 <= we) by {
        if argc > 0 {
            lemma_args_bound(env, pa, next, args, 0);
        }
    }
    assert(placed(rom, pm, moves)) by {
        assert forall|m: int| 0 <= m < moves.len() implies #[trigger] rom[pm + m] == moves[m] by {
            assert(rom[pc + (4 + ea.bytes.len() + m)] == code[4 + ea.bytes.len() + m]);
        }
    }
    let k4 = lemma_moves_runs(next, argc, 0, rom, pm, c3);
    let c4 = run(rom, c3, k4);
    // the call
    let pj = pm + moves.len();
    assert(code.subrange(pj - pc, pj - pc + 2) =~= op(wc));
    lemma_word_in(rom, pc, code, pj - pc, wc);
    lemma_dec_nnn(0x2000u16, 2, a);
    let c5 = step(rom, c4);
    assert(run(rom, c4, 1) == c5) by {
        reveal_with_fuel(run, 2);
    }
    lemma_run_add(rom, c, 2, k3);
    lemma_run_add(rom, c, 2 + k3, k4);
    lemma_run_add(rom, c, 2 + k3 + k4, 1);
    assert forall|j: int| 0 <= j < args.len() implies #[trigger] c5.v[j + 1] == eval(env, args[j], u) by {
        assert(c4.v[j + 1] == c3.v[next + j]);
    }
    2 + k3 + k4 + 1
}

/// The arguments' registers are work registers.
proof fn lemma_args_bound(env: GenEnv, pc: nat, next: u8, args: Seq<SExpr>, i: int)
    requires
        0 <= i < args.len(),
        args_code(env, pc, next, args, i) is Ok,
    ensures
        next + args.len() - 1 <= env.work_end,
    decreases args.len() - i,
{
    if i + 1 < args.len() {
        let ea = load_code(env, pc, ((next + i + 1) % 256) as u8, (next + i) as u8, args[i])->Ok_0;
        lemma_args_bound(env, pc + ea.bytes.len(), next, args, i + 1);
    }
}

/// The call code after the function returns: the result, in the register
/// after the arguments, goes to `VF` and `dest`; the caller's `V0`..`V(we)`
/// come back from the save area.
#[verifier::spinoff_prover]
#[verifier::rlimit(60)]
pub(crate) proof fn lemma_call_returns(
    env: GenEnv,
    pc: nat,
    next: u8,
    name: Seq<char>,
    args: Seq<SExpr>,
    dest: Option<u8>,
    rom: Seq<u8>,
    g: Cpu,
) -> (k: nat)
    requires
        call_code(env, pc, next, name, args, dest) is Ok,
        lookup(env.fns, name) is Some,
        placed(rom, pc, call_code(env, pc, next, name, args, dest)->Ok_0.bytes),
        0x200 + pc + call_code(env, pc, next, name, args, dest)->Ok_0.bytes.len() < 0x1000,
        g.pc == 0x200 + return_offset(env, pc, next, args),
        g.v.len() == 16,
        env.work_end < 15,
        args.len() < 15,
        0 <= env.depth < env.save_addrs.len(),
        save_addr(env) + 16 < 0x1000,
        dest matches Some(d) ==> d < 15,
    ensures
        ({
            let f = run(rom, g, k);
            let we = env.work_end as int;
            let res = g.v[(args.len() + 1) as int];
            &&& f.pc == 0x200 + pc + call_code(env, pc, next, name, args, dest)->Ok_0.bytes.len()
            &&& f.stack == g.stack
            &&& f.mem == g.mem
            &&& f.v.len() == 16
            &&& f.v[15] == res
            &&& (dest matches Some(d) ==> f.v[d as int] == res)
            &&& forall|r: int| 0 <= r <= we && dest != Some(r as u8) ==> #[trigger] f.v[r] == g.mem[save_addr(env) + r]
            &&& forall|r: int| we < r < 15 && dest != Some(r as u8) ==> #[trigger] f.v[r] == g.v[r]
        }),
{
    reveal(decode);
    let we = env.work_end;
    let save = save_addr(env);
    let argc = (args.len() % 256) as u8;
    let ret = ((argc as nat + 1) % 256) as u8;
    assert(argc == args.len() && ret == args.len() + 1);
    let ea = call_args(env, pc, next, args);
    let moves = arg_moves(next, args.len() as int, 0);
    let code = call_code(env, pc, next, name, args, dest)->Ok_0.bytes;
    let po = return_offset(env, pc, next, args) - pc;
    let w1 = 0x8F00u16 | r4(ret);
    let w2 = 0xA000u16 | save;
    let w3 = 0xF065u16 | r8(we);
    assert(code.subrange(po, po + 2) =~= op(w1));
    assert(code.subrange(po + 2, po + 4) =~= op(w2));
    assert(code.subrange(po + 4, po + 6) =~= op(w3));
    lemma_word_in(rom, pc, code, po, w1);
    lemma_word_in(rom, pc, code, po + 2, w2);
    lemma_word_in(rom, pc, code, po + 4, w3);
    lemma_or_y(0x8F00u16, ret);
    lemma_fields(8, 15, ret as int, 0);
    lemma_dec_nnn(0xA000u16, 10, save);
    lemma_dec_x(0xF065u16, 15, 0x65, we);
    let g1 = step(rom, g);
    let g2 = step(rom, g1);
    let g3 = step(rom, g2);
    assert(run(rom, g, 3) == g3) by {
        reveal_with_fuel(run, 4);
    }
    match dest {
        Some(d) => {
            let w4 = 0x80F0u16 | r8(d);
            assert(code.subrange(po + 6, po + 8) =~= op(w4));
            lemma_word_in(rom, pc, code, po + 6, w4);
            lemma_dec_x(0x80F0u16, 8, 0xF0, d);
            let g4 = step(rom, g3);
            assert(run(rom, g3, 1) == g4) by {
                reveal_with_fuel(run, 2);
            }
            lemma_run_add(rom, g, 3, 1);
            assert(code.len() == po + 8);
            4
        },
        None => {
            assert(code.len() == po + 6);
            3
        },
    }
}

// ---------------------------------------------------------------------------
// Functions
// ---------------------------------------------------------------------------

/// The registers a function's body sees: its parameters in `V1`.., its
/// return variable after them, the globals.
pub open spec fn fn_env(fe: GenEnv, f: SFnDecl, depth: nat) -> GenEnv {
    GenEnv { regs: assoc_insert(bind_args(fe.regs, f.args), f.ret, ret_reg(f)), depth, ..fe }
}

/// The first work register of a function's body.
pub open spec fn fn_next(f: SFnDecl) -> u8 {
    ((ret_reg(f) as nat + 1) % 256) as u8
}

/// Registers of globals, or of the first `k` registers.
pub open spec fn low_or_global(regs: Seq<(Seq<char>, u8)>, k: int, we: u8) -> bool {
    forall|j: int| 0 <= j < regs.len() ==> 0 < (#[trigger] regs[j]).1 < 15 && ((regs[j].1 as int) <= k || regs[j].1 > we)
}

proof fn lemma_insert_low(t: Seq<(Seq<char>, u8)>, name: Seq<char>, r: u8, k: int, we: u8)
    requires
        low_or_global(t, k, we),
        0 < r < 15,
        r as int <= k,
    ensures
        low_or_global(assoc_insert(t, name, r), k, we),
{
    lemma_key_index_bounds(t, name);
    let t2 = assoc_insert(t, name, r);
    assert forall|j: int| 0 <= j < t2.len() implies 0 < (#[trigger] t2[j]).1 < 15 && ((t2[j].1 as int) <= k || t2[j].1 > we) by {
        if key_index(t, name) >= 0 {
            if j != key_index(t, name) {
                assert(t2[j] == t[j]);
            }
        } else if j < t.len() {
            assert(t2[j] == t[j]);
        }
    }
}

proof fn lemma_bind_args_low(regs: Seq<(Seq<char>, u8)>, args: Seq<Seq<char>>, k: int, we: u8)
    requires
        low_or_global(regs, k, we),
        args.len() <= k < 15,
    ensures
        low_or_global(bind_args(regs, args), k, we),
    decreases args.len(),
{
    if args.len() > 0 {
        lemma_bind_args_low(regs, args.drop_last(), k, we);
        lemma_insert_low(bind_args(regs, args.drop_last()), args[args.len() - 1], (args.len() % 256) as u8, k, we);
    }
}

proof fn lemma_fn_regs(fe: GenEnv, f: SFnDecl, depth: nat)
    requires
        global_regs(fe.regs, fe.work_end),
        f.args.len() + 1 < 15,
    ensures
        regs_apart(fn_env(fe, f, depth), fn_next(f)),
{
    let k: int = f.args.len() as int + 1;
    assert(low_or_global(fe.regs, k, fe.work_end));
    lemma_bind_args_low(fe.regs, f.args, k, fe.work_end);
    lemma_insert_low(bind_args(fe.regs, f.args), f.ret, ret_reg(f), k, fe.work_end);
}

/// A function entered at its address, the return address on top of the
/// stack: its body runs as the semantics says from the registers it finds,
/// then it returns.
#[verifier::spinoff_prover]
#[verifier::rlimit(40)]
pub(crate) proof fn lemma_function_runs(fe: GenEnv, pcf: nat, label: u32, f: SFnDecl, depth: nat, rom: Seq<u8>, c: Cpu, fuel: nat) -> (k: nat)
    requires
        fn_code(fe, pcf, label, f, depth) is Ok,
        placed(rom, pcf, fn_code(fe, pcf, label, f, depth)->Ok_0.0.bytes),
        0x200 + pcf + fn_code(fe, pcf, label, f, depth)->Ok_0.0.bytes.len() < 0x1000,
        c.pc == 0x200 + pcf,
        c.v.len() == 16,
        c.stack.len() > 0,
        global_regs(fe.regs, fe.work_end),
        fe.work_end < 15,
        f.args.len() + 1 < 15,
        exec_block(fn_env(fe, f, depth), f.body, c.v, fuel) is Some,
    ensures
        ({
            let g = run(rom, c, k);
            &&& g.pc == c.stack.last()
            &&& g.stack == c.stack.drop_last()
            &&& g.mem == c.mem
            &&& g.v.len() == 16
            &&& same_outside(fn_env(fe, f, depth), g.v, exec_block(fn_env(fe, f, depth), f.body, c.v, fuel)->Some_0, fn_next(f))
        }),
{
    reveal(decode);
    let env = fn_env(fe, f, depth);
    let nx = fn_next(f);
    lemma_fn_regs(fe, f, depth);
    let (eb, l2) = block_code(env, pcf, nx, label, f.body)->Ok_0;
    let code = fn_code(fe, pcf, label, f, depth)->Ok_0.0.bytes;
    assert(code =~= eb.bytes + op(0x00EEu16));
    lemma_placed_split(rom, pcf, eb.bytes, op(0x00EEu16));
    let k1 = lemma_block_exec(env, pcf, nx, label, f.body, rom, c, c.v, fuel);
    let c1 = run(rom, c, k1);
    assert(op(0x00EEu16).subrange(0, 2) =~= op(0x00EEu16));
    lemma_word_in(rom, pcf + eb.bytes.len(), op(0x00EEu16), 0, 0x00EEu16);
    let c2 = step(rom, c1);
    assert(run(rom, c1, 1) == c2) by {
        reveal_with_fuel(run, 2);
    }
    lemma_run_add(rom, c, k1, 1);
    k1 + 1
}

/// A call runs as the semantics says.  The caller saves its registers and
/// computes each argument from its own values; the function starts with
/// those values in its parameters' registers and the caller's globals; its
/// body runs as the semantics says from there and returns.  Back in the
/// caller, the value of the function's return variable is in `VF` and in
/// the destination, the caller's own registers hold what they held before
/// the call, and each global holds what the body left in it.  Gives the
/// number of steps and the registers the function starts with.
#[verifier::spinoff_prover]
#[verifier::rlimit(60)]
pub proof fn lemma_call_follows_semantics(
    env: GenEnv,
    pc: nat,
    next: u8,
    name: Seq<char>,
    args: Seq<SExpr>,
    dest: Option<u8>,
    fe: GenEnv,
    pcf: nat,
    label: u32,
    f: SFnDecl,
    fdepth: nat,
    rom: Seq<u8>,
    c: Cpu,
    u: Seq<u8>,
    fuel: nat,
) -> (res: (nat, Seq<u8>))
    requires
        call_ready(env, pc, next, name, args, dest, rom, c, u),
        lookup(env.fns, name)->Some_0 == 0x200 + pcf,
        fn_code(fe, pcf, label, f, fdepth) is Ok,
        placed(rom, pcf, fn_code(fe, pcf, label, f, fdepth)->Ok_0.0.bytes),
        0x200 + pcf + fn_code(fe, pcf, label, f, fdepth)->Ok_0.0.bytes.len() < 0x1000,
        f.args.len() == args.len(),
        f.args.len() + 1 < 15,
        fe.work_end == env.work_end,
        global_regs(fe.regs, fe.work_end),
    ensures
        res.1.len() == 16,
        forall|j: int| 0 <= j < args.len() ==> #[trigger] res.1[j + 1] == eval(env, args[j], u),
        forall|r: int| env.work_end < r < 15 ==> #[trigger] res.1[r] == c.v[r],
        exec_block(fn_env(fe, f, fdepth), f.body, res.1, fuel) is Some ==> ({
            let uf = exec_block(fn_env(fe, f, fdepth), f.body, res.1, fuel)->Some_0;
            let g = run(rom, c, res.0);
            let value = uf[ret_reg(f) as int];
            let we = env.work_end as int;
            &&& g.pc == 0x200 + pc + call_code(env, pc, next, name, args, dest)->Ok_0.bytes.len()
            &&& g.stack == c.stack
            &&& g.mem == store_regs(c.mem, save_addr(env) as int, c.v, we)
            &&& g.v.len() == 16
            &&& g.v[15] == value
            &&& (dest matches Some(d) ==> g.v[d as int] == value)
            &&& forall|r: int| 0 <= r <= we && dest != Some(r as u8) ==> #[trigger] g.v[r] == c.v[r]
            &&& forall|r: int| we < r < 15 && dest != Some(r as u8) ==> #[trigger] g.v[r] == uf[r]
        }),
{
    let we = env.work_end as int;
    let save = save_addr(env) as int;
    let k1 = lemma_call_enters(env, pc, next, name, args, dest, rom, c, u);
    let c1 = run(rom, c, k1);
    let fenv = fn_env(fe, f, fdepth);
    if exec_block(fenv, f.body, c1.v, fuel) is Some {
        let uf = exec_block(fenv, f.body, c1.v, fuel)->Some_0;
        let k2 = lemma_function_runs(fe, pcf, label, f, fdepth, rom, c1, fuel);
        let g = run(rom, c1, k2);
        assert(c1.stack.drop_last() =~= c.stack);
        let k3 = lemma_call_returns(env, pc, next, name, args, dest, rom, g);
        let h = run(rom, g, k3);
        lemma_run_add(rom, c, k1, k2);
        lemma_run_add(rom, c, k1 + k2, k3);
        let rr = ret_reg(f) as int;
        assert(rr == args.len() + 1);
        assert(g.v[rr] == uf[rr]);
        assert forall|r: int| 0 <= r <= we && dest != Some(r as u8) implies #[trigger] h.v[r] == c.v[r] by {
            assert(h.v[r] == g.mem[save + r]);
        }
        assert forall|r: int| we < r < 15 && dest != Some(r as u8) implies #[trigger] h.v[r] == uf[r] by {
            assert(h.v[r] == g.v[r]);
        }
        (k1 + k2 + k3, c1.v)
    } else {
        (0, c1.v)
    }
}

} // verus!
