//! Multi-pass AST optimizer: constant folding, dead code elimination and
//! strength reduction, repeated until nothing changes.
use vstd::prelude::*;
use crate::ast::{Expr, Op, SExpr, SStmt, SElseIf, Stmt, ElseIf, SVarDecl, SFnDecl, SProgram, VarDecl, FnDecl, Program, clone_expr, view_expr, view_exprs, view_stmt, view_stmts, view_elseifs};

verus! {

/// A division or remainder whose divisor is the literal (or folded) zero.
#[derive(Debug, Clone, Copy, PartialEq, Eq, Structural)]
pub enum OptimizeError {
    DivisionByZero,
}

/// How many rewrites of each kind a pass performed.
pub struct Counts {
    pub folds: nat,
    pub dce: nat,
    pub reductions: nat,
}

pub open spec fn zero_counts() -> Counts {
    Counts { folds: 0, dce: 0, reductions: 0 }
}

pub open spec fn add_counts(a: Counts, b: Counts) -> Counts {
    Counts { folds: a.folds + b.folds, dce: a.dce + b.dce, reductions: a.reductions + b.reductions }
}

pub open spec fn one_fold() -> Counts {
    Counts { folds: 1, dce: 0, reductions: 0 }
}

pub open spec fn one_reduction() -> Counts {
    Counts { folds: 0, dce: 0, reductions: 1 }
}

pub open spec fn dce_count(n: nat) -> Counts {
    Counts { folds: 0, dce: n, reductions: 0 }
}

pub type FoldRes = Result<(SExpr, Counts), OptimizeError>;

/// `a op b` on two byte literals, wrapping modulo 256; `None` where the
/// operator does not apply to integers.
pub open spec fn eval_int_op(a: u8, op: Op, b: u8) -> Option<SExpr> {
    match op {
        Op::Add => Some(SExpr::Int(((a + b) % 256) as u8)),
        Op::Sub => Some(SExpr::Int(((a - b) % 256) as u8)),
        Op::Mul => Some(SExpr::Int(((a * b) % 256) as u8)),
        Op::Div => Some(SExpr::Int((a / b) as u8)),
        Op::Mod => Some(SExpr::Int((a % b) as u8)),
        Op::EqEq => Some(SExpr::Bool(a == b)),
        Op::NotEq => Some(SExpr::Bool(a != b)),
        Op::Lt => Some(SExpr::Bool(a < b)),
        Op::Gt => Some(SExpr::Bool(a > b)),
        Op::LtEq => Some(SExpr::Bool(a <= b)),
        Op::GtEq => Some(SExpr::Bool(a >= b)),
        Op::And | Op::Or => None,
    }
}

/// `a op b` on two boolean literals; `None` where the operator does not apply.
pub open spec fn eval_bool_op(a: bool, op: Op, b: bool) -> Option<SExpr> {
    match op {
        Op::EqEq => Some(SExpr::Bool(a == b)),
        Op::NotEq => Some(SExpr::Bool(a != b)),
        Op::And => Some(SExpr::Bool(a && b)),
        Op::Or => Some(SExpr::Bool(a || b)),
        _ => None,
    }
}

/// Constant folding of `l op r`, both already folded.
pub open spec fn const_fold(l: SExpr, op: Op, r: SExpr) -> Option<SExpr> {
    match (l, r) {
        (SExpr::Int(a), SExpr::Int(b)) => eval_int_op(a, op, b),
        (SExpr::Bool(a), SExpr::Bool(b)) => eval_bool_op(a, op, b),
        _ => None,
    }
}

pub open spec fn is_int(e: SExpr, n: u8) -> bool {
    e == SExpr::Int(n)
}

pub open spec fn is_bool(e: SExpr, b: bool) -> bool {
    e == SExpr::Bool(b)
}

/// Strength reduction of `l op r` when one side is a known constant; `None`
/// when no rule applies.
pub open spec fn reduce(l: SExpr, op: Op, r: SExpr) -> Option<SExpr> {
    if (op == Op::Add || op == Op::Sub) && is_int(r, 0) {
        Some(l)
    } else if op == Op::Add && is_int(l, 0) {
        Some(r)
    } else if op == Op::Mul && (is_int(r, 0) || is_int(l, 0)) {
        Some(SExpr::Int(0))
    } else if op == Op::Mul && is_int(r, 1) {
        Some(l)
    } else if op == Op::Mul && is_int(l, 1) {
        Some(r)
    } else if op == Op::Div && is_int(r, 1) {
        Some(l)
    } else if op == Op::Mod && is_int(r, 1) {
        Some(SExpr::Int(0))
    } else if op == Op::Mul && is_int(r, 2) {
        Some(SExpr::BinOp(Box::new(l), Op::Add, Box::new(l)))
    } else if op == Op::Mul && is_int(l, 2) {
        Some(SExpr::BinOp(Box::new(r), Op::Add, Box::new(r)))
    } else if op == Op::And {
        if is_bool(r, true) {
            Some(l)
        } else if is_bool(r, false) || is_bool(l, false) {
            Some(SExpr::Bool(false))
        } else if is_bool(l, true) {
            Some(r)
        } else {
            None
        }
    } else if op == Op::Or {
        if is_bool(r, false) {
            Some(l)
        } else if is_bool(r, true) || is_bool(l, true) {
            Some(SExpr::Bool(true))
        } else if is_bool(l, false) {
            Some(r)
        } else {
            None
        }
    } else if op == Op::EqEq {
        if is_bool(r, true) {
            Some(l)
        } else if is_bool(r, false) {
            Some(SExpr::Not(Box::new(l)))
        } else if is_bool(l, true) {
            Some(r)
        } else if is_bool(l, false) {
            Some(SExpr::Not(Box::new(r)))
        } else {
            None
        }
    } else if op == Op::NotEq {
        if is_bool(r, true) {
            Some(SExpr::Not(Box::new(l)))
        } else if is_bool(r, false) {
            Some(l)
        } else if is_bool(l, true) {
            Some(SExpr::Not(Box::new(r)))
        } else if is_bool(l, false) {
            Some(r)
        } else {
            None
        }
    } else {
        None
    }
}

/// One folding step at a binary node whose operands are already folded.
pub open spec fn fold_binop_spec(l: SExpr, op: Op, r: SExpr) -> FoldRes {
    if (op == Op::Div || op == Op::Mod) && is_int(r, 0) {
        Err(OptimizeError::DivisionByZero)
    } else if const_fold(l, op, r) is Some {
        Ok((const_fold(l, op, r)->0, one_fold()))
    } else if reduce(l, op, r) is Some {
        Ok((reduce(l, op, r)->0, one_reduction()))
    } else {
        Ok((SExpr::BinOp(Box::new(l), op, Box::new(r)), zero_counts()))
    }
}

/// Folds a sequence of expressions left to right.
pub open spec fn fold_seq(s: Seq<SExpr>) -> Result<(Seq<SExpr>, Counts), OptimizeError>
    decreases s,
{
    if s.len() == 0 {
        Ok((Seq::empty(), zero_counts()))
    } else {
        match fold_seq(s.drop_last()) {
            Err(x) => Err(x),
            Ok((init, c1)) => match fold_spec(s[s.len() - 1]) {
                Err(x) => Err(x),
                Ok((e, c2)) => Ok((init.push(e), add_counts(c1, c2))),
            },
        }
    }
}

/// Constant folding and strength reduction of `e`, bottom-up.
pub open spec fn fold_spec(e: SExpr) -> FoldRes
    decreases e,
{
    match e {
        SExpr::Not(x) => match fold_spec(*x) {
            Err(err) => Err(err),
            Ok((x2, c)) => match x2 {
                SExpr::Bool(b) => Ok((SExpr::Bool(!b), add_counts(c, one_fold()))),
                _ => Ok((SExpr::Not(Box::new(x2)), c)),
            },
        },
        SExpr::BinOp(l, op, r) => match fold_spec(*l) {
            Err(err) => Err(err),
            Ok((l2, c1)) => match fold_spec(*r) {
                Err(err) => Err(err),
                Ok((r2, c2)) => match fold_binop_spec(l2, op, r2) {
                    Err(err) => Err(err),
                    Ok((e2, c3)) => Ok((e2, add_counts(add_counts(c1, c2), c3))),
                },
            },
        },
        SExpr::Draw(x, y, s) => match fold_spec(*x) {
            Err(err) => Err(err),
            Ok((x2, c1)) => match fold_spec(*y) {
                Err(err) => Err(err),
                Ok((y2, c2)) => Ok((SExpr::Draw(Box::new(x2), Box::new(y2), s), add_counts(c1, c2))),
            },
        },
        SExpr::DrawDigit(x, y, n) => match fold_spec(*x) {
            Err(err) => Err(err),
            Ok((x2, c1)) => match fold_spec(*y) {
                Err(err) => Err(err),
                Ok((y2, c2)) => match fold_spec(*n) {
                    Err(err) => Err(err),
                    Ok((n2, c3)) => Ok(
                        (
                            SExpr::DrawDigit(Box::new(x2), Box::new(y2), Box::new(n2)),
                            add_counts(add_counts(c1, c2), c3),
                        ),
                    ),
                },
            },
        },
        SExpr::KeyPressed(k) => match fold_spec(*k) {
            Err(err) => Err(err),
            Ok((k2, c)) => Ok((SExpr::KeyPressed(Box::new(k2)), c)),
        },
        SExpr::Rand(m) => match fold_spec(*m) {
            Err(err) => Err(err),
            Ok((m2, c)) => Ok((SExpr::Rand(Box::new(m2)), c)),
        },
        SExpr::Call(name, args) => match fold_seq(args) {
            Err(err) => Err(err),
            Ok((args2, c)) => Ok((SExpr::Call(name, args2), c)),
        },
        _ => Ok((e, zero_counts())),
    }
}

/// `x + n`, held at `usize::MAX` once it would pass it.
pub open spec fn sat(x: usize, n: nat) -> usize {
    if x + n > usize::MAX {
        usize::MAX
    } else {
        (x + n) as usize
    }
}

/// The counters of `after` are those of `before` advanced by `c`.
pub open spec fn advanced(before: Optimizer, after: Optimizer, c: Counts) -> bool {
    &&& after.folds == sat(before.folds, c.folds)
    &&& after.dce == sat(before.dce, c.dce)
    &&& after.reductions == sat(before.reductions, c.reductions)
}

pub proof fn lemma_sat_add(x: usize, a: nat, b: nat)
    ensures
        sat(sat(x, a), b) == sat(x, a + b),
{
}

pub proof fn lemma_advanced_trans(o1: Optimizer, o2: Optimizer, o3: Optimizer, c1: Counts, c2: Counts)
    requires
        advanced(o1, o2, c1),
        advanced(o2, o3, c2),
    ensures
        advanced(o1, o3, add_counts(c1, c2)),
{
    lemma_sat_add(o1.folds, c1.folds, c2.folds);
    lemma_sat_add(o1.dce, c1.dce, c2.dce);
    lemma_sat_add(o1.reductions, c1.reductions, c2.reductions);
}

/// The optimizer: rewrites a program in place and counts what it did.
/// Each counter stops at `usize::MAX`.
pub struct Optimizer {
    /// Constant folds performed.
    pub folds: usize,
    /// Dead branches and statements eliminated.
    pub dce: usize,
    /// Strength reductions performed.
    pub reductions: usize,
}

/// What a fallible rewrite of an expression gives back, against its model.
pub open spec fn expr_outcome(
    spec_res: FoldRes,
    r: Result<Expr, OptimizeError>,
    before: Optimizer,
    after: Optimizer,
) -> bool {
    match spec_res {
        Ok((e, c)) => r is Ok && view_expr(r->Ok_0) == e && advanced(before, after, c),
        Err(x) => r == Err::<Expr, OptimizeError>(x),
    }
}

impl Optimizer {
    pub fn new() -> (o: Optimizer)
        ensures
            o.folds == 0,
            o.dce == 0,
            o.reductions == 0,
    {
        Optimizer { folds: 0, dce: 0, reductions: 0 }
    }

    fn count_fold(&mut self)
        ensures
            advanced(*old(self), *final(self), one_fold()),
    {
        if self.folds < usize::MAX {
            self.folds = self.folds + 1;
        }
    }

    fn count_reduction(&mut self)
        ensures
            advanced(*old(self), *final(self), one_reduction()),
    {
        if self.reductions < usize::MAX {
            self.reductions = self.reductions + 1;
        }
    }

    fn count_dce(&mut self, n: usize)
        ensures
            advanced(*old(self), *final(self), dce_count(n as nat)),
    {
        if self.dce > usize::MAX - n {
            self.dce = usize::MAX;
        } else {
            self.dce = self.dce + n;
        }
    }

    fn folded(&mut self, e: Expr) -> (r: Result<Expr, OptimizeError>)
        ensures
            r == Ok::<Expr, OptimizeError>(e),
            advanced(*old(self), *final(self), one_fold()),
    {
        self.count_fold();
        Ok(e)
    }

    fn reduced(&mut self, e: Expr) -> (r: Result<Expr, OptimizeError>)
        ensures
            r == Ok::<Expr, OptimizeError>(e),
            advanced(*old(self), *final(self), one_reduction()),
    {
        self.count_reduction();
        Ok(e)
    }

    /// Constant folding of two integer literals.
    fn fold_ints(a: u8, op: Op, b: u8) -> (r: Expr)
        requires
            eval_int_op(a, op, b) is Some,
            (op == Op::Div || op == Op::Mod) ==> b != 0,
        ensures
            view_expr(r) == eval_int_op(a, op, b)->0,
    {
        match op {
            Op::Add => Expr::Int(((a as u16 + b as u16) % 256) as u8),
            Op::Sub => {
                let r: u16 = (a as u16 + 256 - b as u16) % 256;
                assert((a + 256 - b) % 256 == (a - b) % 256) by {
                    vstd::arithmetic::div_mod::lemma_mod_add_multiples_vanish(a - b, 256);
                }
                Expr::Int(r as u8)
            },
            Op::Mul => {
                assert(a as u16 * b as u16 <= 65025) by (nonlinear_arith);
                Expr::Int(((a as u16 * b as u16) % 256) as u8)
            },
            Op::Div => Expr::Int(a / b),
            Op::Mod => Expr::Int(a % b),
            Op::EqEq => Expr::Bool(a == b),
            Op::NotEq => Expr::Bool(a != b),
            Op::Lt => Expr::Bool(a < b),
            Op::Gt => Expr::Bool(a > b),
            Op::LtEq => Expr::Bool(a <= b),
            Op::GtEq => Expr::Bool(a >= b),
            _ => Expr::Bool(false),
        }
    }

    /// One folding step at `left op right`, both already folded: a division
    /// by the literal zero is refused, two literals are evaluated, a known
    /// constant on one side reduces the operation, anything else is kept.
    fn fold_binop(&mut self, left: Expr, op: Op, right: Expr) -> (r: Result<Expr, OptimizeError>)
        ensures
            expr_outcome(fold_binop_spec(view_expr(left), op, view_expr(right)), r, *old(self), *final(self)),
    {
        let ghost l = view_expr(left);
        let ghost rr = view_expr(right);
        let li: Option<u8> = match &left { Expr::Int(n) => Some(*n), _ => None };
        let ri: Option<u8> = match &right { Expr::Int(n) => Some(*n), _ => None };
        let lb: Option<bool> = match &left { Expr::Bool(b) => Some(*b), _ => None };
        let rb: Option<bool> = match &right { Expr::Bool(b) => Some(*b), _ => None };
        assert(forall|n: u8| is_int(l, n) <==> li == Some(n));
        assert(forall|n: u8| is_int(rr, n) <==> ri == Some(n));
        assert(forall|b: bool| is_bool(l, b) <==> lb == Some(b));
        assert(forall|b: bool| is_bool(rr, b) <==> rb == Some(b));
        if (op == Op::Div || op == Op::Mod) && ri == Some(0u8) {
            return Err(OptimizeError::DivisionByZero);
        }
        // Both operands literal: evaluate.
        match (li, ri) {
            (Some(a), Some(b)) => {
                if op != Op::And && op != Op::Or {
                    let v = Self::fold_ints(a, op, b);
                    return self.folded(v);
                }
            },
            _ => {},
        }
        match (lb, rb) {
            (Some(a), Some(b)) => {
                match op {
                    Op::EqEq => { return self.folded(Expr::Bool(a == b)); },
                    Op::NotEq => { return self.folded(Expr::Bool(a != b)); },
                    Op::And => { return self.folded(Expr::Bool(a && b)); },
                    Op::Or => { return self.folded(Expr::Bool(a || b)); },
                    _ => {},
                }
            },
            _ => {},
        }
        assert(const_fold(l, op, rr) is None);
        // x + 0, x - 0, 0 + x
        if (op == Op::Add || op == Op::Sub) && ri == Some(0u8) {
            return self.reduced(left);
        }
        if op == Op::Add && li == Some(0u8) {
            return self.reduced(right);
        }
        if op == Op::Mul {
            if ri == Some(0u8) || li == Some(0u8) {
                return self.reduced(Expr::Int(0));
            }
            if ri == Some(1u8) {
                return self.reduced(left);
            }
            if li == Some(1u8) {
                return self.reduced(right);
            }
        }
        if op == Op::Div && ri == Some(1u8) {
            return self.reduced(left);
        }
        if op == Op::Mod && ri == Some(1u8) {
            return self.reduced(Expr::Int(0));
        }
        // x * 2 becomes x + x: no multiplication loop at run time.
        if op == Op::Mul && ri == Some(2u8) {
            let copy = clone_expr(&left);
            return self.reduced(Expr::BinOp(Box::new(left), Op::Add, Box::new(copy)));
        }
        if op == Op::Mul && li == Some(2u8) {
            let copy = clone_expr(&right);
            return self.reduced(Expr::BinOp(Box::new(right), Op::Add, Box::new(copy)));
        }
        if op == Op::And {
            if rb == Some(true) {
                return self.reduced(left);
            }
            if rb == Some(false) || lb == Some(false) {
                return self.reduced(Expr::Bool(false));
            }
            if lb == Some(true) {
                return self.reduced(right);
            }
        }
        if op == Op::Or {
            if rb == Some(false) {
                return self.reduced(left);
            }
            if rb == Some(true) || lb == Some(true) {
                return self.reduced(Expr::Bool(true));
            }
            if lb == Some(false) {
                return self.reduced(right);
            }
        }
        if op == Op::EqEq {
            if rb == Some(true) {
                return self.reduced(left);
            }
            if rb == Some(false) {
                return self.reduced(Expr::Not(Box::new(left)));
            }
            if lb == Some(true) {
                return self.reduced(right);
            }
            if lb == Some(false) {
                return self.reduced(Expr::Not(Box::new(right)));
            }
        }
        if op == Op::NotEq {
            if rb == Some(true) {
                return self.reduced(Expr::Not(Box::new(left)));
            }
            if rb == Some(false) {
                return self.reduced(left);
            }
            if lb == Some(true) {
                return self.reduced(Expr::Not(Box::new(right)));
            }
            if lb == Some(false) {
                return self.reduced(right);
            }
        }
        assert(reduce(l, op, rr) is None);
        Ok(Expr::BinOp(Box::new(left), op, Box::new(right)))
    }
}

impl Optimizer {
    /// Constant folding and strength reduction of `expr`, bottom-up.  A
    /// division or remainder by a zero literal (also one that folding
    /// produced) is an error.
    pub fn fold_expr(&mut self, expr: Expr) -> (r: Result<Expr, OptimizeError>)
        ensures
            expr_outcome(fold_spec(view_expr(expr)), r, *old(self), *final(self)),
        decreases expr,
    {
        let ghost e0 = view_expr(expr);
        match expr {
            Expr::Not(inner) => {
                let ghost s0 = *self;
                let ghost ci = fold_spec(view_expr(*inner))->Ok_0.1;
                match self.fold_expr(*inner) {
                    Err(x) => Err(x),
                    Ok(v) => match v {
                        Expr::Bool(b) => {
                            let ghost s1 = *self;
                            let r = self.folded(Expr::Bool(!b));
                            proof {
                                lemma_advanced_trans(s0, s1, *self, ci, one_fold());
                            }
                            r
                        },
                        other => Ok(Expr::Not(Box::new(other))),
                    },
                }
            },
            Expr::BinOp(l, op, rt) => {
                let ghost s0 = *self;
                match self.fold_expr(*l) {
                    Err(x) => Err(x),
                    Ok(l2) => {
                        let ghost s1 = *self;
                        match self.fold_expr(*rt) {
                            Err(x) => Err(x),
                            Ok(r2) => {
                                let ghost s2 = *self;
                                let res = self.fold_binop(l2, op, r2);
                                proof {
                                    let lc = fold_spec(view_expr(*l))->Ok_0.1;
                                    let rc = fold_spec(view_expr(*rt))->Ok_0.1;
                                    if res is Ok {
                                        let bc = fold_binop_spec(view_expr(l2), op, view_expr(r2))->Ok_0.1;
                                        lemma_advanced_trans(s0, s1, s2, lc, rc);
                                        lemma_advanced_trans(s0, s2, *self, add_counts(lc, rc), bc);
                                    }
                                }
                                res
                            },
                        }
                    },
                }
            },
            Expr::Draw(x, y, s) => {
                let ghost s0 = *self;
                match self.fold_expr(*x) {
                    Err(err) => Err(err),
                    Ok(x2) => {
                        let ghost s1 = *self;
                        match self.fold_expr(*y) {
                            Err(err) => Err(err),
                            Ok(y2) => {
                                proof {
                                    lemma_advanced_trans(
                                        s0,
                                        s1,
                                        *self,
                                        fold_spec(view_expr(*x))->Ok_0.1,
                                        fold_spec(view_expr(*y))->Ok_0.1,
                                    );
                                }
                                Ok(Expr::Draw(Box::new(x2), Box::new(y2), s))
                            },
                        }
                    },
                }
            },
            Expr::DrawDigit(x, y, n) => {
                let ghost s0 = *self;
                match self.fold_expr(*x) {
                    Err(err) => Err(err),
                    Ok(x2) => {
                        let ghost s1 = *self;
                        match self.fold_expr(*y) {
                            Err(err) => Err(err),
                            Ok(y2) => {
                                let ghost s2 = *self;
                                match self.fold_expr(*n) {
                                    Err(err) => Err(err),
                                    Ok(n2) => {
                                        proof {
                                            let cx = fold_spec(view_expr(*x))->Ok_0.1;
                                            let cy = fold_spec(view_expr(*y))->Ok_0.1;
                                            let cn = fold_spec(view_expr(*n))->Ok_0.1;
                                            lemma_advanced_trans(s0, s1, s2, cx, cy);
                                            lemma_advanced_trans(s0, s2, *self, add_counts(cx, cy), cn);
                                        }
                                        Ok(Expr::DrawDigit(Box::new(x2), Box::new(y2), Box::new(n2)))
                                    },
                                }
                            },
                        }
                    },
                }
            },
            Expr::KeyPressed(k) => match self.fold_expr(*k) {
                Err(err) => Err(err),
                Ok(k2) => Ok(Expr::KeyPressed(Box::new(k2))),
            },
            Expr::Rand(m) => match self.fold_expr(*m) {
                Err(err) => Err(err),
                Ok(m2) => Ok(Expr::Rand(Box::new(m2))),
            },
            Expr::Call(name, args) => match self.fold_args(args) {
                Err(err) => Err(err),
                Ok(args2) => Ok(Expr::Call(name, args2)),
            },
            other => Ok(other),
        }
    }

    /// Folds each argument of a call, left to right.
    #[verifier::loop_isolation(false)]
    fn fold_args(&mut self, args: Vec<Expr>) -> (r: Result<Vec<Expr>, OptimizeError>)
        ensures
            match fold_seq(view_exprs(args@)) {
                Ok((s, c)) => r is Ok && view_exprs(r->Ok_0@) == s && advanced(*old(self), *final(self), c),
                Err(x) => r == Err::<Vec<Expr>, OptimizeError>(x),
            },
        decreases args,
    {
        let ghost a0 = args;
        let ghost orig = view_exprs(args@);
        let ghost start = *self;
        let ghost mut c = zero_counts();
        let mut rest = args;
        let mut out: Vec<Expr> = Vec::new();
        assert(orig.take(0) =~= Seq::<SExpr>::empty());
        assert(view_exprs(out@) =~= Seq::<SExpr>::empty());
        while rest.len() > 0
            invariant
                orig == view_exprs(a0@),
                orig.len() == out@.len() + rest@.len(),
                rest@ == a0@.skip(out@.len() as int),
                fold_seq(orig.take(out@.len() as int)) == Ok::<(Seq<SExpr>, Counts), OptimizeError>((view_exprs(out@), c)),
                advanced(start, *self, c),
            decreases rest.len(),
        {
            let ghost k = out@.len() as int;
            let e = rest.remove(0);
            assert(e == a0@[k]);
            assert(decreases_to!(a0 => a0@[k]));
            let ghost s1 = *self;
            assert(orig.take(k + 1).drop_last() == orig.take(k));
            assert(orig.take(k + 1)[k] == view_expr(e));
            match self.fold_expr(e) {
                Err(x) => {
                    proof { lemma_fold_seq_err_prefix(orig, k + 1); }
                    return Err(x);
                },
                Ok(e2) => {
                    proof {
                        lemma_advanced_trans(start, s1, *self, c, fold_spec(orig[k])->Ok_0.1);
                        c = add_counts(c, fold_spec(orig[k])->Ok_0.1);
                    }
                    let ghost before = out@;
                    out.push(e2);
                    assert(view_exprs(out@) =~= view_exprs(before).push(view_expr(out@[k])));
                    assert(rest@ == a0@.skip(out@.len() as int));
                },
            }
        }
        assert(orig.take(out@.len() as int) == orig);
        Ok(out)
    }
}

/// An error in a prefix of the list is the error of the whole list.
pub proof fn lemma_fold_seq_err_prefix(s: Seq<SExpr>, k: int)
    requires
        0 <= k <= s.len(),
        fold_seq(s.take(k)) is Err,
    ensures
        fold_seq(s) == fold_seq(s.take(k)),
    decreases s.len() - k,
{
    if k < s.len() {
        assert(s.take(k + 1).drop_last() == s.take(k));
        lemma_fold_seq_err_prefix(s, k + 1);
    } else {
        assert(s.take(k) == s);
    }
}

pub type StmtRes = Result<(SStmt, Counts), OptimizeError>;

pub type BlockRes = Result<(Seq<SStmt>, Counts), OptimizeError>;

pub type ElifsRes = Result<(Seq<SElseIf>, Counts), OptimizeError>;

/// Each statement of `b` rewritten in place, left to right; none removed.
pub open spec fn opt_stmts(b: Seq<SStmt>) -> BlockRes
    decreases b, 0int,
{
    if b.len() == 0 {
        Ok((Seq::empty(), zero_counts()))
    } else {
        match opt_stmts(b.drop_last()) {
            Err(x) => Err(x),
            Ok((init, c1)) => match opt_stmt(b[b.len() - 1]) {
                Err(x) => Err(x),
                Ok((s, c2)) => Ok((init.push(s), add_counts(c1, c2))),
            },
        }
    }
}

/// A block: its statements rewritten, then the dead ones pruned.
pub open spec fn opt_block(b: Seq<SStmt>) -> BlockRes
    decreases b, 1int,
{
    match opt_stmts(b) {
        Err(x) => Err(x),
        Ok((b1, c1)) => Ok((dce_block(b1).0, add_counts(c1, dce_count(dce_block(b1).1)))),
    }
}

/// The conditions and bodies of an `elif` list, left to right.
pub open spec fn opt_elifs(elifs: Seq<SElseIf>) -> ElifsRes
    decreases elifs, 0int,
{
    if elifs.len() == 0 {
        Ok((Seq::empty(), zero_counts()))
    } else {
        match opt_elifs(elifs.drop_last()) {
            Err(x) => Err(x),
            Ok((init, c1)) => {
                let e = elifs[elifs.len() - 1];
                match fold_spec(e.condition) {
                    Err(x) => Err(x),
                    Ok((cond, c2)) => match opt_block(e.body) {
                        Err(x) => Err(x),
                        Ok((body, c3)) => Ok(
                            (
                                init.push(SElseIf { condition: cond, body }),
                                add_counts(add_counts(c1, c2), c3),
                            ),
                        ),
                    },
                }
            },
        }
    }
}

/// One statement rewritten in place: its expressions folded and its
/// blocks optimized.
pub open spec fn opt_stmt(s: SStmt) -> StmtRes
    decreases s, 0int,
{
    match s {
        SStmt::Assign(n, e) => match fold_spec(e) {
            Err(x) => Err(x),
            Ok((e2, c)) => Ok((SStmt::Assign(n, e2), c)),
        },
        SStmt::If(cond, body, elifs, els) => match fold_spec(cond) {
            Err(x) => Err(x),
            Ok((c2, k1)) => match opt_block(body) {
                Err(x) => Err(x),
                Ok((b2, k2)) => match opt_elifs(elifs) {
                    Err(x) => Err(x),
                    Ok((e2, k3)) => match els {
                        None => Ok(
                            (SStmt::If(c2, b2, e2, None), add_counts(add_counts(k1, k2), k3)),
                        ),
                        Some(eb) => match opt_block(eb) {
                            Err(x) => Err(x),
                            Ok((eb2, k4)) => Ok(
                                (
                                    SStmt::If(c2, b2, e2, Some(eb2)),
                                    add_counts(add_counts(add_counts(k1, k2), k3), k4),
                                ),
                            ),
                        },
                    },
                },
            },
        },
        SStmt::Loop(body) => match opt_block(body) {
            Err(x) => Err(x),
            Ok((b2, c)) => Ok((SStmt::Loop(b2), c)),
        },
        SStmt::While(cond, body) => match fold_spec(cond) {
            Err(x) => Err(x),
            Ok((c2, k1)) => match opt_block(body) {
                Err(x) => Err(x),
                Ok((b2, k2)) => Ok((SStmt::While(c2, b2), add_counts(k1, k2))),
            },
        },
        SStmt::Call(n, args) => match fold_seq(args) {
            Err(x) => Err(x),
            Ok((a2, c)) => Ok((SStmt::Call(n, a2), c)),
        },
        SStmt::Delay(e) => match fold_spec(e) {
            Err(x) => Err(x),
            Ok((e2, c)) => Ok((SStmt::Delay(e2), c)),
        },
        SStmt::Beep(e) => match fold_spec(e) {
            Err(x) => Err(x),
            Ok((e2, c)) => Ok((SStmt::Beep(e2), c)),
        },
        SStmt::Clear => Ok((SStmt::Clear, zero_counts())),
    }
}

/// Pruning of an `elif` list from position `i` on: a branch whose
/// condition is `false` is dropped, the first whose condition is `true`
/// becomes the `else` and ends the list.  Gives the surviving branches,
/// the `else` and how many branches were dropped.
pub open spec fn elif_chain(elifs: Seq<SElseIf>, i: int, els: Option<Seq<SStmt>>) -> (
    Seq<SElseIf>,
    Option<Seq<SStmt>>,
    nat,
)
    decreases elifs.len() - i,
{
    if i < 0 || i >= elifs.len() {
        (Seq::empty(), els, 0)
    } else {
        let e = elifs[i];
        if e.condition == SExpr::Bool(false) {
            let rest = elif_chain(elifs, i + 1, els);
            (rest.0, rest.1, rest.2 + 1)
        } else if e.condition == SExpr::Bool(true) {
            (
                Seq::empty(),
                Some(e.body),
                ((elifs.len() - i - 1) + if els is Some {
                    1int
                } else {
                    0int
                }) as nat,
            )
        } else {
            let rest = elif_chain(elifs, i + 1, els);
            (seq![e] + rest.0, rest.1, rest.2)
        }
    }
}

/// Dead code elimination at one statement: the statement that stays, if
/// any, and how many pieces were eliminated.
pub open spec fn dce_stmt(s: SStmt) -> (Option<SStmt>, nat) {
    match s {
        SStmt::If(c, body, elifs, els) => {
            let chain = elif_chain(elifs, 0, els);
            if c == SExpr::Bool(true) {
                (
                    Some(SStmt::If(c, body, Seq::empty(), None)),
                    chain.2 + chain.0.len() + if chain.1 is Some {
                        1nat
                    } else {
                        0nat
                    },
                )
            } else if c == SExpr::Bool(false) {
                (
                    if chain.0.len() > 0 {
                        Some(SStmt::If(chain.0[0].condition, chain.0[0].body, chain.0.drop_first(), chain.1))
                    } else {
                        match chain.1 {
                            Some(b) => Some(SStmt::If(SExpr::Bool(true), b, Seq::empty(), None)),
                            None => None,
                        }
                    },
                    chain.2 + 1,
                )
            } else {
                (Some(SStmt::If(c, body, chain.0, chain.1)), chain.2)
            }
        },
        SStmt::While(c, body) => {
            if c == SExpr::Bool(false) {
                (None, 1)
            } else if c == SExpr::Bool(true) {
                (Some(SStmt::Loop(body)), 1)
            } else {
                (Some(s), 0)
            }
        },
        _ => (Some(s), 0),
    }
}

/// Dead code elimination over a block; a removed statement counts once more.
pub open spec fn dce_block(b: Seq<SStmt>) -> (Seq<SStmt>, nat)
    decreases b.len(),
{
    if b.len() == 0 {
        (Seq::empty(), 0)
    } else {
        let init = dce_block(b.drop_last());
        match dce_stmt(b[b.len() - 1]) {
            (Some(s), n) => (init.0.push(s), init.1 + n),
            (None, n) => (init.0, init.1 + n + 1),
        }
    }
}

pub open spec fn view_opt_block(o: Option<Vec<Stmt>>) -> Option<Seq<SStmt>> {
    match o {
        Some(b) => Some(view_stmts(b@)),
        None => None,
    }
}

pub open spec fn view_opt_stmt(o: Option<Stmt>) -> Option<SStmt> {
    match o {
        Some(s) => Some(view_stmt(s)),
        None => None,
    }
}

proof fn lemma_view_elseifs_push(s: Seq<ElseIf>, e: ElseIf)
    ensures
        view_elseifs(s.push(e)) == view_elseifs(s).push(crate::ast::view_elseif(e)),
{
    assert(view_elseifs(s.push(e)) =~= view_elseifs(s).push(crate::ast::view_elseif(e)));
}

proof fn lemma_view_stmts_push(s: Seq<Stmt>, e: Stmt)
    ensures
        view_stmts(s.push(e)) == view_stmts(s).push(view_stmt(e)),
{
    assert(view_stmts(s.push(e)) =~= view_stmts(s).push(view_stmt(e)));
}

impl Optimizer {
    /// Pruning of an `elif` list and its `else`; see `elif_chain`.
    #[verifier::loop_isolation(false)]
    fn dce_elif_chain(&mut self, elseifs: Vec<ElseIf>, else_body: Option<Vec<Stmt>>) -> (r: (
        Vec<ElseIf>,
        Option<Vec<Stmt>>,
    ))
        ensures
            ({
                let ch = elif_chain(view_elseifs(elseifs@), 0, view_opt_block(else_body));
                &&& view_elseifs(r.0@) == ch.0
                &&& view_opt_block(r.1) == ch.1
                &&& advanced(*old(self), *final(self), dce_count(ch.2))
            }),
    {
        let ghost orig = view_elseifs(elseifs@);
        let ghost els = view_opt_block(else_body);
        let ghost a0 = elseifs@;
        let ghost start = *self;
        let ghost mut dropped: nat = 0;
        let total = elseifs.len();
        let mut rest = elseifs;
        let mut surviving: Vec<ElseIf> = Vec::new();
        let mut k: usize = 0;
        assert(view_elseifs(surviving@) + elif_chain(orig, 0, els).0 =~= elif_chain(orig, 0, els).0);
        while rest.len() > 0
            invariant
                orig.len() == k + rest@.len(),
                rest@ == a0.skip(k as int),
                elif_chain(orig, 0, els).0 == view_elseifs(surviving@) + elif_chain(orig, k as int, els).0,
                elif_chain(orig, 0, els).1 == elif_chain(orig, k as int, els).1,
                elif_chain(orig, 0, els).2 == dropped + elif_chain(orig, k as int, els).2,
                advanced(start, *self, dce_count(dropped)),
            decreases rest.len(),
        {
            let e = rest.remove(0);
            assert(crate::ast::view_elseif(e) == orig[k as int]);
            let is_false = match &e.condition { Expr::Bool(b) => !*b, _ => false };
            let is_true = match &e.condition { Expr::Bool(b) => *b, _ => false };
            if is_false {
                let ghost s1 = *self;
                self.count_dce(1);
                proof {
                    lemma_advanced_trans(start, s1, *self, dce_count(dropped), dce_count(1));
                    dropped = dropped + 1;
                }
                k = k + 1;
            } else if is_true {
                let n = rest.len() + if else_body.is_some() { 1 } else { 0 };
                let ghost s1 = *self;
                self.count_dce(n);
                proof {
                    lemma_advanced_trans(start, s1, *self, dce_count(dropped), dce_count(n as nat));
                }
                assert(view_elseifs(surviving@) + Seq::<SElseIf>::empty() =~= view_elseifs(surviving@));
                return (surviving, Some(e.body));
            } else {
                let ghost before = surviving@;
                surviving.push(e);
                proof {
                    lemma_view_elseifs_push(before, e);
                    assert(view_elseifs(surviving@) + elif_chain(orig, k + 1, els).0 =~= view_elseifs(before)
                        + elif_chain(orig, k as int, els).0);
                }
                k = k + 1;
            }
        }
        assert(view_elseifs(surviving@) + elif_chain(orig, k as int, els).0 =~= view_elseifs(surviving@));
        (surviving, else_body)
    }

    /// Dead code elimination at one statement; see `dce_stmt`.
    fn dce_stmt(&mut self, s: Stmt) -> (r: Option<Stmt>)
        ensures
            view_opt_stmt(r) == dce_stmt(view_stmt(s)).0,
            advanced(*old(self), *final(self), dce_count(dce_stmt(view_stmt(s)).1)),
    {
        let ghost sv = view_stmt(s);
        match s {
            Stmt::If(cond, body, elseifs, else_body) => {
                let ghost s0 = *self;
                let (surviving, promoted) = self.dce_elif_chain(elseifs, else_body);
                let ghost s1 = *self;
                let ghost ch = elif_chain(view_elseifs(elseifs@), 0, view_opt_block(else_body));
                let is_false = match &cond { Expr::Bool(b) => !*b, _ => false };
                let is_true = match &cond { Expr::Bool(b) => *b, _ => false };
                if is_true {
                    self.count_dce(surviving.len());
                    let ghost s2 = *self;
                    self.count_dce(if promoted.is_some() { 1 } else { 0 });
                    let ev: Vec<ElseIf> = Vec::new();
                    proof {
                        lemma_advanced_trans(s0, s1, s2, dce_count(ch.2), dce_count(surviving@.len() as nat));
                        lemma_advanced_trans(s0, s2, *self, add_counts(dce_count(ch.2), dce_count(surviving@.len() as nat)),
                            dce_count(if promoted is Some { 1nat } else { 0nat }));
                        assert(view_elseifs(ev@) =~= Seq::<SElseIf>::empty());
                    }
                    Some(Stmt::If(cond, body, ev, None))
                } else if is_false {
                    self.count_dce(1);
                    proof {
                        lemma_advanced_trans(s0, s1, *self, dce_count(ch.2), dce_count(1));
                    }
                    if surviving.len() > 0 {
                        let mut rest = surviving;
                        let first = rest.remove(0);
                        proof {
                            assert(view_elseifs(rest@) =~= ch.0.drop_first());
                        }
                        return Some(Stmt::If(first.condition, first.body, rest, promoted));
                    }
                    match promoted {
                        Some(b) => {
                            let ev: Vec<ElseIf> = Vec::new();
                            proof {
                                assert(view_elseifs(ev@) =~= Seq::<SElseIf>::empty());
                            }
                            Some(Stmt::If(Expr::Bool(true), b, ev, None))
                        },
                        None => None,
                    }
                } else {
                    Some(Stmt::If(cond, body, surviving, promoted))
                }
            },
            Stmt::While(cond, body) => {
                let is_false = match &cond { Expr::Bool(b) => !*b, _ => false };
                let is_true = match &cond { Expr::Bool(b) => *b, _ => false };
                if is_false {
                    self.count_dce(1);
                    None
                } else if is_true {
                    self.count_dce(1);
                    Some(Stmt::Loop(body))
                } else {
                    Some(Stmt::While(cond, body))
                }
            },
            other => {
                proof {
                    assert(advanced(*self, *self, dce_count(0)));
                }
                Some(other)
            },
        }
    }

    /// Dead code elimination over a block; see `dce_block`.
    fn dce_block(&mut self, b: Vec<Stmt>) -> (r: Vec<Stmt>)
        ensures
            view_stmts(r@) == dce_block(view_stmts(b@)).0,
            advanced(*old(self), *final(self), dce_count(dce_block(view_stmts(b@)).1)),
    {
        let ghost orig = view_stmts(b@);
        let ghost a0 = b@;
        let ghost start = *self;
        let total = b.len();
        let mut rest = b;
        let mut out: Vec<Stmt> = Vec::new();
        let mut k: usize = 0;
        assert(orig.take(0) =~= Seq::<SStmt>::empty());
        assert(view_stmts(out@) =~= Seq::<SStmt>::empty());
        while rest.len() > 0
            invariant
                orig == view_stmts(a0),
                orig.len() == k + rest@.len(),
                orig.len() == total,
                rest@ == a0.skip(k as int),
                dce_block(orig.take(k as int)).0 == view_stmts(out@),
                advanced(start, *self, dce_count(dce_block(orig.take(k as int)).1)),
            decreases rest.len(),
        {
            let s = rest.remove(0);
            assert(view_stmt(s) == orig[k as int]);
            assert(orig.take(k + 1).drop_last() == orig.take(k as int));
            let ghost s1 = *self;
            let ghost d = dce_block(orig.take(k as int)).1;
            match self.dce_stmt(s) {
                Some(s2) => {
                    let ghost before = out@;
                    out.push(s2);
                    proof {
                        lemma_view_stmts_push(before, s2);
                        lemma_advanced_trans(start, s1, *self, dce_count(d), dce_count(dce_stmt(orig[k as int]).1));
                    }
                },
                None => {
                    let ghost s2 = *self;
                    self.count_dce(1);
                    proof {
                        lemma_advanced_trans(start, s1, s2, dce_count(d), dce_count(dce_stmt(orig[k as int]).1));
                        lemma_advanced_trans(start, s2, *self, add_counts(dce_count(d), dce_count(dce_stmt(orig[k as int]).1)), dce_count(1));
                    }
                },
            }
            k = k + 1;
        }
        assert(orig.take(k as int) == orig);
        out
    }
}

pub open spec fn stmt_outcome(
    spec_res: StmtRes,
    r: Result<Stmt, OptimizeError>,
    before: Optimizer,
    after: Optimizer,
) -> bool {
    match spec_res {
        Ok((s, c)) => r is Ok && view_stmt(r->Ok_0) == s && advanced(before, after, c),
        Err(x) => r == Err::<Stmt, OptimizeError>(x),
    }
}

pub open spec fn block_outcome(
    spec_res: BlockRes,
    r: Result<Vec<Stmt>, OptimizeError>,
    before: Optimizer,
    after: Optimizer,
) -> bool {
    match spec_res {
        Ok((b, c)) => r is Ok && view_stmts(r->Ok_0@) == b && advanced(before, after, c),
        Err(x) => r == Err::<Vec<Stmt>, OptimizeError>(x),
    }
}

pub open spec fn elifs_outcome(
    spec_res: ElifsRes,
    r: Result<Vec<ElseIf>, OptimizeError>,
    before: Optimizer,
    after: Optimizer,
) -> bool {
    match spec_res {
        Ok((b, c)) => r is Ok && view_elseifs(r->Ok_0@) == b && advanced(before, after, c),
        Err(x) => r == Err::<Vec<ElseIf>, OptimizeError>(x),
    }
}

proof fn lemma_opt_stmts_err_prefix(s: Seq<SStmt>, k: int)
    requires
        0 <= k <= s.len(),
        opt_stmts(s.take(k)) is Err,
    ensures
        opt_stmts(s) == opt_stmts(s.take(k)),
    decreases s.len() - k,
{
    if k < s.len() {
        assert(s.take(k + 1).drop_last() == s.take(k));
        lemma_opt_stmts_err_prefix(s, k + 1);
    } else {
        assert(s.take(k) == s);
    }
}

proof fn lemma_opt_elifs_err_prefix(s: Seq<SElseIf>, k: int)
    requires
        0 <= k <= s.len(),
        opt_elifs(s.take(k)) is Err,
    ensures
        opt_elifs(s) == opt_elifs(s.take(k)),
    decreases s.len() - k,
{
    if k < s.len() {
        assert(s.take(k + 1).drop_last() == s.take(k));
        lemma_opt_elifs_err_prefix(s, k + 1);
    } else {
        assert(s.take(k) == s);
    }
}

impl Optimizer {
    /// A block: each statement rewritten in place, then dead code pruned.
    #[verifier::loop_isolation(false)]
    fn optimize_block(&mut self, b: Vec<Stmt>) -> (r: Result<Vec<Stmt>, OptimizeError>)
        ensures
            block_outcome(opt_block(view_stmts(b@)), r, *old(self), *final(self)),
        decreases b,
    {
        let ghost a0 = b;
        let ghost orig = view_stmts(b@);
        let ghost start = *self;
        let ghost mut c = zero_counts();
        let total = b.len();
        let mut rest = b;
        let mut mid: Vec<Stmt> = Vec::new();
        assert(orig.take(0) =~= Seq::<SStmt>::empty());
        assert(view_stmts(mid@) =~= Seq::<SStmt>::empty());
        while rest.len() > 0
            invariant
                orig == view_stmts(a0@),
                orig.len() == mid@.len() + rest@.len(),
                orig.len() == total,
                rest@ == a0@.skip(mid@.len() as int),
                opt_stmts(orig.take(mid@.len() as int)) == Ok::<(Seq<SStmt>, Counts), OptimizeError>((view_stmts(mid@), c)),
                advanced(start, *self, c),
            decreases rest.len(),
        {
            let ghost k = mid@.len() as int;
            let s = rest.remove(0);
            assert(s == a0@[k]);
            assert(decreases_to!(a0 => a0@[k]));
            let ghost s1 = *self;
            assert(orig.take(k + 1).drop_last() == orig.take(k));
            assert(orig.take(k + 1)[k] == view_stmt(s));
            match self.optimize_stmt(s) {
                Err(x) => {
                    proof { lemma_opt_stmts_err_prefix(orig, k + 1); }
                    return Err(x);
                },
                Ok(s2) => {
                    proof {
                        lemma_advanced_trans(start, s1, *self, c, opt_stmt(orig[k])->Ok_0.1);
                        c = add_counts(c, opt_stmt(orig[k])->Ok_0.1);
                    }
                    let ghost before = mid@;
                    mid.push(s2);
                    proof { lemma_view_stmts_push(before, s2); }
                },
            }
        }
        assert(orig.take(mid@.len() as int) == orig);
        let ghost s2 = *self;
        let out = self.dce_block(mid);
        proof {
            lemma_advanced_trans(start, s2, *self, c, dce_count(dce_block(view_stmts(mid@)).1));
        }
        Ok(out)
    }

    /// The conditions and bodies of an `elif` list, left to right.
    #[verifier::loop_isolation(false)]
    fn optimize_elifs(&mut self, elifs: Vec<ElseIf>) -> (r: Result<Vec<ElseIf>, OptimizeError>)
        ensures
            elifs_outcome(opt_elifs(view_elseifs(elifs@)), r, *old(self), *final(self)),
        decreases elifs,
    {
        let ghost a0 = elifs;
        let ghost orig = view_elseifs(elifs@);
        let ghost start = *self;
        let ghost mut c = zero_counts();
        let total = elifs.len();
        let mut rest = elifs;
        let mut out: Vec<ElseIf> = Vec::new();
        assert(orig.take(0) =~= Seq::<SElseIf>::empty());
        assert(view_elseifs(out@) =~= Seq::<SElseIf>::empty());
        while rest.len() > 0
            invariant
                orig == view_elseifs(a0@),
                orig.len() == out@.len() + rest@.len(),
                orig.len() == total,
                rest@ == a0@.skip(out@.len() as int),
                opt_elifs(orig.take(out@.len() as int)) == Ok::<(Seq<SElseIf>, Counts), OptimizeError>((view_elseifs(out@), c)),
                advanced(start, *self, c),
            decreases rest.len(),
        {
            let ghost k = out@.len() as int;
            let e = rest.remove(0);
            assert(e == a0@[k]);
            assert(decreases_to!(a0 => a0@[k]));
            assert(decreases_to!(a0 => a0@[k].body));
            assert(orig.take(k + 1).drop_last() == orig.take(k));
            assert(orig.take(k + 1)[k] == crate::ast::view_elseif(e));
            let ghost s0 = *self;
            let ElseIf { condition, body } = e;
            match self.fold_expr(condition) {
                Err(x) => {
                    proof { lemma_opt_elifs_err_prefix(orig, k + 1); }
                    return Err(x);
                },
                Ok(cond2) => {
                    let ghost s1 = *self;
                    match self.optimize_block(body) {
                        Err(x) => {
                            proof { lemma_opt_elifs_err_prefix(orig, k + 1); }
                            return Err(x);
                        },
                        Ok(body2) => {
                            proof {
                                let c2 = fold_spec(orig[k].condition)->Ok_0.1;
                                let c3 = opt_block(orig[k].body)->Ok_0.1;
                                lemma_advanced_trans(start, s0, s1, c, c2);
                                lemma_advanced_trans(start, s1, *self, add_counts(c, c2), c3);
                                c = add_counts(add_counts(c, c2), c3);
                            }
                            let ghost before = out@;
                            let e2 = ElseIf { condition: cond2, body: body2 };
                            out.push(e2);
                            proof { lemma_view_elseifs_push(before, e2); }
                        },
                    }
                },
            }
        }
        assert(orig.take(out@.len() as int) == orig);
        Ok(out)
    }

    /// One statement rewritten in place: its expressions folded, its blocks
    /// optimized.
    #[verifier::rlimit(50)]
    #[verifier::spinoff_prover]
    fn optimize_stmt(&mut self, s: Stmt) -> (r: Result<Stmt, OptimizeError>)
        ensures
            stmt_outcome(opt_stmt(view_stmt(s)), r, *old(self), *final(self)),
        decreases s,
    {
        let ghost sv = view_stmt(s);
        let ghost s0 = *self;
        match s {
            Stmt::Assign(n, e) => match self.fold_expr(e) {
                Err(x) => Err(x),
                Ok(e2) => Ok(Stmt::Assign(n, e2)),
            },
            Stmt::If(cond, body, elifs, els) => {
                let ghost k1 = fold_spec(view_expr(cond))->Ok_0.1;
                let ghost k2 = opt_block(view_stmts(body@))->Ok_0.1;
                let ghost k3 = opt_elifs(view_elseifs(elifs@))->Ok_0.1;
                let c2 = match self.fold_expr(cond) {
                    Err(x) => { return Err(x); },
                    Ok(c2) => c2,
                };
                let ghost s1 = *self;
                let b2 = match self.optimize_block(body) {
                    Err(x) => { return Err(x); },
                    Ok(b2) => b2,
                };
                let ghost s2 = *self;
                let e2 = match self.optimize_elifs(elifs) {
                    Err(x) => { return Err(x); },
                    Ok(e2) => e2,
                };
                let ghost s3 = *self;
                proof {
                    lemma_advanced_trans(s0, s1, s2, k1, k2);
                    lemma_advanced_trans(s0, s2, s3, add_counts(k1, k2), k3);
                }
                match els {
                    None => Ok(Stmt::If(c2, b2, e2, None)),
                    Some(eb) => {
                        let ghost k4 = opt_block(view_stmts(eb@))->Ok_0.1;
                        match self.optimize_block(eb) {
                            Err(x) => Err(x),
                            Ok(eb2) => {
                                proof {
                                    lemma_advanced_trans(s0, s3, *self, add_counts(add_counts(k1, k2), k3), k4);
                                }
                                Ok(Stmt::If(c2, b2, e2, Some(eb2)))
                            },
                        }
                    },
                }
            },
            Stmt::Loop(body) => match self.optimize_block(body) {
                Err(x) => Err(x),
                Ok(b2) => Ok(Stmt::Loop(b2)),
            },
            Stmt::While(cond, body) => {
                let ghost k1 = fold_spec(view_expr(cond))->Ok_0.1;
                let ghost k2 = opt_block(view_stmts(body@))->Ok_0.1;
                let c2 = match self.fold_expr(cond) {
                    Err(x) => { return Err(x); },
                    Ok(c2) => c2,
                };
                let ghost s1 = *self;
                match self.optimize_block(body) {
                    Err(x) => Err(x),
                    Ok(b2) => {
                        proof { lemma_advanced_trans(s0, s1, *self, k1, k2); }
                        Ok(Stmt::While(c2, b2))
                    },
                }
            },
            Stmt::Call(n, args) => match self.fold_args(args) {
                Err(x) => Err(x),
                Ok(a2) => Ok(Stmt::Call(n, a2)),
            },
            Stmt::Delay(e) => match self.fold_expr(e) {
                Err(x) => Err(x),
                Ok(e2) => Ok(Stmt::Delay(e2)),
            },
            Stmt::Beep(e) => match self.fold_expr(e) {
                Err(x) => Err(x),
                Ok(e2) => Ok(Stmt::Beep(e2)),
            },
            Stmt::Clear => Ok(Stmt::Clear),
        }
    }
}

/// The initial values of the global variables, folded in order.
pub open spec fn opt_vars(vs: Seq<SVarDecl>) -> Result<(Seq<SVarDecl>, Counts), OptimizeError>
    decreases vs.len(),
{
    if vs.len() == 0 {
        Ok((Seq::empty(), zero_counts()))
    } else {
        match opt_vars(vs.drop_last()) {
            Err(x) => Err(x),
            Ok((init, c1)) => {
                let v = vs[vs.len() - 1];
                match fold_spec(v.value) {
                    Err(x) => Err(x),
                    Ok((e, c2)) => Ok((init.push(SVarDecl { name: v.name, value: e }), add_counts(c1, c2))),
                }
            },
        }
    }
}

/// The function bodies, optimized in order.
pub open spec fn opt_fns(fs: Seq<SFnDecl>) -> Result<(Seq<SFnDecl>, Counts), OptimizeError>
    decreases fs.len(),
{
    if fs.len() == 0 {
        Ok((Seq::empty(), zero_counts()))
    } else {
        match opt_fns(fs.drop_last()) {
            Err(x) => Err(x),
            Ok((init, c1)) => {
                let f = fs[fs.len() - 1];
                match opt_block(f.body) {
                    Err(x) => Err(x),
                    Ok((b, c2)) => Ok((init.push(SFnDecl { body: b, ..f }), add_counts(c1, c2))),
                }
            },
        }
    }
}

/// One pass over a program: variable initialisers, then function bodies,
/// then `main`.  Sprites are left alone.
pub open spec fn opt_program(p: SProgram) -> Result<(SProgram, Counts), OptimizeError> {
    match opt_vars(p.vars) {
        Err(x) => Err(x),
        Ok((vs, c1)) => match opt_fns(p.functions) {
            Err(x) => Err(x),
            Ok((fs, c2)) => match opt_block(p.main) {
                Err(x) => Err(x),
                Ok((m, c3)) => Ok(
                    (
                        SProgram { sprites: p.sprites, vars: vs, functions: fs, main: m },
                        add_counts(add_counts(c1, c2), c3),
                    ),
                ),
            },
        },
    }
}

proof fn lemma_opt_vars_names(vs: Seq<SVarDecl>)
    ensures
        opt_vars(vs) matches Ok((ws, c)) ==> ws.len() == vs.len() && forall|i: int|
            0 <= i < vs.len() ==> (#[trigger] ws[i]).name == vs[i].name,
    decreases vs.len(),
{
    if vs.len() > 0 {
        lemma_opt_vars_names(vs.drop_last());
    }
}

proof fn lemma_opt_fns_headers(fs: Seq<SFnDecl>)
    ensures
        opt_fns(fs) matches Ok((gs, c)) ==> gs.len() == fs.len() && forall|i: int|
            0 <= i < fs.len() ==> (#[trigger] gs[i]).name == fs[i].name && gs[i].args == fs[i].args && gs[i].ret
                == fs[i].ret,
    decreases fs.len(),
{
    if fs.len() > 0 {
        lemma_opt_fns_headers(fs.drop_last());
    }
}

/// Law: optimizing a program keeps its sprites, the names of its variables
/// and the name, parameters and return variable of each function; and the
/// counters of the optimizer never go down.
pub proof fn lemma_optimize_keeps_headers(p: SProgram, before: Optimizer, after: Optimizer)
    ensures
        opt_program(p) matches Ok((q, c)) ==> {
            &&& q.sprites == p.sprites
            &&& q.vars.len() == p.vars.len()
            &&& forall|i: int| 0 <= i < p.vars.len() ==> (#[trigger] q.vars[i]).name == p.vars[i].name
            &&& q.functions.len() == p.functions.len()
            &&& forall|i: int|
                0 <= i < p.functions.len() ==> (#[trigger] q.functions[i]).name == p.functions[i].name
                    && q.functions[i].args == p.functions[i].args && q.functions[i].ret == p.functions[i].ret
            &&& advanced(before, after, c) ==> after.folds >= before.folds && after.dce >= before.dce
                && after.reductions >= before.reductions
        },
{
    lemma_opt_vars_names(p.vars);
    lemma_opt_fns_headers(p.functions);
}

proof fn lemma_opt_vars_err_prefix(s: Seq<SVarDecl>, k: int)
    requires
        0 <= k <= s.len(),
        opt_vars(s.take(k)) is Err,
    ensures
        opt_vars(s) == opt_vars(s.take(k)),
    decreases s.len() - k,
{
    if k < s.len() {
        assert(s.take(k + 1).drop_last() == s.take(k));
        lemma_opt_vars_err_prefix(s, k + 1);
    } else {
        assert(s.take(k) == s);
    }
}

proof fn lemma_opt_fns_err_prefix(s: Seq<SFnDecl>, k: int)
    requires
        0 <= k <= s.len(),
        opt_fns(s.take(k)) is Err,
    ensures
        opt_fns(s) == opt_fns(s.take(k)),
    decreases s.len() - k,
{
    if k < s.len() {
        assert(s.take(k + 1).drop_last() == s.take(k));
        lemma_opt_fns_err_prefix(s, k + 1);
    } else {
        assert(s.take(k) == s);
    }
}

impl Optimizer {
    #[verifier::loop_isolation(false)]
    fn optimize_vars(&mut self, vars: Vec<VarDecl>) -> (r: Result<Vec<VarDecl>, OptimizeError>)
        ensures
            match opt_vars(vars@.map_values(|d: VarDecl| d@)) {
                Ok((vs, c)) => r is Ok && r->Ok_0@.map_values(|d: VarDecl| d@) == vs && advanced(*old(self), *final(self), c),
                Err(x) => r == Err::<Vec<VarDecl>, OptimizeError>(x),
            },
    {
        let ghost a0 = vars@;
        let ghost orig = vars@.map_values(|d: VarDecl| d@);
        let ghost start = *self;
        let ghost mut c = zero_counts();
        let total = vars.len();
        let mut rest = vars;
        let mut out: Vec<VarDecl> = Vec::new();
        assert(orig.take(0) =~= Seq::<SVarDecl>::empty());
        assert(out@.map_values(|d: VarDecl| d@) =~= Seq::<SVarDecl>::empty());
        while rest.len() > 0
            invariant
                orig == a0.map_values(|d: VarDecl| d@),
                orig.len() == out@.len() + rest@.len(),
                orig.len() == total,
                rest@ == a0.skip(out@.len() as int),
                opt_vars(orig.take(out@.len() as int)) == Ok::<(Seq<SVarDecl>, Counts), OptimizeError>((out@.map_values(|d: VarDecl| d@), c)),
                advanced(start, *self, c),
            decreases rest.len(),
        {
            let ghost k = out@.len() as int;
            let d = rest.remove(0);
            assert(d == a0[k]);
            assert(orig.take(k + 1).drop_last() == orig.take(k));
            assert(orig.take(k + 1)[k] == d@);
            let ghost s1 = *self;
            let VarDecl { name, value } = d;
            match self.fold_expr(value) {
                Err(x) => {
                    proof { lemma_opt_vars_err_prefix(orig, k + 1); }
                    return Err(x);
                },
                Ok(v2) => {
                    proof {
                        lemma_advanced_trans(start, s1, *self, c, fold_spec(orig[k].value)->Ok_0.1);
                        c = add_counts(c, fold_spec(orig[k].value)->Ok_0.1);
                    }
                    let ghost before = out@;
                    let d2 = VarDecl { name, value: v2 };
                    out.push(d2);
                    assert(out@.map_values(|d: VarDecl| d@) =~= before.map_values(|d: VarDecl| d@).push(d2@));
                },
            }
        }
        assert(orig.take(out@.len() as int) == orig);
        Ok(out)
    }

    #[verifier::loop_isolation(false)]
    fn optimize_fns(&mut self, fns: Vec<FnDecl>) -> (r: Result<Vec<FnDecl>, OptimizeError>)
        ensures
            match opt_fns(fns@.map_values(|f: FnDecl| f@)) {
                Ok((fs, c)) => r is Ok && r->Ok_0@.map_values(|f: FnDecl| f@) == fs && advanced(*old(self), *final(self), c),
                Err(x) => r == Err::<Vec<FnDecl>, OptimizeError>(x),
            },
    {
        let ghost a0 = fns@;
        let ghost orig = fns@.map_values(|f: FnDecl| f@);
        let ghost start = *self;
        let ghost mut c = zero_counts();
        let total = fns.len();
        let mut rest = fns;
        let mut out: Vec<FnDecl> = Vec::new();
        assert(orig.take(0) =~= Seq::<SFnDecl>::empty());
        assert(out@.map_values(|f: FnDecl| f@) =~= Seq::<SFnDecl>::empty());
        while rest.len() > 0
            invariant
                orig == a0.map_values(|f: FnDecl| f@),
                orig.len() == out@.len() + rest@.len(),
                orig.len() == total,
                rest@ == a0.skip(out@.len() as int),
                opt_fns(orig.take(out@.len() as int)) == Ok::<(Seq<SFnDecl>, Counts), OptimizeError>((out@.map_values(|f: FnDecl| f@), c)),
                advanced(start, *self, c),
            decreases rest.len(),
        {
            let ghost k = out@.len() as int;
            let f = rest.remove(0);
            assert(f == a0[k]);
            assert(orig.take(k + 1).drop_last() == orig.take(k));
            assert(orig.take(k + 1)[k] == f@);
            let ghost s1 = *self;
            let FnDecl { name, args, ret, body } = f;
            match self.optimize_block(body) {
                Err(x) => {
                    proof { lemma_opt_fns_err_prefix(orig, k + 1); }
                    return Err(x);
                },
                Ok(b2) => {
                    proof {
                        lemma_advanced_trans(start, s1, *self, c, opt_block(orig[k].body)->Ok_0.1);
                        c = add_counts(c, opt_block(orig[k].body)->Ok_0.1);
                    }
                    let ghost before = out@;
                    let f2 = FnDecl { name, args, ret, body: b2 };
                    out.push(f2);
                    assert(out@.map_values(|f: FnDecl| f@) =~= before.map_values(|f: FnDecl| f@).push(f2@));
                },
            }
        }
        assert(orig.take(out@.len() as int) == orig);
        Ok(out)
    }

    /// One optimization pass over the whole program; see `opt_program`.
    fn optimize_pass(&mut self, program: &mut Program) -> (r: Result<(), OptimizeError>)
        ensures
            match opt_program(old(program)@) {
                Ok((p, c)) => r is Ok && final(program)@ == p && advanced(*old(self), *final(self), c),
                Err(x) => r == Err::<(), OptimizeError>(x),
            },
    {
        let ghost p0 = program@;
        let ghost s0 = *self;
        let mut vars: Vec<VarDecl> = Vec::new();
        std::mem::swap(&mut vars, &mut program.vars);
        let vars2 = match self.optimize_vars(vars) {
            Err(x) => { return Err(x); },
            Ok(v) => v,
        };
        let ghost s1 = *self;
        let mut fns: Vec<FnDecl> = Vec::new();
        std::mem::swap(&mut fns, &mut program.functions);
        let fns2 = match self.optimize_fns(fns) {
            Err(x) => { return Err(x); },
            Ok(f) => f,
        };
        let ghost s2 = *self;
        let mut main: Vec<Stmt> = Vec::new();
        std::mem::swap(&mut main, &mut program.main);
        let main2 = match self.optimize_block(main) {
            Err(x) => { return Err(x); },
            Ok(m) => m,
        };
        program.vars = vars2;
        program.functions = fns2;
        program.main = main2;
        proof {
            let c1 = opt_vars(p0.vars)->Ok_0.1;
            let c2 = opt_fns(p0.functions)->Ok_0.1;
            let c3 = opt_block(p0.main)->Ok_0.1;
            lemma_advanced_trans(s0, s1, s2, c1, c2);
            lemma_advanced_trans(s0, s2, *self, add_counts(c1, c2), c3);
            assert(program@.sprites == p0.sprites);
        }
        Ok(())
    }
}

// ---------------------------------------------------------------------------
// One pass reaches the fixed point.
// ---------------------------------------------------------------------------

/// Folding leaves `e` as it is and counts nothing.
pub open spec fn folded_form(e: SExpr) -> bool {
    fold_spec(e) == Ok::<(SExpr, Counts), OptimizeError>((e, zero_counts()))
}

/// A statement that a further pass leaves as it is, counting nothing.
pub open spec fn stable_stmt(s: SStmt) -> bool {
    &&& opt_stmt(s) == Ok::<(SStmt, Counts), OptimizeError>((s, zero_counts()))
    &&& dce_stmt(s) == (Some(s), 0nat)
}

pub open spec fn stable_block(b: Seq<SStmt>) -> bool {
    forall|i: int| 0 <= i < b.len() ==> stable_stmt(#[trigger] b[i])
}

pub open spec fn stable_opt_block(o: Option<Seq<SStmt>>) -> bool {
    match o {
        Some(b) => stable_block(b),
        None => true,
    }
}

pub open spec fn stable_elif(e: SElseIf) -> bool {
    folded_form(e.condition) && stable_block(e.body)
}

pub open spec fn is_bool_lit(e: SExpr) -> bool {
    e is Bool
}

proof fn lemma_zero_sum()
    ensures
        add_counts(zero_counts(), zero_counts()) == zero_counts(),
        add_counts(zero_counts(), dce_count(0)) == zero_counts(),
{
}

proof fn lemma_binop_folded_form(l: SExpr, op: Op, r: SExpr)
    requires
        folded_form(l),
        folded_form(r),
        fold_binop_spec(l, op, r) is Ok,
    ensures
        folded_form(fold_binop_spec(l, op, r)->Ok_0.0),
{
    lemma_zero_sum();
    let e = fold_binop_spec(l, op, r)->Ok_0.0;
    if const_fold(l, op, r) is Some {
        assert(e is Int || e is Bool);
    } else if reduce(l, op, r) is Some {
        if op == Op::Mul && !is_int(r, 0) && !is_int(l, 0) && !is_int(r, 1) && !is_int(l, 1) && is_int(r, 2) {
            assert(!(l is Int));
            assert(fold_binop_spec(l, Op::Add, l) == Ok::<(SExpr, Counts), OptimizeError>((SExpr::BinOp(Box::new(l), Op::Add, Box::new(l)), zero_counts())));
        } else if op == Op::Mul && !is_int(r, 0) && !is_int(l, 0) && !is_int(r, 1) && !is_int(l, 1) && is_int(l, 2) {
            assert(!(r is Int));
            assert(fold_binop_spec(r, Op::Add, r) == Ok::<(SExpr, Counts), OptimizeError>((SExpr::BinOp(Box::new(r), Op::Add, Box::new(r)), zero_counts())));
        } else if op == Op::EqEq || op == Op::NotEq {
            assert(!(l is Bool && r is Bool));
        }
    } else {
        assert(fold_spec(e) == Ok::<(SExpr, Counts), OptimizeError>((e, add_counts(add_counts(zero_counts(), zero_counts()), zero_counts()))));
    }
}

/// What folding produces, folding again leaves unchanged.
pub proof fn lemma_fold_folded_form(e: SExpr)
    requires
        fold_spec(e) is Ok,
    ensures
        folded_form(fold_spec(e)->Ok_0.0),
    decreases e,
{
    lemma_zero_sum();
    match e {
        SExpr::Not(x) => {
            lemma_fold_folded_form(*x);
        },
        SExpr::BinOp(l, op, r) => {
            lemma_fold_folded_form(*l);
            lemma_fold_folded_form(*r);
            lemma_binop_folded_form(fold_spec(*l)->Ok_0.0, op, fold_spec(*r)->Ok_0.0);
        },
        SExpr::Draw(x, y, _) => {
            lemma_fold_folded_form(*x);
            lemma_fold_folded_form(*y);
        },
        SExpr::DrawDigit(x, y, n) => {
            lemma_fold_folded_form(*x);
            lemma_fold_folded_form(*y);
            lemma_fold_folded_form(*n);
        },
        SExpr::KeyPressed(k) => {
            lemma_fold_folded_form(*k);
        },
        SExpr::Rand(m) => {
            lemma_fold_folded_form(*m);
        },
        SExpr::Call(_, args) => {
            lemma_fold_seq_folded_form(args);
        },
        _ => {},
    }
}

pub proof fn lemma_fold_seq_folded_form(s: Seq<SExpr>)
    requires
        fold_seq(s) is Ok,
    ensures
        fold_seq(fold_seq(s)->Ok_0.0) == Ok::<(Seq<SExpr>, Counts), OptimizeError>((fold_seq(s)->Ok_0.0, zero_counts())),
    decreases s,
{
    lemma_zero_sum();
    if s.len() > 0 {
        lemma_fold_seq_folded_form(s.drop_last());
        lemma_fold_folded_form(s[s.len() - 1]);
        let init = fold_seq(s.drop_last())->Ok_0.0;
        let e = fold_spec(s[s.len() - 1])->Ok_0.0;
        let s2 = init.push(e);
        assert(s2.drop_last() =~= init);
    }
}

proof fn lemma_stable_opt_stmts(b: Seq<SStmt>)
    requires
        stable_block(b),
    ensures
        opt_stmts(b) == Ok::<(Seq<SStmt>, Counts), OptimizeError>((b, zero_counts())),
        dce_block(b) == (b, 0nat),
    decreases b.len(),
{
    lemma_zero_sum();
    if b.len() > 0 {
        let init = b.drop_last();
        assert(stable_block(init)) by {
            assert forall|i: int| 0 <= i < init.len() implies stable_stmt(#[trigger] init[i]) by {
                assert(init[i] == b[i]);
            }
        }
        lemma_stable_opt_stmts(init);
        assert(stable_stmt(b[b.len() - 1]));
        assert(init.push(b[b.len() - 1]) =~= b);
    } else {
        assert(b =~= Seq::<SStmt>::empty());
    }
}

/// A block whose statements are all stable is left as it is by a pass.
pub proof fn lemma_stable_block(b: Seq<SStmt>)
    requires
        stable_block(b),
    ensures
        opt_block(b) == Ok::<(Seq<SStmt>, Counts), OptimizeError>((b, zero_counts())),
{
    lemma_zero_sum();
    lemma_stable_opt_stmts(b);
}

proof fn lemma_stable_elifs(es: Seq<SElseIf>)
    requires
        forall|i: int| 0 <= i < es.len() ==> stable_elif(#[trigger] es[i]),
    ensures
        opt_elifs(es) == Ok::<(Seq<SElseIf>, Counts), OptimizeError>((es, zero_counts())),
    decreases es.len(),
{
    lemma_zero_sum();
    if es.len() > 0 {
        let init = es.drop_last();
        assert forall|i: int| 0 <= i < init.len() implies stable_elif(#[trigger] init[i]) by {
            assert(init[i] == es[i]);
        }
        lemma_stable_elifs(init);
        let e = es[es.len() - 1];
        assert(stable_elif(e));
        lemma_stable_block(e.body);
        assert(init.push(SElseIf { condition: e.condition, body: e.body }) =~= es);
    } else {
        assert(es =~= Seq::<SElseIf>::empty());
    }
}

/// With no literal condition left, the chain keeps every branch.
proof fn lemma_chain_keeps(es: Seq<SElseIf>, i: int, els: Option<Seq<SStmt>>)
    requires
        0 <= i <= es.len(),
        forall|j: int| 0 <= j < es.len() ==> !is_bool_lit(#[trigger] es[j].condition),
    ensures
        elif_chain(es, i, els) == (es.skip(i), els, 0nat),
    decreases es.len() - i,
{
    if i < es.len() {
        lemma_chain_keeps(es, i + 1, els);
        assert(!is_bool_lit(es[i].condition));
        assert(seq![es[i]] + es.skip(i + 1) =~= es.skip(i));
    } else {
        assert(es.skip(i) =~= Seq::<SElseIf>::empty());
    }
}

/// Pruning a list of stable branches leaves stable branches, none with a
/// literal condition, and a stable `else`.
proof fn lemma_chain_stable(es: Seq<SElseIf>, i: int, els: Option<Seq<SStmt>>)
    requires
        0 <= i,
        forall|j: int| 0 <= j < es.len() ==> stable_elif(#[trigger] es[j]),
        stable_opt_block(els),
    ensures
        forall|k: int|
            0 <= k < elif_chain(es, i, els).0.len() ==> stable_elif(#[trigger] elif_chain(es, i, els).0[k])
                && !is_bool_lit(elif_chain(es, i, els).0[k].condition),
        stable_opt_block(elif_chain(es, i, els).1),
    decreases es.len() - i,
{
    if i < es.len() {
        lemma_chain_stable(es, i + 1, els);
        let e = es[i];
        assert(stable_elif(e));
        let rest = elif_chain(es, i + 1, els);
        if e.condition != SExpr::Bool(false) && e.condition != SExpr::Bool(true) {
            assert(!is_bool_lit(e.condition));
            let s = seq![e] + rest.0;
            assert forall|k: int| 0 <= k < s.len() implies stable_elif(#[trigger] s[k]) && !is_bool_lit(s[k].condition) by {
                if k > 0 {
                    assert(s[k] == rest.0[k - 1]);
                }
            }
        }
    }
}

proof fn lemma_opt_stmts_each(b: Seq<SStmt>)
    requires
        opt_stmts(b) is Ok,
    ensures
        opt_stmts(b)->Ok_0.0.len() == b.len(),
        forall|i: int| 0 <= i < b.len() ==> (#[trigger] opt_stmt(b[i])) is Ok && opt_stmts(b)->Ok_0.0[i] == opt_stmt(b[i])->Ok_0.0,
    decreases b.len(),
{
    if b.len() > 0 {
        lemma_opt_stmts_each(b.drop_last());
        assert forall|i: int| 0 <= i < b.len() implies (#[trigger] opt_stmt(b[i])) is Ok && opt_stmts(b)->Ok_0.0[i] == opt_stmt(b[i])->Ok_0.0 by {
            if i < b.len() - 1 {
                assert(b.drop_last()[i] == b[i]);
            }
        }
    }
}

proof fn lemma_opt_elifs_each(es: Seq<SElseIf>)
    requires
        opt_elifs(es) is Ok,
    ensures
        opt_elifs(es)->Ok_0.0.len() == es.len(),
        forall|i: int| 0 <= i < es.len() ==> {
            &&& (#[trigger] fold_spec(es[i].condition)) is Ok
            &&& opt_elifs(es)->Ok_0.0[i].condition == fold_spec(es[i].condition)->Ok_0.0
            &&& opt_block(es[i].body) is Ok
            &&& opt_elifs(es)->Ok_0.0[i].body == opt_block(es[i].body)->Ok_0.0
        },
    decreases es.len(),
{
    if es.len() > 0 {
        lemma_opt_elifs_each(es.drop_last());
        assert forall|i: int| 0 <= i < es.len() implies {
            &&& (#[trigger] fold_spec(es[i].condition)) is Ok
            &&& opt_elifs(es)->Ok_0.0[i].condition == fold_spec(es[i].condition)->Ok_0.0
            &&& opt_block(es[i].body) is Ok
            &&& opt_elifs(es)->Ok_0.0[i].body == opt_block(es[i].body)->Ok_0.0
        } by {
            if i < es.len() - 1 {
                assert(es.drop_last()[i] == es[i]);
            }
        }
    }
}

proof fn lemma_dce_block_from(b: Seq<SStmt>)
    ensures
        forall|k: int| 0 <= k < dce_block(b).0.len() ==> exists|j: int|
            0 <= j < b.len() && dce_stmt(b[j]).0 == Some(#[trigger] dce_block(b).0[k]),
    decreases b.len(),
{
    if b.len() > 0 {
        let init = b.drop_last();
        lemma_dce_block_from(init);
        let out = dce_block(b).0;
        assert forall|k: int| 0 <= k < out.len() implies exists|j: int|
            0 <= j < b.len() && dce_stmt(b[j]).0 == Some(#[trigger] out[k]) by {
            if k < dce_block(init).0.len() {
                let j = choose|j: int| 0 <= j < init.len() && dce_stmt(init[j]).0 == Some(dce_block(init).0[k]);
                assert(init[j] == b[j]);
                assert(out[k] == dce_block(init).0[k]);
            } else {
                assert(dce_stmt(b[b.len() - 1]).0 == Some(out[k]));
            }
        }
    }
}

/// What a pass leaves of a statement is stable.
#[verifier::spinoff_prover]
#[verifier::rlimit(30)]
proof fn lemma_pass_stmt_stable(s: SStmt)
    requires
        opt_stmt(s) is Ok,
        dce_stmt(opt_stmt(s)->Ok_0.0).0 is Some,
    ensures
        stable_stmt(dce_stmt(opt_stmt(s)->Ok_0.0).0->Some_0),
    decreases s, 1int,
{
    lemma_zero_sum();
    match s {
        SStmt::Assign(n, e) => {
            lemma_fold_folded_form(e);
        },
        SStmt::Delay(e) => {
            lemma_fold_folded_form(e);
        },
        SStmt::Beep(e) => {
            lemma_fold_folded_form(e);
        },
        SStmt::Call(n, args) => {
            lemma_fold_seq_folded_form(args);
        },
        SStmt::Clear => {},
        SStmt::Loop(body) => {
            lemma_pass_block_stable(body);
            lemma_stable_block(opt_block(body)->Ok_0.0);
        },
        SStmt::While(cond, body) => {
            lemma_fold_folded_form(cond);
            lemma_pass_block_stable(body);
            lemma_stable_block(opt_block(body)->Ok_0.0);
        },
        SStmt::If(..) => {
            lemma_pass_if_stable(s);
        },
    }
}

/// An `if` made of stable parts, either on a condition that is no literal
/// or on `true` with nothing after it, is stable.
proof fn lemma_if_stable(c: SExpr, b: Seq<SStmt>, es: Seq<SElseIf>, eb: Option<Seq<SStmt>>)
    requires
        folded_form(c),
        stable_block(b),
        forall|j: int| 0 <= j < es.len() ==> stable_elif(#[trigger] es[j]) && !is_bool_lit(es[j].condition),
        stable_opt_block(eb),
        !is_bool_lit(c) || (c == SExpr::Bool(true) && es.len() == 0 && eb is None),
    ensures
        stable_stmt(SStmt::If(c, b, es, eb)),
{
    lemma_zero_sum();
    lemma_stable_block(b);
    lemma_stable_elifs(es);
    match eb {
        Some(pb) => {
            lemma_stable_block(pb);
        },
        None => {},
    }
    assert forall|j: int| 0 <= j < es.len() implies !is_bool_lit(#[trigger] es[j].condition) by {
        assert(stable_elif(es[j]) && !is_bool_lit(es[j].condition));
    }
    lemma_chain_keeps(es, 0, eb);
    assert(es.skip(0) =~= es);
}

#[verifier::rlimit(30)]
proof fn lemma_pass_if_stable(s: SStmt)
    requires
        s is If,
        opt_stmt(s) is Ok,
        dce_stmt(opt_stmt(s)->Ok_0.0).0 is Some,
    ensures
        stable_stmt(dce_stmt(opt_stmt(s)->Ok_0.0).0->Some_0),
    decreases s, 0int,
{
    let s1 = opt_stmt(s)->Ok_0.0;
    let x = dce_stmt(s1).0->Some_0;
    if let SStmt::If(cond, body, elifs, els) = s {
        lemma_fold_folded_form(cond);
        let c2 = fold_spec(cond)->Ok_0.0;
        lemma_pass_block_stable(body);
        let b2 = opt_block(body)->Ok_0.0;
        lemma_opt_elifs_each(elifs);
        let e2 = opt_elifs(elifs)->Ok_0.0;
        assert forall|i: int| 0 <= i < e2.len() implies stable_elif(#[trigger] e2[i]) by {
            assert(decreases_to!(elifs => elifs[i]));
            lemma_fold_folded_form(elifs[i].condition);
            lemma_pass_block_stable(elifs[i].body);
        }
        let eb2: Option<Seq<SStmt>> = match els {
            Some(eb) => {
                lemma_pass_block_stable(eb);
                Some(opt_block(eb)->Ok_0.0)
            },
            None => None,
        };
        assert(s1 == SStmt::If(c2, b2, e2, eb2));
        assert(stable_opt_block(eb2));
        lemma_chain_stable(e2, 0, eb2);
        let ch = elif_chain(e2, 0, eb2);
        let empty_elifs = Seq::<SElseIf>::empty();
        if c2 == SExpr::Bool(true) {
            assert(x == SStmt::If(c2, b2, empty_elifs, None));
            lemma_if_stable(c2, b2, empty_elifs, None);
        } else if c2 == SExpr::Bool(false) {
            if ch.0.len() > 0 {
                let rest = ch.0.drop_first();
                assert(stable_elif(ch.0[0]) && !is_bool_lit(ch.0[0].condition));
                assert forall|j: int| 0 <= j < rest.len() implies stable_elif(#[trigger] rest[j]) && !is_bool_lit(rest[j].condition) by {
                    assert(rest[j] == ch.0[j + 1]);
                }
                lemma_if_stable(ch.0[0].condition, ch.0[0].body, rest, ch.1);
            } else {
                let pb = ch.1->Some_0;
                assert(x == SStmt::If(SExpr::Bool(true), pb, empty_elifs, None));
                lemma_fold_folded_form(SExpr::Bool(true));
                lemma_if_stable(SExpr::Bool(true), pb, empty_elifs, None);
            }
        } else {
            assert(x == SStmt::If(c2, b2, ch.0, ch.1));
            lemma_if_stable(c2, b2, ch.0, ch.1);
        }
    }
}

/// What a pass makes of a block consists of stable statements.
proof fn lemma_pass_block_stable(b: Seq<SStmt>)
    requires
        opt_block(b) is Ok,
    ensures
        stable_block(opt_block(b)->Ok_0.0),
    decreases b, 1int,
{
    lemma_opt_stmts_each(b);
    let b1 = opt_stmts(b)->Ok_0.0;
    let b2 = dce_block(b1).0;
    lemma_dce_block_from(b1);
    assert forall|k: int| 0 <= k < b2.len() implies stable_stmt(#[trigger] b2[k]) by {
        let j = choose|j: int| 0 <= j < b1.len() && dce_stmt(b1[j]).0 == Some(b2[k]);
        assert(decreases_to!(b => b[j]));
        lemma_pass_stmt_stable(b[j]);
    }
}

proof fn lemma_opt_vars_idempotent(vs: Seq<SVarDecl>)
    requires
        opt_vars(vs) is Ok,
    ensures
        opt_vars(opt_vars(vs)->Ok_0.0) == Ok::<(Seq<SVarDecl>, Counts), OptimizeError>((opt_vars(vs)->Ok_0.0, zero_counts())),
    decreases vs.len(),
{
    lemma_zero_sum();
    if vs.len() > 0 {
        lemma_opt_vars_idempotent(vs.drop_last());
        lemma_fold_folded_form(vs[vs.len() - 1].value);
        let init = opt_vars(vs.drop_last())->Ok_0.0;
        let out = opt_vars(vs)->Ok_0.0;
        assert(out.drop_last() =~= init);
    }
}

proof fn lemma_opt_fns_idempotent(fs: Seq<SFnDecl>)
    requires
        opt_fns(fs) is Ok,
    ensures
        opt_fns(opt_fns(fs)->Ok_0.0) == Ok::<(Seq<SFnDecl>, Counts), OptimizeError>((opt_fns(fs)->Ok_0.0, zero_counts())),
    decreases fs.len(),
{
    lemma_zero_sum();
    if fs.len() > 0 {
        lemma_opt_fns_idempotent(fs.drop_last());
        lemma_pass_block_stable(fs[fs.len() - 1].body);
        lemma_stable_block(opt_block(fs[fs.len() - 1].body)->Ok_0.0);
        let init = opt_fns(fs.drop_last())->Ok_0.0;
        let out = opt_fns(fs)->Ok_0.0;
        assert(out.drop_last() =~= init);
        let f2 = out[out.len() - 1];
        assert(SFnDecl { body: f2.body, ..f2 } == f2);
    }
}

/// One pass reaches the fixed point: a second pass over its result changes
/// nothing and counts nothing.
pub proof fn lemma_pass_idempotent(p: SProgram)
    requires
        opt_program(p) is Ok,
    ensures
        opt_program(opt_program(p)->Ok_0.0) == Ok::<(SProgram, Counts), OptimizeError>((opt_program(p)->Ok_0.0, zero_counts())),
{
    lemma_zero_sum();
    lemma_opt_vars_idempotent(p.vars);
    lemma_opt_fns_idempotent(p.functions);
    lemma_pass_block_stable(p.main);
    lemma_stable_block(opt_block(p.main)->Ok_0.0);
}

impl Optimizer {
    /// Runs passes until one changes nothing.  The result is that of a
    /// single pass (`opt_program`), which is already a fixed point.
    #[verifier::loop_isolation(false)]
    pub fn optimize(&mut self, program: &mut Program) -> (r: Result<(), OptimizeError>)
        ensures
            match opt_program(old(program)@) {
                Ok((p, c)) => r is Ok && final(program)@ == p && advanced(*old(self), *final(self), c),
                Err(x) => r == Err::<(), OptimizeError>(x),
            },
    {
        let ghost p0 = program@;
        let ghost s0 = *self;
        let mut passes: usize = 0;
        loop
            invariant
                passes <= 1,
                passes == 0 ==> program@ == p0 && *self == s0,
                passes == 1 ==> opt_program(p0) is Ok && program@ == opt_program(p0)->Ok_0.0 && advanced(s0, *self, opt_program(p0)->Ok_0.1),
            decreases 2 - passes,
        {
            let folds = self.folds;
            let dce = self.dce;
            let reductions = self.reductions;
            let ghost s1 = *self;
            let ghost p1 = program@;
            proof {
                if passes == 1 {
                    lemma_pass_idempotent(p0);
                }
            }
            match self.optimize_pass(program) {
                Err(x) => {
                    return Err(x);
                },
                Ok(()) => {},
            }
            if folds == self.folds && dce == self.dce && reductions == self.reductions {
                proof {
                    if passes == 1 {
                        assert(program@ == p1);
                        lemma_advanced_trans(s0, s1, *self, opt_program(p0)->Ok_0.1, zero_counts());
                        assert(add_counts(opt_program(p0)->Ok_0.1, zero_counts()) == opt_program(p0)->Ok_0.1);
                    }
                }
                return Ok(());
            }
            passes = passes + 1;
        }
    }
}

// ---------------------------------------------------------------------------
// Folding preserves the value of an expression.
// ---------------------------------------------------------------------------

/// `a op b` on two values; `None` where the types do not fit or a divisor
/// is zero.
pub open spec fn eval_binop(a: SExpr, op: Op, b: SExpr) -> Option<SExpr> {
    match (a, b) {
        (SExpr::Int(x), SExpr::Int(y)) => if (op == Op::Div || op == Op::Mod) && y == 0 {
            None
        } else {
            eval_int_op(x, op, y)
        },
        (SExpr::Bool(x), SExpr::Bool(y)) => eval_bool_op(x, op, y),
        _ => None,
    }
}

/// The value of a side-effect-free expression whose variables take their
/// values from `env`; `None` where it has none (a type error, a division by
/// zero, a builtin or a call).
pub open spec fn eval_expr(e: SExpr, env: Map<Seq<char>, SExpr>) -> Option<SExpr>
    decreases e,
{
    match e {
        SExpr::Int(n) => Some(SExpr::Int(n)),
        SExpr::Bool(b) => Some(SExpr::Bool(b)),
        SExpr::Var(x) => if env.dom().contains(x) && (env[x] is Int || env[x] is Bool) {
            Some(env[x])
        } else {
            None
        },
        SExpr::Not(x) => match eval_expr(*x, env) {
            Some(SExpr::Bool(b)) => Some(SExpr::Bool(!b)),
            _ => None,
        },
        SExpr::BinOp(l, op, r) => match (eval_expr(*l, env), eval_expr(*r, env)) {
            (Some(a), Some(b)) => eval_binop(a, op, b),
            _ => None,
        },
        _ => None,
    }
}

proof fn lemma_binop_preserves_value(l: SExpr, op: Op, r: SExpr, env: Map<Seq<char>, SExpr>)
    requires
        eval_expr(l, env) is Some,
        eval_expr(r, env) is Some,
        eval_binop(eval_expr(l, env)->0, op, eval_expr(r, env)->0) is Some,
    ensures
        fold_binop_spec(l, op, r) is Ok,
        eval_expr(fold_binop_spec(l, op, r)->Ok_0.0, env) == eval_binop(eval_expr(l, env)->0, op, eval_expr(r, env)->0),
{
    let a = eval_expr(l, env)->0;
    let b = eval_expr(r, env)->0;
    if let SExpr::Int(x) = a {
        if let SExpr::Int(y) = b {
            assert((x + 0) % 256 == x);
            assert((x - 0) % 256 == x);
            assert((0 + y) % 256 == y);
            assert((x * 1) % 256 == x);
            assert((1 * y) % 256 == y);
            assert((x * 0) % 256 == 0);
            assert((0 * y) % 256 == 0);
            assert((x * 2) % 256 == (x + x) % 256);
            assert((2 * y) % 256 == (y + y) % 256);
            assert(x / 1 == x);
            assert(x % 1 == 0);
        }
    }
}

/// Constant folding and strength reduction do not change the value of an
/// expression that has one, in any assignment of its variables.
pub proof fn lemma_fold_preserves_value(e: SExpr, env: Map<Seq<char>, SExpr>)
    requires
        eval_expr(e, env) is Some,
    ensures
        fold_spec(e) is Ok,
        eval_expr(fold_spec(e)->Ok_0.0, env) == eval_expr(e, env),
    decreases e,
{
    match e {
        SExpr::Not(x) => {
            lemma_fold_preserves_value(*x, env);
        },
        SExpr::BinOp(l, op, r) => {
            lemma_fold_preserves_value(*l, env);
            lemma_fold_preserves_value(*r, env);
            lemma_binop_preserves_value(fold_spec(*l)->Ok_0.0, op, fold_spec(*r)->Ok_0.0, env);
        },
        _ => {},
    }
}

/// The number the generated code holds for a literal: an integer as
/// itself, `true` as 1 and `false` as 0.
pub open spec fn literal_value(e: SExpr) -> u8 {
    match e {
        SExpr::Int(n) => n,
        SExpr::Bool(b) => crate::machine::flag(b),
        _ => 0,
    }
}

/// Whether `op` gives an integer (`+ - * / %`) rather than a truth value.
pub open spec fn gives_int(op: Op) -> bool {
    op == Op::Add || op == Op::Sub || op == Op::Mul || op == Op::Div || op == Op::Mod
}

/// Law: folding an operator applied to two literals gives the literal of
/// the value that the generated code computes for it (`op_value`, which
/// the machine proofs tie to the code of each operator): an integer modulo
/// 256 for arithmetic, `true` exactly when the code leaves 1 for
/// comparisons and logic.  A division or remainder by the literal 0 is
/// refused.
pub proof fn lemma_fold_literals_match_machine(l: SExpr, op: Op, r: SExpr)
    requires
        (l is Int && r is Int && op != Op::And && op != Op::Or) || (l is Bool && r is Bool && (op == Op::EqEq
            || op == Op::NotEq || op == Op::And || op == Op::Or)),
    ensures
        (op == Op::Div || op == Op::Mod) && r == SExpr::Int(0) ==> fold_spec(
            SExpr::BinOp(Box::new(l), op, Box::new(r)),
        ) == Err::<(SExpr, Counts), OptimizeError>(OptimizeError::DivisionByZero),
        !((op == Op::Div || op == Op::Mod) && r == SExpr::Int(0)) ==> fold_spec(
            SExpr::BinOp(Box::new(l), op, Box::new(r)),
        ) is Ok && fold_spec(SExpr::BinOp(Box::new(l), op, Box::new(r)))->Ok_0.0 == (if gives_int(op) {
            SExpr::Int(crate::machine::op_value(op, literal_value(l), literal_value(r)))
        } else {
            SExpr::Bool(crate::machine::op_value(op, literal_value(l), literal_value(r)) == 1)
        }),
{
    let e = SExpr::BinOp(Box::new(l), op, Box::new(r));
    assert(fold_spec(l) == Ok::<(SExpr, Counts), OptimizeError>((l, zero_counts())));
    assert(fold_spec(r) == Ok::<(SExpr, Counts), OptimizeError>((r, zero_counts())));
    if let SExpr::Int(a) = l {
        if let SExpr::Int(b) = r {
            assert(((a - b) % 256) as u8 == ((a - b + 256) % 256) as u8);
        }
    }
}

// ---------------------------------------------------------------------------
// What statements do to the variables
// ---------------------------------------------------------------------------

/// The variables after `s` from `env`, where the language says what they
/// become: an assignment stores its value, `if` runs the body of the first
/// branch whose condition is `true` (else the `else` block, if any),
/// `while` runs its body while its condition is `true`, at most `fuel`
/// times; `clear`, `delay` and `beep` leave the variables alone.  `None`
/// where it says nothing: a condition or value without one, a `loop`, a
/// call, a `while` that runs longer.
pub open spec fn run_stmt(s: SStmt, env: Map<Seq<char>, SExpr>, fuel: nat) -> Option<Map<Seq<char>, SExpr>>
    decreases fuel, s, 1int,
{
    match s {
        SStmt::Assign(n, e) => match eval_expr(e, env) {
            Some(v) => Some(env.insert(n, v)),
            None => None,
        },
        SStmt::If(c, body, elifs, els) => match eval_expr(c, env) {
            Some(SExpr::Bool(true)) => run_block(body, env, fuel),
            Some(SExpr::Bool(false)) => match run_elifs(elifs, env, fuel) {
                Some(Some(m)) => Some(m),
                Some(None) => match els {
                    Some(b) => run_block(b, env, fuel),
                    None => Some(env),
                },
                None => None,
            },
            _ => None,
        },
        SStmt::While(c, body) => match eval_expr(c, env) {
            Some(SExpr::Bool(false)) => Some(env),
            Some(SExpr::Bool(true)) => if fuel == 0 {
                None
            } else {
                match run_block(body, env, fuel) {
                    Some(e2) => run_stmt(SStmt::While(c, body), e2, (fuel - 1) as nat),
                    None => None,
                }
            },
            _ => None,
        },
        SStmt::Clear => Some(env),
        SStmt::Delay(e) => if eval_expr(e, env) is Some { Some(env) } else { None },
        SStmt::Beep(e) => if eval_expr(e, env) is Some { Some(env) } else { None },
        _ => None,
    }
}

/// The statements of `b` in order.
pub open spec fn run_block(b: Seq<SStmt>, env: Map<Seq<char>, SExpr>, fuel: nat) -> Option<Map<Seq<char>, SExpr>>
    decreases fuel, b, 0int,
{
    if b.len() == 0 {
        Some(env)
    } else {
        match run_block(b.drop_last(), env, fuel) {
            Some(e1) => run_stmt(b[b.len() - 1], e1, fuel),
            None => None,
        }
    }
}

/// The branches `es` in order: the variables after the body of the first
/// whose condition is `true` (`Some(Some(..))`), or none taken
/// (`Some(None)`).
pub open spec fn run_elifs(es: Seq<SElseIf>, env: Map<Seq<char>, SExpr>, fuel: nat) -> Option<
    Option<Map<Seq<char>, SExpr>>,
>
    decreases fuel, es, 0int,
{
    if es.len() == 0 {
        Some(None)
    } else {
        match eval_expr(es[0].condition, env) {
            Some(SExpr::Bool(true)) => match run_block(es[0].body, env, fuel) {
                Some(m) => Some(Some(m)),
                None => None,
            },
            Some(SExpr::Bool(false)) => run_elifs(es.drop_first(), env, fuel),
            _ => None,
        }
    }
}

/// What an `if` whose condition was `false` does: the first branch of `es`
/// taken, else the `else` block, else nothing.
pub open spec fn run_rest(es: Seq<SElseIf>, els: Option<Seq<SStmt>>, env: Map<Seq<char>, SExpr>, fuel: nat) -> Option<
    Map<Seq<char>, SExpr>,
> {
    match run_elifs(es, env, fuel) {
        Some(Some(m)) => Some(m),
        Some(None) => match els {
            Some(b) => run_block(b, env, fuel),
            None => Some(env),
        },
        None => None,
    }
}

proof fn lemma_elif_chain_runs(elifs: Seq<SElseIf>, i: int, els: Option<Seq<SStmt>>, env: Map<Seq<char>, SExpr>, fuel: nat)
    requires
        0 <= i <= elifs.len(),
    ensures
        run_rest(elifs.subrange(i, elifs.len() as int), els, env, fuel) == run_rest(
            elif_chain(elifs, i, els).0,
            elif_chain(elifs, i, els).1,
            env,
            fuel,
        ),
    decreases elifs.len() - i,
{
    let sub = elifs.subrange(i, elifs.len() as int);
    if i < elifs.len() {
        let e = elifs[i];
        assert(sub[0] == e);
        assert(sub.drop_first() =~= elifs.subrange(i + 1, elifs.len() as int));
        lemma_elif_chain_runs(elifs, i + 1, els, env, fuel);
        let rest = elif_chain(elifs, i + 1, els);
        if e.condition != SExpr::Bool(false) && e.condition != SExpr::Bool(true) {
            let l = seq![e] + rest.0;
            assert(l[0] == e);
            assert(l.drop_first() =~= rest.0);
        }
    } else {
        assert(sub =~= Seq::<SElseIf>::empty());
    }
}

proof fn lemma_while_true_runs_forever(body: Seq<SStmt>, env: Map<Seq<char>, SExpr>, fuel: nat)
    ensures
        run_stmt(SStmt::While(SExpr::Bool(true), body), env, fuel) is None,
    decreases fuel,
{
    if fuel > 0 {
        if let Some(e2) = run_block(body, env, fuel) {
            lemma_while_true_runs_forever(body, e2, (fuel - 1) as nat);
        }
    }
}

/// Law: dead code elimination does not change what a statement does to the
/// variables: what stays of it does the same, and a statement it removes
/// leaves the variables as they were.
pub proof fn lemma_dce_stmt_keeps_meaning(s: SStmt, env: Map<Seq<char>, SExpr>, fuel: nat)
    ensures
        match dce_stmt(s).0 {
            Some(s2) => run_stmt(s2, env, fuel) == run_stmt(s, env, fuel),
            None => run_stmt(s, env, fuel) == Some(env),
        },
{
    match s {
        SStmt::If(c, body, elifs, els) => {
            lemma_elif_chain_runs(elifs, 0, els, env, fuel);
            assert(elifs.subrange(0, elifs.len() as int) =~= elifs);
            let chain = elif_chain(elifs, 0, els);
            assert(run_block(Seq::<SStmt>::empty(), env, fuel) == Some(env));
            if c == SExpr::Bool(false) && chain.0.len() > 0 {
                assert(run_rest(chain.0, chain.1, env, fuel) == run_stmt(
                    SStmt::If(chain.0[0].condition, chain.0[0].body, chain.0.drop_first(), chain.1),
                    env,
                    fuel,
                ));
            }
        },
        SStmt::While(c, body) => {
            if c == SExpr::Bool(true) {
                lemma_while_true_runs_forever(body, env, fuel);
            }
        },
        _ => {},
    }
}

/// Law: dead code elimination does not change what a block does to the
/// variables.
pub proof fn lemma_dce_block_keeps_meaning(b: Seq<SStmt>, env: Map<Seq<char>, SExpr>, fuel: nat)
    ensures
        run_block(dce_block(b).0, env, fuel) == run_block(b, env, fuel),
    decreases b.len(),
{
    if b.len() > 0 {
        lemma_dce_block_keeps_meaning(b.drop_last(), env, fuel);
        let init = dce_block(b.drop_last()).0;
        if let Some(e1) = run_block(b.drop_last(), env, fuel) {
            lemma_dce_stmt_keeps_meaning(b[b.len() - 1], e1, fuel);
        }
        if let Some(s2) = dce_stmt(b[b.len() - 1]).0 {
            assert(init.push(s2).drop_last() =~= init);
        }
    }
}

/// `es2` is `es` with each condition folded and each body optimized.
pub open spec fn elifs_optimized(es: Seq<SElseIf>, es2: Seq<SElseIf>) -> bool {
    &&& es2.len() == es.len()
    &&& forall|i: int|
        0 <= i < es.len() ==> {
            &&& fold_spec(es[i].condition) is Ok
            &&& (#[trigger] es2[i]).condition == fold_spec(es[i].condition)->Ok_0.0
            &&& opt_block(es[i].body) is Ok
            &&& es2[i].body == opt_block(es[i].body)->Ok_0.0
        }
}

proof fn lemma_opt_elifs_pointwise(es: Seq<SElseIf>)
    ensures
        opt_elifs(es) is Ok ==> elifs_optimized(es, opt_elifs(es)->Ok_0.0),
    decreases es.len(),
{
    if es.len() > 0 {
        lemma_opt_elifs_pointwise(es.drop_last());
        if opt_elifs(es) is Ok {
            let es2 = opt_elifs(es)->Ok_0.0;
            let init = opt_elifs(es.drop_last())->Ok_0.0;
            assert forall|i: int| 0 <= i < es.len() implies {
                &&& fold_spec(es[i].condition) is Ok
                &&& (#[trigger] es2[i]).condition == fold_spec(es[i].condition)->Ok_0.0
                &&& opt_block(es[i].body) is Ok
                &&& es2[i].body == opt_block(es[i].body)->Ok_0.0
            } by {
                if i < es.len() - 1 {
                    assert(es2[i] == init[i]);
                    assert(es[i] == es.drop_last()[i]);
                }
            }
        }
    }
}

proof fn lemma_opt_elifs_meaning(es: Seq<SElseIf>, es2: Seq<SElseIf>, env: Map<Seq<char>, SExpr>, fuel: nat)
    requires
        elifs_optimized(es, es2),
    ensures
        run_elifs(es, env, fuel) is Some ==> run_elifs(es2, env, fuel) == run_elifs(es, env, fuel),
    decreases fuel, es, 0int,
{
    if es.len() > 0 && run_elifs(es, env, fuel) is Some {
        let e = es[0];
        assert(es2[0].condition == fold_spec(e.condition)->Ok_0.0);
        lemma_fold_preserves_value(e.condition, env);
        if eval_expr(e.condition, env) == Some(SExpr::Bool(true)) {
            lemma_opt_block_meaning(e.body, env, fuel);
        } else {
            assert(elifs_optimized(es.drop_first(), es2.drop_first())) by {
                assert forall|i: int| 0 <= i < es.drop_first().len() implies {
                    &&& fold_spec(es.drop_first()[i].condition) is Ok
                    &&& (#[trigger] es2.drop_first()[i]).condition == fold_spec(es.drop_first()[i].condition)->Ok_0.0
                    &&& opt_block(es.drop_first()[i].body) is Ok
                    &&& es2.drop_first()[i].body == opt_block(es.drop_first()[i].body)->Ok_0.0
                } by {
                    assert(es2[i + 1] == es2.drop_first()[i]);
                    assert(es[i + 1] == es.drop_first()[i]);
                }
            }
            lemma_opt_elifs_meaning(es.drop_first(), es2.drop_first(), env, fuel);
        }
    }
}

/// Law: optimizing a statement does not change what it does to the
/// variables, wherever the language says what that is.
pub proof fn lemma_opt_stmt_meaning(s: SStmt, env: Map<Seq<char>, SExpr>, fuel: nat)
    ensures
        opt_stmt(s) is Ok && run_stmt(s, env, fuel) is Some ==> run_stmt(opt_stmt(s)->Ok_0.0, env, fuel) == run_stmt(
            s,
            env,
            fuel,
        ),
    decreases fuel, s, 3int,
{
    if opt_stmt(s) is Ok && run_stmt(s, env, fuel) is Some {
        match s {
            SStmt::Assign(n, e) => {
                lemma_fold_preserves_value(e, env);
            },
            SStmt::If(c, body, elifs, els) => {
                lemma_fold_preserves_value(c, env);
                if eval_expr(c, env) == Some(SExpr::Bool(true)) {
                    lemma_opt_block_meaning(body, env, fuel);
                } else {
                    lemma_opt_elifs_pointwise(elifs);
                    lemma_opt_elifs_meaning(elifs, opt_elifs(elifs)->Ok_0.0, env, fuel);
                    if let Some(b) = els {
                        lemma_opt_block_meaning(b, env, fuel);
                    }
                }
            },
            SStmt::While(c, body) => {
                lemma_fold_preserves_value(c, env);
                if eval_expr(c, env) == Some(SExpr::Bool(true)) && fuel > 0 {
                    lemma_opt_block_meaning(body, env, fuel);
                    let e2 = run_block(body, env, fuel)->Some_0;
                    lemma_opt_stmt_meaning(s, e2, (fuel - 1) as nat);
                }
            },
            SStmt::Delay(e) => {
                lemma_fold_preserves_value(e, env);
            },
            SStmt::Beep(e) => {
                lemma_fold_preserves_value(e, env);
            },
            _ => {},
        }
    }
}

proof fn lemma_opt_stmts_meaning(b: Seq<SStmt>, env: Map<Seq<char>, SExpr>, fuel: nat)
    ensures
        opt_stmts(b) is Ok && run_block(b, env, fuel) is Some ==> run_block(opt_stmts(b)->Ok_0.0, env, fuel) == run_block(
            b,
            env,
            fuel,
        ),
    decreases fuel, b, 1int,
{
    if b.len() > 0 && opt_stmts(b) is Ok && run_block(b, env, fuel) is Some {
        lemma_opt_stmts_meaning(b.drop_last(), env, fuel);
        let init = opt_stmts(b.drop_last())->Ok_0.0;
        let s2 = opt_stmt(b[b.len() - 1])->Ok_0.0;
        let e1 = run_block(b.drop_last(), env, fuel)->Some_0;
        lemma_opt_stmt_meaning(b[b.len() - 1], e1, fuel);
        assert(init.push(s2).drop_last() =~= init);
    }
}

/// Law: optimizing a block (folding its expressions, optimizing nested
/// blocks, removing dead code) does not change what it does to the
/// variables, wherever the language says what that is.
pub proof fn lemma_opt_block_meaning(b: Seq<SStmt>, env: Map<Seq<char>, SExpr>, fuel: nat)
    ensures
        opt_block(b) is Ok && run_block(b, env, fuel) is Some ==> run_block(opt_block(b)->Ok_0.0, env, fuel) == run_block(
            b,
            env,
            fuel,
        ),
    decreases fuel, b, 2int,
{
    lemma_opt_stmts_meaning(b, env, fuel);
    if opt_stmts(b) is Ok {
        lemma_dce_block_keeps_meaning(opt_stmts(b)->Ok_0.0, env, fuel);
    }
}

} // verus!
