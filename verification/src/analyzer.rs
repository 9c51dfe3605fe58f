//! Semantic analysis: symbol tables, name uniqueness, type checking, the
//! call graph (no recursion, bounded depth) and the register budget.
use vstd::prelude::*;
use crate::ast::{
    Expr, Op, SExpr, SStmt, SElseIf, Stmt, ElseIf, Program, SProgram, SpriteData, SSpriteData,
    view_expr, view_exprs, view_stmt, view_stmts, view_elseifs, view_names,
};

verus! {

/// The two types of the language.
#[derive(Debug, Clone, Copy, PartialEq, Eq, Structural)]
pub enum Type {
    Int,
    Bool,
}

/// Why a program was refused, with the names and numbers that the
/// message reports.
#[derive(Debug)]
pub enum AnalyzeError {
    /// A sprite file that does not exist.
    SpriteFileNotFound(String),
    /// A sprite with no rows.
    EmptySprite(String),
    /// A sprite taller than 15 rows: its name and height.
    SpriteTooTall(String, u64),
    /// More than 14 global variables: how many were declared.
    TooManyVariables(usize),
    /// A variable whose initial value is not built from literals and operators.
    NonConstantInitializer(String),
    /// A variable declared twice.
    DuplicateName(String),
    /// A function whose name was already taken.
    FunctionNameCollision(String),
    /// A sprite whose name was already taken.
    SpriteNameCollision(String),
    /// A call cycle, first name repeated at the end.
    RecursiveCall(Vec<String>),
    /// More than 16 nested calls from `main`: the depth found.
    CallChainTooDeep(usize),
    UndeclaredVariable(String),
    /// `name = expr` where the types differ: name, variable type, expression type.
    TypeMismatch(String, Type, Type),
    IfConditionNotBool(Type),
    ElifConditionNotBool(Type),
    WhileConditionNotBool(Type),
    DelayArgNotInt(Type),
    BeepArgNotInt(Type),
    UndeclaredFunction(String),
    /// Function name, parameters expected, arguments given.
    WrongArgCount(String, usize, usize),
    /// Argument position (from 1), function name, argument type.
    ArgNotInt(usize, String, Type),
    ArithmeticLeftNotInt,
    ArithmeticRightNotInt,
    ComparisonTypeMismatch(Type, Type),
    OrderedComparisonNotInt,
    LogicLeftNotBool,
    LogicRightNotBool,
    NotOperandNotBool(Type),
    DrawXNotInt,
    DrawYNotInt,
    UndeclaredSprite(String),
    DrawDigitXNotInt,
    DrawDigitYNotInt,
    DrawDigitNNotInt(Type),
    KeyPressedArgNotInt(Type),
    RandMaskNotLiteral,
    /// Function name, globals, arguments, temporaries, total (at most `usize::MAX`).
    FunctionRegisterBudget(String, usize, usize, usize, usize),
    /// Globals, temporaries, total (at most `usize::MAX`) for `main`.
    RegisterBudget(usize, usize, usize),
}

/// Model of `AnalyzeError`.
pub enum SAnalyzeError {
    SpriteFileNotFound(Seq<char>),
    EmptySprite(Seq<char>),
    SpriteTooTall(Seq<char>, u64),
    TooManyVariables(usize),
    NonConstantInitializer(Seq<char>),
    DuplicateName(Seq<char>),
    FunctionNameCollision(Seq<char>),
    SpriteNameCollision(Seq<char>),
    RecursiveCall(Seq<Seq<char>>),
    CallChainTooDeep(usize),
    UndeclaredVariable(Seq<char>),
    TypeMismatch(Seq<char>, Type, Type),
    IfConditionNotBool(Type),
    ElifConditionNotBool(Type),
    WhileConditionNotBool(Type),
    DelayArgNotInt(Type),
    BeepArgNotInt(Type),
    UndeclaredFunction(Seq<char>),
    WrongArgCount(Seq<char>, usize, usize),
    ArgNotInt(usize, Seq<char>, Type),
    ArithmeticLeftNotInt,
    ArithmeticRightNotInt,
    ComparisonTypeMismatch(Type, Type),
    OrderedComparisonNotInt,
    LogicLeftNotBool,
    LogicRightNotBool,
    NotOperandNotBool(Type),
    DrawXNotInt,
    DrawYNotInt,
    UndeclaredSprite(Seq<char>),
    DrawDigitXNotInt,
    DrawDigitYNotInt,
    DrawDigitNNotInt(Type),
    KeyPressedArgNotInt(Type),
    RandMaskNotLiteral,
    FunctionRegisterBudget(Seq<char>, usize, usize, usize, usize),
    RegisterBudget(usize, usize, usize),
}

impl View for AnalyzeError {
    type V = SAnalyzeError;

    open spec fn view(&self) -> SAnalyzeError {
        match self {
            AnalyzeError::SpriteFileNotFound(s) => SAnalyzeError::SpriteFileNotFound(s@),
            AnalyzeError::EmptySprite(s) => SAnalyzeError::EmptySprite(s@),
            AnalyzeError::SpriteTooTall(s, h) => SAnalyzeError::SpriteTooTall(s@, *h),
            AnalyzeError::TooManyVariables(n) => SAnalyzeError::TooManyVariables(*n),
            AnalyzeError::NonConstantInitializer(s) => SAnalyzeError::NonConstantInitializer(s@),
            AnalyzeError::DuplicateName(s) => SAnalyzeError::DuplicateName(s@),
            AnalyzeError::FunctionNameCollision(s) => SAnalyzeError::FunctionNameCollision(s@),
            AnalyzeError::SpriteNameCollision(s) => SAnalyzeError::SpriteNameCollision(s@),
            AnalyzeError::RecursiveCall(v) => SAnalyzeError::RecursiveCall(view_names(v@)),
            AnalyzeError::CallChainTooDeep(n) => SAnalyzeError::CallChainTooDeep(*n),
            AnalyzeError::UndeclaredVariable(s) => SAnalyzeError::UndeclaredVariable(s@),
            AnalyzeError::TypeMismatch(s, a, b) => SAnalyzeError::TypeMismatch(s@, *a, *b),
            AnalyzeError::IfConditionNotBool(t) => SAnalyzeError::IfConditionNotBool(*t),
            AnalyzeError::ElifConditionNotBool(t) => SAnalyzeError::ElifConditionNotBool(*t),
            AnalyzeError::WhileConditionNotBool(t) => SAnalyzeError::WhileConditionNotBool(*t),
            AnalyzeError::DelayArgNotInt(t) => SAnalyzeError::DelayArgNotInt(*t),
            AnalyzeError::BeepArgNotInt(t) => SAnalyzeError::BeepArgNotInt(*t),
            AnalyzeError::UndeclaredFunction(s) => SAnalyzeError::UndeclaredFunction(s@),
            AnalyzeError::WrongArgCount(s, a, b) => SAnalyzeError::WrongArgCount(s@, *a, *b),
            AnalyzeError::ArgNotInt(i, s, t) => SAnalyzeError::ArgNotInt(*i, s@, *t),
            AnalyzeError::ArithmeticLeftNotInt => SAnalyzeError::ArithmeticLeftNotInt,
            AnalyzeError::ArithmeticRightNotInt => SAnalyzeError::ArithmeticRightNotInt,
            AnalyzeError::ComparisonTypeMismatch(a, b) => SAnalyzeError::ComparisonTypeMismatch(*a, *b),
            AnalyzeError::OrderedComparisonNotInt => SAnalyzeError::OrderedComparisonNotInt,
            AnalyzeError::LogicLeftNotBool => SAnalyzeError::LogicLeftNotBool,
            AnalyzeError::LogicRightNotBool => SAnalyzeError::LogicRightNotBool,
            AnalyzeError::NotOperandNotBool(t) => SAnalyzeError::NotOperandNotBool(*t),
            AnalyzeError::DrawXNotInt => SAnalyzeError::DrawXNotInt,
            AnalyzeError::DrawYNotInt => SAnalyzeError::DrawYNotInt,
            AnalyzeError::UndeclaredSprite(s) => SAnalyzeError::UndeclaredSprite(s@),
            AnalyzeError::DrawDigitXNotInt => SAnalyzeError::DrawDigitXNotInt,
            AnalyzeError::DrawDigitYNotInt => SAnalyzeError::DrawDigitYNotInt,
            AnalyzeError::DrawDigitNNotInt(t) => SAnalyzeError::DrawDigitNNotInt(*t),
            AnalyzeError::KeyPressedArgNotInt(t) => SAnalyzeError::KeyPressedArgNotInt(*t),
            AnalyzeError::RandMaskNotLiteral => SAnalyzeError::RandMaskNotLiteral,
            AnalyzeError::FunctionRegisterBudget(s, a, b, c, d) => SAnalyzeError::FunctionRegisterBudget(s@, *a, *b, *c, *d),
            AnalyzeError::RegisterBudget(a, b, c) => SAnalyzeError::RegisterBudget(*a, *b, *c),
        }
    }
}

pub type TypeRes = Result<Type, SAnalyzeError>;

pub type CheckRes = Result<(), SAnalyzeError>;

// ---------------------------------------------------------------------------
// Association lists keyed by name
// ---------------------------------------------------------------------------

/// Position of the first entry named `k`, or -1.
pub open spec fn key_index<V>(t: Seq<(Seq<char>, V)>, k: Seq<char>) -> int
    decreases t.len(),
{
    if t.len() == 0 {
        -1
    } else if t[0].0 == k {
        0
    } else {
        let r = key_index(t.drop_first(), k);
        if r < 0 {
            -1
        } else {
            r + 1
        }
    }
}

pub open spec fn lookup<V>(t: Seq<(Seq<char>, V)>, k: Seq<char>) -> Option<V> {
    if key_index(t, k) >= 0 {
        Some(t[key_index(t, k)].1)
    } else {
        None
    }
}

/// Sets the entry named `k` to `v`, adding it at the end if absent.
pub open spec fn assoc_insert<V>(t: Seq<(Seq<char>, V)>, k: Seq<char>, v: V) -> Seq<(Seq<char>, V)> {
    if key_index(t, k) >= 0 {
        t.update(key_index(t, k), (k, v))
    } else {
        t.push((k, v))
    }
}

/// Drops the entry named `k`, if any.
pub open spec fn assoc_remove<V>(t: Seq<(Seq<char>, V)>, k: Seq<char>) -> Seq<(Seq<char>, V)> {
    if key_index(t, k) >= 0 {
        t.remove(key_index(t, k))
    } else {
        t
    }
}

pub proof fn lemma_key_index<V>(t: Seq<(Seq<char>, V)>, k: Seq<char>, i: int)
    requires
        0 <= i <= t.len(),
        forall|j: int| 0 <= j < i ==> t[j].0 != k,
    ensures
        i < t.len() && t[i].0 == k ==> key_index(t, k) == i,
        i == t.len() ==> key_index(t, k) == -1,
        -1 <= key_index(t, k) < t.len(),
    decreases i,
{
    if t.len() > 0 && i > 0 {
        assert forall|j: int| 0 <= j < i - 1 implies t.drop_first()[j].0 != k by {
            assert(t.drop_first()[j] == t[j + 1]);
        }
        lemma_key_index(t.drop_first(), k, i - 1);
    }
    lemma_key_index_bounds(t, k);
}

pub proof fn lemma_key_index_bounds<V>(t: Seq<(Seq<char>, V)>, k: Seq<char>)
    ensures
        -1 <= key_index(t, k) < t.len(),
        key_index(t, k) >= 0 ==> t[key_index(t, k)].0 == k,
        key_index(t, k) < 0 ==> forall|j: int| 0 <= j < t.len() ==> t[j].0 != k,
    decreases t.len(),
{
    if t.len() > 0 {
        lemma_key_index_bounds(t.drop_first(), k);
        if t[0].0 != k {
            assert forall|j: int| 0 <= j < t.len() && key_index(t, k) < 0 implies t[j].0 != k by {
                if j > 0 {
                    assert(t.drop_first()[j - 1] == t[j]);
                }
            }
        }
    }
}

// ---------------------------------------------------------------------------
// Type checking
// ---------------------------------------------------------------------------

/// What the checks of a program body see: variable types, function
/// parameter lists and sprite names.
pub struct SCtx {
    pub vars: Seq<(Seq<char>, Type)>,
    pub functions: Seq<(Seq<char>, Seq<Seq<char>>)>,
    pub sprites: Seq<Seq<char>>,
}

/// The type of `l op r` from the types of its operands.
pub open spec fn binop_type(lt: Type, op: Op, rt: Type) -> TypeRes {
    match op {
        Op::Add | Op::Sub | Op::Mul | Op::Div | Op::Mod => if lt != Type::Int {
            Err(SAnalyzeError::ArithmeticLeftNotInt)
        } else if rt != Type::Int {
            Err(SAnalyzeError::ArithmeticRightNotInt)
        } else {
            Ok(Type::Int)
        },
        Op::EqEq | Op::NotEq => if lt != rt {
            Err(SAnalyzeError::ComparisonTypeMismatch(lt, rt))
        } else {
            Ok(Type::Bool)
        },
        Op::Lt | Op::Gt | Op::LtEq | Op::GtEq => if lt != Type::Int || rt != Type::Int {
            Err(SAnalyzeError::OrderedComparisonNotInt)
        } else {
            Ok(Type::Bool)
        },
        Op::And | Op::Or => if lt != Type::Bool {
            Err(SAnalyzeError::LogicLeftNotBool)
        } else if rt != Type::Bool {
            Err(SAnalyzeError::LogicRightNotBool)
        } else {
            Ok(Type::Bool)
        },
    }
}

/// The arguments of a call to `name` from position `i` on: each must type
/// check and be an `int`.
pub open spec fn check_args(ctx: SCtx, name: Seq<char>, args: Seq<SExpr>, i: int) -> CheckRes
    decreases args, args.len() - i,
{
    if i < 0 || i >= args.len() {
        Ok(())
    } else {
        match type_of(ctx, args[i]) {
            Err(x) => Err(x),
            Ok(t) => if t != Type::Int {
                Err(SAnalyzeError::ArgNotInt((i + 1) as usize, name, t))
            } else {
                check_args(ctx, name, args, i + 1)
            },
        }
    }
}

/// A call of `name` with `args`: the function must exist and take as many
/// parameters as there are arguments, all of type `int`.
pub open spec fn check_call(ctx: SCtx, name: Seq<char>, args: Seq<SExpr>) -> CheckRes
    decreases args, args.len() + 1,
{
    match lookup(ctx.functions, name) {
        None => Err(SAnalyzeError::UndeclaredFunction(name)),
        Some(params) => if args.len() != params.len() {
            Err(SAnalyzeError::WrongArgCount(name, params.len() as usize, args.len() as usize))
        } else {
            check_args(ctx, name, args, 0)
        },
    }
}

/// The type of `e`, or the first error found left to right.
pub open spec fn type_of(ctx: SCtx, e: SExpr) -> TypeRes
    decreases e, 0int,
{
    match e {
        SExpr::Int(_) => Ok(Type::Int),
        SExpr::Bool(_) => Ok(Type::Bool),
        SExpr::Var(n) => match lookup(ctx.vars, n) {
            Some(t) => Ok(t),
            None => Err(SAnalyzeError::UndeclaredVariable(n)),
        },
        SExpr::BinOp(l, op, r) => match type_of(ctx, *l) {
            Err(x) => Err(x),
            Ok(lt) => match type_of(ctx, *r) {
                Err(x) => Err(x),
                Ok(rt) => binop_type(lt, op, rt),
            },
        },
        SExpr::Not(x) => match type_of(ctx, *x) {
            Err(err) => Err(err),
            Ok(t) => if t != Type::Bool {
                Err(SAnalyzeError::NotOperandNotBool(t))
            } else {
                Ok(Type::Bool)
            },
        },
        SExpr::Call(n, args) => match check_call(ctx, n, args) {
            Err(x) => Err(x),
            Ok(()) => Ok(Type::Int),
        },
        SExpr::Draw(x, y, s) => match type_of(ctx, *x) {
            Err(err) => Err(err),
            Ok(tx) => match type_of(ctx, *y) {
                Err(err) => Err(err),
                Ok(ty) => if tx != Type::Int {
                    Err(SAnalyzeError::DrawXNotInt)
                } else if ty != Type::Int {
                    Err(SAnalyzeError::DrawYNotInt)
                } else if !ctx.sprites.contains(s) {
                    Err(SAnalyzeError::UndeclaredSprite(s))
                } else {
                    Ok(Type::Bool)
                },
            },
        },
        SExpr::DrawDigit(x, y, n) => match type_of(ctx, *x) {
            Err(err) => Err(err),
            Ok(tx) => match type_of(ctx, *y) {
                Err(err) => Err(err),
                Ok(ty) => match type_of(ctx, *n) {
                    Err(err) => Err(err),
                    Ok(tn) => if tx != Type::Int {
                        Err(SAnalyzeError::DrawDigitXNotInt)
                    } else if ty != Type::Int {
                        Err(SAnalyzeError::DrawDigitYNotInt)
                    } else if tn != Type::Int {
                        Err(SAnalyzeError::DrawDigitNNotInt(tn))
                    } else {
                        Ok(Type::Bool)
                    },
                },
            },
        },
        SExpr::GetKey => Ok(Type::Int),
        SExpr::GetDelay => Ok(Type::Int),
        SExpr::KeyPressed(k) => match type_of(ctx, *k) {
            Err(err) => Err(err),
            Ok(t) => if t != Type::Int {
                Err(SAnalyzeError::KeyPressedArgNotInt(t))
            } else {
                Ok(Type::Bool)
            },
        },
        SExpr::Rand(m) => if *m is Int {
            Ok(Type::Int)
        } else {
            Err(SAnalyzeError::RandMaskNotLiteral)
        },
    }
}

pub open spec fn type_outcome(s: TypeRes, r: Result<Type, AnalyzeError>) -> bool {
    match s {
        Ok(t) => r == Ok::<Type, AnalyzeError>(t),
        Err(x) => r is Err && r->Err_0@ == x,
    }
}

pub open spec fn check_outcome(s: CheckRes, r: Result<(), AnalyzeError>) -> bool {
    match s {
        Ok(_) => r is Ok,
        Err(x) => r is Err && r->Err_0@ == x,
    }
}

pub open spec fn view_vars(t: Seq<(String, Type)>) -> Seq<(Seq<char>, Type)> {
    t.map_values(|p: (String, Type)| (p.0@, p.1))
}

pub open spec fn view_fns(t: Seq<(String, Vec<String>, String)>) -> Seq<(Seq<char>, Seq<Seq<char>>)> {
    t.map_values(|p: (String, Vec<String>, String)| (p.0@, view_names(p.1@)))
}

/// Symbol tables of the program being checked.
pub struct Analyzer {
    /// Variables in scope and their types.
    vars: Vec<(String, Type)>,
    /// Functions: name, parameters, return variable.
    functions: Vec<(String, Vec<String>, String)>,
    /// Declared sprite names.
    sprites: Vec<String>,
}

impl Analyzer {
    /// What the checks see.
    pub closed spec fn ctx(&self) -> SCtx {
        SCtx {
            vars: view_vars(self.vars@),
            functions: view_fns(self.functions@),
            sprites: view_names(self.sprites@),
        }
    }

    pub fn new() -> (a: Analyzer)
        ensures
            a.ctx() == (SCtx { vars: Seq::empty(), functions: Seq::empty(), sprites: Seq::empty() }),
    {
        let a = Analyzer { vars: Vec::new(), functions: Vec::new(), sprites: Vec::new() };
        proof {
            assert(view_vars(a.vars@) =~= Seq::empty());
            assert(view_fns(a.functions@) =~= Seq::empty());
            assert(view_names(a.sprites@) =~= Seq::empty());
        }
        a
    }

    /// The variables in scope, with their types.
    pub fn vars(&self) -> (r: &Vec<(String, Type)>)
        ensures
            view_vars(r@) == self.ctx().vars,
    {
        &self.vars
    }

    /// The functions: name, parameters, return variable.
    pub fn functions(&self) -> (r: &Vec<(String, Vec<String>, String)>)
        ensures
            view_fns(r@) == self.ctx().functions,
    {
        &self.functions
    }

    /// The declared sprite names.
    pub fn sprites(&self) -> (r: &Vec<String>)
        ensures
            view_names(r@) == self.ctx().sprites,
    {
        &self.sprites
    }

    fn var_index(&self, name: &String) -> (r: Option<usize>)
        ensures
            match r {
                Some(i) => i < self.vars@.len() && i as int == key_index(self.ctx().vars, name@),
                None => key_index(self.ctx().vars, name@) == -1,
            },
    {
        let ghost t = self.ctx().vars;
        let mut i: usize = 0;
        while i < self.vars.len()
            invariant
                i <= self.vars.len(),
                t == view_vars(self.vars@),
                forall|j: int| 0 <= j < i ==> t[j].0 != name@,
            decreases self.vars.len() - i,
        {
            if self.vars[i].0 == *name {
                proof { lemma_key_index(t, name@, i as int); }
                return Some(i);
            }
            i += 1;
        }
        proof { lemma_key_index(t, name@, i as int); }
        None
    }

    fn lookup_var(&self, name: &String) -> (r: Option<Type>)
        ensures
            r == lookup(self.ctx().vars, name@),
    {
        match self.var_index(name) {
            Some(i) => Some(self.vars[i].1),
            None => None,
        }
    }

    fn function_index(&self, name: &String) -> (r: Option<usize>)
        ensures
            match r {
                Some(i) => i < self.functions@.len() && i as int == key_index(self.ctx().functions, name@),
                None => key_index(self.ctx().functions, name@) == -1,
            },
    {
        let ghost t = self.ctx().functions;
        let mut i: usize = 0;
        while i < self.functions.len()
            invariant
                i <= self.functions.len(),
                t == view_fns(self.functions@),
                forall|j: int| 0 <= j < i ==> t[j].0 != name@,
            decreases self.functions.len() - i,
        {
            if self.functions[i].0 == *name {
                proof { lemma_key_index(t, name@, i as int); }
                return Some(i);
            }
            i += 1;
        }
        proof { lemma_key_index(t, name@, i as int); }
        None
    }

    fn has_sprite(&self, name: &String) -> (r: bool)
        ensures
            r == self.ctx().sprites.contains(name@),
    {
        let ghost t = self.ctx().sprites;
        let mut i: usize = 0;
        while i < self.sprites.len()
            invariant
                i <= self.sprites.len(),
                t == view_names(self.sprites@),
                forall|j: int| 0 <= j < i ==> t[j] != name@,
            decreases self.sprites.len() - i,
        {
            if self.sprites[i] == *name {
                assert(t[i as int] == name@);
                return true;
            }
            i += 1;
        }
        false
    }

    fn binop_type(lt: Type, op: Op, rt: Type) -> (r: Result<Type, AnalyzeError>)
        ensures
            type_outcome(binop_type(lt, op, rt), r),
    {
        match op {
            Op::Add | Op::Sub | Op::Mul | Op::Div | Op::Mod => {
                if lt != Type::Int {
                    Err(AnalyzeError::ArithmeticLeftNotInt)
                } else if rt != Type::Int {
                    Err(AnalyzeError::ArithmeticRightNotInt)
                } else {
                    Ok(Type::Int)
                }
            },
            Op::EqEq | Op::NotEq => {
                if lt != rt {
                    Err(AnalyzeError::ComparisonTypeMismatch(lt, rt))
                } else {
                    Ok(Type::Bool)
                }
            },
            Op::Lt | Op::Gt | Op::LtEq | Op::GtEq => {
                if lt != Type::Int || rt != Type::Int {
                    Err(AnalyzeError::OrderedComparisonNotInt)
                } else {
                    Ok(Type::Bool)
                }
            },
            Op::And | Op::Or => {
                if lt != Type::Bool {
                    Err(AnalyzeError::LogicLeftNotBool)
                } else if rt != Type::Bool {
                    Err(AnalyzeError::LogicRightNotBool)
                } else {
                    Ok(Type::Bool)
                }
            },
        }
    }

    /// A call of `name` with `args`; see `check_call`.
    fn check_fn_call(&self, name: &String, args: &Vec<Expr>) -> (r: Result<(), AnalyzeError>)
        ensures
            check_outcome(check_call(self.ctx(), name@, view_exprs(args@)), r),
        decreases args, 1int,
    {
        let ghost ctx = self.ctx();
        let ghost a = view_exprs(args@);
        let fi = match self.function_index(name) {
            None => { return Err(AnalyzeError::UndeclaredFunction(name.clone())); },
            Some(i) => i,
        };
        let nparams = self.functions[fi].1.len();
        proof {
            assert(lookup(ctx.functions, name@) == Some(view_names(self.functions@[fi as int].1@)));
        }
        if args.len() != nparams {
            return Err(AnalyzeError::WrongArgCount(name.clone(), nparams, args.len()));
        }
        let mut i: usize = 0;
        while i < args.len()
            invariant
                i <= args.len(),
                a == view_exprs(args@),
                ctx == self.ctx(),
                check_call(ctx, name@, a) == check_args(ctx, name@, a, 0),
                check_args(ctx, name@, a, 0) == check_args(ctx, name@, a, i as int),
            decreases args.len() - i,
        {
            assert(decreases_to!(args => args@[i as int]));
            let t = match self.type_of_expr(&args[i]) {
                Err(x) => { return Err(x); },
                Ok(t) => t,
            };
            if t != Type::Int {
                return Err(AnalyzeError::ArgNotInt(i + 1, name.clone(), t));
            }
            i += 1;
        }
        Ok(())
    }

    /// The type of `expr`; see `type_of`.
    pub fn type_of_expr(&self, expr: &Expr) -> (r: Result<Type, AnalyzeError>)
        ensures
            type_outcome(type_of(self.ctx(), view_expr(*expr)), r),
        decreases expr, 0int,
    {
        match expr {
            Expr::Int(_) => Ok(Type::Int),
            Expr::Bool(_) => Ok(Type::Bool),
            Expr::Var(name) => match self.lookup_var(name) {
                Some(t) => Ok(t),
                None => Err(AnalyzeError::UndeclaredVariable(name.clone())),
            },
            Expr::BinOp(l, op, r) => {
                let lt = match self.type_of_expr(l) {
                    Err(x) => { return Err(x); },
                    Ok(t) => t,
                };
                let rt = match self.type_of_expr(r) {
                    Err(x) => { return Err(x); },
                    Ok(t) => t,
                };
                Self::binop_type(lt, *op, rt)
            },
            Expr::Not(x) => {
                let t = match self.type_of_expr(x) {
                    Err(err) => { return Err(err); },
                    Ok(t) => t,
                };
                if t != Type::Bool {
                    Err(AnalyzeError::NotOperandNotBool(t))
                } else {
                    Ok(Type::Bool)
                }
            },
            Expr::Call(name, args) => match self.check_fn_call(name, args) {
                Err(x) => Err(x),
                Ok(()) => Ok(Type::Int),
            },
            Expr::Draw(x, y, sprite) => {
                let tx = match self.type_of_expr(x) {
                    Err(err) => { return Err(err); },
                    Ok(t) => t,
                };
                let ty = match self.type_of_expr(y) {
                    Err(err) => { return Err(err); },
                    Ok(t) => t,
                };
                if tx != Type::Int {
                    Err(AnalyzeError::DrawXNotInt)
                } else if ty != Type::Int {
                    Err(AnalyzeError::DrawYNotInt)
                } else if !self.has_sprite(sprite) {
                    Err(AnalyzeError::UndeclaredSprite(sprite.clone()))
                } else {
                    Ok(Type::Bool)
                }
            },
            Expr::DrawDigit(x, y, n) => {
                let tx = match self.type_of_expr(x) {
                    Err(err) => { return Err(err); },
                    Ok(t) => t,
                };
                let ty = match self.type_of_expr(y) {
                    Err(err) => { return Err(err); },
                    Ok(t) => t,
                };
                let tn = match self.type_of_expr(n) {
                    Err(err) => { return Err(err); },
                    Ok(t) => t,
                };
                if tx != Type::Int {
                    Err(AnalyzeError::DrawDigitXNotInt)
                } else if ty != Type::Int {
                    Err(AnalyzeError::DrawDigitYNotInt)
                } else if tn != Type::Int {
                    Err(AnalyzeError::DrawDigitNNotInt(tn))
                } else {
                    Ok(Type::Bool)
                }
            },
            Expr::GetKey => Ok(Type::Int),
            Expr::GetDelay => Ok(Type::Int),
            Expr::KeyPressed(k) => {
                let t = match self.type_of_expr(k) {
                    Err(err) => { return Err(err); },
                    Ok(t) => t,
                };
                if t != Type::Int {
                    Err(AnalyzeError::KeyPressedArgNotInt(t))
                } else {
                    Ok(Type::Bool)
                }
            },
            Expr::Rand(mask) => {
                let lit = match &**mask {
                    Expr::Int(_) => true,
                    _ => false,
                };
                assert(lit == (view_expr(**mask) is Int));
                if lit {
                    Ok(Type::Int)
                } else {
                    Err(AnalyzeError::RandMaskNotLiteral)
                }
            },
        }
    }
}

// ---------------------------------------------------------------------------
// Statements
// ---------------------------------------------------------------------------

/// The checks of one statement, first error left to right.
pub open spec fn check_stmt(ctx: SCtx, s: SStmt) -> CheckRes
    decreases s, 0int,
{
    match s {
        SStmt::Assign(n, e) => match lookup(ctx.vars, n) {
            None => Err(SAnalyzeError::UndeclaredVariable(n)),
            Some(vt) => match type_of(ctx, e) {
                Err(x) => Err(x),
                Ok(et) => if vt != et {
                    Err(SAnalyzeError::TypeMismatch(n, vt, et))
                } else {
                    Ok(())
                },
            },
        },
        SStmt::If(c, body, elifs, els) => match type_of(ctx, c) {
            Err(x) => Err(x),
            Ok(t) => if t != Type::Bool {
                Err(SAnalyzeError::IfConditionNotBool(t))
            } else {
                match check_block(ctx, body) {
                    Err(x) => Err(x),
                    Ok(_) => match check_elifs(ctx, elifs) {
                        Err(x) => Err(x),
                        Ok(_) => match els {
                            Some(b) => check_block(ctx, b),
                            None => Ok(()),
                        },
                    },
                }
            },
        },
        SStmt::Loop(body) => check_block(ctx, body),
        SStmt::While(c, body) => match type_of(ctx, c) {
            Err(x) => Err(x),
            Ok(t) => if t != Type::Bool {
                Err(SAnalyzeError::WhileConditionNotBool(t))
            } else {
                check_block(ctx, body)
            },
        },
        SStmt::Call(n, args) => check_call(ctx, n, args),
        SStmt::Clear => Ok(()),
        SStmt::Delay(e) => match type_of(ctx, e) {
            Err(x) => Err(x),
            Ok(t) => if t != Type::Int {
                Err(SAnalyzeError::DelayArgNotInt(t))
            } else {
                Ok(())
            },
        },
        SStmt::Beep(e) => match type_of(ctx, e) {
            Err(x) => Err(x),
            Ok(t) => if t != Type::Int {
                Err(SAnalyzeError::BeepArgNotInt(t))
            } else {
                Ok(())
            },
        },
    }
}

/// The statements of a block, first error left to right.
pub open spec fn check_block(ctx: SCtx, b: Seq<SStmt>) -> CheckRes
    decreases b, 0int,
{
    if b.len() == 0 {
        Ok(())
    } else {
        match check_block(ctx, b.drop_last()) {
            Err(x) => Err(x),
            Ok(_) => check_stmt(ctx, b[b.len() - 1]),
        }
    }
}

/// The branches of an `elif` list, first error left to right.
pub open spec fn check_elifs(ctx: SCtx, es: Seq<SElseIf>) -> CheckRes
    decreases es, 0int,
{
    if es.len() == 0 {
        Ok(())
    } else {
        match check_elifs(ctx, es.drop_last()) {
            Err(x) => Err(x),
            Ok(_) => {
                let e = es[es.len() - 1];
                match type_of(ctx, e.condition) {
                    Err(x) => Err(x),
                    Ok(t) => if t != Type::Bool {
                        Err(SAnalyzeError::ElifConditionNotBool(t))
                    } else {
                        check_block(ctx, e.body)
                    },
                }
            },
        }
    }
}

proof fn lemma_check_block_err_prefix(ctx: SCtx, s: Seq<SStmt>, k: int)
    requires
        0 <= k <= s.len(),
        check_block(ctx, s.take(k)) is Err,
    ensures
        check_block(ctx, s) == check_block(ctx, s.take(k)),
    decreases s.len() - k,
{
    if k < s.len() {
        assert(s.take(k + 1).drop_last() == s.take(k));
        lemma_check_block_err_prefix(ctx, s, k + 1);
    } else {
        assert(s.take(k) == s);
    }
}

proof fn lemma_check_elifs_err_prefix(ctx: SCtx, s: Seq<SElseIf>, k: int)
    requires
        0 <= k <= s.len(),
        check_elifs(ctx, s.take(k)) is Err,
    ensures
        check_elifs(ctx, s) == check_elifs(ctx, s.take(k)),
    decreases s.len() - k,
{
    if k < s.len() {
        assert(s.take(k + 1).drop_last() == s.take(k));
        lemma_check_elifs_err_prefix(ctx, s, k + 1);
    } else {
        assert(s.take(k) == s);
    }
}

impl Analyzer {
    fn check_cond(&self, c: &Expr, construct: u8) -> (r: Result<(), AnalyzeError>)
        requires
            construct < 3,
        ensures
            check_outcome(
                match type_of(self.ctx(), view_expr(*c)) {
                    Err(x) => Err(x),
                    Ok(t) => if t != Type::Bool {
                        Err(
                            if construct == 0 {
                                SAnalyzeError::IfConditionNotBool(t)
                            } else if construct == 1 {
                                SAnalyzeError::ElifConditionNotBool(t)
                            } else {
                                SAnalyzeError::WhileConditionNotBool(t)
                            },
                        )
                    } else {
                        Ok(())
                    },
                },
                r,
            ),
    {
        let t = match self.type_of_expr(c) {
            Err(x) => { return Err(x); },
            Ok(t) => t,
        };
        if t != Type::Bool {
            if construct == 0 {
                Err(AnalyzeError::IfConditionNotBool(t))
            } else if construct == 1 {
                Err(AnalyzeError::ElifConditionNotBool(t))
            } else {
                Err(AnalyzeError::WhileConditionNotBool(t))
            }
        } else {
            Ok(())
        }
    }

    /// The checks of one statement; see `check_stmt`.
    fn analyze_stmt(&self, stmt: &Stmt) -> (r: Result<(), AnalyzeError>)
        ensures
            check_outcome(check_stmt(self.ctx(), view_stmt(*stmt)), r),
        decreases stmt,
    {
        match stmt {
            Stmt::Assign(name, expr) => {
                let vt = match self.lookup_var(name) {
                    None => { return Err(AnalyzeError::UndeclaredVariable(name.clone())); },
                    Some(t) => t,
                };
                let et = match self.type_of_expr(expr) {
                    Err(x) => { return Err(x); },
                    Ok(t) => t,
                };
                if vt != et {
                    Err(AnalyzeError::TypeMismatch(name.clone(), vt, et))
                } else {
                    Ok(())
                }
            },
            Stmt::If(cond, body, elseifs, else_body) => {
                match self.check_cond(cond, 0) {
                    Err(x) => { return Err(x); },
                    Ok(()) => {},
                }
                match self.analyze_block(body) {
                    Err(x) => { return Err(x); },
                    Ok(()) => {},
                }
                match self.analyze_elifs(elseifs) {
                    Err(x) => { return Err(x); },
                    Ok(()) => {},
                }
                match else_body {
                    Some(b) => self.analyze_block(b),
                    None => Ok(()),
                }
            },
            Stmt::Loop(body) => self.analyze_block(body),
            Stmt::While(cond, body) => {
                match self.check_cond(cond, 2) {
                    Err(x) => { return Err(x); },
                    Ok(()) => {},
                }
                self.analyze_block(body)
            },
            Stmt::Call(name, args) => self.check_fn_call(name, args),
            Stmt::Clear => Ok(()),
            Stmt::Delay(e) => {
                let t = match self.type_of_expr(e) {
                    Err(x) => { return Err(x); },
                    Ok(t) => t,
                };
                if t != Type::Int {
                    Err(AnalyzeError::DelayArgNotInt(t))
                } else {
                    Ok(())
                }
            },
            Stmt::Beep(e) => {
                let t = match self.type_of_expr(e) {
                    Err(x) => { return Err(x); },
                    Ok(t) => t,
                };
                if t != Type::Int {
                    Err(AnalyzeError::BeepArgNotInt(t))
                } else {
                    Ok(())
                }
            },
        }
    }

    /// The statements of a block; see `check_block`.
    fn analyze_block(&self, stmts: &Vec<Stmt>) -> (r: Result<(), AnalyzeError>)
        ensures
            check_outcome(check_block(self.ctx(), view_stmts(stmts@)), r),
        decreases stmts,
    {
        let ghost b = view_stmts(stmts@);
        let ghost ctx = self.ctx();
        let mut i: usize = 0;
        assert(b.take(0) =~= Seq::<SStmt>::empty());
        while i < stmts.len()
            invariant
                i <= stmts.len(),
                b == view_stmts(stmts@),
                ctx == self.ctx(),
                check_block(ctx, b.take(i as int)) is Ok,
            decreases stmts.len() - i,
        {
            assert(decreases_to!(stmts => stmts@[i as int]));
            assert(b.take(i + 1).drop_last() == b.take(i as int));
            assert(b.take(i + 1)[i as int] == view_stmt(stmts@[i as int]));
            match self.analyze_stmt(&stmts[i]) {
                Err(x) => {
                    proof { lemma_check_block_err_prefix(ctx, b, i + 1); }
                    return Err(x);
                },
                Ok(()) => {},
            }
            i += 1;
        }
        assert(b.take(i as int) == b);
        Ok(())
    }

    /// The branches of an `elif` list; see `check_elifs`.
    fn analyze_elifs(&self, es: &Vec<ElseIf>) -> (r: Result<(), AnalyzeError>)
        ensures
            check_outcome(check_elifs(self.ctx(), view_elseifs(es@)), r),
        decreases es,
    {
        let ghost b = view_elseifs(es@);
        let ghost ctx = self.ctx();
        let mut i: usize = 0;
        assert(b.take(0) =~= Seq::<SElseIf>::empty());
        while i < es.len()
            invariant
                i <= es.len(),
                b == view_elseifs(es@),
                ctx == self.ctx(),
                check_elifs(ctx, b.take(i as int)) is Ok,
            decreases es.len() - i,
        {
            assert(decreases_to!(es => es@[i as int]));
            assert(decreases_to!(es => es@[i as int].body));
            assert(b.take(i + 1).drop_last() == b.take(i as int));
            assert(b.take(i + 1)[i as int] == crate::ast::view_elseif(es@[i as int]));
            let e = &es[i];
            match self.check_cond(&e.condition, 1) {
                Err(x) => {
                    proof { lemma_check_elifs_err_prefix(ctx, b, i + 1); }
                    return Err(x);
                },
                Ok(()) => {},
            }
            match self.analyze_block(&e.body) {
                Err(x) => {
                    proof { lemma_check_elifs_err_prefix(ctx, b, i + 1); }
                    return Err(x);
                },
                Ok(()) => {},
            }
            i += 1;
        }
        assert(b.take(i as int) == b);
        Ok(())
    }
}

// ---------------------------------------------------------------------------
// Temporary registers
// ---------------------------------------------------------------------------

pub open spec fn max_nat(a: nat, b: nat) -> nat {
    if a >= b {
        a
    } else {
        b
    }
}

/// `n`, held at `usize::MAX`.
pub open spec fn cap(n: nat) -> usize {
    if n > usize::MAX {
        usize::MAX
    } else {
        n as usize
    }
}

/// Work registers that evaluating `e` holds at once, beyond its destination.
pub open spec fn expr_temps(e: SExpr) -> nat
    decreases e,
{
    match e {
        SExpr::Int(_) | SExpr::Bool(_) | SExpr::Var(_) => 0,
        SExpr::Not(x) => expr_temps(*x),
        SExpr::BinOp(l, _, r) => max_nat(1 + expr_temps(*l), 2 + expr_temps(*r)),
        SExpr::Call(_, args) => args.len() + 1 + args_temps(args),
        SExpr::Draw(x, y, _) => max_nat(1 + expr_temps(*x), 2 + expr_temps(*y)),
        SExpr::DrawDigit(x, y, n) => max_nat(
            max_nat(1 + expr_temps(*x), 2 + expr_temps(*y)),
            3 + expr_temps(*n),
        ),
        SExpr::GetKey | SExpr::GetDelay => 0,
        SExpr::KeyPressed(k) => 1 + expr_temps(*k),
        SExpr::Rand(m) => expr_temps(*m),
    }
}

/// The largest `expr_temps` of a list; 0 for none.
pub open spec fn args_temps(args: Seq<SExpr>) -> nat
    decreases args,
{
    if args.len() == 0 {
        0
    } else {
        max_nat(args_temps(args.drop_last()), expr_temps(args[args.len() - 1]))
    }
}

pub open spec fn stmt_temps(s: SStmt) -> nat
    decreases s,
{
    match s {
        SStmt::Assign(_, e) => expr_temps(e),
        SStmt::If(c, body, elifs, els) => max_nat(
            max_nat(max_nat(expr_temps(c), block_temps(body)), elifs_temps(elifs)),
            match els {
                Some(b) => block_temps(b),
                None => 0,
            },
        ),
        SStmt::Loop(body) => block_temps(body),
        SStmt::While(c, body) => max_nat(expr_temps(c), block_temps(body)),
        SStmt::Call(_, args) => args.len() + 1 + args_temps(args),
        SStmt::Clear => 0,
        SStmt::Delay(e) | SStmt::Beep(e) => expr_temps(e),
    }
}

/// The largest `stmt_temps` of a block; 0 for an empty block.
pub open spec fn block_temps(b: Seq<SStmt>) -> nat
    decreases b,
{
    if b.len() == 0 {
        0
    } else {
        max_nat(block_temps(b.drop_last()), stmt_temps(b[b.len() - 1]))
    }
}

pub open spec fn elifs_temps(es: Seq<SElseIf>) -> nat
    decreases es,
{
    if es.len() == 0 {
        0
    } else {
        let e = es[es.len() - 1];
        max_nat(elifs_temps(es.drop_last()), max_nat(expr_temps(e.condition), block_temps(e.body)))
    }
}

/// `a + b`, held at `usize::MAX`.
fn add_capped(a: usize, b: usize) -> (r: usize)
    ensures
        r == cap(a as nat + b as nat),
{
    if a > usize::MAX - b {
        usize::MAX
    } else {
        a + b
    }
}

fn max_usize(a: usize, b: usize) -> (r: usize)
    ensures
        r == max_nat(a as nat, b as nat),
{
    if a >= b {
        a
    } else {
        b
    }
}

proof fn lemma_cap_add(a: nat, n: nat)
    ensures
        cap(cap(a) as nat + n) == cap(a + n),
{
}

proof fn lemma_cap_max(a: nat, b: nat)
    ensures
        cap(max_nat(a, b)) == max_nat(cap(a) as nat, cap(b) as nat),
{
}

impl Analyzer {
    /// `expr_temps`, held at `usize::MAX`.
    fn expr_temp_depth(&self, expr: &Expr) -> (r: usize)
        ensures
            r == cap(expr_temps(view_expr(*expr))),
        decreases expr,
    {
        match expr {
            Expr::Int(_) | Expr::Bool(_) | Expr::Var(_) => 0,
            Expr::Not(e) => self.expr_temp_depth(e),
            Expr::BinOp(l, _, r) => {
                let ld = self.expr_temp_depth(l);
                let rd = self.expr_temp_depth(r);
                proof {
                    lemma_cap_add(expr_temps(view_expr(**l)), 1);
                    lemma_cap_add(expr_temps(view_expr(**r)), 2);
                    lemma_cap_max(1 + expr_temps(view_expr(**l)), 2 + expr_temps(view_expr(**r)));
                }
                max_usize(add_capped(ld, 1), add_capped(rd, 2))
            },
            Expr::Call(_, args) => {
                let ad = self.args_temp_depth(args);
                proof {
                    lemma_cap_add(args_temps(view_exprs(args@)), args@.len() + 1);
                }
                add_capped(ad, add_capped(args.len(), 1))
            },
            Expr::Draw(x, y, _) => {
                let xd = self.expr_temp_depth(x);
                let yd = self.expr_temp_depth(y);
                proof {
                    lemma_cap_add(expr_temps(view_expr(**x)), 1);
                    lemma_cap_add(expr_temps(view_expr(**y)), 2);
                    lemma_cap_max(1 + expr_temps(view_expr(**x)), 2 + expr_temps(view_expr(**y)));
                }
                max_usize(add_capped(xd, 1), add_capped(yd, 2))
            },
            Expr::DrawDigit(x, y, n) => {
                let xd = self.expr_temp_depth(x);
                let yd = self.expr_temp_depth(y);
                let nd = self.expr_temp_depth(n);
                proof {
                    let tx = expr_temps(view_expr(**x));
                    let ty = expr_temps(view_expr(**y));
                    let tn = expr_temps(view_expr(**n));
                    lemma_cap_add(tx, 1);
                    lemma_cap_add(ty, 2);
                    lemma_cap_add(tn, 3);
                    lemma_cap_max(1 + tx, 2 + ty);
                    lemma_cap_max(max_nat(1 + tx, 2 + ty), 3 + tn);
                }
                max_usize(max_usize(add_capped(xd, 1), add_capped(yd, 2)), add_capped(nd, 3))
            },
            Expr::GetKey | Expr::GetDelay => 0,
            Expr::KeyPressed(k) => {
                let kd = self.expr_temp_depth(k);
                proof { lemma_cap_add(expr_temps(view_expr(**k)), 1); }
                add_capped(kd, 1)
            },
            Expr::Rand(m) => self.expr_temp_depth(m),
        }
    }

    /// `args_temps`, held at `usize::MAX`.
    fn args_temp_depth(&self, args: &Vec<Expr>) -> (r: usize)
        ensures
            r == cap(args_temps(view_exprs(args@))),
        decreases args,
    {
        let ghost a = view_exprs(args@);
        let mut m: usize = 0;
        let mut i: usize = 0;
        assert(a.take(0) =~= Seq::<SExpr>::empty());
        while i < args.len()
            invariant
                i <= args.len(),
                a == view_exprs(args@),
                m == cap(args_temps(a.take(i as int))),
            decreases args.len() - i,
        {
            assert(decreases_to!(args => args@[i as int]));
            assert(a.take(i + 1).drop_last() == a.take(i as int));
            assert(a.take(i + 1)[i as int] == view_expr(args@[i as int]));
            let d = self.expr_temp_depth(&args[i]);
            proof { lemma_cap_max(args_temps(a.take(i as int)), expr_temps(view_expr(args@[i as int]))); }
            m = max_usize(m, d);
            i += 1;
        }
        assert(a.take(i as int) == a);
        m
    }

    /// `stmt_temps`, held at `usize::MAX`.
    fn stmt_temp_depth(&self, stmt: &Stmt) -> (r: usize)
        ensures
            r == cap(stmt_temps(view_stmt(*stmt))),
        decreases stmt,
    {
        match stmt {
            Stmt::Assign(_, e) => self.expr_temp_depth(e),
            Stmt::If(c, body, elifs, els) => {
                let cd = self.expr_temp_depth(c);
                let bd = self.block_temp_depth(body);
                let ed = self.elifs_temp_depth(elifs);
                let xd = match els {
                    Some(b) => self.block_temp_depth(b),
                    None => 0,
                };
                proof {
                    let tc = expr_temps(view_expr(*c));
                    let tb = block_temps(view_stmts(body@));
                    let te = elifs_temps(view_elseifs(elifs@));
                    let tx: nat = match els {
                        Some(b) => block_temps(view_stmts(b@)),
                        None => 0,
                    };
                    lemma_cap_max(tc, tb);
                    lemma_cap_max(max_nat(tc, tb), te);
                    lemma_cap_max(max_nat(max_nat(tc, tb), te), tx);
                }
                max_usize(max_usize(max_usize(cd, bd), ed), xd)
            },
            Stmt::Loop(body) => self.block_temp_depth(body),
            Stmt::While(c, body) => {
                let cd = self.expr_temp_depth(c);
                let bd = self.block_temp_depth(body);
                proof { lemma_cap_max(expr_temps(view_expr(*c)), block_temps(view_stmts(body@))); }
                max_usize(cd, bd)
            },
            Stmt::Call(_, args) => {
                let ad = self.args_temp_depth(args);
                proof {
                    lemma_cap_add(args_temps(view_exprs(args@)), args@.len() + 1);
                }
                add_capped(ad, add_capped(args.len(), 1))
            },
            Stmt::Clear => 0,
            Stmt::Delay(e) => self.expr_temp_depth(e),
            Stmt::Beep(e) => self.expr_temp_depth(e),
        }
    }

    /// `block_temps`, held at `usize::MAX`.
    fn block_temp_depth(&self, stmts: &Vec<Stmt>) -> (r: usize)
        ensures
            r == cap(block_temps(view_stmts(stmts@))),
        decreases stmts,
    {
        let ghost b = view_stmts(stmts@);
        let mut m: usize = 0;
        let mut i: usize = 0;
        assert(b.take(0) =~= Seq::<SStmt>::empty());
        while i < stmts.len()
            invariant
                i <= stmts.len(),
                b == view_stmts(stmts@),
                m == cap(block_temps(b.take(i as int))),
            decreases stmts.len() - i,
        {
            assert(decreases_to!(stmts => stmts@[i as int]));
            assert(b.take(i + 1).drop_last() == b.take(i as int));
            assert(b.take(i + 1)[i as int] == view_stmt(stmts@[i as int]));
            let d = self.stmt_temp_depth(&stmts[i]);
            proof { lemma_cap_max(block_temps(b.take(i as int)), stmt_temps(view_stmt(stmts@[i as int]))); }
            m = max_usize(m, d);
            i += 1;
        }
        assert(b.take(i as int) == b);
        m
    }

    fn elifs_temp_depth(&self, es: &Vec<ElseIf>) -> (r: usize)
        ensures
            r == cap(elifs_temps(view_elseifs(es@))),
        decreases es,
    {
        let ghost b = view_elseifs(es@);
        let mut m: usize = 0;
        let mut i: usize = 0;
        assert(b.take(0) =~= Seq::<SElseIf>::empty());
        while i < es.len()
            invariant
                i <= es.len(),
                b == view_elseifs(es@),
                m == cap(elifs_temps(b.take(i as int))),
            decreases es.len() - i,
        {
            assert(decreases_to!(es => es@[i as int]));
            assert(decreases_to!(es => es@[i as int].body));
            assert(b.take(i + 1).drop_last() == b.take(i as int));
            assert(b.take(i + 1)[i as int] == crate::ast::view_elseif(es@[i as int]));
            let e = &es[i];
            let cd = self.expr_temp_depth(&e.condition);
            let bd = self.block_temp_depth(&e.body);
            proof {
                let tc = expr_temps(view_expr(e.condition));
                let tb = block_temps(view_stmts(e.body@));
                lemma_cap_max(tc, tb);
                lemma_cap_max(elifs_temps(b.take(i as int)), max_nat(tc, tb));
            }
            m = max_usize(m, max_usize(cd, bd));
            i += 1;
        }
        assert(b.take(i as int) == b);
        m
    }
}

// ---------------------------------------------------------------------------
// Declarations
// ---------------------------------------------------------------------------

/// Rows of a sprite: those written inline, or the size of its file as
/// listed in `files` (path, size); a file not listed does not exist.
pub open spec fn sprite_height(d: SSpriteData, files: Seq<(Seq<char>, u64)>) -> Result<nat, SAnalyzeError> {
    match d {
        SSpriteData::Inline(b) => Ok(b.len()),
        SSpriteData::File(path) => match lookup(files, path) {
            None => Err(SAnalyzeError::SpriteFileNotFound(path)),
            Some(h) => Ok(h as nat),
        },
    }
}

/// The sprite names after the sprites of `ss` are checked (1 to 15 rows)
/// and added to `known`, first error in order.
pub open spec fn collect_sprites(known: Seq<Seq<char>>, ss: Seq<crate::ast::SSpriteDecl>, files: Seq<(Seq<char>, u64)>) -> Result<
    Seq<Seq<char>>,
    SAnalyzeError,
>
    decreases ss.len(),
{
    if ss.len() == 0 {
        Ok(known)
    } else {
        match collect_sprites(known, ss.drop_last(), files) {
            Err(x) => Err(x),
            Ok(names) => {
                let s = ss[ss.len() - 1];
                match sprite_height(s.data, files) {
                    Err(x) => Err(x),
                    Ok(h) => if h == 0 {
                        Err(SAnalyzeError::EmptySprite(s.name))
                    } else if h > 15 {
                        Err(SAnalyzeError::SpriteTooTall(s.name, h as u64))
                    } else {
                        Ok(names.push(s.name))
                    },
                }
            },
        }
    }
}

/// Built from literals and operators only.
pub open spec fn is_constant(e: SExpr) -> bool
    decreases e,
{
    match e {
        SExpr::Int(_) | SExpr::Bool(_) => true,
        SExpr::Not(x) => is_constant(*x),
        SExpr::BinOp(l, _, r) => is_constant(*l) && is_constant(*r),
        _ => false,
    }
}

/// The variable table after the globals of `vs` are declared in order, each
/// with the type of its (constant) initial value.
pub open spec fn collect_vars(ctx: SCtx, vs: Seq<crate::ast::SVarDecl>) -> Result<Seq<(Seq<char>, Type)>, SAnalyzeError>
    decreases vs.len(),
{
    if vs.len() == 0 {
        Ok(ctx.vars)
    } else {
        match collect_vars(ctx, vs.drop_last()) {
            Err(x) => Err(x),
            Ok(t) => {
                let v = vs[vs.len() - 1];
                if !is_constant(v.value) {
                    Err(SAnalyzeError::NonConstantInitializer(v.name))
                } else {
                    match type_of(SCtx { vars: t, ..ctx }, v.value) {
                        Err(x) => Err(x),
                        Ok(ty) => Ok(assoc_insert(t, v.name, ty)),
                    }
                }
            },
        }
    }
}

/// The function table after the functions of `fs` are added in order.
pub open spec fn collect_functions(t: Seq<(Seq<char>, Seq<Seq<char>>)>, fs: Seq<crate::ast::SFnDecl>) -> Seq<
    (Seq<char>, Seq<Seq<char>>),
>
    decreases fs.len(),
{
    if fs.len() == 0 {
        t
    } else {
        let f = fs[fs.len() - 1];
        assoc_insert(collect_functions(t, fs.drop_last()), f.name, f.args)
    }
}

/// Names of the variables, then the functions, then the sprites.
pub open spec fn decl_names(p: SProgram) -> Seq<Seq<char>> {
    p.vars.map_values(|v: crate::ast::SVarDecl| v.name) + p.functions.map_values(|f: crate::ast::SFnDecl| f.name)
        + p.sprites.map_values(|s: crate::ast::SSpriteDecl| s.name)
}

/// The error for the name at position `i` of `decl_names` being taken.
pub open spec fn taken_error(p: SProgram, i: int) -> SAnalyzeError {
    let n = decl_names(p)[i];
    if i < p.vars.len() {
        SAnalyzeError::DuplicateName(n)
    } else if i < p.vars.len() + p.functions.len() {
        SAnalyzeError::FunctionNameCollision(n)
    } else {
        SAnalyzeError::SpriteNameCollision(n)
    }
}

/// No name of `decl_names` among its first `k` repeats an earlier one.
pub open spec fn unique_upto(p: SProgram, k: int) -> CheckRes
    decreases k,
{
    if k <= 0 {
        Ok(())
    } else {
        match unique_upto(p, k - 1) {
            Err(x) => Err(x),
            Ok(_) => if decl_names(p).take(k - 1).contains(decl_names(p)[k - 1]) {
                Err(taken_error(p, k - 1))
            } else {
                Ok(())
            },
        }
    }
}

/// Variables, functions and sprites share one namespace.
pub open spec fn names_unique(p: SProgram) -> CheckRes {
    unique_upto(p, decl_names(p).len() as int)
}

/// The call graph admits no recursion and nests at most 16 calls.  A cycle
/// is reported without saying which one here; see `analyze_outcome`.
pub open spec fn graph_check(g: crate::callgraph::SCallGraph) -> CheckRes {
    if crate::callgraph::has_cycle(g) {
        Err(SAnalyzeError::RecursiveCall(Seq::empty()))
    } else if crate::callgraph::call_depth(g) > 16 {
        Err(SAnalyzeError::CallChainTooDeep(cap(crate::callgraph::call_depth(g))))
    } else {
        Ok(())
    }
}

/// Adds `names`, each of type `ty`, to the table, in order.
pub open spec fn insert_all(t: Seq<(Seq<char>, Type)>, names: Seq<Seq<char>>, ty: Type) -> Seq<(Seq<char>, Type)>
    decreases names.len(),
{
    if names.len() == 0 {
        t
    } else {
        assoc_insert(insert_all(t, names.drop_last(), ty), names[names.len() - 1], ty)
    }
}

/// Drops `names` from the table, in order.
pub open spec fn remove_all(t: Seq<(Seq<char>, Type)>, names: Seq<Seq<char>>) -> Seq<(Seq<char>, Type)>
    decreases names.len(),
{
    if names.len() == 0 {
        t
    } else {
        assoc_remove(remove_all(t, names.drop_last()), names[names.len() - 1])
    }
}

/// The checks of one function: its parameters and return variable join
/// the variables as `int`, its body is checked, the registers it needs
/// must fit, then they leave the table again.  Gives the table after.
pub open spec fn check_function(ctx: SCtx, f: crate::ast::SFnDecl, nglobals: nat) -> Result<Seq<(Seq<char>, Type)>, SAnalyzeError> {
    let inner = assoc_insert(insert_all(ctx.vars, f.args, Type::Int), f.ret, Type::Int);
    match check_block(SCtx { vars: inner, ..ctx }, f.body) {
        Err(x) => Err(x),
        Ok(_) => if inner.len() + block_temps(f.body) > 14 {
            Err(
                SAnalyzeError::FunctionRegisterBudget(
                    f.name,
                    nglobals as usize,
                    f.args.len() as usize,
                    cap(block_temps(f.body)),
                    cap(inner.len() + block_temps(f.body)),
                ),
            )
        } else {
            Ok(assoc_remove(remove_all(inner, f.args), f.ret))
        },
    }
}

/// The functions checked in order, the variable table threaded through.
pub open spec fn check_functions(ctx: SCtx, fs: Seq<crate::ast::SFnDecl>, nglobals: nat) -> Result<
    Seq<(Seq<char>, Type)>,
    SAnalyzeError,
>
    decreases fs.len(),
{
    if fs.len() == 0 {
        Ok(ctx.vars)
    } else {
        match check_functions(ctx, fs.drop_last(), nglobals) {
            Err(x) => Err(x),
            Ok(t) => check_function(SCtx { vars: t, ..ctx }, fs[fs.len() - 1], nglobals),
        }
    }
}

/// After `main`: each function, then the register budget of `main`.
pub open spec fn check_rest(c2: SCtx, p: SProgram) -> Result<SCtx, SAnalyzeError> {
    match check_functions(c2, p.functions, p.vars.len()) {
        Err(x) => Err(x),
        Ok(t) => if t.len() + block_temps(p.main) > 14 {
            Err(SAnalyzeError::RegisterBudget(p.vars.len() as usize, cap(block_temps(p.main)), cap(t.len() + block_temps(p.main))))
        } else {
            Ok(SCtx { vars: t, ..c2 })
        },
    }
}

/// The whole analysis from symbol tables `ctx0`: sprites, variables,
/// functions, unique names, the call graph, `main`, each function, and the
/// register budget of `main`.  Gives the symbol tables at the end.
pub open spec fn analyze_spec(ctx0: SCtx, p: SProgram, files: Seq<(Seq<char>, u64)>) -> Result<SCtx, SAnalyzeError> {
    match collect_sprites(ctx0.sprites, p.sprites, files) {
        Err(x) => Err(x),
        Ok(sprites) => {
            let c1 = SCtx { sprites, ..ctx0 };
            if p.vars.len() > 14 {
                Err(SAnalyzeError::TooManyVariables(p.vars.len() as usize))
            } else {
                match collect_vars(c1, p.vars) {
                    Err(x) => Err(x),
                    Ok(vars) => {
                        let c2 = SCtx { vars, functions: collect_functions(c1.functions, p.functions), ..c1 };
                        match names_unique(p) {
                            Err(x) => Err(x),
                            Ok(_) => match graph_check(crate::callgraph::call_graph(p)) {
                                Err(x) => Err(x),
                                Ok(_) => match check_block(c2, p.main) {
                                    Err(x) => Err(x),
                                    Ok(_) => check_rest(c2, p),
                                },
                            },
                        }
                    },
                }
            }
        },
    }
}

/// `r` is what `analyze_spec` gives; where that is a recursion error, `r`
/// names one cycle of the call graph.
pub open spec fn analyze_outcome(s: Result<SCtx, SAnalyzeError>, p: SProgram, r: Result<(), AnalyzeError>, after: SCtx) -> bool {
    match s {
        Ok(c) => r is Ok && after == c,
        Err(x) => r is Err && (r->Err_0@ == x || (x is RecursiveCall && exists|c: Seq<usize>|
            crate::callgraph::is_cycle(crate::callgraph::call_graph(p), c) && r->Err_0@ == SAnalyzeError::RecursiveCall(
                c.map_values(|i: usize| crate::callgraph::call_graph(p).names[i as int]),
            ))),
    }
}

/// The first `k` declared names are pairwise distinct exactly when
/// `unique_upto` finds nothing taken.
proof fn lemma_unique_upto(p: SProgram, k: int)
    requires
        0 <= k <= decl_names(p).len(),
    ensures
        unique_upto(p, k) is Ok <==> (forall|i: int, j: int|
            0 <= i < j < k ==> #[trigger] decl_names(p)[i] != #[trigger] decl_names(p)[j]),
    decreases k,
{
    let names = decl_names(p);
    if k > 0 {
        lemma_unique_upto(p, k - 1);
        if names.take(k - 1).contains(names[k - 1]) {
            let i = choose|i: int| 0 <= i < k - 1 && #[trigger] names.take(k - 1)[i] == names[k - 1];
            assert(names[i] == names[k - 1]);
        } else {
            assert forall|i: int, j: int| 0 <= i < j < k && j == k - 1 implies #[trigger] names[i] != #[trigger] names[j] by {
                if names[i] == names[j] {
                    assert(names.take(k - 1)[i] == names[k - 1]);
                }
            }
        }
    }
}

/// Law: a program the analyzer accepts has at most 14 globals, names
/// that are pairwise distinct across variables, functions and sprites, no
/// recursion, and at most 16 nested calls below `main`.
pub proof fn lemma_accepted_limits(ctx0: SCtx, p: SProgram, files: Seq<(Seq<char>, u64)>)
    ensures
        analyze_spec(ctx0, p, files) is Ok ==> {
            &&& p.vars.len() <= 14
            &&& decl_names(p).no_duplicates()
            &&& !crate::callgraph::has_cycle(crate::callgraph::call_graph(p))
            &&& crate::callgraph::call_depth(crate::callgraph::call_graph(p)) <= 16
        },
{
    lemma_unique_upto(p, decl_names(p).len() as int);
    let names = decl_names(p);
    if names_unique(p) is Ok {
        assert forall|i: int, j: int| 0 <= i < names.len() && 0 <= j < names.len() && i != j implies names[i] != names[j] by {
            if i < j {
                assert(names[i] != names[j]);
            } else {
                assert(names[j] != names[i]);
            }
        }
    }
}

pub open spec fn view_files(files: Seq<(String, u64)>) -> Seq<(Seq<char>, u64)> {
    files.map_values(|p: (String, u64)| (p.0@, p.1))
}

fn file_size(files: &Vec<(String, u64)>, path: &String) -> (r: Option<u64>)
    ensures
        r == lookup(view_files(files@), path@),
{
    let ghost t = view_files(files@);
    let mut i: usize = 0;
    while i < files.len()
        invariant
            i <= files.len(),
            t == view_files(files@),
            forall|j: int| 0 <= j < i ==> t[j].0 != path@,
        decreases files.len() - i,
    {
        if files[i].0 == *path {
            proof { lemma_key_index(t, path@, i as int); }
            return Some(files[i].1);
        }
        i += 1;
    }
    proof { lemma_key_index(t, path@, i as int); }
    None
}

impl Analyzer {
    /// Sets the type of variable `name`, adding it if absent.
    fn set_var(&mut self, name: String, t: Type)
        ensures
            final(self).ctx() == (SCtx { vars: assoc_insert(old(self).ctx().vars, name@, t), ..old(self).ctx() }),
    {
        let ghost v0 = view_vars(self.vars@);
        proof { lemma_key_index_bounds(v0, name@); }
        match self.var_index(&name) {
            Some(i) => {
                let ghost n = name@;
                self.vars.set(i, (name, t));
                assert(view_vars(self.vars@) =~= v0.update(i as int, (n, t)));
            },
            None => {
                let ghost n = name@;
                self.vars.push((name, t));
                assert(view_vars(self.vars@) =~= v0.push((n, t)));
            },
        }
    }

    /// Drops variable `name`, if present.
    fn remove_var(&mut self, name: &String)
        ensures
            final(self).ctx() == (SCtx { vars: assoc_remove(old(self).ctx().vars, name@), ..old(self).ctx() }),
    {
        let ghost v0 = view_vars(self.vars@);
        proof { lemma_key_index_bounds(v0, name@); }
        match self.var_index(name) {
            Some(i) => {
                self.vars.remove(i);
                assert(view_vars(self.vars@) =~= v0.remove(i as int));
            },
            None => {},
        }
    }

    fn set_function(&mut self, name: String, args: Vec<String>, ret: String)
        ensures
            final(self).ctx() == (SCtx {
                functions: assoc_insert(old(self).ctx().functions, name@, view_names(args@)),
                ..old(self).ctx()
            }),
    {
        let ghost f0 = view_fns(self.functions@);
        proof { lemma_key_index_bounds(f0, name@); }
        let ghost entry = (name@, view_names(args@));
        match self.function_index(&name) {
            Some(i) => {
                self.functions.set(i, (name, args, ret));
                assert(view_fns(self.functions@) =~= f0.update(i as int, entry));
            },
            None => {
                self.functions.push((name, args, ret));
                assert(view_fns(self.functions@) =~= f0.push(entry));
            },
        }
    }

    /// Checks the sprites and records their names; see `collect_sprites`.
    fn collect_sprites(&mut self, program: &Program, files: &Vec<(String, u64)>) -> (r: Result<(), AnalyzeError>)
        ensures
            match collect_sprites(old(self).ctx().sprites, program@.sprites, view_files(files@)) {
                Ok(names) => r is Ok && final(self).ctx() == (SCtx { sprites: names, ..old(self).ctx() }),
                Err(x) => r is Err && r->Err_0@ == x,
            },
    {
        let ghost c0 = self.ctx();
        let ghost ss = program@.sprites;
        let ghost fv = view_files(files@);
        let mut i: usize = 0;
        assert(ss.take(0) =~= Seq::<crate::ast::SSpriteDecl>::empty());
        while i < program.sprites.len()
            invariant
                i <= program.sprites.len(),
                c0 == old(self).ctx(),
                ss == program@.sprites,
                ss.len() == program.sprites@.len(),
                fv == view_files(files@),
                collect_sprites(c0.sprites, ss.take(i as int), fv) == Ok::<Seq<Seq<char>>, SAnalyzeError>(self.ctx().sprites),
                self.ctx().vars == c0.vars,
                self.ctx().functions == c0.functions,
            decreases program.sprites.len() - i,
        {
            assert(ss.take(i + 1).drop_last() == ss.take(i as int));
            let sprite = &program.sprites[i];
            assert(ss.take(i + 1)[i as int] == sprite@);
            let height: u64 = match &sprite.data {
                SpriteData::Inline(bytes) => bytes.len() as u64,
                SpriteData::File(path) => match file_size(files, path) {
                    None => {
                        proof { lemma_collect_sprites_err(c0.sprites, ss, fv, i as int + 1); }
                        return Err(AnalyzeError::SpriteFileNotFound(path.clone()));
                    },
                    Some(h) => h,
                },
            };
            if height == 0 {
                proof { lemma_collect_sprites_err(c0.sprites, ss, fv, i as int + 1); }
                return Err(AnalyzeError::EmptySprite(sprite.name.clone()));
            }
            if height > 15 {
                proof { lemma_collect_sprites_err(c0.sprites, ss, fv, i as int + 1); }
                return Err(AnalyzeError::SpriteTooTall(sprite.name.clone(), height));
            }
            let ghost s0 = self.sprites@;
            self.sprites.push(sprite.name.clone());
            assert(view_names(self.sprites@) =~= view_names(s0).push(sprite.name@));
            i += 1;
        }
        assert(ss.take(i as int) == ss);
        Ok(())
    }
}

proof fn lemma_collect_sprites_err(known: Seq<Seq<char>>, ss: Seq<crate::ast::SSpriteDecl>, files: Seq<(Seq<char>, u64)>, k: int)
    requires
        0 <= k <= ss.len(),
        collect_sprites(known, ss.take(k), files) is Err,
    ensures
        collect_sprites(known, ss, files) == collect_sprites(known, ss.take(k), files),
    decreases ss.len() - k,
{
    if k < ss.len() {
        assert(ss.take(k + 1).drop_last() == ss.take(k));
        lemma_collect_sprites_err(known, ss, files, k + 1);
    } else {
        assert(ss.take(k) == ss);
    }
}

proof fn lemma_collect_vars_err(ctx: SCtx, vs: Seq<crate::ast::SVarDecl>, k: int)
    requires
        0 <= k <= vs.len(),
        collect_vars(ctx, vs.take(k)) is Err,
    ensures
        collect_vars(ctx, vs) == collect_vars(ctx, vs.take(k)),
    decreases vs.len() - k,
{
    if k < vs.len() {
        assert(vs.take(k + 1).drop_last() == vs.take(k));
        lemma_collect_vars_err(ctx, vs, k + 1);
    } else {
        assert(vs.take(k) == vs);
    }
}

proof fn lemma_unique_err(p: SProgram, k: int, m: int)
    requires
        0 <= k <= m,
        unique_upto(p, k) is Err,
    ensures
        unique_upto(p, m) == unique_upto(p, k),
    decreases m - k,
{
    if k < m {
        lemma_unique_err(p, k, m - 1);
    }
}

proof fn lemma_check_functions_err(ctx: SCtx, fs: Seq<crate::ast::SFnDecl>, n: nat, k: int)
    requires
        0 <= k <= fs.len(),
        check_functions(ctx, fs.take(k), n) is Err,
    ensures
        check_functions(ctx, fs, n) == check_functions(ctx, fs.take(k), n),
    decreases fs.len() - k,
{
    if k < fs.len() {
        assert(fs.take(k + 1).drop_last() == fs.take(k));
        lemma_check_functions_err(ctx, fs, n, k + 1);
    } else {
        assert(fs.take(k) == fs);
    }
}

/// Built from literals and operators only; see `is_constant`.
fn is_constant_expr(e: &Expr) -> (r: bool)
    ensures
        r == is_constant(view_expr(*e)),
    decreases e,
{
    match e {
        Expr::Int(_) | Expr::Bool(_) => true,
        Expr::Not(x) => is_constant_expr(x),
        Expr::BinOp(l, _, r) => is_constant_expr(l) && is_constant_expr(r),
        _ => false,
    }
}

/// Whether `name` is among the first `len` entries of `seen`.
/// Appends a copy of `s`.
fn push_name(v: &mut Vec<String>, s: &String)
    ensures
        view_names(final(v)@) == view_names(old(v)@).push(s@),
{
    let c = s.clone();
    v.push(c);
    assert(view_names(v@) =~= view_names(old(v)@).push(s@));
}

fn seen_before(seen: &Vec<String>, name: &String) -> (r: bool)
    ensures
        r == view_names(seen@).contains(name@),
{
    let mut i: usize = 0;
    while i < seen.len()
        invariant
            i <= seen.len(),
            forall|j: int| 0 <= j < i ==> view_names(seen@)[j] != name@,
        decreases seen.len() - i,
    {
        if seen[i] == *name {
            assert(view_names(seen@)[i as int] == name@);
            return true;
        }
        i += 1;
    }
    false
}

impl Analyzer {
    /// Declares the global variables; see `collect_vars`.
    fn collect_vars(&mut self, program: &Program) -> (r: Result<(), AnalyzeError>)
        ensures
            match collect_vars(old(self).ctx(), program@.vars) {
                Ok(t) => r is Ok && final(self).ctx() == (SCtx { vars: t, ..old(self).ctx() }),
                Err(x) => r is Err && r->Err_0@ == x,
            },
    {
        let ghost c0 = self.ctx();
        let ghost vs = program@.vars;
        let mut i: usize = 0;
        assert(vs.take(0) =~= Seq::<crate::ast::SVarDecl>::empty());
        while i < program.vars.len()
            invariant
                i <= program.vars.len(),
                vs == program@.vars,
                vs.len() == program.vars@.len(),
                c0 == old(self).ctx(),
                collect_vars(c0, vs.take(i as int)) == Ok::<Seq<(Seq<char>, Type)>, SAnalyzeError>(self.ctx().vars),
                self.ctx().sprites == c0.sprites,
                self.ctx().functions == c0.functions,
            decreases program.vars.len() - i,
        {
            assert(vs.take(i + 1).drop_last() == vs.take(i as int));
            let var = &program.vars[i];
            assert(vs.take(i + 1)[i as int] == var@);
            if !is_constant_expr(&var.value) {
                proof { lemma_collect_vars_err(c0, vs, i as int + 1); }
                return Err(AnalyzeError::NonConstantInitializer(var.name.clone()));
            }
            assert(SCtx { vars: self.ctx().vars, ..c0 } == self.ctx());
            let t = match self.type_of_expr(&var.value) {
                Err(x) => {
                    proof { lemma_collect_vars_err(c0, vs, i as int + 1); }
                    return Err(x);
                },
                Ok(t) => t,
            };
            self.set_var(var.name.clone(), t);
            i += 1;
        }
        assert(vs.take(i as int) == vs);
        Ok(())
    }

    /// Records every function's parameters; see `collect_functions`.
    fn collect_functions(&mut self, program: &Program)
        ensures
            final(self).ctx() == (SCtx {
                functions: collect_functions(old(self).ctx().functions, program@.functions),
                ..old(self).ctx()
            }),
    {
        let ghost c0 = self.ctx();
        let ghost fs = program@.functions;
        let mut i: usize = 0;
        assert(fs.take(0) =~= Seq::<crate::ast::SFnDecl>::empty());
        while i < program.functions.len()
            invariant
                i <= program.functions.len(),
                fs == program@.functions,
                fs.len() == program.functions@.len(),
                c0 == old(self).ctx(),
                self.ctx() == (SCtx { functions: collect_functions(c0.functions, fs.take(i as int)), ..c0 }),
            decreases program.functions.len() - i,
        {
            assert(fs.take(i + 1).drop_last() == fs.take(i as int));
            let f = &program.functions[i];
            assert(fs.take(i + 1)[i as int] == f@);
            let mut args: Vec<String> = Vec::new();
            let mut k: usize = 0;
            while k < f.args.len()
                invariant
                    k <= f.args.len(),
                    view_names(args@) == view_names(f.args@).take(k as int),
                decreases f.args.len() - k,
            {
                push_name(&mut args, &f.args[k]);
                assert(view_names(f.args@).take(k + 1) =~= view_names(f.args@).take(k as int).push(f.args@[k as int]@));
                k += 1;
            }
            assert(view_names(f.args@).take(k as int) == view_names(f.args@));
            self.set_function(f.name.clone(), args, f.ret.clone());
            i += 1;
        }
        assert(fs.take(i as int) == fs);
    }

    /// Variables, functions and sprites share one namespace; see `names_unique`.
    fn check_name_uniqueness(&self, program: &Program) -> (r: Result<(), AnalyzeError>)
        ensures
            check_outcome(names_unique(program@), r),
    {
        let ghost p = program@;
        let ghost all = decl_names(p);
        let ghost nv = p.vars.len();
        let ghost nf = p.functions.len();
        let mut seen: Vec<String> = Vec::new();
        let mut i: usize = 0;
        assert(view_names(seen@) =~= all.take(0));
        while i < program.vars.len()
            invariant
                p == program@,
                all == decl_names(p),
                nv == p.vars.len(),
                i <= program.vars.len(),
                view_names(seen@) == all.take(i as int),
                unique_upto(p, i as int) is Ok,
            decreases program.vars.len() - i,
        {
            let name = &program.vars[i].name;
            assert(all[i as int] == name@);
            if seen_before(&seen, name) {
                proof { lemma_unique_err(p, i + 1, all.len() as int); }
                return Err(AnalyzeError::DuplicateName(name.clone()));
            }
            push_name(&mut seen, name);
            assert(all.take(i + 1) =~= all.take(i as int).push(name@));
            i += 1;
        }
        let mut j: usize = 0;
        while j < program.functions.len()
            invariant
                p == program@,
                all == decl_names(p),
                nv == p.vars.len(),
                nf == p.functions.len(),
                j <= program.functions.len(),
                view_names(seen@) == all.take(nv + j),
                unique_upto(p, nv + j) is Ok,
            decreases program.functions.len() - j,
        {
            let name = &program.functions[j].name;
            assert(all[nv + j] == name@);
            if seen_before(&seen, name) {
                proof { lemma_unique_err(p, nv + j + 1, all.len() as int); }
                return Err(AnalyzeError::FunctionNameCollision(name.clone()));
            }
            push_name(&mut seen, name);
            assert(all.take(nv + j + 1) =~= all.take(nv + j).push(name@));
            j += 1;
        }
        let mut k: usize = 0;
        while k < program.sprites.len()
            invariant
                p == program@,
                all == decl_names(p),
                nv == p.vars.len(),
                nf == p.functions.len(),
                all.len() == nv + nf + p.sprites.len(),
                k <= program.sprites.len(),
                view_names(seen@) == all.take(nv + nf + k),
                unique_upto(p, nv + nf + k) is Ok,
            decreases program.sprites.len() - k,
        {
            let name = &program.sprites[k].name;
            assert(all[nv + nf + k] == name@);
            if seen_before(&seen, name) {
                proof { lemma_unique_err(p, nv + nf + k + 1, all.len() as int); }
                return Err(AnalyzeError::SpriteNameCollision(name.clone()));
            }
            push_name(&mut seen, name);
            assert(all.take(nv + nf + k + 1) =~= all.take(nv + nf + k).push(name@));
            k += 1;
        }
        Ok(())
    }
}

/// What `check_call_graph` gives, against `graph_check`.
pub open spec fn graph_outcome(g: crate::callgraph::SCallGraph, r: Result<(), AnalyzeError>) -> bool {
    match graph_check(g) {
        Ok(_) => r is Ok,
        Err(SAnalyzeError::RecursiveCall(_)) => r is Err && exists|c: Seq<usize>|
            crate::callgraph::is_cycle(g, c) && r->Err_0@ == SAnalyzeError::RecursiveCall(
                c.map_values(|i: usize| g.names[i as int]),
            ),
        Err(x) => r is Err && r->Err_0@ == x,
    }
}

impl Analyzer {
    /// No recursion, and at most 16 nested calls from `main`.
    fn check_call_graph(&self, program: &Program) -> (r: Result<(), AnalyzeError>)
        ensures
            graph_outcome(crate::callgraph::call_graph(program@), r),
    {
        let g = crate::callgraph::build_call_graph(program);
        let ghost gv = g.view_graph();
        match crate::callgraph::find_cycle(&g) {
            Some(c) => {
                let mut names: Vec<String> = Vec::new();
                let mut i: usize = 0;
                while i < c.len()
                    invariant
                        i <= c@.len(),
                        gv == g.view_graph(),
                        crate::callgraph::is_cycle(gv, c@),
                        view_names(names@) == c@.take(i as int).map_values(|x: usize| gv.names[x as int]),
                    decreases c@.len() - i,
                {
                    let x = c[i];
                    if i + 1 < c.len() {
                        assert(crate::callgraph::edge(gv, c@[i as int] as int, c@[i + 1] as int));
                    } else {
                        assert(crate::callgraph::edge(gv, c@[i - 1] as int, c@[i as int] as int));
                    }
                    let nm = g.names[x].clone();
                    let ghost n0 = names@;
                    let ghost nmv = nm@;
                    names.push(nm);
                    assert(view_names(names@) =~= view_names(n0).push(nmv));
                    assert(c@.take(i + 1).map_values(|x: usize| gv.names[x as int])
                        =~= c@.take(i as int).map_values(|x: usize| gv.names[x as int]).push(gv.names[x as int]));
                    i += 1;
                }
                assert(c@.take(i as int) == c@);
                Err(AnalyzeError::RecursiveCall(names))
            },
            None => {
                proof { crate::callgraph::lemma_main_is_node(program@); }
                let d = crate::callgraph::max_call_depth(&g);
                if d > 16 {
                    Err(AnalyzeError::CallChainTooDeep(d))
                } else {
                    Ok(())
                }
            },
        }
    }

    /// The checks of one function; see `check_function`.
    fn analyze_function(&mut self, f: &crate::ast::FnDecl, nglobals: usize) -> (r: Result<(), AnalyzeError>)
        ensures
            match check_function(old(self).ctx(), f@, nglobals as nat) {
                Ok(t) => r is Ok && final(self).ctx() == (SCtx { vars: t, ..old(self).ctx() }),
                Err(x) => r is Err && r->Err_0@ == x,
            },
    {
        let ghost c0 = self.ctx();
        let ghost args = view_names(f.args@);
        let mut k: usize = 0;
        assert(args.take(0) =~= Seq::<Seq<char>>::empty());
        while k < f.args.len()
            invariant
                k <= f.args.len(),
                args == view_names(f.args@),
                self.ctx() == (SCtx { vars: insert_all(c0.vars, args.take(k as int), Type::Int), ..c0 }),
            decreases f.args.len() - k,
        {
            assert(args.take(k + 1).drop_last() == args.take(k as int));
            self.set_var(f.args[k].clone(), Type::Int);
            k += 1;
        }
        assert(args.take(k as int) == args);
        self.set_var(f.ret.clone(), Type::Int);
        match self.analyze_block(&f.body) {
            Err(x) => { return Err(x); },
            Ok(()) => {},
        }
        let temps = self.block_temp_depth(&f.body);
        let total = add_capped(self.vars.len(), temps);
        proof {
            lemma_cap_add(block_temps(view_stmts(f.body@)), self.vars@.len() as nat);
            assert(view_vars(self.vars@).len() == self.vars@.len());
        }
        if total > 14 {
            return Err(AnalyzeError::FunctionRegisterBudget(f.name.clone(), nglobals, f.args.len(), temps, total));
        }
        let ghost inner = self.ctx().vars;
        let mut k: usize = 0;
        assert(args.take(0) =~= Seq::<Seq<char>>::empty());
        while k < f.args.len()
            invariant
                k <= f.args.len(),
                args == view_names(f.args@),
                self.ctx() == (SCtx { vars: remove_all(inner, args.take(k as int)), ..c0 }),
            decreases f.args.len() - k,
        {
            assert(args.take(k + 1).drop_last() == args.take(k as int));
            self.remove_var(&f.args[k]);
            k += 1;
        }
        assert(args.take(k as int) == args);
        self.remove_var(&f.ret);
        Ok(())
    }

    /// Full semantic analysis of `program`; see `analyze_spec`.  The
    /// program's sprite files are described by `files`, a list of (path,
    /// size in bytes) for the files that exist.
    pub fn analyze(&mut self, program: &Program, files: &Vec<(String, u64)>) -> (r: Result<(), AnalyzeError>)
        ensures
            analyze_outcome(analyze_spec(old(self).ctx(), program@, view_files(files@)), program@, r, final(self).ctx()),
    {
        let ghost p = program@;
        let ghost c0 = self.ctx();
        match self.collect_sprites(program, files) {
            Err(x) => { return Err(x); },
            Ok(()) => {},
        }
        if program.vars.len() > 14 {
            return Err(AnalyzeError::TooManyVariables(program.vars.len()));
        }
        match self.collect_vars(program) {
            Err(x) => { return Err(x); },
            Ok(()) => {},
        }
        self.collect_functions(program);
        match self.check_name_uniqueness(program) {
            Err(x) => { return Err(x); },
            Ok(()) => {},
        }
        match self.check_call_graph(program) {
            Err(x) => { return Err(x); },
            Ok(()) => {},
        }
        match self.analyze_block(&program.main) {
            Err(x) => { return Err(x); },
            Ok(()) => {},
        }
        let ghost c2 = self.ctx();
        assert(analyze_spec(c0, p, view_files(files@)) == check_rest(c2, p));
        let ghost fs = p.functions;
        let nglobals = program.vars.len();
        let mut i: usize = 0;
        assert(fs.take(0) =~= Seq::<crate::ast::SFnDecl>::empty());
        while i < program.functions.len()
            invariant
                i <= program.functions.len(),
                p == program@,
                fs == p.functions,
                fs.len() == program.functions@.len(),
                nglobals == p.vars.len(),
                c0 == old(self).ctx(),
                analyze_spec(c0, p, view_files(files@)) == check_rest(c2, p),
                check_functions(c2, fs.take(i as int), nglobals as nat) == Ok::<Seq<(Seq<char>, Type)>, SAnalyzeError>(self.ctx().vars),
                self.ctx() == (SCtx { vars: self.ctx().vars, ..c2 }),
            decreases program.functions.len() - i,
        {
            assert(fs.take(i + 1).drop_last() == fs.take(i as int));
            let f = &program.functions[i];
            assert(fs.take(i + 1)[i as int] == f@);
            match self.analyze_function(f, nglobals) {
                Err(x) => {
                    proof { lemma_check_functions_err(c2, fs, nglobals as nat, i + 1); }
                    return Err(x);
                },
                Ok(()) => {},
            }
            i += 1;
        }
        assert(fs.take(i as int) == fs);
        let temps = self.block_temp_depth(&program.main);
        let total = add_capped(self.vars.len(), temps);
        proof {
            lemma_cap_add(block_temps(view_stmts(program.main@)), self.vars@.len() as nat);
            assert(view_vars(self.vars@).len() == self.vars@.len());
        }
        if total > 14 {
            return Err(AnalyzeError::RegisterBudget(nglobals, temps, total));
        }
        Ok(())
    }
}

/// The type of an expression of each form: `int` for literals, arithmetic,
/// calls, `getkey`, `getdelay` and `rand`; `bool` for `true`/`false`,
/// comparisons, `and`, `or`, `not`, `draw`, `drawdigit` and `keypressed`;
/// a variable's declared type.
pub open spec fn form_type(ctx: SCtx, e: SExpr) -> Type {
    match e {
        SExpr::Var(n) => lookup(ctx.vars, n)->Some_0,
        SExpr::Bool(_) | SExpr::Not(_) | SExpr::Draw(..) | SExpr::DrawDigit(..) | SExpr::KeyPressed(_) => Type::Bool,
        SExpr::BinOp(_, o, _) => match o {
            Op::Add | Op::Sub | Op::Mul | Op::Div | Op::Mod => Type::Int,
            _ => Type::Bool,
        },
        _ => Type::Int,
    }
}

/// The operand types an operator accepts: `int` for arithmetic and `<`,
/// `>`, `<=`, `>=`; equal types for `==` and `!=`; `bool` for `and`, `or`.
pub open spec fn operands_fit(o: Op, lt: Type, rt: Type) -> bool {
    match o {
        Op::EqEq | Op::NotEq => lt == rt,
        Op::And | Op::Or => lt == Type::Bool && rt == Type::Bool,
        _ => lt == Type::Int && rt == Type::Int,
    }
}

/// Law: an expression that type-checks has the type of its form, a
/// variable its declared type; the operands of a binary operator have the
/// types the operator accepts, the operand of `not` is a `bool`.
pub proof fn lemma_type_of_form(ctx: SCtx, e: SExpr)
    ensures
        type_of(ctx, e) matches Ok(t) ==> {
            &&& t == form_type(ctx, e)
            &&& (e matches SExpr::Var(n) ==> lookup(ctx.vars, n) == Some(t))
            &&& (e matches SExpr::BinOp(l, o, r) ==> {
                &&& type_of(ctx, *l) is Ok
                &&& type_of(ctx, *r) is Ok
                &&& operands_fit(o, type_of(ctx, *l)->Ok_0, type_of(ctx, *r)->Ok_0)
            })
            &&& (e matches SExpr::Not(x) ==> type_of(ctx, *x) == Ok::<Type, SAnalyzeError>(Type::Bool))
        },
{
}

/// The typing rules of the language: `e` has type `t` in `ctx`.
/// Arithmetic takes two `int`s; `==` and `!=` two values of one type;
/// ordered comparisons two `int`s; `and`, `or` and `not` `bool`s; a call
/// names a declared function with as many `int` arguments as it has
/// parameters and gives an `int`; `draw` takes `int` coordinates and a
/// declared sprite, `drawdigit` three `int`s, and both give a `bool`;
/// `key_pressed` takes an `int`; the mask of `rand` is an integer literal.
pub open spec fn has_type(ctx: SCtx, e: SExpr, t: Type) -> bool
    decreases e, 0int,
{
    match e {
        SExpr::Int(_) => t == Type::Int,
        SExpr::Bool(_) => t == Type::Bool,
        SExpr::Var(n) => lookup(ctx.vars, n) == Some(t),
        SExpr::BinOp(l, op, r) => match op {
            Op::Add | Op::Sub | Op::Mul | Op::Div | Op::Mod => t == Type::Int && has_type(ctx, *l, Type::Int)
                && has_type(ctx, *r, Type::Int),
            Op::EqEq | Op::NotEq => t == Type::Bool && ((has_type(ctx, *l, Type::Int) && has_type(ctx, *r, Type::Int))
                || (has_type(ctx, *l, Type::Bool) && has_type(ctx, *r, Type::Bool))),
            Op::Lt | Op::Gt | Op::LtEq | Op::GtEq => t == Type::Bool && has_type(ctx, *l, Type::Int) && has_type(
                ctx,
                *r,
                Type::Int,
            ),
            Op::And | Op::Or => t == Type::Bool && has_type(ctx, *l, Type::Bool) && has_type(ctx, *r, Type::Bool),
        },
        SExpr::Not(x) => t == Type::Bool && has_type(ctx, *x, Type::Bool),
        SExpr::Call(n, args) => t == Type::Int && (lookup(ctx.functions, n) matches Some(params) && params.len()
            == args.len()) && args_int(ctx, args, 0),
        SExpr::Draw(x, y, sp) => t == Type::Bool && has_type(ctx, *x, Type::Int) && has_type(ctx, *y, Type::Int)
            && ctx.sprites.contains(sp),
        SExpr::DrawDigit(x, y, n) => t == Type::Bool && has_type(ctx, *x, Type::Int) && has_type(ctx, *y, Type::Int)
            && has_type(ctx, *n, Type::Int),
        SExpr::GetKey => t == Type::Int,
        SExpr::GetDelay => t == Type::Int,
        SExpr::KeyPressed(k) => t == Type::Bool && has_type(ctx, *k, Type::Int),
        SExpr::Rand(m) => t == Type::Int && *m is Int,
    }
}

/// Every argument from position `i` on has type `int`.
pub open spec fn args_int(ctx: SCtx, args: Seq<SExpr>, i: int) -> bool
    decreases args, args.len() - i,
{
    if i < 0 || i >= args.len() {
        true
    } else {
        has_type(ctx, args[i], Type::Int) && args_int(ctx, args, i + 1)
    }
}

proof fn lemma_args_int(ctx: SCtx, name: Seq<char>, args: Seq<SExpr>, i: int)
    requires
        0 <= i,
    ensures
        args_int(ctx, args, i) <==> check_args(ctx, name, args, i) is Ok,
    decreases args, args.len() - i,
{
    if i < args.len() {
        lemma_has_type_sub(ctx, args[i]);
        lemma_args_int(ctx, name, args, i + 1);
    }
}

/// Law: the checker gives `e` the type `t` exactly when the typing rules
/// give it that type.  So an expression that follows the rules always
/// type-checks, and its type is the one the rules give.
pub proof fn lemma_has_type(ctx: SCtx, e: SExpr)
    ensures
        forall|t: Type| #[trigger] has_type(ctx, e, t) <==> type_of(ctx, e) == Ok::<Type, SAnalyzeError>(t),
    decreases e, 1int,
{
    match e {
        SExpr::BinOp(l, op, r) => {
            lemma_has_type_sub(ctx, *l);
            lemma_has_type_sub(ctx, *r);
            assert forall|t: Type| #[trigger] has_type(ctx, e, t) <==> type_of(ctx, e) == Ok::<Type, SAnalyzeError>(t) by {
                if type_of(ctx, *l) is Ok && type_of(ctx, *r) is Ok {
                    let lt = type_of(ctx, *l)->Ok_0;
                    let rt = type_of(ctx, *r)->Ok_0;
                    assert(lt == Type::Int || lt == Type::Bool);
                    assert(rt == Type::Int || rt == Type::Bool);
                }
            }
        },
        SExpr::Not(x) => {
            lemma_has_type_sub(ctx, *x);
        },
        SExpr::Call(n, args) => {
            lemma_args_int(ctx, n, args, 0);
            if let Some(params) = lookup(ctx.functions, n) {
                if params.len() == args.len() {
                    assert(check_call(ctx, n, args) == check_args(ctx, n, args, 0));
                }
            }
        },
        SExpr::Draw(x, y, sp) => {
            lemma_has_type_sub(ctx, *x);
            lemma_has_type_sub(ctx, *y);
        },
        SExpr::DrawDigit(x, y, n) => {
            lemma_has_type_sub(ctx, *x);
            lemma_has_type_sub(ctx, *y);
            lemma_has_type_sub(ctx, *n);
        },
        SExpr::KeyPressed(k) => {
            lemma_has_type_sub(ctx, *k);
        },
        _ => {},
    }
}

/// `lemma_has_type` for a part of an expression, at both types.
proof fn lemma_has_type_sub(ctx: SCtx, x: SExpr)
    ensures
        has_type(ctx, x, Type::Int) <==> type_of(ctx, x) == Ok::<Type, SAnalyzeError>(Type::Int),
        has_type(ctx, x, Type::Bool) <==> type_of(ctx, x) == Ok::<Type, SAnalyzeError>(Type::Bool),
    decreases x, 2int,
{
    lemma_has_type(ctx, x);
}
/// The typing rules of statements: an assignment stores a value of the
/// variable's declared type; the conditions of `if`, `elif` and `while`
/// are `bool`; `delay` and `beep` take an `int`; a call statement follows
/// the rules of a call; and every statement nested in a body follows the
/// rules too, `loop` bodies included.
pub open spec fn stmt_typed(ctx: SCtx, s: SStmt) -> bool
    decreases s, 1int,
{
    match s {
        SStmt::Assign(n, e) => lookup(ctx.vars, n) matches Some(t) && has_type(ctx, e, t),
        SStmt::If(c, body, elifs, els) => has_type(ctx, c, Type::Bool) && block_typed(ctx, body) && elifs_typed(
            ctx,
            elifs,
        ) && (els matches Some(b) ==> block_typed(ctx, b)),
        SStmt::Loop(body) => block_typed(ctx, body),
        SStmt::While(c, body) => has_type(ctx, c, Type::Bool) && block_typed(ctx, body),
        SStmt::Call(n, args) => has_type(ctx, SExpr::Call(n, args), Type::Int),
        SStmt::Clear => true,
        SStmt::Delay(e) => has_type(ctx, e, Type::Int),
        SStmt::Beep(e) => has_type(ctx, e, Type::Int),
    }
}

/// Every statement of `b` follows the typing rules.
pub open spec fn block_typed(ctx: SCtx, b: Seq<SStmt>) -> bool
    decreases b, 0int,
{
    forall|i: int| 0 <= i < b.len() ==> stmt_typed(ctx, #[trigger] b[i])
}

/// Every `elif` has a `bool` condition and a body that follows the rules.
pub open spec fn elifs_typed(ctx: SCtx, es: Seq<SElseIf>) -> bool
    decreases es, 0int,
{
    forall|i: int| 0 <= i < es.len() ==> has_type(ctx, (#[trigger] es[i]).condition, Type::Bool) && block_typed(ctx, es[i].body)
}

proof fn lemma_typed_block_split(ctx: SCtx, b: Seq<SStmt>)
    requires
        b.len() > 0,
    ensures
        block_typed(ctx, b) <==> block_typed(ctx, b.drop_last()) && stmt_typed(ctx, b[b.len() - 1]),
{
    if block_typed(ctx, b.drop_last()) && stmt_typed(ctx, b[b.len() - 1]) {
        assert forall|i: int| 0 <= i < b.len() implies stmt_typed(ctx, #[trigger] b[i]) by {
            if i < b.len() - 1 {
                assert(b[i] == b.drop_last()[i]);
            }
        }
    }
    if block_typed(ctx, b) {
        assert forall|i: int| 0 <= i < b.drop_last().len() implies stmt_typed(ctx, #[trigger] b.drop_last()[i]) by {
            assert(b.drop_last()[i] == b[i]);
        }
    }
}

proof fn lemma_typed_elifs_split(ctx: SCtx, es: Seq<SElseIf>)
    requires
        es.len() > 0,
    ensures
        elifs_typed(ctx, es) <==> elifs_typed(ctx, es.drop_last()) && has_type(ctx, es[es.len() - 1].condition, Type::Bool)
            && block_typed(ctx, es[es.len() - 1].body),
{
    if elifs_typed(ctx, es.drop_last()) && has_type(ctx, es[es.len() - 1].condition, Type::Bool) && block_typed(
        ctx,
        es[es.len() - 1].body,
    ) {
        assert forall|i: int| 0 <= i < es.len() implies has_type(ctx, (#[trigger] es[i]).condition, Type::Bool)
            && block_typed(ctx, es[i].body) by {
            if i < es.len() - 1 {
                assert(es[i] == es.drop_last()[i]);
            }
        }
    }
    if elifs_typed(ctx, es) {
        assert forall|i: int| 0 <= i < es.drop_last().len() implies has_type(ctx, (#[trigger] es.drop_last()[i]).condition, Type::Bool)
            && block_typed(ctx, es.drop_last()[i].body) by {
            assert(es.drop_last()[i] == es[i]);
        }
    }
}

/// Law: the checker accepts a statement exactly when it follows the typing
/// rules (`stmt_typed`), every statement nested in it included.
pub proof fn lemma_check_stmt_typed(ctx: SCtx, s: SStmt)
    ensures
        check_stmt(ctx, s) is Ok <==> stmt_typed(ctx, s),
    decreases s, 1int,
{
    match s {
        SStmt::Assign(n, e) => {
            lemma_has_type_sub(ctx, e);
        },
        SStmt::If(c, body, elifs, els) => {
            lemma_has_type_sub(ctx, c);
            lemma_check_block_typed(ctx, body);
            lemma_check_elifs_typed(ctx, elifs);
            if let Some(b) = els {
                lemma_check_block_typed(ctx, b);
            }
        },
        SStmt::Loop(body) => {
            lemma_check_block_typed(ctx, body);
        },
        SStmt::While(c, body) => {
            lemma_has_type_sub(ctx, c);
            lemma_check_block_typed(ctx, body);
        },
        SStmt::Call(n, args) => {
            lemma_has_type(ctx, SExpr::Call(n, args));
            assert(has_type(ctx, SExpr::Call(n, args), Type::Int) <==> type_of(ctx, SExpr::Call(n, args))
                == Ok::<Type, SAnalyzeError>(Type::Int));
        },
        SStmt::Clear => {},
        SStmt::Delay(e) => {
            lemma_has_type_sub(ctx, e);
        },
        SStmt::Beep(e) => {
            lemma_has_type_sub(ctx, e);
        },
    }
}

/// Law: the checker accepts a block exactly when each of its statements
/// follows the typing rules.
pub proof fn lemma_check_block_typed(ctx: SCtx, b: Seq<SStmt>)
    ensures
        check_block(ctx, b) is Ok <==> block_typed(ctx, b),
    decreases b, 0int,
{
    if b.len() > 0 {
        lemma_check_block_typed(ctx, b.drop_last());
        lemma_check_stmt_typed(ctx, b[b.len() - 1]);
        lemma_typed_block_split(ctx, b);
    }
}

proof fn lemma_check_elifs_typed(ctx: SCtx, es: Seq<SElseIf>)
    ensures
        check_elifs(ctx, es) is Ok <==> elifs_typed(ctx, es),
    decreases es, 0int,
{
    if es.len() > 0 {
        lemma_check_elifs_typed(ctx, es.drop_last());
        let e = es[es.len() - 1];
        lemma_has_type_sub(ctx, e.condition);
        lemma_check_block_typed(ctx, e.body);
        lemma_typed_elifs_split(ctx, es);
    }
}

/// Law: in a program the analyzer accepts, every statement of `main`,
/// nested ones included, follows the typing rules, over the sprites, the
/// variables with the types of their initial values and the functions.
pub proof fn lemma_accepted_main_typed(ctx0: SCtx, p: SProgram, files: Seq<(Seq<char>, u64)>)
    ensures
        analyze_spec(ctx0, p, files) is Ok ==> {
            let sprites = collect_sprites(ctx0.sprites, p.sprites, files)->Ok_0;
            let c1 = SCtx { sprites, ..ctx0 };
            block_typed(
                SCtx { vars: collect_vars(c1, p.vars)->Ok_0, functions: collect_functions(c1.functions, p.functions), ..c1 },
                p.main,
            )
        },
{
    if analyze_spec(ctx0, p, files) is Ok {
        let sprites = collect_sprites(ctx0.sprites, p.sprites, files)->Ok_0;
        let c1 = SCtx { sprites, ..ctx0 };
        let c2 = SCtx { vars: collect_vars(c1, p.vars)->Ok_0, functions: collect_functions(c1.functions, p.functions), ..c1 };
        lemma_check_block_typed(c2, p.main);
    }
}

} // verus!
