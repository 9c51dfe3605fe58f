//! Abstract syntax tree of a ChipScript program.
use vstd::prelude::*;

verus! {

/// A whole source file.
#[derive(Debug, Clone)]
pub struct Program {
    pub sprites: Vec<SpriteDecl>,
    pub vars: Vec<VarDecl>,
    pub functions: Vec<FnDecl>,
    pub main: Vec<Stmt>,
}

/// `name = [bytes];` or `name = "file.spr";` inside `sprites {}`.
#[derive(Debug, Clone)]
pub struct SpriteDecl {
    pub name: String,
    pub data: SpriteData,
}

#[derive(Debug, Clone)]
pub enum SpriteData {
    /// Rows given inline: `[0xF0, 0x90, ...]`.
    Inline(Vec<u8>),
    /// Rows read from a file at compile time: `"ship.spr"`.
    File(String),
}

/// One declaration inside `vars {}`.
#[derive(Debug, Clone)]
pub struct VarDecl {
    pub name: String,
    /// The initial value.
    pub value: Expr,
}

/// `fn name(args) -> ret { body }`.
#[derive(Debug, Clone)]
pub struct FnDecl {
    pub name: String,
    pub args: Vec<String>,
    pub ret: String,
    pub body: Vec<Stmt>,
}

#[derive(Debug)]
pub enum Stmt {
    /// `a = expr;`
    Assign(String, Expr),
    /// `if (c) {..} elif (c) {..} else {..}`
    If(Expr, Vec<Stmt>, Vec<ElseIf>, Option<Vec<Stmt>>),
    /// `loop {..}`
    Loop(Vec<Stmt>),
    /// `while (c) {..}`
    While(Expr, Vec<Stmt>),
    /// A call whose value is discarded.
    Call(String, Vec<Expr>),
    /// `clear();`
    Clear,
    /// `delay(n);`
    Delay(Expr),
    /// `beep(n);`
    Beep(Expr),
}

/// One `elif` branch.
#[derive(Debug)]
pub struct ElseIf {
    pub condition: Expr,
    pub body: Vec<Stmt>,
}

/// An expression produces a value.
#[derive(Debug)]
pub enum Expr {
    /// Unsigned byte literal 0..=255.
    Int(u8),
    Bool(bool),
    Var(String),
    BinOp(Box<Expr>, Op, Box<Expr>),
    Not(Box<Expr>),
    /// `add(a, b)`
    Call(String, Vec<Expr>),
    /// `draw(x, y, sprite)`
    Draw(Box<Expr>, Box<Expr>, String),
    /// `drawdigit(x, y, n)`
    DrawDigit(Box<Expr>, Box<Expr>, Box<Expr>),
    GetKey,
    GetDelay,
    /// `keypressed(k)`
    KeyPressed(Box<Expr>),
    /// `rand(mask)`
    Rand(Box<Expr>),
}

#[derive(Debug, Clone, Copy, PartialEq, Eq, Structural)]
pub enum Op {
    Add,
    Sub,
    Mul,
    Div,
    Mod,
    EqEq,
    NotEq,
    Lt,
    Gt,
    LtEq,
    GtEq,
    And,
    Or,
}

/// Mathematical model of an expression: names are character sequences and
/// argument lists are sequences.
pub enum SExpr {
    Int(u8),
    Bool(bool),
    Var(Seq<char>),
    BinOp(Box<SExpr>, Op, Box<SExpr>),
    Not(Box<SExpr>),
    Call(Seq<char>, Seq<SExpr>),
    Draw(Box<SExpr>, Box<SExpr>, Seq<char>),
    DrawDigit(Box<SExpr>, Box<SExpr>, Box<SExpr>),
    GetKey,
    GetDelay,
    KeyPressed(Box<SExpr>),
    Rand(Box<SExpr>),
}

pub open spec fn view_exprs(s: Seq<Expr>) -> Seq<SExpr>
    decreases s,
{
    Seq::new(s.len(), |i: int| if 0 <= i < s.len() { view_expr(s[i]) } else { SExpr::GetKey })
}

pub open spec fn view_expr(e: Expr) -> SExpr
    decreases e,
{
    match e {
        Expr::Int(n) => SExpr::Int(n),
        Expr::Bool(b) => SExpr::Bool(b),
        Expr::Var(s) => SExpr::Var(s@),
        Expr::BinOp(l, op, r) => SExpr::BinOp(Box::new(view_expr(*l)), op, Box::new(view_expr(*r))),
        Expr::Not(x) => SExpr::Not(Box::new(view_expr(*x))),
        Expr::Call(n, args) => SExpr::Call(n@, view_exprs(args@)),
        Expr::Draw(x, y, s) => SExpr::Draw(Box::new(view_expr(*x)), Box::new(view_expr(*y)), s@),
        Expr::DrawDigit(x, y, n) => SExpr::DrawDigit(
            Box::new(view_expr(*x)),
            Box::new(view_expr(*y)),
            Box::new(view_expr(*n)),
        ),
        Expr::GetKey => SExpr::GetKey,
        Expr::GetDelay => SExpr::GetDelay,
        Expr::KeyPressed(k) => SExpr::KeyPressed(Box::new(view_expr(*k))),
        Expr::Rand(m) => SExpr::Rand(Box::new(view_expr(*m))),
    }
}


/// Mathematical model of a statement.
pub enum SStmt {
    Assign(Seq<char>, SExpr),
    If(SExpr, Seq<SStmt>, Seq<SElseIf>, Option<Seq<SStmt>>),
    Loop(Seq<SStmt>),
    While(SExpr, Seq<SStmt>),
    Call(Seq<char>, Seq<SExpr>),
    Clear,
    Delay(SExpr),
    Beep(SExpr),
}

pub struct SElseIf {
    pub condition: SExpr,
    pub body: Seq<SStmt>,
}

pub enum SSpriteData {
    Inline(Seq<u8>),
    File(Seq<char>),
}

pub struct SSpriteDecl {
    pub name: Seq<char>,
    pub data: SSpriteData,
}

pub struct SVarDecl {
    pub name: Seq<char>,
    pub value: SExpr,
}

pub struct SFnDecl {
    pub name: Seq<char>,
    pub args: Seq<Seq<char>>,
    pub ret: Seq<char>,
    pub body: Seq<SStmt>,
}

/// Mathematical model of a program.
pub struct SProgram {
    pub sprites: Seq<SSpriteDecl>,
    pub vars: Seq<SVarDecl>,
    pub functions: Seq<SFnDecl>,
    pub main: Seq<SStmt>,
}

pub open spec fn view_stmts(s: Seq<Stmt>) -> Seq<SStmt>
    decreases s,
{
    Seq::new(s.len(), |i: int| if 0 <= i < s.len() { view_stmt(s[i]) } else { SStmt::Clear })
}

pub open spec fn view_elseifs(s: Seq<ElseIf>) -> Seq<SElseIf>
    decreases s,
{
    Seq::new(
        s.len(),
        |i: int|
            if 0 <= i < s.len() {
                view_elseif(s[i])
            } else {
                SElseIf { condition: SExpr::GetKey, body: Seq::empty() }
            },
    )
}

pub open spec fn view_elseif(e: ElseIf) -> SElseIf
    decreases e,
{
    SElseIf { condition: view_expr(e.condition), body: view_stmts(e.body@) }
}

pub open spec fn view_stmt(st: Stmt) -> SStmt
    decreases st,
{
    match st {
        Stmt::Assign(n, e) => SStmt::Assign(n@, view_expr(e)),
        Stmt::If(c, body, elifs, els) => SStmt::If(
            view_expr(c),
            view_stmts(body@),
            view_elseifs(elifs@),
            match els {
                Some(b) => Some(view_stmts(b@)),
                None => None,
            },
        ),
        Stmt::Loop(body) => SStmt::Loop(view_stmts(body@)),
        Stmt::While(c, body) => SStmt::While(view_expr(c), view_stmts(body@)),
        Stmt::Call(n, args) => SStmt::Call(n@, view_exprs(args@)),
        Stmt::Clear => SStmt::Clear,
        Stmt::Delay(e) => SStmt::Delay(view_expr(e)),
        Stmt::Beep(e) => SStmt::Beep(view_expr(e)),
    }
}

impl View for Stmt {
    type V = SStmt;

    open spec fn view(&self) -> SStmt {
        view_stmt(*self)
    }
}

impl View for ElseIf {
    type V = SElseIf;

    open spec fn view(&self) -> SElseIf {
        view_elseif(*self)
    }
}

impl View for SpriteData {
    type V = SSpriteData;

    open spec fn view(&self) -> SSpriteData {
        match self {
            SpriteData::Inline(b) => SSpriteData::Inline(b@),
            SpriteData::File(f) => SSpriteData::File(f@),
        }
    }
}

impl View for SpriteDecl {
    type V = SSpriteDecl;

    open spec fn view(&self) -> SSpriteDecl {
        SSpriteDecl { name: self.name@, data: self.data@ }
    }
}

impl View for VarDecl {
    type V = SVarDecl;

    open spec fn view(&self) -> SVarDecl {
        SVarDecl { name: self.name@, value: view_expr(self.value) }
    }
}

pub open spec fn view_names(s: Seq<String>) -> Seq<Seq<char>> {
    s.map_values(|x: String| x@)
}

impl View for FnDecl {
    type V = SFnDecl;

    open spec fn view(&self) -> SFnDecl {
        SFnDecl {
            name: self.name@,
            args: view_names(self.args@),
            ret: self.ret@,
            body: view_stmts(self.body@),
        }
    }
}

impl View for Program {
    type V = SProgram;

    open spec fn view(&self) -> SProgram {
        SProgram {
            sprites: self.sprites@.map_values(|d: SpriteDecl| d@),
            vars: self.vars@.map_values(|d: VarDecl| d@),
            functions: self.functions@.map_values(|f: FnDecl| f@),
            main: view_stmts(self.main@),
        }
    }
}

impl View for Expr {
    type V = SExpr;

    open spec fn view(&self) -> SExpr {
        view_expr(*self)
    }
}

impl Clone for Expr {
    /// A copy with the same model; see `clone_expr`.
    fn clone(&self) -> (r: Self)
        ensures
            r@ == self@,
    {
        clone_expr(self)
    }
}

/// A copy of `e` with the same model.
pub fn clone_expr(e: &Expr) -> (r: Expr)
    ensures
        r@ == e@,
    decreases e,
{
    match e {
        Expr::Int(n) => Expr::Int(*n),
        Expr::Bool(b) => Expr::Bool(*b),
        Expr::Var(s) => Expr::Var(s.clone()),
        Expr::BinOp(l, op, r) => Expr::BinOp(Box::new(clone_expr(l)), *op, Box::new(clone_expr(r))),
        Expr::Not(x) => Expr::Not(Box::new(clone_expr(x))),
        Expr::Call(n, args) => Expr::Call(n.clone(), clone_exprs(args)),
        Expr::Draw(x, y, s) => Expr::Draw(Box::new(clone_expr(x)), Box::new(clone_expr(y)), s.clone()),
        Expr::DrawDigit(x, y, n) => Expr::DrawDigit(
            Box::new(clone_expr(x)),
            Box::new(clone_expr(y)),
            Box::new(clone_expr(n)),
        ),
        Expr::GetKey => Expr::GetKey,
        Expr::GetDelay => Expr::GetDelay,
        Expr::KeyPressed(k) => Expr::KeyPressed(Box::new(clone_expr(k))),
        Expr::Rand(m) => Expr::Rand(Box::new(clone_expr(m))),
    }
}

/// A copy of an argument list with the same model.
pub fn clone_exprs(args: &Vec<Expr>) -> (r: Vec<Expr>)
    ensures
        view_exprs(r@) == view_exprs(args@),
    decreases args,
{
    let mut v: Vec<Expr> = Vec::new();
    let mut i: usize = 0;
    while i < args.len()
        invariant
            i <= args.len(),
            v@.len() == i,
            forall|j: int| 0 <= j < i ==> view_expr(#[trigger] v@[j]) == view_expr(args@[j]),
        decreases args.len() - i,
    {
        proof {
            assert(decreases_to!(args => args@[i as int]));
        }
        v.push(clone_expr(&args[i]));
        i += 1;
    }
    assert(view_exprs(v@) =~= view_exprs(args@));
    v
}

impl Clone for Stmt {
    /// A copy with the same model; see `clone_stmt`.
    fn clone(&self) -> (r: Self)
        ensures
            r@ == self@,
    {
        clone_stmt(self)
    }
}

impl Clone for ElseIf {
    /// A copy with the same model.
    fn clone(&self) -> (r: Self)
        ensures
            r@ == self@,
    {
        ElseIf { condition: clone_expr(&self.condition), body: clone_stmts(&self.body) }
    }
}

/// A copy of `st` with the same model.
pub fn clone_stmt(st: &Stmt) -> (r: Stmt)
    ensures
        r@ == st@,
    decreases st, 1int,
{
    match st {
        Stmt::Assign(n, e) => Stmt::Assign(n.clone(), clone_expr(e)),
        Stmt::If(c, body, elifs, els) => {
            let els2 = match els {
                Some(b) => Some(clone_stmts(b)),
                None => None,
            };
            Stmt::If(clone_expr(c), clone_stmts(body), clone_elseifs(elifs), els2)
        },
        Stmt::Loop(body) => Stmt::Loop(clone_stmts(body)),
        Stmt::While(c, body) => Stmt::While(clone_expr(c), clone_stmts(body)),
        Stmt::Call(n, args) => Stmt::Call(n.clone(), clone_exprs(args)),
        Stmt::Clear => Stmt::Clear,
        Stmt::Delay(e) => Stmt::Delay(clone_expr(e)),
        Stmt::Beep(e) => Stmt::Beep(clone_expr(e)),
    }
}

/// A copy of a block with the same model.
pub fn clone_stmts(b: &Vec<Stmt>) -> (r: Vec<Stmt>)
    ensures
        view_stmts(r@) == view_stmts(b@),
    decreases b, 0int,
{
    let mut v: Vec<Stmt> = Vec::new();
    let mut i: usize = 0;
    while i < b.len()
        invariant
            i <= b.len(),
            v@.len() == i,
            forall|j: int| 0 <= j < i ==> view_stmt(#[trigger] v@[j]) == view_stmt(b@[j]),
        decreases b.len() - i,
    {
        proof {
            assert(decreases_to!(b => b@[i as int]));
        }
        v.push(clone_stmt(&b[i]));
        i += 1;
    }
    assert(view_stmts(v@) =~= view_stmts(b@));
    v
}

/// A copy of `elif` branches with the same model.
pub fn clone_elseifs(es: &Vec<ElseIf>) -> (r: Vec<ElseIf>)
    ensures
        view_elseifs(r@) == view_elseifs(es@),
    decreases es, 0int,
{
    let mut v: Vec<ElseIf> = Vec::new();
    let mut i: usize = 0;
    while i < es.len()
        invariant
            i <= es.len(),
            v@.len() == i,
            forall|j: int| 0 <= j < i ==> view_elseif(#[trigger] v@[j]) == view_elseif(es@[j]),
        decreases es.len() - i,
    {
        proof {
            assert(decreases_to!(es => es@[i as int]));
        }
        let e = &es[i];
        proof {
            assert(decreases_to!(es@[i as int] => e.body));
        }
        v.push(ElseIf { condition: clone_expr(&e.condition), body: clone_stmts(&e.body) });
        i += 1;
    }
    assert(view_elseifs(v@) =~= view_elseifs(es@));
    v
}

} // verus!
