//! The call graph of a program: who calls whom, whether any function can
//! reach itself, and how deep calls nest.
use vstd::prelude::*;
use crate::ast::{
    Expr, SExpr, SStmt, SElseIf, Stmt, ElseIf, FnDecl, SFnDecl, Program, SProgram,
    view_expr, view_exprs, view_stmt, view_stmts, view_elseifs, view_names,
};

verus! {

// ---------------------------------------------------------------------------
// Names called by a piece of code, in order
// ---------------------------------------------------------------------------

pub open spec fn expr_calls(e: SExpr) -> Seq<Seq<char>>
    decreases e,
{
    match e {
        SExpr::Not(x) => expr_calls(*x),
        SExpr::BinOp(l, _, r) => expr_calls(*l) + expr_calls(*r),
        SExpr::Call(n, args) => seq![n] + args_calls(args),
        SExpr::Draw(x, y, _) => expr_calls(*x) + expr_calls(*y),
        SExpr::DrawDigit(x, y, n) => expr_calls(*x) + expr_calls(*y) + expr_calls(*n),
        SExpr::KeyPressed(k) => expr_calls(*k),
        SExpr::Rand(m) => expr_calls(*m),
        _ => Seq::empty(),
    }
}

pub open spec fn args_calls(args: Seq<SExpr>) -> Seq<Seq<char>>
    decreases args,
{
    if args.len() == 0 {
        Seq::empty()
    } else {
        args_calls(args.drop_last()) + expr_calls(args[args.len() - 1])
    }
}

/// Calls made by a statement.  The condition of a `while` is not scanned.
pub open spec fn stmt_calls(s: SStmt) -> Seq<Seq<char>>
    decreases s,
{
    match s {
        SStmt::Assign(_, e) => expr_calls(e),
        SStmt::If(c, body, elifs, els) => expr_calls(c) + block_calls(body) + elifs_calls(elifs) + match els {
            Some(b) => block_calls(b),
            None => Seq::empty(),
        },
        SStmt::Loop(body) => block_calls(body),
        SStmt::While(_, body) => block_calls(body),
        SStmt::Call(n, args) => seq![n] + args_calls(args),
        SStmt::Clear => Seq::empty(),
        SStmt::Delay(e) | SStmt::Beep(e) => expr_calls(e),
    }
}

pub open spec fn block_calls(b: Seq<SStmt>) -> Seq<Seq<char>>
    decreases b,
{
    if b.len() == 0 {
        Seq::empty()
    } else {
        block_calls(b.drop_last()) + stmt_calls(b[b.len() - 1])
    }
}

pub open spec fn elifs_calls(es: Seq<SElseIf>) -> Seq<Seq<char>>
    decreases es,
{
    if es.len() == 0 {
        Seq::empty()
    } else {
        let e = es[es.len() - 1];
        elifs_calls(es.drop_last()) + expr_calls(e.condition) + block_calls(e.body)
    }
}

proof fn lemma_push_names(s: Seq<String>, x: String)
    ensures
        view_names(s.push(x)) == view_names(s) + seq![x@],
{
    assert(view_names(s.push(x)) =~= view_names(s) + seq![x@]);
}

/// Appends to `acc` the names that `e` calls.
pub fn collect_calls_expr(e: &Expr, acc: &mut Vec<String>)
    ensures
        view_names(final(acc)@) == view_names(old(acc)@) + expr_calls(view_expr(*e)),
    decreases e,
{
    let ghost a0 = view_names(acc@);
    match e {
        Expr::Not(x) => collect_calls_expr(x, acc),
        Expr::BinOp(l, _, r) => {
            collect_calls_expr(l, acc);
            collect_calls_expr(r, acc);
            assert(a0 + expr_calls(view_expr(**l)) + expr_calls(view_expr(**r)) =~= a0 + expr_calls(view_expr(*e)));
        },
        Expr::Call(name, args) => {
            let ghost before = acc@;
            let n2 = name.clone();
            acc.push(n2);
            proof { lemma_push_names(before, n2); }
            collect_calls_args(args, acc);
            assert(a0 + seq![name@] + args_calls(view_exprs(args@)) =~= a0 + expr_calls(view_expr(*e)));
        },
        Expr::Draw(x, y, _) => {
            collect_calls_expr(x, acc);
            collect_calls_expr(y, acc);
            assert(a0 + expr_calls(view_expr(**x)) + expr_calls(view_expr(**y)) =~= a0 + expr_calls(view_expr(*e)));
        },
        Expr::DrawDigit(x, y, n) => {
            collect_calls_expr(x, acc);
            collect_calls_expr(y, acc);
            collect_calls_expr(n, acc);
            assert(a0 + expr_calls(view_expr(**x)) + expr_calls(view_expr(**y)) + expr_calls(view_expr(**n))
                =~= a0 + expr_calls(view_expr(*e)));
        },
        Expr::KeyPressed(k) => collect_calls_expr(k, acc),
        Expr::Rand(m) => collect_calls_expr(m, acc),
        _ => {
            assert(a0 + expr_calls(view_expr(*e)) =~= a0);
        },
    }
}

pub fn collect_calls_args(args: &Vec<Expr>, acc: &mut Vec<String>)
    ensures
        view_names(final(acc)@) == view_names(old(acc)@) + args_calls(view_exprs(args@)),
    decreases args,
{
    let ghost a0 = view_names(acc@);
    let ghost v = view_exprs(args@);
    let mut i: usize = 0;
    assert(v.take(0) =~= Seq::<SExpr>::empty());
    assert(a0 + args_calls(v.take(0)) =~= a0);
    while i < args.len()
        invariant
            i <= args.len(),
            v == view_exprs(args@),
            view_names(acc@) == a0 + args_calls(v.take(i as int)),
        decreases args.len() - i,
    {
        assert(decreases_to!(args => args@[i as int]));
        assert(v.take(i + 1).drop_last() == v.take(i as int));
        assert(v.take(i + 1)[i as int] == view_expr(args@[i as int]));
        collect_calls_expr(&args[i], acc);
        assert(a0 + args_calls(v.take(i as int)) + expr_calls(v[i as int]) =~= a0 + args_calls(v.take(i + 1)));
        i += 1;
    }
    assert(v.take(i as int) == v);
}

pub fn collect_calls_stmt(s: &Stmt, acc: &mut Vec<String>)
    ensures
        view_names(final(acc)@) == view_names(old(acc)@) + stmt_calls(view_stmt(*s)),
    decreases s,
{
    let ghost a0 = view_names(acc@);
    match s {
        Stmt::Assign(_, e) => collect_calls_expr(e, acc),
        Stmt::If(c, body, elifs, els) => {
            collect_calls_expr(c, acc);
            collect_calls_stmts(body, acc);
            collect_calls_elifs(elifs, acc);
            match els {
                Some(b) => {
                    collect_calls_stmts(b, acc);
                },
                None => {},
            }
            assert(view_names(acc@) =~= a0 + stmt_calls(view_stmt(*s)));
        },
        Stmt::Loop(body) => collect_calls_stmts(body, acc),
        Stmt::While(_, body) => collect_calls_stmts(body, acc),
        Stmt::Call(name, args) => {
            let ghost before = acc@;
            let n2 = name.clone();
            acc.push(n2);
            proof { lemma_push_names(before, n2); }
            collect_calls_args(args, acc);
            assert(a0 + seq![name@] + args_calls(view_exprs(args@)) =~= a0 + stmt_calls(view_stmt(*s)));
        },
        Stmt::Clear => {
            assert(a0 + stmt_calls(view_stmt(*s)) =~= a0);
        },
        Stmt::Delay(e) => collect_calls_expr(e, acc),
        Stmt::Beep(e) => collect_calls_expr(e, acc),
    }
}

pub fn collect_calls_stmts(b: &Vec<Stmt>, acc: &mut Vec<String>)
    ensures
        view_names(final(acc)@) == view_names(old(acc)@) + block_calls(view_stmts(b@)),
    decreases b,
{
    let ghost a0 = view_names(acc@);
    let ghost v = view_stmts(b@);
    let mut i: usize = 0;
    assert(v.take(0) =~= Seq::<SStmt>::empty());
    assert(a0 + block_calls(v.take(0)) =~= a0);
    while i < b.len()
        invariant
            i <= b.len(),
            v == view_stmts(b@),
            view_names(acc@) == a0 + block_calls(v.take(i as int)),
        decreases b.len() - i,
    {
        assert(decreases_to!(b => b@[i as int]));
        assert(v.take(i + 1).drop_last() == v.take(i as int));
        assert(v.take(i + 1)[i as int] == view_stmt(b@[i as int]));
        collect_calls_stmt(&b[i], acc);
        assert(a0 + block_calls(v.take(i as int)) + stmt_calls(v[i as int]) =~= a0 + block_calls(v.take(i + 1)));
        i += 1;
    }
    assert(v.take(i as int) == v);
}

pub fn collect_calls_elifs(es: &Vec<ElseIf>, acc: &mut Vec<String>)
    ensures
        view_names(final(acc)@) == view_names(old(acc)@) + elifs_calls(view_elseifs(es@)),
    decreases es,
{
    let ghost a0 = view_names(acc@);
    let ghost v = view_elseifs(es@);
    let mut i: usize = 0;
    assert(v.take(0) =~= Seq::<SElseIf>::empty());
    assert(a0 + elifs_calls(v.take(0)) =~= a0);
    while i < es.len()
        invariant
            i <= es.len(),
            v == view_elseifs(es@),
            view_names(acc@) == a0 + elifs_calls(v.take(i as int)),
        decreases es.len() - i,
    {
        assert(decreases_to!(es => es@[i as int]));
        assert(decreases_to!(es => es@[i as int].body));
        assert(v.take(i + 1).drop_last() == v.take(i as int));
        assert(v.take(i + 1)[i as int] == crate::ast::view_elseif(es@[i as int]));
        collect_calls_expr(&es[i].condition, acc);
        collect_calls_stmts(&es[i].body, acc);
        assert(a0 + elifs_calls(v.take(i as int)) + expr_calls(v[i as int].condition) + block_calls(v[i as int].body)
            =~= a0 + elifs_calls(v.take(i + 1)));
        i += 1;
    }
    assert(v.take(i as int) == v);
}

/// The names called by a block, in order.
pub fn collect_calls(b: &Vec<Stmt>) -> (r: Vec<String>)
    ensures
        view_names(r@) == block_calls(view_stmts(b@)),
{
    let mut acc: Vec<String> = Vec::new();
    assert(view_names(acc@) =~= Seq::<Seq<char>>::empty());
    collect_calls_stmts(b, &mut acc);
    assert(Seq::<Seq<char>>::empty() + block_calls(view_stmts(b@)) =~= block_calls(view_stmts(b@)));
    acc
}


// ---------------------------------------------------------------------------
// The graph
// ---------------------------------------------------------------------------

pub open spec fn main_name() -> Seq<char> {
    seq!['m', 'a', 'i', 'n']
}

/// Nodes are named; each has the list of names its code calls.
pub struct SCallGraph {
    pub names: Seq<Seq<char>>,
    pub callees: Seq<Seq<Seq<char>>>,
}

/// Sets the callees of node `name`, adding the node at the end if absent.
pub open spec fn graph_insert(g: SCallGraph, name: Seq<char>, calls: Seq<Seq<char>>) -> SCallGraph {
    let i = node_index_in(g.names, name);
    if i >= 0 {
        SCallGraph { names: g.names, callees: g.callees.update(i, calls) }
    } else {
        SCallGraph { names: g.names.push(name), callees: g.callees.push(calls) }
    }
}

/// The functions in declaration order, a later one replacing an earlier
/// one of the same name.
pub open spec fn fn_nodes(fs: Seq<SFnDecl>) -> SCallGraph
    decreases fs.len(),
{
    if fs.len() == 0 {
        SCallGraph { names: Seq::empty(), callees: Seq::empty() }
    } else {
        let f = fs[fs.len() - 1];
        graph_insert(fn_nodes(fs.drop_last()), f.name, block_calls(f.body))
    }
}

/// The functions, then `main` with the calls of the program body.
pub open spec fn call_graph(p: SProgram) -> SCallGraph {
    graph_insert(fn_nodes(p.functions), main_name(), block_calls(p.main))
}

/// Position of the first node named `n`, or -1.
pub open spec fn node_index(g: SCallGraph, n: Seq<char>) -> int
    decreases g.names.len(),
{
    node_index_in(g.names, n)
}

pub open spec fn node_index_in(names: Seq<Seq<char>>, n: Seq<char>) -> int
    decreases names.len(),
{
    if names.len() == 0 {
        -1
    } else if names[0] == n {
        0
    } else {
        let r = node_index_in(names.drop_first(), n);
        if r < 0 {
            -1
        } else {
            r + 1
        }
    }
}

/// `a` calls `b`.
pub open spec fn edge(g: SCallGraph, a: int, b: int) -> bool {
    &&& 0 <= a < g.names.len()
    &&& 0 <= b < g.names.len()
    &&& exists|j: int| 0 <= j < g.callees[a].len() && node_index(g, #[trigger] g.callees[a][j]) == b
}

/// `p` runs along calls and comes back to where it started.
pub open spec fn is_cycle(g: SCallGraph, p: Seq<usize>) -> bool {
    &&& p.len() >= 2
    &&& p[0] == p[p.len() - 1]
    &&& forall|i: int| 0 <= i < p.len() - 1 ==> edge(g, #[trigger] p[i] as int, p[i + 1] as int)
}

pub open spec fn has_cycle(g: SCallGraph) -> bool {
    exists|p: Seq<usize>| is_cycle(g, p)
}

proof fn lemma_node_index_in(names: Seq<Seq<char>>, n: Seq<char>, i: int)
    requires
        0 <= i <= names.len(),
        forall|j: int| 0 <= j < i ==> names[j] != n,
    ensures
        i < names.len() && names[i] == n ==> node_index_in(names, n) == i,
        i == names.len() ==> node_index_in(names, n) == -1,
    decreases i,
{
    if names.len() > 0 && i > 0 {
        assert forall|j: int| 0 <= j < i - 1 implies names.drop_first()[j] != n by {
            assert(names.drop_first()[j] == names[j + 1]);
        }
        lemma_node_index_in(names.drop_first(), n, i - 1);
    }
}

proof fn lemma_node_index_bounds(names: Seq<Seq<char>>, n: Seq<char>)
    ensures
        -1 <= node_index_in(names, n) < names.len(),
    decreases names.len(),
{
    if names.len() > 0 {
        lemma_node_index_bounds(names.drop_first(), n);
    }
}

proof fn lemma_index_after_push(names: Seq<Seq<char>>, n: Seq<char>)
    ensures
        node_index_in(names.push(n), n) >= 0,
    decreases names.len(),
{
    if names.len() > 0 && names[0] != n {
        assert(names.push(n).drop_first() =~= names.drop_first().push(n));
        lemma_index_after_push(names.drop_first(), n);
    }
}

/// `main` is a node of every program's call graph.
pub proof fn lemma_main_is_node(p: SProgram)
    ensures
        node_index(call_graph(p), main_name()) >= 0,
{
    lemma_index_after_push(fn_nodes(p.functions).names, main_name());
}

/// A call graph with every callee name resolved to a node.
pub struct CallGraph {
    pub names: Vec<String>,
    pub calls: Vec<Vec<String>>,
    /// `resolved[a][j]` is the node that the `j`-th call of `a` names, if any.
    pub resolved: Vec<Vec<Option<usize>>>,
}

impl CallGraph {
    pub open spec fn view_graph(&self) -> SCallGraph {
        SCallGraph { names: view_names(self.names@), callees: self.calls@.map_values(|c: Vec<String>| view_names(c@)) }
    }

    pub open spec fn wf(&self) -> bool {
        let g = self.view_graph();
        &&& self.calls@.len() == self.names@.len()
        &&& self.resolved@.len() == self.names@.len()
        &&& forall|a: int| 0 <= a < self.names@.len() ==> (#[trigger] self.resolved@[a])@.len() == self.calls@[a]@.len()
        &&& forall|a: int, j: int| 0 <= a < self.names@.len() && 0 <= j < self.calls@[a]@.len() ==>
            (match #[trigger] self.resolved@[a]@[j] {
                Some(b) => node_index(g, g.callees[a][j]) == b as int,
                None => node_index(g, g.callees[a][j]) == -1,
            })
    }
}

/// Position of the first node named `n`; see `node_index`.
pub fn node_of(names: &Vec<String>, n: &String) -> (r: Option<usize>)
    ensures
        match r {
            Some(i) => i < names@.len() && node_index_in(view_names(names@), n@) == i as int,
            None => node_index_in(view_names(names@), n@) == -1,
        },
{
    let ghost v = view_names(names@);
    let mut i: usize = 0;
    while i < names.len()
        invariant
            i <= names.len(),
            v == view_names(names@),
            forall|j: int| 0 <= j < i ==> v[j] != n@,
        decreases names.len() - i,
    {
        if names[i] == *n {
            proof { lemma_node_index_in(v, n@, i as int); }
            return Some(i);
        }
        i += 1;
    }
    proof { lemma_node_index_in(v, n@, i as int); }
    None
}

/// Sets the callees of node `name` in the graph under construction.
fn insert_node(names: &mut Vec<String>, calls: &mut Vec<Vec<String>>, name: String, c: Vec<String>)
    requires
        old(names)@.len() == old(calls)@.len(),
    ensures
        final(names)@.len() == final(calls)@.len(),
        (SCallGraph { names: view_names(final(names)@), callees: final(calls)@.map_values(|c: Vec<String>| view_names(c@)) })
            == graph_insert(
            SCallGraph { names: view_names(old(names)@), callees: old(calls)@.map_values(|c: Vec<String>| view_names(c@)) },
            name@,
            view_names(c@),
        ),
{
    let ghost n0 = names@;
    let ghost c0 = calls@;
    match node_of(names, &name) {
        Some(i) => {
            calls.set(i, c);
            assert(calls@.map_values(|c: Vec<String>| view_names(c@)) =~= c0.map_values(|c: Vec<String>| view_names(c@)).update(i as int, view_names(c@)));
        },
        None => {
            let ghost nm = name@;
            names.push(name);
            calls.push(c);
            proof {
                assert(view_names(names@) =~= view_names(n0).push(nm));
                assert(calls@.map_values(|c: Vec<String>| view_names(c@)) =~= c0.map_values(|c: Vec<String>| view_names(c@)).push(view_names(c@)));
            }
        },
    }
}

/// The call graph of `program`; see `call_graph`.
pub fn build_call_graph(program: &Program) -> (g: CallGraph)
    ensures
        g.wf(),
        g.view_graph() == call_graph(program@),
{
    let main_label = String::from_str("main");
    proof { reveal_strlit("main"); }
    assert(main_label@ == main_name());
    let mut names: Vec<String> = Vec::new();
    let mut calls: Vec<Vec<String>> = Vec::new();
    let ghost fs = program@.functions;
    let mut i: usize = 0;
    assert(fs.take(0) =~= Seq::<SFnDecl>::empty());
    assert(view_names(names@) =~= Seq::<Seq<char>>::empty());
    assert(calls@.map_values(|c: Vec<String>| view_names(c@)) =~= Seq::<Seq<Seq<char>>>::empty());
    while i < program.functions.len()
        invariant
            i <= program.functions.len(),
            fs == program@.functions,
            fs.len() == program.functions@.len(),
            main_label@ == main_name(),
            names@.len() == calls@.len(),
            view_names(names@) == fn_nodes(fs.take(i as int)).names,
            calls@.map_values(|c: Vec<String>| view_names(c@)) == fn_nodes(fs.take(i as int)).callees,
        decreases program.functions.len() - i,
    {
        assert(fs.take(i + 1).drop_last() == fs.take(i as int));
        let f = &program.functions[i];
        assert(fs[i as int] == f@);
        let c = collect_calls(&f.body);
        insert_node(&mut names, &mut calls, f.name.clone(), c);
        i += 1;
    }
    assert(fs.take(i as int) == fs);
    let mc = collect_calls(&program.main);
    insert_node(&mut names, &mut calls, main_label, mc);
    // Resolve every callee name.
    let ghost gv = SCallGraph { names: view_names(names@), callees: calls@.map_values(|c: Vec<String>| view_names(c@)) };
    let mut resolved: Vec<Vec<Option<usize>>> = Vec::new();
    let mut a: usize = 0;
    while a < names.len()
        invariant
            a <= names.len(),
            calls@.len() == names@.len(),
            gv == (SCallGraph { names: view_names(names@), callees: calls@.map_values(|c: Vec<String>| view_names(c@)) }),
            resolved@.len() == a,
            forall|x: int| 0 <= x < a ==> (#[trigger] resolved@[x])@.len() == calls@[x]@.len(),
            forall|x: int, j: int| 0 <= x < a && 0 <= j < calls@[x]@.len() ==>
                (match #[trigger] resolved@[x]@[j] {
                    Some(b) => node_index(gv, gv.callees[x][j]) == b as int,
                    None => node_index(gv, gv.callees[x][j]) == -1,
                }),
        decreases names.len() - a,
    {
        let mut row: Vec<Option<usize>> = Vec::new();
        let mut j: usize = 0;
        while j < calls[a].len()
            invariant
                a < names.len(),
                calls@.len() == names@.len(),
                gv == (SCallGraph { names: view_names(names@), callees: calls@.map_values(|c: Vec<String>| view_names(c@)) }),
                j <= calls@[a as int]@.len(),
                row@.len() == j,
                forall|k: int| 0 <= k < j ==>
                    (match #[trigger] row@[k] {
                        Some(b) => node_index(gv, gv.callees[a as int][k]) == b as int,
                        None => node_index(gv, gv.callees[a as int][k]) == -1,
                    }),
            decreases calls@[a as int]@.len() - j,
        {
            let r = node_of(&names, &calls[a][j]);
            assert(gv.callees[a as int][j as int] == calls@[a as int]@[j as int]@);
            row.push(r);
            j += 1;
        }
        resolved.push(row);
        a += 1;
    }
    CallGraph { names, calls, resolved }
}


// ---------------------------------------------------------------------------
// Finding a cycle
// ---------------------------------------------------------------------------

/// `p` runs along calls from `from` to `to`.
pub open spec fn is_walk(g: SCallGraph, p: Seq<usize>, from: usize, to: usize) -> bool {
    &&& p.len() >= 1
    &&& p[0] == from
    &&& p[p.len() - 1] == to
    &&& forall|i: int| 0 <= i < p.len() - 1 ==> edge(g, #[trigger] p[i] as int, p[i + 1] as int)
}

pub open spec fn count_false(s: Seq<bool>) -> nat
    decreases s.len(),
{
    if s.len() == 0 {
        0
    } else {
        count_false(s.drop_last()) + if s[s.len() - 1] {
            0nat
        } else {
            1nat
        }
    }
}

proof fn lemma_count_false_update(s: Seq<bool>, i: int)
    requires
        0 <= i < s.len(),
        !s[i],
    ensures
        count_false(s.update(i, true)) + 1 == count_false(s),
    decreases s.len(),
{
    let t = s.update(i, true);
    if i == s.len() - 1 {
        assert(t.drop_last() =~= s.drop_last());
    } else {
        assert(t.drop_last() =~= s.drop_last().update(i, true));
        lemma_count_false_update(s.drop_last(), i);
    }
}

fn copy_walk(p: &Vec<usize>) -> (r: Vec<usize>)
    ensures
        r@ == p@,
{
    let mut r: Vec<usize> = Vec::new();
    let mut i: usize = 0;
    while i < p.len()
        invariant
            i <= p.len(),
            r@ == p@.take(i as int),
        decreases p.len() - i,
    {
        r.push(p[i]);
        assert(r@ =~= p@.take(i + 1));
        i += 1;
    }
    assert(p@.take(i as int) =~= p@);
    r
}

proof fn lemma_edge_resolved(g: &CallGraph, a: int, j: int, b: usize)
    requires
        g.wf(),
        0 <= a < g.names@.len(),
        0 <= j < g.calls@[a]@.len(),
        g.resolved@[a]@[j] == Some(b),
    ensures
        edge(g.view_graph(), a, b as int),
{
    let gv = g.view_graph();
    assert(node_index(gv, gv.callees[a][j]) == b as int);
    lemma_node_index_bounds(gv.names, gv.callees[a][j]);
    assert(gv.callees[a].len() == g.calls@[a]@.len());
}

/// Visits the nodes that `u` calls, `u` being reached from `v` by `walk`.
/// Returns a cycle if `u` calls `v`.
fn expand(
    g: &CallGraph,
    v: usize,
    u: usize,
    walk: &Vec<usize>,
    visited: &mut Vec<bool>,
    paths: &mut Vec<Vec<usize>>,
    queue: &mut Vec<usize>,
) -> (found: Option<Vec<usize>>)
    requires
        g.wf(),
        v < g.names@.len(),
        u < g.names@.len(),
        is_walk(g.view_graph(), walk@, v, u),
        old(visited)@.len() == g.names@.len(),
        old(paths)@.len() == g.names@.len(),
        !old(visited)@[v as int],
        forall|x: int| 0 <= x < g.names@.len() && #[trigger] old(visited)@[x] ==> is_walk(g.view_graph(), old(paths)@[x]@, v, x as usize),
        forall|i: int| 0 <= i < old(queue)@.len() ==> #[trigger] old(queue)@[i] < g.names@.len() && old(visited)@[old(queue)@[i] as int],
        forall|x: int| 0 <= x < g.names@.len() && #[trigger] old(visited)@[x] ==> old(queue)@.contains(x as usize),
    ensures
        match found {
            Some(c) => is_cycle(g.view_graph(), c@),
            None => {
                &&& final(visited)@.len() == g.names@.len()
                &&& final(paths)@.len() == g.names@.len()
                &&& !final(visited)@[v as int]
                &&& forall|x: int| 0 <= x < g.names@.len() && #[trigger] final(visited)@[x] ==> is_walk(g.view_graph(), final(paths)@[x]@, v, x as usize)
                &&& final(queue)@.len() >= old(queue)@.len()
                &&& final(queue)@.subrange(0, old(queue)@.len() as int) == old(queue)@
                &&& forall|i: int| 0 <= i < final(queue)@.len() ==> #[trigger] final(queue)@[i] < g.names@.len() && final(visited)@[final(queue)@[i] as int]
                &&& forall|x: int| 0 <= x < g.names@.len() && #[trigger] final(visited)@[x] ==> final(queue)@.contains(x as usize)
                &&& forall|x: int| 0 <= x < g.names@.len() && #[trigger] old(visited)@[x] ==> final(visited)@[x]
                &&& forall|w: int| #[trigger] edge(g.view_graph(), u as int, w) ==> final(visited)@[w] && w != v
                &&& count_false(final(visited)@) + (final(queue)@.len() - old(queue)@.len()) == count_false(old(visited)@)
            },
        },
{
    let ghost gv = g.view_graph();
    let ghost n = g.names@.len();
    let ghost v0 = visited@;
    let ghost q0 = queue@;
    let row = &g.resolved[u];
    let mut j: usize = 0;
    while j < row.len()
        invariant
            g.wf(),
            gv == g.view_graph(),
            n == g.names@.len(),
            v < n,
            u < n,
            row == &g.resolved@[u as int],
            row@.len() == g.calls@[u as int]@.len(),
            is_walk(gv, walk@, v, u),
            j <= row@.len(),
            visited@.len() == n,
            paths@.len() == n,
            !visited@[v as int],
            forall|x: int| 0 <= x < n && #[trigger] visited@[x] ==> is_walk(gv, paths@[x]@, v, x as usize),
            queue@.len() >= q0.len(),
            queue@.subrange(0, q0.len() as int) == q0,
            forall|i: int| 0 <= i < queue@.len() ==> #[trigger] queue@[i] < n && visited@[queue@[i] as int],
            forall|x: int| 0 <= x < n && #[trigger] visited@[x] ==> queue@.contains(x as usize),
            forall|x: int| 0 <= x < n && #[trigger] v0[x] ==> visited@[x],
            forall|k: int| 0 <= k < j ==> match #[trigger] row@[k] {
                Some(w) => w < n && visited@[w as int] && w != v,
                None => true,
            },
            count_false(visited@) + (queue@.len() - q0.len()) == count_false(v0),
        decreases row@.len() - j,
    {
        let ghost vstart = visited@;
        match row[j] {
            Some(w) => {
                proof { lemma_edge_resolved(g, u as int, j as int, w); }
                if w == v {
                    let mut c = copy_walk(walk);
                    c.push(v);
                    proof {
                        assert forall|i: int| 0 <= i < c@.len() - 1 implies edge(gv, #[trigger] c@[i] as int, c@[i + 1] as int) by {
                            if i < c@.len() - 2 {
                                assert(c@[i] == walk@[i] && c@[i + 1] == walk@[i + 1]);
                            }
                        }
                    }
                    return Some(c);
                }
                if !visited[w] {
                    let ghost vb = visited@;
                    let mut p = copy_walk(walk);
                    p.push(w);
                    proof {
                        assert forall|i: int| 0 <= i < p@.len() - 1 implies edge(gv, #[trigger] p@[i] as int, p@[i + 1] as int) by {
                            if i < p@.len() - 2 {
                                assert(p@[i] == walk@[i] && p@[i + 1] == walk@[i + 1]);
                            }
                        }
                        lemma_count_false_update(vb, w as int);
                    }
                    visited.set(w, true);
                    paths.set(w, p);
                    let ghost qb = queue@;
                    queue.push(w);
                    proof {
                        assert(queue@.subrange(0, q0.len() as int) =~= qb.subrange(0, q0.len() as int));
                        assert forall|x: int| 0 <= x < n && #[trigger] visited@[x] implies queue@.contains(x as usize) by {
                            if x == w as int {
                                assert(queue@[queue@.len() - 1] == w);
                            } else {
                                assert(vb[x]);
                                let k = choose|k: int| 0 <= k < qb.len() && qb[k] == x as usize;
                                assert(queue@[k] == x as usize);
                            }
                        }
                    }
                }
            },
            None => {},
        }
        assert(match row@[j as int] {
            Some(w) => w < n && visited@[w as int] && w != v,
            None => true,
        });
        proof {
            assert forall|x: int| 0 <= x < n && #[trigger] vstart[x] implies visited@[x] by {}
            assert forall|k: int| 0 <= k < j + 1 implies match #[trigger] row@[k] {
                Some(w) => w < n && visited@[w as int] && w != v,
                None => true,
            } by {
                if k < j {
                    match row@[k] {
                        Some(w) => { assert(vstart[w as int]); },
                        None => {},
                    }
                }
            }
        }
        j += 1;
    }
    proof {
        assert forall|w: int| #[trigger] edge(gv, u as int, w) implies visited@[w] && w != v by {
            let k = choose|k: int| 0 <= k < gv.callees[u as int].len() && node_index(gv, #[trigger] gv.callees[u as int][k]) == w;
            assert(gv.callees[u as int].len() == g.calls@[u as int]@.len());
            match row@[k] {
                Some(b) => {},
                None => {},
            }
        }
    }
    None
}

proof fn lemma_walk_stays(g: SCallGraph, v: usize, visited: Seq<bool>, p: Seq<usize>, i: int)
    requires
        visited.len() == g.names.len(),
        forall|w: int| #[trigger] edge(g, v as int, w) ==> visited[w] && w != v,
        forall|x: int, w: int| 0 <= x < g.names.len() && visited[x] && #[trigger] edge(g, x, w) ==> visited[w] && w != v,
        is_cycle(g, p),
        p[0] == v,
        1 <= i < p.len(),
    ensures
        visited[p[i] as int] && p[i] != v,
    decreases i,
{
    assert(edge(g, p[i - 1] as int, p[i] as int));
    if i > 1 {
        lemma_walk_stays(g, v, visited, p, i - 1);
    }
}

/// A cycle through `v`, if there is one.
fn cycle_from(g: &CallGraph, v: usize) -> (r: Option<Vec<usize>>)
    requires
        g.wf(),
        v < g.names@.len(),
    ensures
        match r {
            Some(c) => is_cycle(g.view_graph(), c@),
            None => forall|p: Seq<usize>| #[trigger] is_cycle(g.view_graph(), p) ==> p[0] != v,
        },
{
    let ghost gv = g.view_graph();
    let n = g.names.len();
    let mut visited: Vec<bool> = Vec::new();
    let mut paths: Vec<Vec<usize>> = Vec::new();
    let mut k: usize = 0;
    while k < n
        invariant
            k <= n,
            n == g.names@.len(),
            visited@.len() == k,
            paths@.len() == k,
            forall|x: int| 0 <= x < k ==> !(#[trigger] visited@[x]),
        decreases n - k,
    {
        visited.push(false);
        paths.push(Vec::new());
        k += 1;
    }
    let mut queue: Vec<usize> = Vec::new();
    let mut start: Vec<usize> = Vec::new();
    start.push(v);
    match expand(g, v, v, &start, &mut visited, &mut paths, &mut queue) {
        Some(c) => {
            return Some(c);
        },
        None => {},
    }
    let mut head: usize = 0;
    while head < queue.len()
        invariant
            g.wf(),
            gv == g.view_graph(),
            n == g.names@.len(),
            v < n,
            head <= queue@.len(),
            visited@.len() == n,
            paths@.len() == n,
            !visited@[v as int],
            forall|x: int| 0 <= x < n && #[trigger] visited@[x] ==> is_walk(gv, paths@[x]@, v, x as usize),
            forall|i: int| 0 <= i < queue@.len() ==> #[trigger] queue@[i] < n && visited@[queue@[i] as int],
            forall|x: int| 0 <= x < n && #[trigger] visited@[x] ==> queue@.contains(x as usize),
            forall|w: int| #[trigger] edge(gv, v as int, w) ==> visited@[w] && w != v,
            forall|i: int, w: int| 0 <= i < head && #[trigger] edge(gv, queue@[i] as int, w) ==> visited@[w] && w != v,
        decreases count_false(visited@), queue@.len() - head,
    {
        let u = queue[head];
        let wu = copy_walk(&paths[u]);
        let ghost q0 = queue@;
        let ghost v0 = visited@;
        match expand(g, v, u, &wu, &mut visited, &mut paths, &mut queue) {
            Some(c) => {
                return Some(c);
            },
            None => {},
        }
        proof {
            assert forall|i: int, w: int| 0 <= i < head + 1 && #[trigger] edge(gv, queue@[i] as int, w) implies visited@[w] && w != v by {
                assert(queue@[i] == queue@.subrange(0, q0.len() as int)[i]);
                assert(queue@[i] == q0[i]);
            }
        }
        head += 1;
    }
    proof {
        assert forall|x: int, w: int| 0 <= x < n && visited@[x] && #[trigger] edge(gv, x, w) implies visited@[w] && w != v by {
            let i = choose|i: int| 0 <= i < queue@.len() && queue@[i] == x as usize;
            assert(edge(gv, queue@[i] as int, w));
        }
        assert forall|p: Seq<usize>| #[trigger] is_cycle(gv, p) implies p[0] != v by {
            if p[0] == v {
                lemma_walk_stays(gv, v, visited@, p, p.len() - 1);
            }
        }
    }
    None
}

/// A cycle of the graph, if it has one.
pub fn find_cycle(g: &CallGraph) -> (r: Option<Vec<usize>>)
    requires
        g.wf(),
    ensures
        match r {
            Some(c) => is_cycle(g.view_graph(), c@),
            None => !has_cycle(g.view_graph()),
        },
{
    let ghost gv = g.view_graph();
    let mut v: usize = 0;
    while v < g.names.len()
        invariant
            g.wf(),
            gv == g.view_graph(),
            v <= g.names@.len(),
            forall|p: Seq<usize>| #[trigger] is_cycle(gv, p) ==> p[0] >= v,
        decreases g.names@.len() - v,
    {
        match cycle_from(g, v) {
            Some(c) => {
                return Some(c);
            },
            None => {},
        }
        v += 1;
    }
    proof {
        assert forall|p: Seq<usize>| !is_cycle(gv, p) by {
            if is_cycle(gv, p) {
                assert(edge(gv, p[0] as int, p[1] as int));
            }
        }
    }
    None
}


// ---------------------------------------------------------------------------
// Nesting depth
// ---------------------------------------------------------------------------

pub open spec fn max_nat(a: nat, b: nat) -> nat {
    if a >= b {
        a
    } else {
        b
    }
}

/// `n`, held at `usize::MAX`.
pub open spec fn cap(n: nat) -> usize {
    if n > usize::MAX {
        usize::MAX
    } else {
        n as usize
    }
}

/// A call of `c` nests `prev` of the callee below it; a name that is no
/// node nests one call.
pub open spec fn callee_depth(g: SCallGraph, prev: Seq<nat>, c: Seq<char>) -> nat {
    if node_index(g, c) >= 0 {
        prev[node_index(g, c)]
    } else {
        1
    }
}

pub open spec fn max_callee_depth(g: SCallGraph, prev: Seq<nat>, cs: Seq<Seq<char>>) -> nat
    decreases cs.len(),
{
    if cs.len() == 0 {
        0
    } else {
        max_nat(max_callee_depth(g, prev, cs.drop_last()), callee_depth(g, prev, cs[cs.len() - 1]))
    }
}

/// Calls nested below each node, following at most `k` nodes: a function
/// counts itself, `main` does not.
pub open spec fn depth_levels(g: SCallGraph, k: nat) -> Seq<nat>
    decreases k,
{
    if k == 0 {
        Seq::new(g.names.len(), |a: int| 0nat)
    } else {
        let prev = depth_levels(g, (k - 1) as nat);
        Seq::new(
            g.names.len(),
            |a: int| (if g.names[a] == main_name() { 0nat } else { 1nat }) + max_callee_depth(g, prev, g.callees[a]),
        )
    }
}

/// The deepest nesting of calls from `main`.  A chain without repeats
/// passes each node once, so as many levels as there are nodes reach every
/// chain of an acyclic graph.
pub open spec fn call_depth(g: SCallGraph) -> nat {
    depth_levels(g, g.names.len())[node_index(g, main_name())]
}

/// What a call of `c` from node `a` adds to the depth of `a` in the
/// save-area numbering: one more than the callee, unless it is `a` itself
/// or no node.
pub open spec fn frame_step(g: SCallGraph, prev: Seq<nat>, a: int, c: Seq<char>) -> nat {
    if node_index(g, c) >= 0 && node_index(g, c) != a {
        prev[node_index(g, c)] + 1
    } else {
        0
    }
}

pub open spec fn max_frame_step(g: SCallGraph, prev: Seq<nat>, a: int, cs: Seq<Seq<char>>) -> nat
    decreases cs.len(),
{
    if cs.len() == 0 {
        0
    } else {
        max_nat(max_frame_step(g, prev, a, cs.drop_last()), frame_step(g, prev, a, cs[cs.len() - 1]))
    }
}

/// The frame depth of every node after `k` rounds: `main` is 0, a function
/// is one more than its deepest callee.
pub open spec fn frame_levels(g: SCallGraph, k: nat) -> Seq<nat>
    decreases k,
{
    if k == 0 {
        Seq::new(g.names.len(), |a: int| 0nat)
    } else {
        let prev = frame_levels(g, (k - 1) as nat);
        Seq::new(
            g.names.len(),
            |a: int| if g.names[a] == main_name() { 0nat } else { max_frame_step(g, prev, a, g.callees[a]) },
        )
    }
}

/// Frame depth of each node; see `frame_levels`.
pub open spec fn frame_depths(g: SCallGraph) -> Seq<nat> {
    frame_levels(g, g.names.len())
}

proof fn lemma_max_frame_step_bound(g: SCallGraph, prev: Seq<nat>, a: int, cs: Seq<Seq<char>>, b: nat)
    requires
        prev.len() == g.names.len(),
        forall|i: int| 0 <= i < prev.len() ==> #[trigger] prev[i] <= b,
    ensures
        max_frame_step(g, prev, a, cs) <= b + 1,
    decreases cs.len(),
{
    if cs.len() > 0 {
        lemma_max_frame_step_bound(g, prev, a, cs.drop_last(), b);
        lemma_node_index_bounds(g.names, cs[cs.len() - 1]);
    }
}

/// After `k` rounds no frame depth exceeds `k`.
pub(crate) proof fn lemma_frame_levels_bound(g: SCallGraph, k: nat)
    ensures
        frame_levels(g, k).len() == g.names.len(),
        forall|a: int| 0 <= a < g.names.len() ==> #[trigger] frame_levels(g, k)[a] <= k,
    decreases k,
{
    if k > 0 {
        let prev = frame_levels(g, (k - 1) as nat);
        lemma_frame_levels_bound(g, (k - 1) as nat);
        assert forall|a: int| 0 <= a < g.names.len() implies #[trigger] frame_levels(g, k)[a] <= k by {
            lemma_max_frame_step_bound(g, prev, a, g.callees[a], (k - 1) as nat);
        }
    }
}

proof fn lemma_fn_nodes_len(fs: Seq<SFnDecl>)
    ensures
        fn_nodes(fs).names.len() <= fs.len(),
    decreases fs.len(),
{
    if fs.len() > 0 {
        lemma_fn_nodes_len(fs.drop_last());
    }
}

/// The call graph has a node for each function and one for `main` at most.
pub(crate) proof fn lemma_call_graph_len(p: SProgram)
    ensures
        call_graph(p).names.len() <= p.functions.len() + 1,
{
    lemma_fn_nodes_len(p.functions);
}

fn add_capped(a: usize, b: usize) -> (r: usize)
    ensures
        r == cap(a as nat + b as nat),
{
    if a > usize::MAX - b {
        usize::MAX
    } else {
        a + b
    }
}

fn max_usize(a: usize, b: usize) -> (r: usize)
    ensures
        r == max_nat(a as nat, b as nat),
{
    if a >= b {
        a
    } else {
        b
    }
}

pub open spec fn capped(s: Seq<nat>) -> Seq<usize> {
    s.map_values(|x: nat| cap(x))
}

/// One round of `depth_levels` (`frame` false) or of `frame_levels`
/// (`frame` true), on capped values.
fn next_level(g: &CallGraph, prev: &Vec<usize>, frame: bool, is_main: &Vec<bool>, Ghost(p): Ghost<Seq<nat>>) -> (r: Vec<usize>)
    requires
        g.wf(),
        prev@.len() == g.names@.len(),
        p.len() == g.names@.len(),
        prev@ == capped(p),
        is_main@.len() == g.names@.len(),
        forall|a: int| 0 <= a < g.names@.len() ==> #[trigger] is_main@[a] == (g.view_graph().names[a] == main_name()),
    ensures
        r@.len() == g.names@.len(),
        forall|a: int| 0 <= a < g.names@.len() ==> #[trigger] r@[a] == cap(
            if frame {
                if g.view_graph().names[a] == main_name() { 0nat } else { max_frame_step(g.view_graph(), p, a, g.view_graph().callees[a]) }
            } else {
                (if g.view_graph().names[a] == main_name() { 0nat } else { 1nat }) + max_callee_depth(g.view_graph(), p, g.view_graph().callees[a])
            },
        ),
{
    let ghost gv = g.view_graph();
    let n = g.names.len();
    let mut out: Vec<usize> = Vec::new();
    let mut a: usize = 0;
    while a < n
        invariant
            g.wf(),
            gv == g.view_graph(),
            n == g.names@.len(),
            a <= n,
            prev@.len() == n,
            p.len() == n,
            prev@ == capped(p),
            is_main@.len() == n,
            forall|x: int| 0 <= x < n ==> #[trigger] is_main@[x] == (gv.names[x] == main_name()),
            out@.len() == a,
            forall|x: int| 0 <= x < a ==> #[trigger] out@[x] == cap(
                if frame {
                    if gv.names[x] == main_name() { 0nat } else { max_frame_step(gv, p, x, gv.callees[x]) }
                } else {
                    (if gv.names[x] == main_name() { 0nat } else { 1nat }) + max_callee_depth(gv, p, gv.callees[x])
                },
            ),
        decreases n - a,
    {
        let row = &g.resolved[a];
        let ghost cs = gv.callees[a as int];
        assert(cs.len() == row@.len());
        let mut m: usize = 0;
        let mut j: usize = 0;
        assert(cs.take(0) =~= Seq::<Seq<char>>::empty());
        while j < row.len()
            invariant
                g.wf(),
                gv == g.view_graph(),
                n == g.names@.len(),
                a < n,
                prev@.len() == n,
                p.len() == n,
                prev@ == capped(p),
                row == &g.resolved@[a as int],
                cs == gv.callees[a as int],
                cs.len() == row@.len(),
                j <= row@.len(),
                m == cap(if frame { max_frame_step(gv, p, a as int, cs.take(j as int)) } else { max_callee_depth(gv, p, cs.take(j as int)) }),
            decreases row@.len() - j,
        {
            assert(cs.take(j + 1).drop_last() == cs.take(j as int));
            assert(cs.take(j + 1)[j as int] == cs[j as int]);
            let ghost c = cs[j as int];
            let part: usize = match row[j] {
                Some(b) => {
                    proof { lemma_node_index_bounds(gv.names, c); }
                    if frame {
                        if b == a {
                            0
                        } else {
                            add_capped(prev[b], 1)
                        }
                    } else {
                        prev[b]
                    }
                },
                None => {
                    if frame {
                        0
                    } else {
                        1
                    }
                },
            };
            assert(part == cap(if frame { frame_step(gv, p, a as int, c) } else { callee_depth(gv, p, c) }));
            m = max_usize(m, part);
            j += 1;
        }
        assert(cs.take(j as int) == cs);
        let v: usize = if frame {
            if is_main[a] {
                0
            } else {
                m
            }
        } else {
            if is_main[a] {
                m
            } else {
                add_capped(m, 1)
            }
        };
        out.push(v);
        a += 1;
    }
    out
}

fn main_flags(g: &CallGraph) -> (r: Vec<bool>)
    requires
        g.wf(),
    ensures
        r@.len() == g.names@.len(),
        forall|a: int| 0 <= a < g.names@.len() ==> #[trigger] r@[a] == (g.view_graph().names[a] == main_name()),
{
    let main_label = String::from_str("main");
    proof { reveal_strlit("main"); }
    let mut r: Vec<bool> = Vec::new();
    let mut a: usize = 0;
    while a < g.names.len()
        invariant
            a <= g.names@.len(),
            main_label@ == main_name(),
            r@.len() == a,
            forall|x: int| 0 <= x < a ==> #[trigger] r@[x] == (g.view_graph().names[x] == main_name()),
        decreases g.names@.len() - a,
    {
        r.push(g.names[a] == main_label);
        a += 1;
    }
    r
}

/// Runs `depth_levels` (`frame` false) or `frame_levels` (`frame` true) for
/// as many rounds as there are nodes.
fn levels(g: &CallGraph, frame: bool) -> (r: Vec<usize>)
    requires
        g.wf(),
    ensures
        r@ == capped(if frame { frame_depths(g.view_graph()) } else { depth_levels(g.view_graph(), g.names@.len() as nat) }),
{
    let ghost gv = g.view_graph();
    let n = g.names.len();
    let is_main = main_flags(g);
    let mut cur: Vec<usize> = Vec::new();
    let mut a: usize = 0;
    while a < n
        invariant
            a <= n,
            n == g.names@.len(),
            cur@.len() == a,
            forall|x: int| 0 <= x < a ==> #[trigger] cur@[x] == 0,
        decreases n - a,
    {
        cur.push(0);
        a += 1;
    }
    assert(cur@ =~= capped(if frame { frame_levels(gv, 0) } else { depth_levels(gv, 0) }));
    let mut k: usize = 0;
    while k < n
        invariant
            g.wf(),
            gv == g.view_graph(),
            n == g.names@.len(),
            k <= n,
            is_main@.len() == n,
            forall|x: int| 0 <= x < n ==> #[trigger] is_main@[x] == (gv.names[x] == main_name()),
            cur@ == capped(if frame { frame_levels(gv, k as nat) } else { depth_levels(gv, k as nat) }),
        decreases n - k,
    {
        let ghost p = if frame { frame_levels(gv, k as nat) } else { depth_levels(gv, k as nat) };
        let next = next_level(g, &cur, frame, &is_main, Ghost(p));
        proof {
            let q = if frame { frame_levels(gv, (k + 1) as nat) } else { depth_levels(gv, (k + 1) as nat) };
            assert(next@ =~= capped(q));
        }
        cur = next;
        k += 1;
    }
    cur
}

/// `call_depth` of the graph, held at `usize::MAX`.
pub fn max_call_depth(g: &CallGraph) -> (d: usize)
    requires
        g.wf(),
        node_index(g.view_graph(), main_name()) >= 0,
    ensures
        d == cap(call_depth(g.view_graph())),
{
    let main_label = String::from_str("main");
    proof { reveal_strlit("main"); }
    assert(main_label@ == main_name());
    let lv = levels(g, false);
    match node_of(&g.names, &main_label) {
        Some(m) => {
            assert(lv@[m as int] == cap(depth_levels(g.view_graph(), g.names@.len() as nat)[m as int]));
            lv[m]
        },
        None => 0,
    }
}

/// `frame_depths` of the graph, each held at `usize::MAX`.
pub fn frame_depth_table(g: &CallGraph) -> (r: Vec<usize>)
    requires
        g.wf(),
    ensures
        r@ == capped(frame_depths(g.view_graph())),
{
    levels(g, true)
}

} // verus!
