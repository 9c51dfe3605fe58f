//! Syntax analysis: recursive descent from a token stream to a `Program`.
use vstd::prelude::*;
use crate::ast::{
    Expr, Stmt, ElseIf, Program, SpriteDecl, SpriteData, VarDecl, FnDecl, Op, SExpr, SStmt,
    SElseIf, SSpriteDecl, SSpriteData, SVarDecl, SFnDecl, SProgram,
};
use crate::lexer::{Token, TokenOf, SToken, Spanned, spanned_views};

verus! {

/// Punctuation that the parser can demand at a given point.
#[derive(Debug, Clone, Copy, PartialEq, Eq, Structural)]
pub enum Punct {
    LParen,
    RParen,
    LBrace,
    RBrace,
    LBracket,
    RBracket,
    Semicolon,
    Comma,
    Equals,
    Arrow,
}

/// The top-level sections that may appear at most once.
#[derive(Debug, Clone, Copy, PartialEq, Eq, Structural)]
pub enum Section {
    Sprites,
    Vars,
    Main,
}

#[derive(Debug, Clone, Copy, PartialEq, Eq, Structural)]
pub enum ParseErrorKind {
    /// The given punctuation was required here.
    Expected(Punct),
    DuplicateSection(Section),
    UnexpectedTopLevel,
    ExpectedSpriteName,
    ExpectedSpriteData,
    ExpectedByte,
    ExpectedVarName,
    ExpectedFnName,
    ExpectedArgName,
    ExpectedReturnName,
    UnexpectedStatementStart,
    ExpectedAssignOrCall,
    ExpectedSpriteInDraw,
    UnexpectedInExpression,
    /// An integer outside 0..=255 used as a value or a sprite row.
    IntOutOfRange,
}

/// A syntax error: the offending token's index in the stream and its line.
#[derive(Debug, Clone, Copy, PartialEq, Eq, Structural)]
pub struct ParseError {
    pub line: u32,
    pub pos: usize,
    pub kind: ParseErrorKind,
}

// ---------------------------------------------------------------------------
// Grammar, as functions over the token stream.
//
// Each function takes the position of its first token and gives the parsed
// value with the position just after it. Where a position obtained from a
// sub-parse feeds a further step, `moved` checks that parsing went forward;
// every successful parse consumes at least one token, so that check always
// holds (it is what makes the definitions well founded).
// ---------------------------------------------------------------------------

pub type Toks = Seq<(SToken, u32)>;

pub type PRes<A> = Result<(A, int), ParseError>;

pub open spec fn tok(t: Toks, p: int) -> SToken {
    if 0 <= p < t.len() {
        t[p].0
    } else {
        TokenOf::EOF
    }
}

pub open spec fn line_of(t: Toks, p: int) -> u32 {
    if 0 <= p < t.len() {
        t[p].1
    } else {
        0
    }
}

pub open spec fn error_at(t: Toks, p: int, kind: ParseErrorKind) -> ParseError {
    ParseError { line: line_of(t, p), pos: p as usize, kind }
}

pub open spec fn moved(t: Toks, p: int, q: int) -> bool {
    p < q <= t.len()
}

pub open spec fn punct_token(k: Punct) -> SToken {
    match k {
        Punct::LParen => TokenOf::LParen,
        Punct::RParen => TokenOf::RParen,
        Punct::LBrace => TokenOf::LBrace,
        Punct::RBrace => TokenOf::RBrace,
        Punct::LBracket => TokenOf::LBracket,
        Punct::RBracket => TokenOf::RBracket,
        Punct::Semicolon => TokenOf::Semicolon,
        Punct::Comma => TokenOf::Comma,
        Punct::Equals => TokenOf::Equals,
        Punct::Arrow => TokenOf::Arrow,
    }
}

pub open spec fn is_punct(t: Toks, p: int, k: Punct) -> bool {
    tok(t, p) == punct_token(k)
}

/// Consumes `k` at `p`.
pub open spec fn expect(t: Toks, p: int, k: Punct) -> Result<int, ParseError> {
    if is_punct(t, p, k) {
        Ok(p + 1)
    } else {
        Err(error_at(t, p, ParseErrorKind::Expected(k)))
    }
}

/// The branch taken when a sub-parse did not move forward (never taken).
pub open spec fn stuck<A>(t: Toks, p: int) -> PRes<A> {
    Err(error_at(t, p, ParseErrorKind::UnexpectedInExpression))
}

pub open spec fn binop_tier(k: SToken, level: nat) -> Option<Op> {
    if level == 2 {
        match k {
            TokenOf::Star => Some(Op::Mul),
            TokenOf::Slash => Some(Op::Div),
            TokenOf::Percent => Some(Op::Mod),
            _ => None,
        }
    } else if level == 3 {
        match k {
            TokenOf::Plus => Some(Op::Add),
            TokenOf::Minus => Some(Op::Sub),
            _ => None,
        }
    } else if level == 4 {
        match k {
            TokenOf::EqEq => Some(Op::EqEq),
            TokenOf::NotEq => Some(Op::NotEq),
            TokenOf::Lt => Some(Op::Lt),
            TokenOf::Gt => Some(Op::Gt),
            TokenOf::LtEq => Some(Op::LtEq),
            TokenOf::GtEq => Some(Op::GtEq),
            _ => None,
        }
    } else if level == 5 {
        match k {
            TokenOf::And => Some(Op::And),
            _ => None,
        }
    } else if level == 6 {
        match k {
            TokenOf::Or => Some(Op::Or),
            _ => None,
        }
    } else {
        None
    }
}

/// An operand of the binary tier `level`: the next tighter tier.
pub open spec fn p_operand(t: Toks, p: int, level: nat) -> PRes<SExpr>
    decreases t.len() - p, level + 1, 0nat,
{
    if level <= 2 {
        p_unary(t, p)
    } else {
        p_binary(t, p, (level - 1) as nat)
    }
}

/// A left-associative chain of operators of tier `level`
/// (2 = `* / %`, 3 = `+ -`, 4 = comparisons, 5 = `and`, 6 = `or`).
pub open spec fn p_binary(t: Toks, p: int, level: nat) -> PRes<SExpr>
    decreases t.len() - p, level + 1, 1nat,
{
    match p_operand(t, p, level) {
        Err(x) => Err(x),
        Ok((left, q)) => if !moved(t, p, q) {
            stuck(t, p)
        } else {
            p_binary_tail(t, left, q, level)
        },
    }
}

/// The rest of a chain of tier `level` after `left`.
pub open spec fn p_binary_tail(t: Toks, left: SExpr, p: int, level: nat) -> PRes<SExpr>
    decreases t.len() - p, level + 1, 2nat,
{
    match binop_tier(tok(t, p), level) {
        None => Ok((left, p)),
        Some(op) => match p_operand(t, p + 1, level) {
            Err(x) => Err(x),
            Ok((right, q)) => if !moved(t, p, q) {
                stuck(t, p)
            } else {
                p_binary_tail(t, SExpr::BinOp(Box::new(left), op, Box::new(right)), q, level)
            },
        },
    }
}

/// `not unary | primary`
pub open spec fn p_unary(t: Toks, p: int) -> PRes<SExpr>
    decreases t.len() - p, 0nat, 2nat,
{
    match tok(t, p) {
        TokenOf::Not => match p_unary(t, p + 1) {
            Err(x) => Err(x),
            Ok((e, q)) => Ok((SExpr::Not(Box::new(e)), q)),
        },
        _ => p_primary(t, p),
    }
}

pub open spec fn p_expr(t: Toks, p: int) -> PRes<SExpr>
    decreases t.len() - p, 8nat, 0nat,
{
    p_binary(t, p, 6)
}

/// `( expr )` starting at the `(`.
pub open spec fn p_paren(t: Toks, p: int) -> PRes<SExpr>
    decreases t.len() - p, 0nat, 0nat,
{
    match expect(t, p, Punct::LParen) {
        Err(x) => Err(x),
        Ok(p1) => match p_expr(t, p1) {
            Err(x) => Err(x),
            Ok((e, q)) => if !moved(t, p, q) {
                stuck(t, p)
            } else {
                match expect(t, q, Punct::RParen) {
                    Err(x) => Err(x),
                    Ok(q1) => Ok((e, q1)),
                }
            },
        },
    }
}

/// Arguments up to (not including) the closing `)`, separated by commas.
pub open spec fn p_args(t: Toks, p: int, acc: Seq<SExpr>) -> PRes<Seq<SExpr>>
    decreases t.len() - p, 9nat, 0nat,
{
    if acc.len() == 0 && is_punct(t, p, Punct::RParen) {
        Ok((acc, p))
    } else {
        match p_expr(t, p) {
            Err(x) => Err(x),
            Ok((e, q)) => if !moved(t, p, q) {
                stuck(t, p)
            } else if is_punct(t, q, Punct::Comma) {
                p_args(t, q + 1, acc.push(e))
            } else if is_punct(t, q, Punct::RParen) {
                Ok((acc.push(e), q))
            } else {
                Err(error_at(t, q, ParseErrorKind::Expected(Punct::Comma)))
            },
        }
    }
}

/// `expr , expr ,` — the two coordinates of `draw` and `drawdigit`, from the
/// token after `(`.
pub open spec fn p_xy(t: Toks, p: int) -> PRes<(SExpr, SExpr)>
    decreases t.len() - p, 9nat, 0nat,
{
    match p_expr(t, p) {
        Err(x) => Err(x),
        Ok((x, q)) => if !moved(t, p, q) {
            stuck(t, p)
        } else {
            match expect(t, q, Punct::Comma) {
                Err(e) => Err(e),
                Ok(q1) => match p_expr(t, q1) {
                    Err(e) => Err(e),
                    Ok((y, q2)) => if !moved(t, q1, q2) {
                        stuck(t, p)
                    } else {
                        match expect(t, q2, Punct::Comma) {
                            Err(e) => Err(e),
                            Ok(q3) => Ok(((x, y), q3)),
                        }
                    },
                },
            }
        },
    }
}

/// `()` right after a built-in name.
pub open spec fn p_empty_parens(t: Toks, p: int, e: SExpr) -> PRes<SExpr> {
    match expect(t, p, Punct::LParen) {
        Err(x) => Err(x),
        Ok(p1) => match expect(t, p1, Punct::RParen) {
            Err(x) => Err(x),
            Ok(p2) => Ok((e, p2)),
        },
    }
}

pub open spec fn p_primary(t: Toks, p: int) -> PRes<SExpr>
    decreases t.len() - p, 0nat, 1nat,
{
    match tok(t, p) {
        TokenOf::Int(n) => if n > 255 {
            Err(error_at(t, p, ParseErrorKind::IntOutOfRange))
        } else {
            Ok((SExpr::Int(#[verifier::truncate] (n as u8)), p + 1))
        },
        TokenOf::Bool(b) => Ok((SExpr::Bool(b), p + 1)),
        TokenOf::LParen => p_paren(t, p),
        TokenOf::Draw => match expect(t, p + 1, Punct::LParen) {
            Err(x) => Err(x),
            Ok(p1) => match p_xy(t, p1) {
                Err(x) => Err(x),
                Ok(((x, y), q)) => if !moved(t, p, q) {
                    stuck(t, p)
                } else {
                    match tok(t, q) {
                        TokenOf::Ident(name) => match expect(t, q + 1, Punct::RParen) {
                            Err(e) => Err(e),
                            Ok(q1) => Ok((SExpr::Draw(Box::new(x), Box::new(y), name), q1)),
                        },
                        _ => Err(error_at(t, q, ParseErrorKind::ExpectedSpriteInDraw)),
                    }
                },
            },
        },
        TokenOf::DrawDigit => match expect(t, p + 1, Punct::LParen) {
            Err(x) => Err(x),
            Ok(p1) => match p_xy(t, p1) {
                Err(x) => Err(x),
                Ok(((x, y), q)) => if !moved(t, p, q) {
                    stuck(t, p)
                } else {
                    match p_expr(t, q) {
                        Err(e) => Err(e),
                        Ok((n, q1)) => if !moved(t, q, q1) {
                            stuck(t, p)
                        } else {
                            match expect(t, q1, Punct::RParen) {
                                Err(e) => Err(e),
                                Ok(q2) => Ok(
                                    (SExpr::DrawDigit(Box::new(x), Box::new(y), Box::new(n)), q2),
                                ),
                            }
                        },
                    }
                },
            },
        },
        TokenOf::GetKey => p_empty_parens(t, p + 1, SExpr::GetKey),
        TokenOf::GetDelay => p_empty_parens(t, p + 1, SExpr::GetDelay),
        TokenOf::KeyPressed => match p_paren(t, p + 1) {
            Err(x) => Err(x),
            Ok((e, q)) => Ok((SExpr::KeyPressed(Box::new(e)), q)),
        },
        TokenOf::Rand => match p_paren(t, p + 1) {
            Err(x) => Err(x),
            Ok((e, q)) => Ok((SExpr::Rand(Box::new(e)), q)),
        },
        TokenOf::Ident(name) => if is_punct(t, p + 1, Punct::LParen) {
            match p_args(t, p + 2, Seq::empty()) {
                Err(x) => Err(x),
                Ok((args, q)) => if !moved(t, p, q) {
                    stuck(t, p)
                } else {
                    match expect(t, q, Punct::RParen) {
                        Err(e) => Err(e),
                        Ok(q1) => Ok((SExpr::Call(name, args), q1)),
                    }
                },
            }
        } else {
            Ok((SExpr::Var(name), p + 1))
        },
        _ => Err(error_at(t, p, ParseErrorKind::UnexpectedInExpression)),
    }
}

// ---------------------------------------------------------------------------
// Statements
// ---------------------------------------------------------------------------

/// `name = expr ;` or `name ( args ) ;`, starting at the name.
pub open spec fn p_assign_or_call(t: Toks, p: int, name: Seq<char>) -> PRes<SStmt> {
    if is_punct(t, p + 1, Punct::Equals) {
        match p_expr(t, p + 2) {
            Err(x) => Err(x),
            Ok((e, q)) => match expect(t, q, Punct::Semicolon) {
                Err(x) => Err(x),
                Ok(q1) => Ok((SStmt::Assign(name, e), q1)),
            },
        }
    } else if is_punct(t, p + 1, Punct::LParen) {
        match p_args(t, p + 2, Seq::empty()) {
            Err(x) => Err(x),
            Ok((args, q)) => match expect(t, q, Punct::RParen) {
                Err(x) => Err(x),
                Ok(q1) => match expect(t, q1, Punct::Semicolon) {
                    Err(x) => Err(x),
                    Ok(q2) => Ok((SStmt::Call(name, args), q2)),
                },
            },
        }
    } else {
        Err(error_at(t, p + 1, ParseErrorKind::ExpectedAssignOrCall))
    }
}

/// `( expr ) ;` after `delay` or `beep`.
pub open spec fn p_builtin_arg(t: Toks, p: int) -> PRes<SExpr> {
    match p_paren(t, p) {
        Err(x) => Err(x),
        Ok((e, q)) => match expect(t, q, Punct::Semicolon) {
            Err(x) => Err(x),
            Ok(q1) => Ok((e, q1)),
        },
    }
}

/// `( expr )` followed by a block: the head and body of `if`, `elif`, `while`,
/// starting at the `(`.
pub open spec fn p_cond_block(t: Toks, p: int) -> PRes<(SExpr, Seq<SStmt>)>
    decreases t.len() - p, 0nat,
{
    match p_paren(t, p) {
        Err(x) => Err(x),
        Ok((c, q)) => if !moved(t, p, q) {
            stuck(t, p)
        } else {
            match p_block(t, q) {
                Err(x) => Err(x),
                Ok((b, q1)) => Ok(((c, b), q1)),
            }
        },
    }
}

/// `{ stmt* }`
pub open spec fn p_block(t: Toks, p: int) -> PRes<Seq<SStmt>>
    decreases t.len() - p, 0nat,
{
    match expect(t, p, Punct::LBrace) {
        Err(x) => Err(x),
        Ok(p1) => p_stmts(t, p1, Seq::empty()),
    }
}

/// Statements up to and including the closing `}`.
pub open spec fn p_stmts(t: Toks, p: int, acc: Seq<SStmt>) -> PRes<Seq<SStmt>>
    decreases t.len() - p, 3nat,
{
    if is_punct(t, p, Punct::RBrace) {
        Ok((acc, p + 1))
    } else {
        match p_stmt(t, p) {
            Err(x) => Err(x),
            Ok((st, q)) => if !moved(t, p, q) {
                stuck(t, p)
            } else {
                p_stmts(t, q, acc.push(st))
            },
        }
    }
}

/// `elif ( expr ) block` branches.
pub open spec fn p_elifs(t: Toks, p: int, acc: Seq<SElseIf>) -> PRes<Seq<SElseIf>>
    decreases t.len() - p, 0nat,
{
    match tok(t, p) {
        TokenOf::Elif => match p_cond_block(t, p + 1) {
            Err(x) => Err(x),
            Ok(((c, b), q)) => if !moved(t, p, q) {
                stuck(t, p)
            } else {
                p_elifs(t, q, acc.push(SElseIf { condition: c, body: b }))
            },
        },
        _ => Ok((acc, p)),
    }
}

/// `( expr ) block elif* else?`, the rest of an `if` from the `(` on.
pub open spec fn p_if(t: Toks, p: int) -> PRes<SStmt>
    decreases t.len() - p, 1nat,
{
    match p_cond_block(t, p) {
        Err(x) => Err(x),
        Ok(((c, b), q)) => if !moved(t, p, q) {
            stuck(t, p)
        } else {
            match p_elifs(t, q, Seq::empty()) {
                Err(x) => Err(x),
                Ok((elifs, q1)) => if !moved(t, p, q1) {
                    stuck(t, p)
                } else {
                    match tok(t, q1) {
                        TokenOf::Else => match p_block(t, q1 + 1) {
                            Err(x) => Err(x),
                            Ok((eb, q2)) => Ok((SStmt::If(c, b, elifs, Some(eb)), q2)),
                        },
                        _ => Ok((SStmt::If(c, b, elifs, None), q1)),
                    }
                },
            }
        },
    }
}

pub open spec fn p_stmt(t: Toks, p: int) -> PRes<SStmt>
    decreases t.len() - p, 2nat,
{
    match tok(t, p) {
        TokenOf::If => p_if(t, p + 1),
        TokenOf::Loop => match p_block(t, p + 1) {
            Err(x) => Err(x),
            Ok((b, q)) => Ok((SStmt::Loop(b), q)),
        },
        TokenOf::While => match p_cond_block(t, p + 1) {
            Err(x) => Err(x),
            Ok(((c, b), q)) => Ok((SStmt::While(c, b), q)),
        },
        TokenOf::Clear => match p_empty_parens(t, p + 1, SExpr::GetKey) {
            Err(x) => Err(x),
            Ok((_, q)) => match expect(t, q, Punct::Semicolon) {
                Err(x) => Err(x),
                Ok(q1) => Ok((SStmt::Clear, q1)),
            },
        },
        TokenOf::Delay => match p_builtin_arg(t, p + 1) {
            Err(x) => Err(x),
            Ok((e, q)) => Ok((SStmt::Delay(e), q)),
        },
        TokenOf::Beep => match p_builtin_arg(t, p + 1) {
            Err(x) => Err(x),
            Ok((e, q)) => Ok((SStmt::Beep(e), q)),
        },
        TokenOf::Ident(name) => p_assign_or_call(t, p, name),
        _ => Err(error_at(t, p, ParseErrorKind::UnexpectedStatementStart)),
    }
}

// ---------------------------------------------------------------------------
// Top-level sections
// ---------------------------------------------------------------------------

/// Sprite rows up to and including `]`, separated by commas; each row is a
/// byte, 0 to 255.
pub open spec fn p_bytes(t: Toks, p: int, acc: Seq<u8>) -> PRes<Seq<u8>>
    decreases t.len() - p,
{
    if acc.len() == 0 && is_punct(t, p, Punct::RBracket) {
        Ok((acc, p + 1))
    } else {
        match tok(t, p) {
            TokenOf::Int(b) => if !(0 <= b <= 255) {
                Err(error_at(t, p, ParseErrorKind::IntOutOfRange))
            } else if is_punct(t, p + 1, Punct::Comma) {
                p_bytes(t, p + 2, acc.push(b as u8))
            } else if is_punct(t, p + 1, Punct::RBracket) {
                Ok((acc.push(b as u8), p + 2))
            } else {
                Err(error_at(t, p + 1, ParseErrorKind::Expected(Punct::Comma)))
            },
            _ => Err(error_at(t, p, ParseErrorKind::ExpectedByte)),
        }
    }
}

/// `[ bytes ]` or `"path"`.
pub open spec fn p_sprite_data(t: Toks, p: int) -> PRes<SSpriteData> {
    match tok(t, p) {
        TokenOf::LBracket => match p_bytes(t, p + 1, Seq::empty()) {
            Err(x) => Err(x),
            Ok((b, q)) => Ok((SSpriteData::Inline(b), q)),
        },
        TokenOf::StringLit(path) => Ok((SSpriteData::File(path), p + 1)),
        _ => Err(error_at(t, p, ParseErrorKind::ExpectedSpriteData)),
    }
}

/// Sprite declarations up to and including `}`.
pub open spec fn p_sprite_decls(t: Toks, p: int, acc: Seq<SSpriteDecl>) -> PRes<Seq<SSpriteDecl>>
    decreases t.len() - p,
{
    if is_punct(t, p, Punct::RBrace) {
        Ok((acc, p + 1))
    } else {
        match tok(t, p) {
            TokenOf::Ident(name) => match expect(t, p + 1, Punct::Equals) {
                Err(x) => Err(x),
                Ok(p1) => match p_sprite_data(t, p1) {
                    Err(x) => Err(x),
                    Ok((data, q)) => match expect(t, q, Punct::Semicolon) {
                        Err(x) => Err(x),
                        Ok(q1) => if !moved(t, p, q1) {
                            stuck(t, p)
                        } else {
                            p_sprite_decls(t, q1, acc.push(SSpriteDecl { name, data }))
                        },
                    },
                },
            },
            _ => Err(error_at(t, p, ParseErrorKind::ExpectedSpriteName)),
        }
    }
}

/// Variable declarations up to and including `}`.
pub open spec fn p_var_decls(t: Toks, p: int, acc: Seq<SVarDecl>) -> PRes<Seq<SVarDecl>>
    decreases t.len() - p,
{
    if is_punct(t, p, Punct::RBrace) {
        Ok((acc, p + 1))
    } else {
        match tok(t, p) {
            TokenOf::Ident(name) => match expect(t, p + 1, Punct::Equals) {
                Err(x) => Err(x),
                Ok(p1) => match p_expr(t, p1) {
                    Err(x) => Err(x),
                    Ok((value, q)) => match expect(t, q, Punct::Semicolon) {
                        Err(x) => Err(x),
                        Ok(q1) => if !moved(t, p, q1) {
                            stuck(t, p)
                        } else {
                            p_var_decls(t, q1, acc.push(SVarDecl { name, value }))
                        },
                    },
                },
            },
            _ => Err(error_at(t, p, ParseErrorKind::ExpectedVarName)),
        }
    }
}

/// Parameter names up to (not including) `)`, separated by commas.
pub open spec fn p_params(t: Toks, p: int, acc: Seq<Seq<char>>) -> PRes<Seq<Seq<char>>>
    decreases t.len() - p,
{
    if acc.len() == 0 && is_punct(t, p, Punct::RParen) {
        Ok((acc, p))
    } else {
        match tok(t, p) {
            TokenOf::Ident(name) => if is_punct(t, p + 1, Punct::Comma) {
                p_params(t, p + 2, acc.push(name))
            } else if is_punct(t, p + 1, Punct::RParen) {
                Ok((acc.push(name), p + 1))
            } else {
                Err(error_at(t, p + 1, ParseErrorKind::Expected(Punct::Comma)))
            },
            _ => Err(error_at(t, p, ParseErrorKind::ExpectedArgName)),
        }
    }
}

/// `fn name ( params ) -> ret block`, starting at `fn`.
pub open spec fn p_fn(t: Toks, p: int) -> PRes<SFnDecl> {
    match tok(t, p + 1) {
        TokenOf::Ident(name) => match expect(t, p + 2, Punct::LParen) {
            Err(x) => Err(x),
            Ok(p1) => match p_params(t, p1, Seq::empty()) {
                Err(x) => Err(x),
                Ok((args, q)) => match expect(t, q, Punct::RParen) {
                    Err(x) => Err(x),
                    Ok(q1) => match expect(t, q1, Punct::Arrow) {
                        Err(x) => Err(x),
                        Ok(q2) => match tok(t, q2) {
                            TokenOf::Ident(ret) => match p_block(t, q2 + 1) {
                                Err(x) => Err(x),
                                Ok((body, q3)) => Ok((SFnDecl { name, args, ret, body }, q3)),
                            },
                            _ => Err(error_at(t, q2, ParseErrorKind::ExpectedReturnName)),
                        },
                    },
                },
            },
        },
        _ => Err(error_at(t, p + 1, ParseErrorKind::ExpectedFnName)),
    }
}

/// `sprites { ... }`, starting at `sprites`.
pub open spec fn p_sprites_block(t: Toks, p: int) -> PRes<Seq<SSpriteDecl>> {
    match expect(t, p + 1, Punct::LBrace) {
        Err(x) => Err(x),
        Ok(p1) => p_sprite_decls(t, p1, Seq::empty()),
    }
}

/// `vars { ... }`, starting at `vars`.
pub open spec fn p_vars_block(t: Toks, p: int) -> PRes<Seq<SVarDecl>> {
    match expect(t, p + 1, Punct::LBrace) {
        Err(x) => Err(x),
        Ok(p1) => p_var_decls(t, p1, Seq::empty()),
    }
}

/// Which sections have been seen so far.
pub struct Seen {
    pub sprites: bool,
    pub vars: bool,
    pub main: bool,
}

/// Top-level sections from `p` to `EOF`, added to `prog`.
pub open spec fn p_sections(t: Toks, p: int, prog: SProgram, seen: Seen) -> Result<SProgram, ParseError>
    decreases t.len() - p,
{
    match tok(t, p) {
        TokenOf::EOF => Ok(prog),
        TokenOf::Sprites => if seen.sprites {
            Err(error_at(t, p, ParseErrorKind::DuplicateSection(Section::Sprites)))
        } else {
            match p_sprites_block(t, p) {
                Err(x) => Err(x),
                Ok((sp, q)) => if !moved(t, p, q) {
                    Err(error_at(t, p, ParseErrorKind::UnexpectedTopLevel))
                } else {
                    p_sections(t, q, SProgram { sprites: sp, ..prog }, Seen { sprites: true, ..seen })
                },
            }
        },
        TokenOf::Vars => if seen.vars {
            Err(error_at(t, p, ParseErrorKind::DuplicateSection(Section::Vars)))
        } else {
            match p_vars_block(t, p) {
                Err(x) => Err(x),
                Ok((vs, q)) => if !moved(t, p, q) {
                    Err(error_at(t, p, ParseErrorKind::UnexpectedTopLevel))
                } else {
                    p_sections(t, q, SProgram { vars: vs, ..prog }, Seen { vars: true, ..seen })
                },
            }
        },
        TokenOf::Fn => match p_fn(t, p) {
            Err(x) => Err(x),
            Ok((f, q)) => if !moved(t, p, q) {
                Err(error_at(t, p, ParseErrorKind::UnexpectedTopLevel))
            } else {
                p_sections(t, q, SProgram { functions: prog.functions.push(f), ..prog }, seen)
            },
        },
        TokenOf::Main => if seen.main {
            Err(error_at(t, p, ParseErrorKind::DuplicateSection(Section::Main)))
        } else {
            match p_block(t, p + 1) {
                Err(x) => Err(x),
                Ok((body, q)) => if !moved(t, p, q) {
                    Err(error_at(t, p, ParseErrorKind::UnexpectedTopLevel))
                } else {
                    p_sections(t, q, SProgram { main: body, ..prog }, Seen { main: true, ..seen })
                },
            }
        },
        _ => Err(error_at(t, p, ParseErrorKind::UnexpectedTopLevel)),
    }
}

pub open spec fn empty_program() -> SProgram {
    SProgram { sprites: Seq::empty(), vars: Seq::empty(), functions: Seq::empty(), main: Seq::empty() }
}

/// The program that the token stream `t` spells from position `p`.
pub open spec fn parse_spec(t: Toks, p: int) -> Result<SProgram, ParseError> {
    p_sections(t, p, empty_program(), Seen { sprites: false, vars: false, main: false })
}

// ---------------------------------------------------------------------------
// Executable parser
// ---------------------------------------------------------------------------

/// A recursive-descent parser over a token stream that ends with `EOF`.
pub struct Parser {
    tokens: Vec<Spanned>,
    pos: usize,
}

pub open spec fn stream_ends_with_eof(tokens: Seq<Spanned>) -> bool {
    tokens.len() > 0 && tokens.last().0 is EOF
}

/// Law: a token stream the lexer produced ends with `EOF`, so the parser
/// can take it (see `Parser::new`).
pub proof fn lemma_lexed_stream_parses(s: Seq<char>, tokens: Seq<Spanned>)
    requires
        crate::lexer::lex_spec(s) == crate::lexer::SLexResult::Ok(spanned_views(tokens)),
    ensures
        stream_ends_with_eof(tokens),
{
    crate::lexer::lemma_lex_ends_with_eof(s);
    let v = spanned_views(tokens);
    assert(v[v.len() - 1] == crate::lexer::spanned_view(tokens[tokens.len() - 1]));
}

/// `r`, with the parsed value replaced by its model.
pub open spec fn rv_expr(r: Result<Expr, ParseError>) -> Result<SExpr, ParseError> {
    match r {
        Ok(e) => Ok(e@),
        Err(x) => Err(x),
    }
}

/// Agreement of a run of the parser with the grammar: on success the same
/// value and end position, which lies past the start; on failure the same error.
pub open spec fn agrees<A>(s: PRes<A>, r: Result<A, ParseError>, p0: int, p1: int) -> bool {
    match r {
        Ok(a) => s == Ok::<(A, int), ParseError>((a, p1)) && p0 < p1,
        Err(e) => s == Err::<(A, int), ParseError>(e),
    }
}

impl Parser {
    /// The tokens being parsed.
    pub closed spec fn stream(&self) -> Seq<Spanned> {
        self.tokens@
    }

    /// Models of the tokens being parsed.
    pub closed spec fn toks(&self) -> Toks {
        spanned_views(self.tokens@)
    }

    /// Index of the next token.
    pub closed spec fn at(&self) -> int {
        self.pos as int
    }

    /// The stream ends with `EOF` and the position is inside it.
    pub closed spec fn wf(&self) -> bool {
        stream_ends_with_eof(self.tokens@) && self.pos < self.tokens@.len()
    }

    /// Same tokens, still well formed.
    pub open spec fn kept(&self, old: &Parser) -> bool {
        self.wf() && self.stream() == old.stream() && self.toks() == old.toks()
    }

    pub fn new(tokens: Vec<Spanned>) -> (p: Parser)
        ensures
            p.stream() == tokens@,
            p.toks() == spanned_views(tokens@),
            p.at() == 0,
            stream_ends_with_eof(tokens@) ==> p.wf(),
    {
        Parser { tokens, pos: 0 }
    }

    /// Current token.
    fn peek(&self) -> (t: &Token)
        requires
            self.wf(),
        ensures
            crate::lexer::token_view(*t) == tok(self.toks(), self.at()),
    {
        &self.tokens[self.pos].0
    }

    /// Line of the current token.
    fn line(&self) -> (l: u32)
        requires
            self.wf(),
        ensures
            l == line_of(self.toks(), self.at()),
    {
        self.tokens[self.pos].1
    }

    fn error(&self, kind: ParseErrorKind) -> (e: ParseError)
        requires
            self.wf(),
        ensures
            e == error_at(self.toks(), self.at(), kind),
    {
        ParseError { line: self.line(), pos: self.pos, kind }
    }

    /// Whether the current token is `k`.
    fn check(&self, k: Punct) -> (b: bool)
        requires
            self.wf(),
        ensures
            b == is_punct(self.toks(), self.at(), k),
    {
        let t = self.peek();
        match k {
            Punct::LParen => matches!(t, TokenOf::LParen),
            Punct::RParen => matches!(t, TokenOf::RParen),
            Punct::LBrace => matches!(t, TokenOf::LBrace),
            Punct::RBrace => matches!(t, TokenOf::RBrace),
            Punct::LBracket => matches!(t, TokenOf::LBracket),
            Punct::RBracket => matches!(t, TokenOf::RBracket),
            Punct::Semicolon => matches!(t, TokenOf::Semicolon),
            Punct::Comma => matches!(t, TokenOf::Comma),
            Punct::Equals => matches!(t, TokenOf::Equals),
            Punct::Arrow => matches!(t, TokenOf::Arrow),
        }
    }

    /// Moves past the current token, which is not `EOF`.
    fn advance(&mut self)
        requires
            old(self).wf(),
            !(tok(old(self).toks(), old(self).at()) is EOF),
        ensures
            final(self).kept(old(self)),
            final(self).at() == old(self).at() + 1,
    {
        assert(self.pos < self.tokens.len());
        self.pos = self.pos + 1;
        proof {
            let n = self.tokens@.len();
            assert(spanned_views(self.tokens@)[n - 1] == crate::lexer::spanned_view(self.tokens@[n - 1]));
            assert(spanned_views(self.tokens@)[old(self).pos as int] == crate::lexer::spanned_view(self.tokens@[old(self).pos as int]));
        }
    }

    /// Consumes `k`, or fails.
    fn expect(&mut self, k: Punct) -> (r: Result<(), ParseError>)
        requires
            old(self).wf(),
        ensures
            final(self).kept(old(self)),
            match r {
                Ok(_) => expect(old(self).toks(), old(self).at(), k) == Ok::<int, ParseError>(old(self).at() + 1)
                    && final(self).at() == old(self).at() + 1,
                Err(e) => expect(old(self).toks(), old(self).at(), k) == Err::<int, ParseError>(e),
            },
    {
        if self.check(k) {
            self.advance();
            Ok(())
        } else {
            Err(self.error(ParseErrorKind::Expected(k)))
        }
    }

    /// The operator of tier `level` at the current token, if any.
    fn tier_op(&self, level: u8) -> (o: Option<Op>)
        requires
            self.wf(),
        ensures
            o == binop_tier(tok(self.toks(), self.at()), level as nat),
    {
        let t = self.peek();
        if level == 2 {
            match t {
                TokenOf::Star => Some(Op::Mul),
                TokenOf::Slash => Some(Op::Div),
                TokenOf::Percent => Some(Op::Mod),
                _ => None,
            }
        } else if level == 3 {
            match t {
                TokenOf::Plus => Some(Op::Add),
                TokenOf::Minus => Some(Op::Sub),
                _ => None,
            }
        } else if level == 4 {
            match t {
                TokenOf::EqEq => Some(Op::EqEq),
                TokenOf::NotEq => Some(Op::NotEq),
                TokenOf::Lt => Some(Op::Lt),
                TokenOf::Gt => Some(Op::Gt),
                TokenOf::LtEq => Some(Op::LtEq),
                TokenOf::GtEq => Some(Op::GtEq),
                _ => None,
            }
        } else if level == 5 {
            match t {
                TokenOf::And => Some(Op::And),
                _ => None,
            }
        } else if level == 6 {
            match t {
                TokenOf::Or => Some(Op::Or),
                _ => None,
            }
        } else {
            None
        }
    }

    fn parse_operand(&mut self, level: u8) -> (r: Result<Expr, ParseError>)
        requires
            old(self).wf(),
            level <= 6,
        ensures
            final(self).kept(old(self)),
            agrees(p_operand(old(self).toks(), old(self).at(), level as nat), rv_expr(r), old(self).at(), final(self).at()),
        decreases old(self).tokens@.len() - old(self).pos, level + 1, 0nat,
    {
        if level <= 2 {
            self.parse_unary()
        } else {
            self.parse_binary(level - 1)
        }
    }

    /// A left-associative chain of operators of tier `level`.
    fn parse_binary(&mut self, level: u8) -> (r: Result<Expr, ParseError>)
        requires
            old(self).wf(),
            level <= 6,
        ensures
            final(self).kept(old(self)),
            agrees(p_binary(old(self).toks(), old(self).at(), level as nat), rv_expr(r), old(self).at(), final(self).at()),
        decreases old(self).tokens@.len() - old(self).pos, level + 1, 1nat,
    {
        let ghost t = self.toks();
        let ghost p0 = self.at();
        let mut left = match self.parse_operand(level) {
            Ok(e) => e,
            Err(x) => return Err(x),
        };
        loop
            invariant
                self.wf(),
                self.stream() == old(self).stream(),
                self.toks() == t,
                t == old(self).toks(),
                p0 == old(self).at(),
                level <= 6,
                p0 < self.at(),
                p_binary(t, p0, level as nat) == p_binary_tail(t, left@, self.at(), level as nat),
            ensures
                self.wf(),
                self.stream() == old(self).stream(),
                self.toks() == t,
                p0 < self.at(),
                p_binary(t, p0, level as nat) == Ok::<(SExpr, int), ParseError>((left@, self.at())),
            decreases self.tokens@.len() - self.pos,
        {
            let op = match self.tier_op(level) {
                Some(op) => op,
                None => break,
            };
            let ghost p1 = self.at();
            self.advance();
            let right = match self.parse_operand(level) {
                Ok(e) => e,
                Err(x) => return Err(x),
            };
            left = Expr::BinOp(Box::new(left), op, Box::new(right));
            assert(moved(t, p1, self.at()));
        }
        Ok(left)
    }

    /// Lowest tier: `or`.
    fn parse_or(&mut self) -> (r: Result<Expr, ParseError>)
        requires
            old(self).wf(),
        ensures
            final(self).kept(old(self)),
            agrees(p_binary(old(self).toks(), old(self).at(), 6), rv_expr(r), old(self).at(), final(self).at()),
        decreases old(self).tokens@.len() - old(self).pos, 7nat, 5nat,
    {
        self.parse_binary(6)
    }

    fn parse_expr(&mut self) -> (r: Result<Expr, ParseError>)
        requires
            old(self).wf(),
        ensures
            final(self).kept(old(self)),
            agrees(p_expr(old(self).toks(), old(self).at()), rv_expr(r), old(self).at(), final(self).at()),
        decreases old(self).tokens@.len() - old(self).pos, 8nat, 0nat,
    {
        self.parse_or()
    }

    /// `not unary | primary`
    fn parse_unary(&mut self) -> (r: Result<Expr, ParseError>)
        requires
            old(self).wf(),
        ensures
            final(self).kept(old(self)),
            agrees(p_unary(old(self).toks(), old(self).at()), rv_expr(r), old(self).at(), final(self).at()),
        decreases old(self).tokens@.len() - old(self).pos, 0nat, 2nat,
    {
        if let TokenOf::Not = self.peek() {
            self.advance();
            match self.parse_unary() {
                Ok(e) => Ok(Expr::Not(Box::new(e))),
                Err(x) => Err(x),
            }
        } else {
            self.parse_primary()
        }
    }
    /// `( expr )`
    fn parse_paren(&mut self) -> (r: Result<Expr, ParseError>)
        requires
            old(self).wf(),
        ensures
            final(self).kept(old(self)),
            agrees(p_paren(old(self).toks(), old(self).at()), rv_expr(r), old(self).at(), final(self).at()),
        decreases old(self).tokens@.len() - old(self).pos, 0nat, 0nat,
    {
        let ghost t = self.toks();
        let ghost p0 = self.at();
        match self.expect(Punct::LParen) {
            Ok(_) => {},
            Err(x) => return Err(x),
        }
        let e = match self.parse_expr() {
            Ok(e) => e,
            Err(x) => return Err(x),
        };
        assert(moved(t, p0, self.at()));
        match self.expect(Punct::RParen) {
            Ok(_) => Ok(e),
            Err(x) => Err(x),
        }
    }

    /// Arguments up to (not including) `)`.
    fn parse_args(&mut self) -> (r: Result<Vec<Expr>, ParseError>)
        requires
            old(self).wf(),
        ensures
            final(self).kept(old(self)),
            match r {
                Ok(args) => old(self).at() <= final(self).at() && p_args(old(self).toks(), old(self).at(), Seq::empty()) == Ok::<(Seq<SExpr>, int), ParseError>(
                    (crate::ast::view_exprs(args@), final(self).at()),
                ),
                Err(e) => p_args(old(self).toks(), old(self).at(), Seq::empty()) == Err::<(Seq<SExpr>, int), ParseError>(e),
            },
        decreases old(self).tokens@.len() - old(self).pos, 9nat, 0nat,
    {
        let ghost t = self.toks();
        let ghost p0 = self.at();
        let mut args: Vec<Expr> = Vec::new();
        assert(crate::ast::view_exprs(args@) =~= Seq::<SExpr>::empty());
        if self.check(Punct::RParen) {
            return Ok(args);
        }
        loop
            invariant
                self.wf(),
                self.stream() == old(self).stream(),
                self.toks() == t,
                t == old(self).toks(),
                p0 == old(self).at(),
                p0 <= self.at(),
                args@.len() > 0 || !is_punct(t, self.at(), Punct::RParen),
                p_args(t, p0, Seq::empty()) == p_args(t, self.at(), crate::ast::view_exprs(args@)),
            decreases self.tokens@.len() - self.pos,
        {
            let ghost p1 = self.at();
            let e = match self.parse_expr() {
                Ok(e) => e,
                Err(x) => return Err(x),
            };
            assert(moved(t, p1, self.at()));
            proof {
                let ghost old_args = args@;
                assert(crate::ast::view_exprs(old_args.push(e)) =~= crate::ast::view_exprs(old_args).push(e@));
            }
            args.push(e);
            if self.check(Punct::Comma) {
                self.advance();
            } else if self.check(Punct::RParen) {
                return Ok(args);
            } else {
                return Err(self.error(ParseErrorKind::Expected(Punct::Comma)));
            }
        }
    }

    /// `expr , expr ,`
    fn parse_xy(&mut self) -> (r: Result<(Expr, Expr), ParseError>)
        requires
            old(self).wf(),
        ensures
            final(self).kept(old(self)),
            match r {
                Ok((x, y)) => p_xy(old(self).toks(), old(self).at()) == Ok::<((SExpr, SExpr), int), ParseError>(
                    ((x@, y@), final(self).at()),
                ) && old(self).at() < final(self).at(),
                Err(e) => p_xy(old(self).toks(), old(self).at()) == Err::<((SExpr, SExpr), int), ParseError>(e),
            },
        decreases old(self).tokens@.len() - old(self).pos, 9nat, 0nat,
    {
        let ghost t = self.toks();
        let ghost p0 = self.at();
        let x = match self.parse_expr() {
            Ok(e) => e,
            Err(e) => return Err(e),
        };
        assert(moved(t, p0, self.at()));
        match self.expect(Punct::Comma) {
            Ok(_) => {},
            Err(e) => return Err(e),
        }
        let ghost p1 = self.at();
        let y = match self.parse_expr() {
            Ok(e) => e,
            Err(e) => return Err(e),
        };
        assert(moved(t, p1, self.at()));
        match self.expect(Punct::Comma) {
            Ok(_) => Ok((x, y)),
            Err(e) => Err(e),
        }
    }

    /// `()` after a built-in name.
    fn parse_empty_parens(&mut self) -> (r: Result<(), ParseError>)
        requires
            old(self).wf(),
        ensures
            final(self).kept(old(self)),
            forall|e: SExpr| match r {
                Ok(_) => p_empty_parens(old(self).toks(), old(self).at(), e) == Ok::<(SExpr, int), ParseError>(
                    (e, final(self).at()),
                ) && old(self).at() < final(self).at(),
                Err(x) => p_empty_parens(old(self).toks(), old(self).at(), e) == Err::<(SExpr, int), ParseError>(x),
            },
    {
        match self.expect(Punct::LParen) {
            Ok(_) => {},
            Err(x) => return Err(x),
        }
        self.expect(Punct::RParen)
    }

    fn parse_primary(&mut self) -> (r: Result<Expr, ParseError>)
        requires
            old(self).wf(),
        ensures
            final(self).kept(old(self)),
            agrees(p_primary(old(self).toks(), old(self).at()), rv_expr(r), old(self).at(), final(self).at()),
        decreases old(self).tokens@.len() - old(self).pos, 0nat, 1nat,
    {
        let ghost t = self.toks();
        let ghost p0 = self.at();
        match self.peek() {
            TokenOf::Int(n) => {
                let n = *n;
                if n > 255 {
                    Err(self.error(ParseErrorKind::IntOutOfRange))
                } else {
                    self.advance();
                    Ok(Expr::Int(#[verifier::truncate] (n as u8)))
                }
            },
            TokenOf::Bool(b) => {
                let b = *b;
                self.advance();
                Ok(Expr::Bool(b))
            },
            TokenOf::LParen => self.parse_paren(),
            TokenOf::Draw => {
                self.advance();
                match self.expect(Punct::LParen) {
                    Ok(_) => {},
                    Err(e) => return Err(e),
                }
                let (x, y) = match self.parse_xy() {
                    Ok(xy) => xy,
                    Err(e) => return Err(e),
                };
                assert(moved(t, p0, self.at()));
                let name = match self.peek() {
                    TokenOf::Ident(n) => n.clone(),
                    _ => return Err(self.error(ParseErrorKind::ExpectedSpriteInDraw)),
                };
                self.advance();
                match self.expect(Punct::RParen) {
                    Ok(_) => Ok(Expr::Draw(Box::new(x), Box::new(y), name)),
                    Err(e) => Err(e),
                }
            },
            TokenOf::DrawDigit => {
                self.advance();
                match self.expect(Punct::LParen) {
                    Ok(_) => {},
                    Err(e) => return Err(e),
                }
                let (x, y) = match self.parse_xy() {
                    Ok(xy) => xy,
                    Err(e) => return Err(e),
                };
                assert(moved(t, p0, self.at()));
                let ghost q = self.at();
                let n = match self.parse_expr() {
                    Ok(e) => e,
                    Err(e) => return Err(e),
                };
                assert(moved(t, q, self.at()));
                match self.expect(Punct::RParen) {
                    Ok(_) => Ok(Expr::DrawDigit(Box::new(x), Box::new(y), Box::new(n))),
                    Err(e) => Err(e),
                }
            },
            TokenOf::GetKey => {
                self.advance();
                match self.parse_empty_parens() {
                    Ok(_) => Ok(Expr::GetKey),
                    Err(e) => {
                        assert(p_empty_parens(t, p0 + 1, SExpr::GetKey) == Err::<(SExpr, int), ParseError>(e));
                        Err(e)
                    },
                }
            },
            TokenOf::GetDelay => {
                self.advance();
                match self.parse_empty_parens() {
                    Ok(_) => Ok(Expr::GetDelay),
                    Err(e) => {
                        assert(p_empty_parens(t, p0 + 1, SExpr::GetDelay) == Err::<(SExpr, int), ParseError>(e));
                        Err(e)
                    },
                }
            },
            TokenOf::KeyPressed => {
                self.advance();
                match self.parse_paren() {
                    Ok(e) => Ok(Expr::KeyPressed(Box::new(e))),
                    Err(e) => Err(e),
                }
            },
            TokenOf::Rand => {
                self.advance();
                match self.parse_paren() {
                    Ok(e) => Ok(Expr::Rand(Box::new(e))),
                    Err(e) => Err(e),
                }
            },
            TokenOf::Ident(n) => {
                let name = n.clone();
                self.advance();
                if self.check(Punct::LParen) {
                    self.advance();
                    let args = match self.parse_args() {
                        Ok(a) => a,
                        Err(e) => return Err(e),
                    };
                    assert(moved(t, p0, self.at()));
                    match self.expect(Punct::RParen) {
                        Ok(_) => Ok(Expr::Call(name, args)),
                        Err(e) => Err(e),
                    }
                } else {
                    Ok(Expr::Var(name))
                }
            },
            _ => Err(self.error(ParseErrorKind::UnexpectedInExpression)),
        }
    }
    // -- statements -------------------------------------------------------

    /// `( expr ) ;` after `delay` / `beep`.
    fn parse_builtin_arg(&mut self) -> (r: Result<Expr, ParseError>)
        requires
            old(self).wf(),
        ensures
            final(self).kept(old(self)),
            agrees(p_builtin_arg(old(self).toks(), old(self).at()), rv_expr(r), old(self).at(), final(self).at()),
    {
        let e = match self.parse_paren() {
            Ok(e) => e,
            Err(x) => return Err(x),
        };
        match self.expect(Punct::Semicolon) {
            Ok(_) => Ok(e),
            Err(x) => Err(x),
        }
    }

    /// `name = expr ;` or `name ( args ) ;`, at the name.
    fn parse_assign_or_call(&mut self, name: String) -> (r: Result<Stmt, ParseError>)
        requires
            old(self).wf(),
            tok(old(self).toks(), old(self).at()) == TokenOf::<Seq<char>>::Ident(name@),
        ensures
            final(self).kept(old(self)),
            agrees(p_assign_or_call(old(self).toks(), old(self).at(), name@), rv_stmt(r), old(self).at(), final(self).at()),
    {
        self.advance();
        if self.check(Punct::Equals) {
            self.advance();
            let e = match self.parse_expr() {
                Ok(e) => e,
                Err(x) => return Err(x),
            };
            match self.expect(Punct::Semicolon) {
                Ok(_) => Ok(Stmt::Assign(name, e)),
                Err(x) => Err(x),
            }
        } else if self.check(Punct::LParen) {
            self.advance();
            let args = match self.parse_args() {
                Ok(a) => a,
                Err(x) => return Err(x),
            };
            match self.expect(Punct::RParen) {
                Ok(_) => {},
                Err(x) => return Err(x),
            }
            match self.expect(Punct::Semicolon) {
                Ok(_) => Ok(Stmt::Call(name, args)),
                Err(x) => Err(x),
            }
        } else {
            Err(self.error(ParseErrorKind::ExpectedAssignOrCall))
        }
    }

    /// `( expr ) { ... }`
    fn parse_cond_block(&mut self) -> (r: Result<(Expr, Vec<Stmt>), ParseError>)
        requires
            old(self).wf(),
        ensures
            final(self).kept(old(self)),
            match r {
                Ok((c, b)) => p_cond_block(old(self).toks(), old(self).at()) == Ok::<((SExpr, Seq<SStmt>), int), ParseError>(
                    ((c@, crate::ast::view_stmts(b@)), final(self).at()),
                ) && old(self).at() < final(self).at(),
                Err(e) => p_cond_block(old(self).toks(), old(self).at()) == Err::<((SExpr, Seq<SStmt>), int), ParseError>(e),
            },
        decreases old(self).tokens@.len() - old(self).pos, 0nat,
    {
        let ghost t = self.toks();
        let ghost p0 = self.at();
        let c = match self.parse_paren() {
            Ok(e) => e,
            Err(x) => return Err(x),
        };
        assert(moved(t, p0, self.at()));
        match self.parse_block() {
            Ok(b) => Ok((c, b)),
            Err(x) => Err(x),
        }
    }

    /// `{ stmt* }`
    fn parse_block(&mut self) -> (r: Result<Vec<Stmt>, ParseError>)
        requires
            old(self).wf(),
        ensures
            final(self).kept(old(self)),
            agrees(p_block(old(self).toks(), old(self).at()), rv_block(r), old(self).at(), final(self).at()),
        decreases old(self).tokens@.len() - old(self).pos, 0nat,
    {
        let ghost t = self.toks();
        let ghost p0 = self.at();
        match self.expect(Punct::LBrace) {
            Ok(_) => {},
            Err(x) => return Err(x),
        }
        let mut stmts: Vec<Stmt> = Vec::new();
        assert(crate::ast::view_stmts(stmts@) =~= Seq::<SStmt>::empty());
        while !self.check(Punct::RBrace)
            invariant
                self.wf(),
                self.stream() == old(self).stream(),
                self.toks() == t,
                t == old(self).toks(),
                p0 == old(self).at(),
                p0 < self.at(),
                p_block(t, p0) == p_stmts(t, self.at(), crate::ast::view_stmts(stmts@)),
            decreases self.tokens@.len() - self.pos,
        {
            let ghost p1 = self.at();
            let st = match self.parse_stmt() {
                Ok(st) => st,
                Err(x) => return Err(x),
            };
            assert(moved(t, p1, self.at()));
            proof {
                let ghost old_stmts = stmts@;
                assert(crate::ast::view_stmts(old_stmts.push(st)) =~= crate::ast::view_stmts(old_stmts).push(st@));
            }
            stmts.push(st);
        }
        self.advance();
        Ok(stmts)
    }

    /// The rest of an `if` statement, from the `(` after `if`.
    fn parse_if(&mut self) -> (r: Result<Stmt, ParseError>)
        requires
            old(self).wf(),
        ensures
            final(self).kept(old(self)),
            agrees(p_if(old(self).toks(), old(self).at()), rv_stmt(r), old(self).at(), final(self).at()),
        decreases old(self).tokens@.len() - old(self).pos, 1nat,
    {
        let ghost t = self.toks();
        let ghost p0 = self.at();
        let (cond, body) = match self.parse_cond_block() {
            Ok(cb) => cb,
            Err(x) => return Err(x),
        };
        assert(moved(t, p0, self.at()));
        let ghost q = self.at();
        let mut elseifs: Vec<ElseIf> = Vec::new();
        assert(crate::ast::view_elseifs(elseifs@) =~= Seq::<SElseIf>::empty());
        while matches!(self.peek(), TokenOf::Elif)
            invariant
                self.wf(),
                self.stream() == old(self).stream(),
                self.toks() == t,
                t == old(self).toks(),
                p0 == old(self).at(),
                p0 < q <= self.at(),
                p_cond_block(t, p0) == Ok::<((SExpr, Seq<SStmt>), int), ParseError>(
                    ((cond@, crate::ast::view_stmts(body@)), q),
                ),
                p_elifs(t, q, Seq::empty()) == p_elifs(t, self.at(), crate::ast::view_elseifs(elseifs@)),
            decreases self.tokens@.len() - self.pos,
        {
            let ghost p1 = self.at();
            self.advance();
            let (c, b) = match self.parse_cond_block() {
                Ok(cb) => cb,
                Err(x) => return Err(x),
            };
            assert(moved(t, p1, self.at()));
            let e = ElseIf { condition: c, body: b };
            proof {
                let ghost old_e = elseifs@;
                assert(crate::ast::view_elseifs(old_e.push(e)) =~= crate::ast::view_elseifs(old_e).push(e@));
            }
            elseifs.push(e);
        }
        assert(moved(t, p0, self.at()));
        if matches!(self.peek(), TokenOf::Else) {
            self.advance();
            match self.parse_block() {
                Ok(eb) => Ok(Stmt::If(cond, body, elseifs, Some(eb))),
                Err(x) => Err(x),
            }
        } else {
            Ok(Stmt::If(cond, body, elseifs, None))
        }
    }

    fn parse_stmt(&mut self) -> (r: Result<Stmt, ParseError>)
        requires
            old(self).wf(),
        ensures
            final(self).kept(old(self)),
            agrees(p_stmt(old(self).toks(), old(self).at()), rv_stmt(r), old(self).at(), final(self).at()),
        decreases old(self).tokens@.len() - old(self).pos, 2nat,
    {
        let ghost t = self.toks();
        let ghost p0 = self.at();
        match self.peek() {
            TokenOf::If => {
                self.advance();
                self.parse_if()
            },
            TokenOf::Loop => {
                self.advance();
                match self.parse_block() {
                    Ok(b) => Ok(Stmt::Loop(b)),
                    Err(x) => Err(x),
                }
            },
            TokenOf::While => {
                self.advance();
                match self.parse_cond_block() {
                    Ok((c, b)) => Ok(Stmt::While(c, b)),
                    Err(x) => Err(x),
                }
            },
            TokenOf::Clear => {
                self.advance();
                match self.parse_empty_parens() {
                    Ok(_) => {},
                    Err(x) => {
                        assert(p_empty_parens(t, p0 + 1, SExpr::GetKey) == Err::<(SExpr, int), ParseError>(x));
                        return Err(x);
                    },
                }
                assert(p_empty_parens(t, p0 + 1, SExpr::GetKey) == Ok::<(SExpr, int), ParseError>((SExpr::GetKey, self.at())));
                match self.expect(Punct::Semicolon) {
                    Ok(_) => Ok(Stmt::Clear),
                    Err(x) => Err(x),
                }
            },
            TokenOf::Delay => {
                self.advance();
                match self.parse_builtin_arg() {
                    Ok(e) => Ok(Stmt::Delay(e)),
                    Err(x) => Err(x),
                }
            },
            TokenOf::Beep => {
                self.advance();
                match self.parse_builtin_arg() {
                    Ok(e) => Ok(Stmt::Beep(e)),
                    Err(x) => Err(x),
                }
            },
            TokenOf::Ident(n) => {
                let name = n.clone();
                self.parse_assign_or_call(name)
            },
            _ => Err(self.error(ParseErrorKind::UnexpectedStatementStart)),
        }
    }
}

pub open spec fn rv_stmt(r: Result<Stmt, ParseError>) -> Result<SStmt, ParseError> {
    match r {
        Ok(s) => Ok(s@),
        Err(x) => Err(x),
    }
}

pub open spec fn rv_block(r: Result<Vec<Stmt>, ParseError>) -> Result<Seq<SStmt>, ParseError> {
    match r {
        Ok(b) => Ok(crate::ast::view_stmts(b@)),
        Err(x) => Err(x),
    }
}

impl Parser {
    /// `[ bytes ]` or `"path"`.
    fn parse_sprite_data(&mut self) -> (r: Result<SpriteData, ParseError>)
        requires
            old(self).wf(),
        ensures
            final(self).kept(old(self)),
            match r {
                Ok(d) => p_sprite_data(old(self).toks(), old(self).at()) == Ok::<(SSpriteData, int), ParseError>(
                    (d@, final(self).at()),
                ) && old(self).at() < final(self).at(),
                Err(e) => p_sprite_data(old(self).toks(), old(self).at()) == Err::<(SSpriteData, int), ParseError>(e),
            },
    {
        let ghost t = self.toks();
        let ghost p2 = self.at();
        match self.peek() {
            TokenOf::LBracket => {
                self.advance();
                let mut bytes: Vec<u8> = Vec::new();
                if self.check(Punct::RBracket) {
                    self.advance();
                    return Ok(SpriteData::Inline(bytes));
                }
                loop
                    invariant
                        self.wf(),
                        self.stream() == old(self).stream(),
                        self.toks() == t,
                        t == old(self).toks(),
                        p2 == old(self).at(),
                        tok(t, p2) is LBracket,
                        p2 < self.at(),
                        bytes@.len() > 0 || !is_punct(t, self.at(), Punct::RBracket),
                        p_bytes(t, p2 + 1, Seq::empty()) == p_bytes(t, self.at(), bytes@),
                    decreases self.tokens@.len() - self.pos,
                {
                    let b = match self.peek() {
                        TokenOf::Int(b) => *b,
                        _ => return Err(self.error(ParseErrorKind::ExpectedByte)),
                    };
                    if b < 0 || b > 255 {
                        return Err(self.error(ParseErrorKind::IntOutOfRange));
                    }
                    bytes.push(b as u8);
                    self.advance();
                    if self.check(Punct::Comma) {
                        self.advance();
                    } else if self.check(Punct::RBracket) {
                        self.advance();
                        return Ok(SpriteData::Inline(bytes));
                    } else {
                        return Err(self.error(ParseErrorKind::Expected(Punct::Comma)));
                    }
                }
            },
            TokenOf::StringLit(path) => {
                let path = path.clone();
                self.advance();
                Ok(SpriteData::File(path))
            },
            _ => Err(self.error(ParseErrorKind::ExpectedSpriteData)),
        }
    }

    /// Parameter names up to (not including) `)`.
    fn parse_params(&mut self) -> (r: Result<Vec<String>, ParseError>)
        requires
            old(self).wf(),
        ensures
            final(self).kept(old(self)),
            match r {
                Ok(a) => p_params(old(self).toks(), old(self).at(), Seq::empty()) == Ok::<(Seq<Seq<char>>, int), ParseError>(
                    (crate::ast::view_names(a@), final(self).at()),
                ) && old(self).at() <= final(self).at(),
                Err(e) => p_params(old(self).toks(), old(self).at(), Seq::empty()) == Err::<(Seq<Seq<char>>, int), ParseError>(e),
            },
    {
        let ghost t = self.toks();
        let ghost pa = self.at();
        let mut args: Vec<String> = Vec::new();
        assert(crate::ast::view_names(args@) =~= Seq::<Seq<char>>::empty());
        if self.check(Punct::RParen) {
            return Ok(args);
        }
        loop
            invariant
                self.wf(),
                self.stream() == old(self).stream(),
                self.toks() == t,
                t == old(self).toks(),
                pa == old(self).at(),
                pa <= self.at(),
                args@.len() > 0 || !is_punct(t, self.at(), Punct::RParen),
                p_params(t, pa, Seq::empty()) == p_params(t, self.at(), crate::ast::view_names(args@)),
            decreases self.tokens@.len() - self.pos,
        {
            let a = match self.peek() {
                TokenOf::Ident(n) => n.clone(),
                _ => return Err(self.error(ParseErrorKind::ExpectedArgName)),
            };
            proof {
                let ghost old_a = args@;
                assert(crate::ast::view_names(old_a.push(a)) =~= crate::ast::view_names(old_a).push(a@));
            }
            args.push(a);
            self.advance();
            if self.check(Punct::Comma) {
                self.advance();
            } else if self.check(Punct::RParen) {
                return Ok(args);
            } else {
                return Err(self.error(ParseErrorKind::Expected(Punct::Comma)));
            }
        }
    }

    /// `sprites { name = [bytes]; name = "path"; ... }`
    fn parse_sprites_block(&mut self) -> (r: Result<Vec<SpriteDecl>, ParseError>)
        requires
            old(self).wf(),
            tok(old(self).toks(), old(self).at()) is Sprites,
        ensures
            final(self).kept(old(self)),
            match r {
                Ok(v) => p_sprites_block(old(self).toks(), old(self).at()) == Ok::<(Seq<SSpriteDecl>, int), ParseError>(
                    (view_sprites(v@), final(self).at()),
                ) && old(self).at() < final(self).at(),
                Err(e) => p_sprites_block(old(self).toks(), old(self).at()) == Err::<(Seq<SSpriteDecl>, int), ParseError>(e),
            },
    {
        let ghost t = self.toks();
        let ghost p0 = self.at();
        self.advance();
        match self.expect(Punct::LBrace) {
            Ok(_) => {},
            Err(x) => return Err(x),
        }
        let mut sprites: Vec<SpriteDecl> = Vec::new();
        assert(view_sprites(sprites@) =~= Seq::<SSpriteDecl>::empty());
        while !self.check(Punct::RBrace)
            invariant
                self.wf(),
                self.stream() == old(self).stream(),
                self.toks() == t,
                t == old(self).toks(),
                p0 == old(self).at(),
                p0 < self.at(),
                p_sprites_block(t, p0) == p_sprite_decls(t, self.at(), view_sprites(sprites@)),
            decreases self.tokens@.len() - self.pos,
        {
            let ghost p1 = self.at();
            let name = match self.peek() {
                TokenOf::Ident(n) => n.clone(),
                _ => return Err(self.error(ParseErrorKind::ExpectedSpriteName)),
            };
            self.advance();
            match self.expect(Punct::Equals) {
                Ok(_) => {},
                Err(x) => return Err(x),
            }
            let ghost p2 = self.at();
            let data = match self.parse_sprite_data() {
                Ok(d) => d,
                Err(x) => return Err(x),
            };
            assert(p_sprite_data(t, p2) == Ok::<(SSpriteData, int), ParseError>((data@, self.at())));
            match self.expect(Punct::Semicolon) {
                Ok(_) => {},
                Err(x) => return Err(x),
            }
            assert(moved(t, p1, self.at()));
            let d = SpriteDecl { name, data };
            proof {
                let ghost old_s = sprites@;
                assert(view_sprites(old_s.push(d)) =~= view_sprites(old_s).push(d@));
            }
            sprites.push(d);
        }
        self.advance();
        Ok(sprites)
    }

    /// `vars { name = expr; ... }`
    fn parse_vars(&mut self) -> (r: Result<Vec<VarDecl>, ParseError>)
        requires
            old(self).wf(),
            tok(old(self).toks(), old(self).at()) is Vars,
        ensures
            final(self).kept(old(self)),
            match r {
                Ok(v) => p_vars_block(old(self).toks(), old(self).at()) == Ok::<(Seq<SVarDecl>, int), ParseError>(
                    (view_vars(v@), final(self).at()),
                ) && old(self).at() < final(self).at(),
                Err(e) => p_vars_block(old(self).toks(), old(self).at()) == Err::<(Seq<SVarDecl>, int), ParseError>(e),
            },
    {
        let ghost t = self.toks();
        let ghost p0 = self.at();
        self.advance();
        match self.expect(Punct::LBrace) {
            Ok(_) => {},
            Err(x) => return Err(x),
        }
        let mut vars: Vec<VarDecl> = Vec::new();
        assert(view_vars(vars@) =~= Seq::<SVarDecl>::empty());
        while !self.check(Punct::RBrace)
            invariant
                self.wf(),
                self.stream() == old(self).stream(),
                self.toks() == t,
                t == old(self).toks(),
                p0 == old(self).at(),
                p0 < self.at(),
                p_vars_block(t, p0) == p_var_decls(t, self.at(), view_vars(vars@)),
            decreases self.tokens@.len() - self.pos,
        {
            let ghost p1 = self.at();
            let name = match self.peek() {
                TokenOf::Ident(n) => n.clone(),
                _ => return Err(self.error(ParseErrorKind::ExpectedVarName)),
            };
            self.advance();
            match self.expect(Punct::Equals) {
                Ok(_) => {},
                Err(x) => return Err(x),
            }
            let value = match self.parse_expr() {
                Ok(e) => e,
                Err(x) => return Err(x),
            };
            match self.expect(Punct::Semicolon) {
                Ok(_) => {},
                Err(x) => return Err(x),
            }
            assert(moved(t, p1, self.at()));
            let d = VarDecl { name, value };
            proof {
                let ghost old_v = vars@;
                assert(view_vars(old_v.push(d)) =~= view_vars(old_v).push(d@));
            }
            vars.push(d);
        }
        self.advance();
        Ok(vars)
    }

    /// `fn name(args) -> ret { ... }`
    fn parse_fn(&mut self) -> (r: Result<FnDecl, ParseError>)
        requires
            old(self).wf(),
            tok(old(self).toks(), old(self).at()) is Fn,
        ensures
            final(self).kept(old(self)),
            match r {
                Ok(f) => p_fn(old(self).toks(), old(self).at()) == Ok::<(SFnDecl, int), ParseError>((f@, final(self).at()))
                    && old(self).at() < final(self).at(),
                Err(e) => p_fn(old(self).toks(), old(self).at()) == Err::<(SFnDecl, int), ParseError>(e),
            },
    {
        let ghost t = self.toks();
        let ghost p0 = self.at();
        self.advance();
        let name = match self.peek() {
            TokenOf::Ident(n) => n.clone(),
            _ => return Err(self.error(ParseErrorKind::ExpectedFnName)),
        };
        self.advance();
        match self.expect(Punct::LParen) {
            Ok(_) => {},
            Err(x) => return Err(x),
        }
        let ghost pa = self.at();
        let args = match self.parse_params() {
            Ok(a) => a,
            Err(x) => return Err(x),
        };
        match self.expect(Punct::RParen) {
            Ok(_) => {},
            Err(x) => return Err(x),
        }
        match self.expect(Punct::Arrow) {
            Ok(_) => {},
            Err(x) => return Err(x),
        }
        let ret = match self.peek() {
            TokenOf::Ident(n) => n.clone(),
            _ => return Err(self.error(ParseErrorKind::ExpectedReturnName)),
        };
        self.advance();
        match self.parse_block() {
            Ok(body) => Ok(FnDecl { name, args, ret, body }),
            Err(x) => Err(x),
        }
    }

    /// `main { ... }`
    fn parse_main(&mut self) -> (r: Result<Vec<Stmt>, ParseError>)
        requires
            old(self).wf(),
            tok(old(self).toks(), old(self).at()) is Main,
        ensures
            final(self).kept(old(self)),
            agrees(p_block(old(self).toks(), old(self).at() + 1), rv_block(r), old(self).at(), final(self).at()),
    {
        self.advance();
        self.parse_block()
    }

    /// Parses the whole stream: the four kinds of section in any order,
    /// `sprites`, `vars` and `main` at most once each, up to `EOF`.
    #[verifier::rlimit(50)]
    pub fn parse(&mut self) -> (r: Result<Program, ParseError>)
        requires
            old(self).wf(),
        ensures
            final(self).wf(),
            final(self).stream() == old(self).stream(),
            match r {
                Ok(p) => parse_spec(old(self).toks(), old(self).at()) == Ok::<SProgram, ParseError>(p@),
                Err(e) => parse_spec(old(self).toks(), old(self).at()) == Err::<SProgram, ParseError>(e),
            },
    {
        let ghost t = self.toks();
        let ghost p0 = self.at();
        let mut sprites: Vec<SpriteDecl> = Vec::new();
        let mut vars: Vec<VarDecl> = Vec::new();
        let mut functions: Vec<FnDecl> = Vec::new();
        let mut main: Vec<Stmt> = Vec::new();
        let mut seen_spr = false;
        let mut seen_vars = false;
        let mut seen_main = false;
        proof {
            assert(view_sprites(sprites@) =~= Seq::<SSpriteDecl>::empty());
            assert(view_vars(vars@) =~= Seq::<SVarDecl>::empty());
            assert(view_fns(functions@) =~= Seq::<SFnDecl>::empty());
            assert(crate::ast::view_stmts(main@) =~= Seq::<SStmt>::empty());
        }
        while !matches!(self.peek(), TokenOf::EOF)
            invariant
                self.wf(),
                self.stream() == old(self).stream(),
                self.toks() == t,
                t == old(self).toks(),
                p0 == old(self).at(),
                parse_spec(t, p0) == p_sections(
                    t,
                    self.at(),
                    SProgram {
                        sprites: view_sprites(sprites@),
                        vars: view_vars(vars@),
                        functions: view_fns(functions@),
                        main: crate::ast::view_stmts(main@),
                    },
                    Seen { sprites: seen_spr, vars: seen_vars, main: seen_main },
                ),
            decreases self.tokens@.len() - self.pos,
        {
            let ghost p1 = self.at();
            match self.peek() {
                TokenOf::Sprites => {
                    if seen_spr {
                        return Err(self.error(ParseErrorKind::DuplicateSection(Section::Sprites)));
                    }
                    seen_spr = true;
                    sprites = match self.parse_sprites_block() {
                        Ok(s) => s,
                        Err(x) => return Err(x),
                    };
                },
                TokenOf::Vars => {
                    if seen_vars {
                        return Err(self.error(ParseErrorKind::DuplicateSection(Section::Vars)));
                    }
                    seen_vars = true;
                    vars = match self.parse_vars() {
                        Ok(v) => v,
                        Err(x) => return Err(x),
                    };
                },
                TokenOf::Fn => {
                    let f = match self.parse_fn() {
                        Ok(f) => f,
                        Err(x) => return Err(x),
                    };
                    proof {
                        let ghost old_f = functions@;
                        assert(view_fns(old_f.push(f)) =~= view_fns(old_f).push(f@));
                    }
                    functions.push(f);
                },
                TokenOf::Main => {
                    if seen_main {
                        return Err(self.error(ParseErrorKind::DuplicateSection(Section::Main)));
                    }
                    seen_main = true;
                    main = match self.parse_main() {
                        Ok(m) => m,
                        Err(x) => return Err(x),
                    };
                },
                _ => return Err(self.error(ParseErrorKind::UnexpectedTopLevel)),
            }
            assert(moved(t, p1, self.at()));
        }
        let prog = Program { sprites, vars, functions, main };
        assert(prog@ == SProgram {
            sprites: view_sprites(prog.sprites@),
            vars: view_vars(prog.vars@),
            functions: view_fns(prog.functions@),
            main: crate::ast::view_stmts(prog.main@),
        });
        Ok(prog)
    }
}

pub open spec fn view_sprites(s: Seq<SpriteDecl>) -> Seq<SSpriteDecl> {
    s.map_values(|d: SpriteDecl| d@)
}

pub open spec fn view_vars(s: Seq<VarDecl>) -> Seq<SVarDecl> {
    s.map_values(|d: VarDecl| d@)
}

pub open spec fn view_fns(s: Seq<FnDecl>) -> Seq<SFnDecl> {
    s.map_values(|f: FnDecl| f@)
}

/// A token that ends an expression: `;`, `)`, `,`, `}` or the end.
pub open spec fn ends_expression(k: SToken) -> bool {
    k == TokenOf::<Seq<char>>::Semicolon || k == TokenOf::<Seq<char>>::RParen || k == TokenOf::<Seq<char>>::Comma || k == TokenOf::<Seq<char>>::RBrace || k == TokenOf::<Seq<char>>::EOF
}

proof fn lemma_literal_operand(t: Toks, p: int, n: i16)
    requires
        0 <= p,
        p + 1 <= t.len(),
        tok(t, p) == TokenOf::<Seq<char>>::Int(n),
        0 <= n <= 255,
    ensures
        p_unary(t, p) == Ok::<(SExpr, int), ParseError>((SExpr::Int(n as u8), p + 1)),
{
    assert(p_primary(t, p) == Ok::<(SExpr, int), ParseError>((SExpr::Int(n as u8), p + 1)));
}


/// The binary operator tokens of the language, with the operator each
/// stands for and how loosely it binds: `* / %` 2, `+ -` 3, the comparisons
/// 4, `and` 5, `or` 6; operators that bind alike group to the left.
pub open spec fn operator_token(k: SToken) -> Option<(Op, nat)> {
    match k {
        TokenOf::Star => Some((Op::Mul, 2nat)),
        TokenOf::Slash => Some((Op::Div, 2nat)),
        TokenOf::Percent => Some((Op::Mod, 2nat)),
        TokenOf::Plus => Some((Op::Add, 3nat)),
        TokenOf::Minus => Some((Op::Sub, 3nat)),
        TokenOf::EqEq => Some((Op::EqEq, 4nat)),
        TokenOf::NotEq => Some((Op::NotEq, 4nat)),
        TokenOf::Lt => Some((Op::Lt, 4nat)),
        TokenOf::Gt => Some((Op::Gt, 4nat)),
        TokenOf::LtEq => Some((Op::LtEq, 4nat)),
        TokenOf::GtEq => Some((Op::GtEq, 4nat)),
        TokenOf::And => Some((Op::And, 5nat)),
        TokenOf::Or => Some((Op::Or, 6nat)),
        _ => None,
    }
}

proof fn lemma_operator_tiers(k: SToken, m: nat)
    ensures
        operator_token(k) matches Some((o, l)) ==> binop_tier(k, m) == (if m == l { Some(o) } else { None::<Op> }),
        ends_expression(k) ==> binop_tier(k, m) is None,
{
}

/// A literal followed by a token that no tier up to `level` takes is the
/// whole chain of that tier.
proof fn lemma_atom_chain(t: Toks, q: int, n: i16, level: nat)
    requires
        2 <= level <= 6,
        0 <= q,
        q + 1 <= t.len(),
        tok(t, q) == TokenOf::<Seq<char>>::Int(n),
        0 <= n <= 255,
        forall|m: nat| 2 <= m <= level ==> #[trigger] binop_tier(tok(t, q + 1), m) is None,
    ensures
        p_binary(t, q, level) == Ok::<(SExpr, int), ParseError>((SExpr::Int(n as u8), q + 1)),
    decreases level,
{
    lemma_literal_operand(t, q, n);
    assert(binop_tier(tok(t, q + 1), level) is None);
    if level > 2 {
        lemma_atom_chain(t, q, n, (level - 1) as nat);
    }
    assert(p_binary_tail(t, SExpr::Int(n as u8), q + 1, level) == Ok::<(SExpr, int), ParseError>((SExpr::Int(n as u8), q + 1)));
}

/// A chain of tier `lo` followed by a token that no tier above it, up to
/// `hi`, takes is the whole chain of tier `hi`.
proof fn lemma_chain_stays(t: Toks, p: int, e: SExpr, q: int, lo: nat, hi: nat)
    requires
        2 <= lo <= hi <= 6,
        p_binary(t, p, lo) == Ok::<(SExpr, int), ParseError>((e, q)),
        moved(t, p, q),
        forall|m: nat| lo < m <= hi ==> #[trigger] binop_tier(tok(t, q), m) is None,
    ensures
        p_binary(t, p, hi) == Ok::<(SExpr, int), ParseError>((e, q)),
    decreases hi,
{
    if hi > lo {
        lemma_chain_stays(t, p, e, q, lo, (hi - 1) as nat);
        assert(binop_tier(tok(t, q), hi) is None);
        assert(p_operand(t, p, hi) == p_binary(t, p, (hi - 1) as nat));
        assert(p_binary_tail(t, e, q, hi) == Ok::<(SExpr, int), ParseError>((e, q)));
    }
}

/// One operator of tier `level` between two operands of that tier, then a
/// token the tier does not take.
proof fn lemma_chain_step(t: Toks, p: int, l: SExpr, q: int, o: Op, r: SExpr, q2: int, level: nat)
    requires
        2 <= level <= 6,
        p_operand(t, p, level) == Ok::<(SExpr, int), ParseError>((l, q)),
        moved(t, p, q),
        binop_tier(tok(t, q), level) == Some(o),
        p_operand(t, q + 1, level) == Ok::<(SExpr, int), ParseError>((r, q2)),
        moved(t, q, q2),
        binop_tier(tok(t, q2), level) is None,
    ensures
        p_binary(t, p, level) == Ok::<(SExpr, int), ParseError>((SExpr::BinOp(Box::new(l), o, Box::new(r)), q2)),
{
    let e = SExpr::BinOp(Box::new(l), o, Box::new(r));
    assert(p_binary_tail(t, e, q2, level) == Ok::<(SExpr, int), ParseError>((e, q2)));
    assert(p_binary_tail(t, l, q, level) == Ok::<(SExpr, int), ParseError>((e, q2)));
}

/// An operand of tier `level` that is a chain of the tier below.
proof fn lemma_operand_is_chain(t: Toks, p: int, level: nat)
    requires
        3 <= level,
    ensures
        p_operand(t, p, level) == p_binary(t, p, (level - 1) as nat),
{
}

/// Law: of two binary operators in a row, the one that binds tighter takes
/// the middle operand, and of two that bind alike the left one does.  For
/// all integer literals `a`, `b`, `c` and operator tokens `k1`, `k2`:
/// `a k1 b k2 c` parses as `a k1 (b k2 c)` when `k2` binds tighter than
/// `k1`, and as `(a k1 b) k2 c` otherwise.
pub proof fn lemma_operator_precedence(t: Toks, p: int, a: i16, b: i16, c: i16, k1: SToken, k2: SToken)
    requires
        0 <= p,
        p + 5 <= t.len(),
        0 <= a <= 255,
        0 <= b <= 255,
        0 <= c <= 255,
        operator_token(k1) is Some,
        operator_token(k2) is Some,
        tok(t, p) == TokenOf::<Seq<char>>::Int(a),
        tok(t, p + 1) == k1,
        tok(t, p + 2) == TokenOf::<Seq<char>>::Int(b),
        tok(t, p + 3) == k2,
        tok(t, p + 4) == TokenOf::<Seq<char>>::Int(c),
        ends_expression(tok(t, p + 5)),
    ensures
        ({
            let (o1, l1) = operator_token(k1)->Some_0;
            let (o2, l2) = operator_token(k2)->Some_0;
            let ea = SExpr::Int(a as u8);
            let eb = SExpr::Int(b as u8);
            let ec = SExpr::Int(c as u8);
            p_expr(t, p) == Ok::<(SExpr, int), ParseError>((
                if l2 < l1 {
                    SExpr::BinOp(Box::new(ea), o1, Box::new(SExpr::BinOp(Box::new(eb), o2, Box::new(ec))))
                } else {
                    SExpr::BinOp(Box::new(SExpr::BinOp(Box::new(ea), o1, Box::new(eb))), o2, Box::new(ec))
                },
                p + 5,
            ))
        }),
{
    let (o1, l1) = operator_token(k1)->Some_0;
    let (o2, l2) = operator_token(k2)->Some_0;
    let ea = SExpr::Int(a as u8);
    let eb = SExpr::Int(b as u8);
    let ec = SExpr::Int(c as u8);
    let end = tok(t, p + 5);
    assert forall|m: nat| #![trigger binop_tier(k1, m)] binop_tier(k1, m) == (if m == l1 { Some(o1) } else { None::<Op> }) by {
        lemma_operator_tiers(k1, m);
    }
    assert forall|m: nat| #![trigger binop_tier(k2, m)] binop_tier(k2, m) == (if m == l2 { Some(o2) } else { None::<Op> }) by {
        lemma_operator_tiers(k2, m);
    }
    assert forall|m: nat| #![trigger binop_tier(end, m)] binop_tier(end, m) is None by {
        lemma_operator_tiers(end, m);
    }
    lemma_literal_operand(t, p, a);
    lemma_literal_operand(t, p + 2, b);
    lemma_literal_operand(t, p + 4, c);
    // the last literal is a whole chain of every tier
    lemma_atom_chain(t, p + 4, c, 6);
    assert forall|m: nat| 2 <= m <= 6 implies #[trigger] p_operand(t, p + 4, m) == Ok::<(SExpr, int), ParseError>((ec, p + 5)) by {
        if m > 2 {
            lemma_atom_chain(t, p + 4, c, (m - 1) as nat);
        }
    }
    if l2 < l1 {
        let bc = SExpr::BinOp(Box::new(eb), o2, Box::new(ec));
        let e = SExpr::BinOp(Box::new(ea), o1, Box::new(bc));
        // b k2 c is a chain of tier l2
        if l2 > 2 {
            lemma_atom_chain(t, p + 2, b, (l2 - 1) as nat);
            lemma_operand_is_chain(t, p + 2, l2);
        }
        lemma_chain_step(t, p + 2, eb, p + 3, o2, ec, p + 5, l2);
        lemma_chain_stays(t, p + 2, bc, p + 5, l2, (l1 - 1) as nat);
        // a is a chain of every tier below l1
        lemma_atom_chain(t, p, a, (l1 - 1) as nat);
        lemma_operand_is_chain(t, p, l1);
        lemma_operand_is_chain(t, p + 2, l1);
        lemma_chain_step(t, p, ea, p + 1, o1, bc, p + 5, l1);
        lemma_chain_stays(t, p, e, p + 5, l1, 6);
    } else {
        let ab = SExpr::BinOp(Box::new(ea), o1, Box::new(eb));
        let e = SExpr::BinOp(Box::new(ab), o2, Box::new(ec));
        if l1 > 2 {
            lemma_atom_chain(t, p, a, (l1 - 1) as nat);
            lemma_operand_is_chain(t, p, l1);
            lemma_atom_chain(t, p + 2, b, (l1 - 1) as nat);
            lemma_operand_is_chain(t, p + 2, l1);
        }
        if l2 == l1 {
            // (a k1 b) then k2 at the same tier
            assert(p_binary_tail(t, e, p + 5, l1) == Ok::<(SExpr, int), ParseError>((e, p + 5)));
            assert(p_operand(t, p + 4, l1) == Ok::<(SExpr, int), ParseError>((ec, p + 5)));
            assert(binop_tier(k2, l1) == Some(o2));
            assert(p_binary_tail(t, ab, p + 3, l1) == Ok::<(SExpr, int), ParseError>((e, p + 5)));
            assert(p_binary_tail(t, ea, p + 1, l1) == Ok::<(SExpr, int), ParseError>((e, p + 5)));
            assert(p_binary(t, p, l1) == Ok::<(SExpr, int), ParseError>((e, p + 5)));
            lemma_chain_stays(t, p, e, p + 5, l1, 6);
        } else {
            lemma_chain_step(t, p, ea, p + 1, o1, eb, p + 3, l1);
            lemma_chain_stays(t, p, ab, p + 3, l1, (l2 - 1) as nat);
            lemma_operand_is_chain(t, p, l2);
            lemma_chain_step(t, p, ab, p + 3, o2, ec, p + 5, l2);
            lemma_chain_stays(t, p, e, p + 5, l2, 6);
        }
    }
}

} // verus!

