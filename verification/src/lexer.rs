//! Lexical analysis: source text to a stream of line-tagged tokens.
use vstd::prelude::*;

verus! {

/// A token, generic over the representation of names and string literals:
/// `String` at run time (`Token`), `Seq<char>` in specifications (`SToken`).
#[derive(Debug, Clone, PartialEq, Eq)]
pub enum TokenOf<S> {
    /// 10, 255
    Int(i16),
    /// true, false
    Bool(bool),
    /// variable and function names
    Ident(S),
    /// vars
    Vars,
    /// sprites
    Sprites,
    /// fn
    Fn,
    /// main
    Main,
    /// if
    If,
    /// elif
    Elif,
    /// else
    Else,
    /// while
    While,
    /// loop
    Loop,
    /// draw
    Draw,
    /// drawdigit
    DrawDigit,
    /// clear
    Clear,
    /// delay
    Delay,
    /// getdelay
    GetDelay,
    /// beep
    Beep,
    /// getkey
    GetKey,
    /// keypressed
    KeyPressed,
    /// rand
    Rand,
    /// +
    Plus,
    /// -
    Minus,
    /// *
    Star,
    /// /
    Slash,
    /// %
    Percent,
    /// =
    Equals,
    /// ==
    EqEq,
    /// !=
    NotEq,
    /// <
    Lt,
    /// >
    Gt,
    /// <=
    LtEq,
    /// >=
    GtEq,
    /// and
    And,
    /// or
    Or,
    /// not
    Not,
    /// (
    LParen,
    /// )
    RParen,
    /// {
    LBrace,
    /// }
    RBrace,
    /// [
    LBracket,
    /// ]
    RBracket,
    /// ;
    Semicolon,
    /// ,
    Comma,
    /// :
    Colon,
    /// ->
    Arrow,
    /// .
    Dot,
    /// "file.spr"
    StringLit(S),
    /// end of input
    EOF,
}

/// Tokens as the lexer produces them.
pub type Token = TokenOf<String>;

/// Mathematical model of a token.
pub type SToken = TokenOf<Seq<char>>;

/// A token paired with the source line it started on (1-indexed).
pub type Spanned = (Token, u32);

pub open spec fn token_view(t: Token) -> SToken {
    match t {
        TokenOf::Int(n) => TokenOf::Int(n),
        TokenOf::Bool(b) => TokenOf::Bool(b),
        TokenOf::Ident(s) => TokenOf::Ident(s@),
        TokenOf::Vars => TokenOf::Vars,
        TokenOf::Sprites => TokenOf::Sprites,
        TokenOf::Fn => TokenOf::Fn,
        TokenOf::Main => TokenOf::Main,
        TokenOf::If => TokenOf::If,
        TokenOf::Elif => TokenOf::Elif,
        TokenOf::Else => TokenOf::Else,
        TokenOf::While => TokenOf::While,
        TokenOf::Loop => TokenOf::Loop,
        TokenOf::Draw => TokenOf::Draw,
        TokenOf::DrawDigit => TokenOf::DrawDigit,
        TokenOf::Clear => TokenOf::Clear,
        TokenOf::Delay => TokenOf::Delay,
        TokenOf::GetDelay => TokenOf::GetDelay,
        TokenOf::Beep => TokenOf::Beep,
        TokenOf::GetKey => TokenOf::GetKey,
        TokenOf::KeyPressed => TokenOf::KeyPressed,
        TokenOf::Rand => TokenOf::Rand,
        TokenOf::Plus => TokenOf::Plus,
        TokenOf::Minus => TokenOf::Minus,
        TokenOf::Star => TokenOf::Star,
        TokenOf::Slash => TokenOf::Slash,
        TokenOf::Percent => TokenOf::Percent,
        TokenOf::Equals => TokenOf::Equals,
        TokenOf::EqEq => TokenOf::EqEq,
        TokenOf::NotEq => TokenOf::NotEq,
        TokenOf::Lt => TokenOf::Lt,
        TokenOf::Gt => TokenOf::Gt,
        TokenOf::LtEq => TokenOf::LtEq,
        TokenOf::GtEq => TokenOf::GtEq,
        TokenOf::And => TokenOf::And,
        TokenOf::Or => TokenOf::Or,
        TokenOf::Not => TokenOf::Not,
        TokenOf::LParen => TokenOf::LParen,
        TokenOf::RParen => TokenOf::RParen,
        TokenOf::LBrace => TokenOf::LBrace,
        TokenOf::RBrace => TokenOf::RBrace,
        TokenOf::LBracket => TokenOf::LBracket,
        TokenOf::RBracket => TokenOf::RBracket,
        TokenOf::Semicolon => TokenOf::Semicolon,
        TokenOf::Comma => TokenOf::Comma,
        TokenOf::Colon => TokenOf::Colon,
        TokenOf::Arrow => TokenOf::Arrow,
        TokenOf::Dot => TokenOf::Dot,
        TokenOf::StringLit(s) => TokenOf::StringLit(s@),
        TokenOf::EOF => TokenOf::EOF,
    }
}

pub open spec fn spanned_view(t: Spanned) -> (SToken, u32) {
    (token_view(t.0), t.1)
}

pub open spec fn spanned_views(s: Seq<Spanned>) -> Seq<(SToken, u32)> {
    s.map_values(|t: Spanned| spanned_view(t))
}

/// What went wrong while lexing, and on which line.
#[derive(Debug, Clone, Copy, PartialEq, Eq, Structural)]
pub struct LexError {
    pub line: u32,
    pub kind: LexErrorKind,
}

#[derive(Debug, Clone, Copy, PartialEq, Eq, Structural)]
pub enum LexErrorKind {
    /// `!` not followed by `=`.
    BareBang,
    /// A `"` with no closing `"`.
    UnterminatedString,
    /// `0x` with no hex digit after it.
    EmptyHex,
    /// A hex literal above 0xFF.
    HexTooLarge,
    /// A decimal literal above 255.
    IntTooLarge,
    /// `-n` with n above 32767.
    NegativeOutOfRange,
    /// A character that starts no token.
    UnexpectedChar(char),
}

// ---------------------------------------------------------------------------
// Character classes
// ---------------------------------------------------------------------------

pub open spec fn is_digit(c: char) -> bool {
    '0' <= c && c <= '9'
}

pub open spec fn is_hex_digit(c: char) -> bool {
    is_digit(c) || ('a' <= c && c <= 'f') || ('A' <= c && c <= 'F')
}

pub open spec fn is_ident_start(c: char) -> bool {
    ('a' <= c && c <= 'z') || ('A' <= c && c <= 'Z') || c == '_'
}

/// After the first character an identifier takes ASCII letters, digits
/// and `_`.
pub open spec fn is_ident_continue(c: char) -> bool {
    is_ident_start(c) || is_digit(c)
}

pub open spec fn digit_value(c: char) -> int {
    if is_digit(c) {
        c as int - '0' as int
    } else if 'a' <= c && c <= 'f' {
        c as int - 'a' as int + 10
    } else {
        c as int - 'A' as int + 10
    }
}

/// Value of a run of decimal digits.
pub open spec fn dec_value(w: Seq<char>) -> int
    decreases w.len(),
{
    if w.len() == 0 {
        0
    } else {
        dec_value(w.drop_last()) * 10 + digit_value(w.last())
    }
}

/// Value of a run of hex digits.
pub open spec fn hex_value(w: Seq<char>) -> int
    decreases w.len(),
{
    if w.len() == 0 {
        0
    } else {
        hex_value(w.drop_last()) * 16 + digit_value(w.last())
    }
}

/// End of the run of decimal digits that starts at `i`.
pub open spec fn digits_end(s: Seq<char>, i: int) -> int
    decreases s.len() - i,
{
    if 0 <= i < s.len() && is_digit(s[i]) {
        digits_end(s, i + 1)
    } else {
        i
    }
}

/// End of the run of hex digits that starts at `i`.
pub open spec fn hex_end(s: Seq<char>, i: int) -> int
    decreases s.len() - i,
{
    if 0 <= i < s.len() && is_hex_digit(s[i]) {
        hex_end(s, i + 1)
    } else {
        i
    }
}

/// End of the identifier characters that start at `i`.
pub open spec fn ident_end(s: Seq<char>, i: int) -> int
    decreases s.len() - i,
{
    if 0 <= i < s.len() && is_ident_continue(s[i]) {
        ident_end(s, i + 1)
    } else {
        i
    }
}

/// Index of the first `c` at or after `i`, or `s.len()` when there is none.
pub open spec fn find_char(s: Seq<char>, i: int, c: char) -> int
    decreases s.len() - i,
{
    if 0 <= i < s.len() && s[i] != c {
        find_char(s, i + 1, c)
    } else if i < 0 {
        s.len() as int
    } else {
        i
    }
}

/// Number of newlines in `w`.
pub open spec fn count_newlines(w: Seq<char>) -> int
    decreases w.len(),
{
    if w.len() == 0 {
        0
    } else {
        count_newlines(w.drop_last()) + if w.last() == '\n' { 1int } else { 0int }
    }
}

/// The keyword spelled by `w`, or an identifier.
pub open spec fn keyword_or_ident(w: Seq<char>) -> SToken {
    if w =~= seq!['v', 'a', 'r', 's'] {
        TokenOf::Vars
    } else if w =~= seq!['f', 'n'] {
        TokenOf::Fn
    } else if w =~= seq!['m', 'a', 'i', 'n'] {
        TokenOf::Main
    } else if w =~= seq!['i', 'f'] {
        TokenOf::If
    } else if w =~= seq!['e', 'l', 'i', 'f'] {
        TokenOf::Elif
    } else if w =~= seq!['e', 'l', 's', 'e'] {
        TokenOf::Else
    } else if w =~= seq!['l', 'o', 'o', 'p'] {
        TokenOf::Loop
    } else if w =~= seq!['w', 'h', 'i', 'l', 'e'] {
        TokenOf::While
    } else if w =~= seq!['s', 'p', 'r', 'i', 't', 'e', 's'] {
        TokenOf::Sprites
    } else if w =~= seq!['t', 'r', 'u', 'e'] {
        TokenOf::Bool(true)
    } else if w =~= seq!['f', 'a', 'l', 's', 'e'] {
        TokenOf::Bool(false)
    } else if w =~= seq!['a', 'n', 'd'] {
        TokenOf::And
    } else if w =~= seq!['o', 'r'] {
        TokenOf::Or
    } else if w =~= seq!['n', 'o', 't'] {
        TokenOf::Not
    } else if w =~= seq!['d', 'r', 'a', 'w'] {
        TokenOf::Draw
    } else if w =~= seq!['c', 'l', 'e', 'a', 'r'] {
        TokenOf::Clear
    } else if w =~= seq!['d', 'e', 'l', 'a', 'y'] {
        TokenOf::Delay
    } else if w =~= seq!['g', 'e', 't', 'd', 'e', 'l', 'a', 'y'] {
        TokenOf::GetDelay
    } else if w =~= seq!['b', 'e', 'e', 'p'] {
        TokenOf::Beep
    } else if w =~= seq!['g', 'e', 't', 'k', 'e', 'y'] {
        TokenOf::GetKey
    } else if w =~= seq!['k', 'e', 'y', 'p', 'r', 'e', 's', 's', 'e', 'd'] {
        TokenOf::KeyPressed
    } else if w =~= seq!['r', 'a', 'n', 'd'] {
        TokenOf::Rand
    } else if w =~= seq!['d', 'r', 'a', 'w', 'd', 'i', 'g', 'i', 't'] {
        TokenOf::DrawDigit
    } else {
        TokenOf::Ident(w)
    }
}

/// The one-character token that `c` stands for, if any.
pub open spec fn single_char_token(c: char) -> Option<SToken> {
    if c == '(' {
        Some(TokenOf::LParen)
    } else if c == ')' {
        Some(TokenOf::RParen)
    } else if c == '{' {
        Some(TokenOf::LBrace)
    } else if c == '}' {
        Some(TokenOf::RBrace)
    } else if c == '[' {
        Some(TokenOf::LBracket)
    } else if c == ']' {
        Some(TokenOf::RBracket)
    } else if c == ';' {
        Some(TokenOf::Semicolon)
    } else if c == ',' {
        Some(TokenOf::Comma)
    } else if c == '+' {
        Some(TokenOf::Plus)
    } else if c == '*' {
        Some(TokenOf::Star)
    } else if c == '%' {
        Some(TokenOf::Percent)
    } else {
        None
    }
}

/// Result of lexing: tokens with their lines, or the first error.
pub type SLexResult = Result<Seq<(SToken, u32)>, LexError>;

/// `t` on line `ln`, followed by what lexing the rest gave.
pub open spec fn emit(t: SToken, ln: int, rest: SLexResult) -> SLexResult {
    match rest {
        Ok(r) => Ok(seq![(t, ln as u32)] + r),
        Err(e) => Err(e),
    }
}

pub open spec fn lex_err(ln: int, kind: LexErrorKind) -> SLexResult {
    Err(LexError { line: ln as u32, kind })
}

pub proof fn lemma_digits_end(s: Seq<char>, i: int)
    requires
        0 <= i <= s.len(),
    ensures
        i <= digits_end(s, i) <= s.len(),
        forall|k: int| i <= k < digits_end(s, i) ==> is_digit(#[trigger] s[k]),
        digits_end(s, i) < s.len() ==> !is_digit(s[digits_end(s, i)]),
    decreases s.len() - i,
{
    if i < s.len() && is_digit(s[i]) {
        lemma_digits_end(s, i + 1);
    }
}

pub proof fn lemma_hex_end(s: Seq<char>, i: int)
    requires
        0 <= i <= s.len(),
    ensures
        i <= hex_end(s, i) <= s.len(),
        forall|k: int| i <= k < hex_end(s, i) ==> is_hex_digit(#[trigger] s[k]),
        hex_end(s, i) < s.len() ==> !is_hex_digit(s[hex_end(s, i)]),
    decreases s.len() - i,
{
    if i < s.len() && is_hex_digit(s[i]) {
        lemma_hex_end(s, i + 1);
    }
}

pub proof fn lemma_ident_end(s: Seq<char>, i: int)
    requires
        0 <= i <= s.len(),
    ensures
        i <= ident_end(s, i) <= s.len(),
        forall|k: int| i <= k < ident_end(s, i) ==> is_ident_continue(#[trigger] s[k]),
        ident_end(s, i) < s.len() ==> !is_ident_continue(s[ident_end(s, i)]),
    decreases s.len() - i,
{
    if i < s.len() && is_ident_continue(s[i]) {
        lemma_ident_end(s, i + 1);
    }
}

pub proof fn lemma_find_char(s: Seq<char>, i: int, c: char)
    requires
        0 <= i <= s.len(),
    ensures
        i <= find_char(s, i, c) <= s.len(),
        forall|k: int| i <= k < find_char(s, i, c) ==> #[trigger] s[k] != c,
        find_char(s, i, c) < s.len() ==> s[find_char(s, i, c)] == c,
    decreases s.len() - i,
{
    if i < s.len() && s[i] != c {
        lemma_find_char(s, i + 1, c);
    }
}

/// The tokens of `s` from position `i` on, the current line being `ln`.
pub open spec fn lex_from(s: Seq<char>, i: int, ln: int) -> SLexResult
    decreases s.len() - i,
{
    if i < 0 || i >= s.len() {
        Ok(seq![(TokenOf::EOF, ln as u32)])
    } else {
        let c = s[i];
        let next: Option<char> = if i + 1 < s.len() { Some(s[i + 1]) } else { None };
        if c == '\n' {
            lex_from(s, i + 1, ln + 1)
        } else if c == ' ' || c == '\t' || c == '\r' {
            lex_from(s, i + 1, ln)
        } else if single_char_token(c) is Some {
            emit(single_char_token(c)->0, ln, lex_from(s, i + 1, ln))
        } else if c == '-' {
            if next == Some('>') {
                emit(TokenOf::Arrow, ln, lex_from(s, i + 2, ln))
            } else if next matches Some(d) && is_digit(d) {
                let j = digits_end(s, i + 1);
                proof {
                    lemma_digits_end(s, i + 1);
                }
                let v = dec_value(s.subrange(i + 1, j));
                if v > 0x7fff {
                    lex_err(ln, LexErrorKind::NegativeOutOfRange)
                } else {
                    emit(TokenOf::Int((-v) as i16), ln, lex_from(s, j, ln))
                }
            } else {
                emit(TokenOf::Minus, ln, lex_from(s, i + 1, ln))
            }
        } else if c == '=' {
            if next == Some('=') {
                emit(TokenOf::EqEq, ln, lex_from(s, i + 2, ln))
            } else {
                emit(TokenOf::Equals, ln, lex_from(s, i + 1, ln))
            }
        } else if c == '!' {
            if next == Some('=') {
                emit(TokenOf::NotEq, ln, lex_from(s, i + 2, ln))
            } else {
                lex_err(ln, LexErrorKind::BareBang)
            }
        } else if c == '<' {
            if next == Some('=') {
                emit(TokenOf::LtEq, ln, lex_from(s, i + 2, ln))
            } else {
                emit(TokenOf::Lt, ln, lex_from(s, i + 1, ln))
            }
        } else if c == '>' {
            if next == Some('=') {
                emit(TokenOf::GtEq, ln, lex_from(s, i + 2, ln))
            } else {
                emit(TokenOf::Gt, ln, lex_from(s, i + 1, ln))
            }
        } else if c == '/' {
            if next == Some('/') {
                // a comment runs to the end of the line, newline included
                let k = find_char(s, i + 2, '\n');
                proof {
                    lemma_find_char(s, i + 2, '\n');
                }
                if k < s.len() {
                    lex_from(s, k + 1, ln + 1)
                } else {
                    Ok(seq![(TokenOf::EOF, ln as u32)])
                }
            } else {
                emit(TokenOf::Slash, ln, lex_from(s, i + 1, ln))
            }
        } else if c == '"' {
            let k = find_char(s, i + 1, '"');
            proof {
                lemma_find_char(s, i + 1, '"');
            }
            if k >= s.len() {
                lex_err(ln, LexErrorKind::UnterminatedString)
            } else {
                let text = s.subrange(i + 1, k);
                emit(TokenOf::StringLit(text), ln, lex_from(s, k + 1, ln + count_newlines(text)))
            }
        } else if is_digit(c) {
            if c == '0' && next == Some('x') {
                let j = hex_end(s, i + 2);
                proof {
                    lemma_hex_end(s, i + 2);
                }
                if j == i + 2 {
                    lex_err(ln, LexErrorKind::EmptyHex)
                } else if hex_value(s.subrange(i + 2, j)) > 0xff {
                    lex_err(ln, LexErrorKind::HexTooLarge)
                } else {
                    emit(TokenOf::Int(hex_value(s.subrange(i + 2, j)) as i16), ln, lex_from(s, j, ln))
                }
            } else {
                let j = digits_end(s, i);
                proof {
                    lemma_digits_end(s, i);
                }
                if dec_value(s.subrange(i, j)) > 0xff {
                    lex_err(ln, LexErrorKind::IntTooLarge)
                } else {
                    emit(TokenOf::Int(dec_value(s.subrange(i, j)) as i16), ln, lex_from(s, j, ln))
                }
            }
        } else if is_ident_start(c) {
            let j = ident_end(s, i + 1);
            proof {
                lemma_ident_end(s, i + 1);
            }
            emit(keyword_or_ident(s.subrange(i, j)), ln, lex_from(s, j, ln))
        } else {
            lex_err(ln, LexErrorKind::UnexpectedChar(c))
        }
    }
}

/// The token stream of a whole source text.
pub open spec fn lex_spec(s: Seq<char>) -> SLexResult {
    lex_from(s, 0, 1)
}

/// A token stream that ends with its only `EOF`.
pub open spec fn ends_with_eof(t: Seq<(SToken, u32)>) -> bool {
    &&& t.len() >= 1
    &&& t[t.len() - 1].0 is EOF
    &&& forall|k: int| 0 <= k < t.len() - 1 ==> (#[trigger] t[k]).0 !is EOF
}

proof fn lemma_emit_eof(t: SToken, ln: int, r: SLexResult)
    requires
        t !is EOF,
        r matches Ok(x) ==> ends_with_eof(x),
    ensures
        emit(t, ln, r) matches Ok(x) ==> ends_with_eof(x),
{
    if let Ok(x) = r {
        let y = seq![(t, ln as u32)] + x;
        assert forall|k: int| 0 <= k < y.len() - 1 implies (#[trigger] y[k]).0 !is EOF by {
            if k > 0 {
                assert(y[k] == x[k - 1]);
            }
        }
    }
}

/// Lexing from any position gives, when it succeeds, a stream that ends
/// with its only `EOF`.
pub proof fn lemma_lex_from_eof(s: Seq<char>, i: int, ln: int)
    ensures
        lex_from(s, i, ln) matches Ok(x) ==> ends_with_eof(x),
    decreases s.len() - i,
{
    if 0 <= i < s.len() {
        let c = s[i];
        let next: Option<char> = if i + 1 < s.len() { Some(s[i + 1]) } else { None };
        if c == '\n' {
            lemma_lex_from_eof(s, i + 1, ln + 1);
        } else if c == ' ' || c == '\t' || c == '\r' {
            lemma_lex_from_eof(s, i + 1, ln);
        } else if single_char_token(c) is Some {
            lemma_lex_from_eof(s, i + 1, ln);
            lemma_emit_eof(single_char_token(c)->0, ln, lex_from(s, i + 1, ln));
        } else if c == '-' {
            if next == Some('>') {
                lemma_lex_from_eof(s, i + 2, ln);
                lemma_emit_eof(TokenOf::Arrow, ln, lex_from(s, i + 2, ln));
            } else if next matches Some(d) && is_digit(d) {
                lemma_digits_end(s, i + 1);
                let j = digits_end(s, i + 1);
                let v = dec_value(s.subrange(i + 1, j));
                lemma_lex_from_eof(s, j, ln);
                lemma_emit_eof(TokenOf::Int((-v) as i16), ln, lex_from(s, j, ln));
            } else {
                lemma_lex_from_eof(s, i + 1, ln);
                lemma_emit_eof(TokenOf::Minus, ln, lex_from(s, i + 1, ln));
            }
        } else if c == '=' {
            lemma_lex_from_eof(s, i + 1, ln);
            lemma_emit_eof(TokenOf::Equals, ln, lex_from(s, i + 1, ln));
            if next == Some('=') {
                lemma_lex_from_eof(s, i + 2, ln);
                lemma_emit_eof(TokenOf::EqEq, ln, lex_from(s, i + 2, ln));
            }
        } else if c == '!' {
            if next == Some('=') {
                lemma_lex_from_eof(s, i + 2, ln);
                lemma_emit_eof(TokenOf::NotEq, ln, lex_from(s, i + 2, ln));
            }
        } else if c == '<' {
            lemma_lex_from_eof(s, i + 1, ln);
            lemma_emit_eof(TokenOf::Lt, ln, lex_from(s, i + 1, ln));
            if next == Some('=') {
                lemma_lex_from_eof(s, i + 2, ln);
                lemma_emit_eof(TokenOf::LtEq, ln, lex_from(s, i + 2, ln));
            }
        } else if c == '>' {
            lemma_lex_from_eof(s, i + 1, ln);
            lemma_emit_eof(TokenOf::Gt, ln, lex_from(s, i + 1, ln));
            if next == Some('=') {
                lemma_lex_from_eof(s, i + 2, ln);
                lemma_emit_eof(TokenOf::GtEq, ln, lex_from(s, i + 2, ln));
            }
        } else if c == '/' {
            if next == Some('/') {
                lemma_find_char(s, i + 2, '\n');
                let k = find_char(s, i + 2, '\n');
                if k < s.len() {
                    lemma_lex_from_eof(s, k + 1, ln + 1);
                }
            } else {
                lemma_lex_from_eof(s, i + 1, ln);
                lemma_emit_eof(TokenOf::Slash, ln, lex_from(s, i + 1, ln));
            }
        } else if c == '"' {
            lemma_find_char(s, i + 1, '"');
            let k = find_char(s, i + 1, '"');
            if k < s.len() {
                let text = s.subrange(i + 1, k);
                lemma_lex_from_eof(s, k + 1, ln + count_newlines(text));
                lemma_emit_eof(TokenOf::StringLit(text), ln, lex_from(s, k + 1, ln + count_newlines(text)));
            }
        } else if is_digit(c) {
            if c == '0' && next == Some('x') {
                lemma_hex_end(s, i + 2);
                let j = hex_end(s, i + 2);
                lemma_lex_from_eof(s, j, ln);
                lemma_emit_eof(TokenOf::Int(hex_value(s.subrange(i + 2, j)) as i16), ln, lex_from(s, j, ln));
            } else {
                lemma_digits_end(s, i);
                let j = digits_end(s, i);
                lemma_lex_from_eof(s, j, ln);
                lemma_emit_eof(TokenOf::Int(dec_value(s.subrange(i, j)) as i16), ln, lex_from(s, j, ln));
            }
        } else if is_ident_start(c) {
            lemma_ident_end(s, i + 1);
            let j = ident_end(s, i + 1);
            lemma_lex_from_eof(s, j, ln);
            lemma_emit_eof(keyword_or_ident(s.subrange(i, j)), ln, lex_from(s, j, ln));
        }
    }
}

/// Law: a successful lex of a whole text ends with its only `EOF` token.
pub proof fn lemma_lex_ends_with_eof(s: Seq<char>)
    ensures
        lex_spec(s) matches Ok(x) ==> ends_with_eof(x),
{
    lemma_lex_from_eof(s, 0, 1);
}

// ---------------------------------------------------------------------------
// Line numbers
// ---------------------------------------------------------------------------

/// The line of position `i` of `s`: one plus the newlines before it.
pub open spec fn line_at(s: Seq<char>, i: int) -> int {
    1 + count_newlines(s.take(i))
}

/// Each token of `x` stands at the position of `s` in `ps` (in order, from
/// `i` on) and carries that position's line; the last, `EOF`, stands at the
/// end of `s`.  A token starts at its position: lexing from there gives
/// that token and the ones after it.
pub open spec fn positions_fit(s: Seq<char>, x: Seq<(SToken, u32)>, ps: Seq<int>, i: int) -> bool {
    &&& ps.len() == x.len()
    &&& x.len() > 0
    &&& ps[ps.len() - 1] == s.len()
    &&& forall|k: int| 0 <= k < ps.len() ==> i <= #[trigger] ps[k] <= s.len() && x[k].1 == line_at(s, ps[k]) as u32
    &&& forall|a: int, b: int| 0 <= a <= b < ps.len() ==> #[trigger] ps[a] <= #[trigger] ps[b]
    &&& forall|k: int| 0 <= k < ps.len() ==> lex_from(s, #[trigger] ps[k], line_at(s, ps[k])) == Ok::<Seq<(SToken, u32)>, LexError>(x.subrange(k, x.len() as int))
}

proof fn lemma_line_step(s: Seq<char>, i: int)
    requires
        0 <= i < s.len(),
    ensures
        line_at(s, i + 1) == line_at(s, i) + if s[i] == '\n' { 1int } else { 0int },
{
    assert(s.take(i + 1).drop_last() =~= s.take(i));
    assert(s.take(i + 1).last() == s[i]);
}

proof fn lemma_line_same(s: Seq<char>, i: int, j: int)
    requires
        0 <= i <= j <= s.len(),
        forall|k: int| i <= k < j ==> #[trigger] s[k] != '\n',
    ensures
        line_at(s, j) == line_at(s, i),
    decreases j - i,
{
    if i < j {
        lemma_line_same(s, i, j - 1);
        lemma_line_step(s, j - 1);
    }
}

proof fn lemma_line_count(s: Seq<char>, a: int, b: int)
    requires
        0 <= a <= b <= s.len(),
    ensures
        line_at(s, b) == line_at(s, a) + count_newlines(s.subrange(a, b)),
    decreases b - a,
{
    if a < b {
        lemma_line_count(s, a, b - 1);
        lemma_line_step(s, b - 1);
        assert(s.subrange(a, b).drop_last() =~= s.subrange(a, b - 1));
        assert(s.subrange(a, b).last() == s[b - 1]);
    } else {
        assert(s.subrange(a, b).len() == 0);
    }
}

proof fn lemma_fit_from(s: Seq<char>, x: Seq<(SToken, u32)>, ps: Seq<int>, i: int, i2: int)
    requires
        positions_fit(s, x, ps, i2),
        i <= i2,
    ensures
        positions_fit(s, x, ps, i),
{
}

proof fn lemma_emit_lines(s: Seq<char>, t: SToken, ln: int, i: int, i2: int, r: SLexResult, ps: Seq<int>)
    requires
        r matches Ok(x) ==> positions_fit(s, x, ps, i2),
        0 <= i <= i2,
        ln == line_at(s, i),
        lex_from(s, i, ln) is Ok ==> lex_from(s, i, ln) == emit(t, ln, r),
    ensures
        lex_from(s, i, ln) matches Ok(y) ==> positions_fit(s, y, seq![i] + ps, i),
{
    if lex_from(s, i, ln) is Ok {
        let x = r->Ok_0;
        let y = seq![(t, ln as u32)] + x;
        let qs = seq![i] + ps;
        assert forall|k: int| 0 <= k < qs.len() implies i <= #[trigger] qs[k] <= s.len() && y[k].1 == line_at(s, qs[k]) as u32 by {
            if k > 0 {
                assert(qs[k] == ps[k - 1]);
                assert(y[k] == x[k - 1]);
            }
        }
        assert forall|a: int, b: int| 0 <= a <= b < qs.len() implies #[trigger] qs[a] <= #[trigger] qs[b] by {
            if a > 0 {
                assert(qs[a] == ps[a - 1]);
                assert(qs[b] == ps[b - 1]);
            } else if b > 0 {
                assert(qs[b] == ps[b - 1]);
                assert(ps[0] <= ps[b - 1]);
            }
        }
        assert(qs[qs.len() - 1] == ps[ps.len() - 1]);
        assert forall|k: int| 0 <= k < qs.len() implies lex_from(s, #[trigger] qs[k], line_at(s, qs[k])) == Ok::<Seq<(SToken, u32)>, LexError>(y.subrange(k, y.len() as int)) by {
            if k > 0 {
                assert(qs[k] == ps[k - 1]);
                assert(y.subrange(k, y.len() as int) =~= x.subrange(k - 1, x.len() as int));
            } else {
                assert(y.subrange(0, y.len() as int) =~= y);
            }
        }
    }
}

/// The positions of the tokens lexed from `i` on, the line there being `ln`.
#[verifier::spinoff_prover]
#[verifier::rlimit(100)]
proof fn lemma_lex_from_lines(s: Seq<char>, i: int, ln: int) -> (ps: Seq<int>)
    requires
        0 <= i <= s.len(),
        ln == line_at(s, i),
    ensures
        lex_from(s, i, ln) matches Ok(x) ==> positions_fit(s, x, ps, i),
    decreases s.len() - i,
{
    if i >= s.len() {
        let x: Seq<(SToken, u32)> = seq![(TokenOf::EOF, ln as u32)];
        assert(x.subrange(0, 1) =~= x);
        seq![s.len() as int]
    } else {
        let c = s[i];
        let next: Option<char> = if i + 1 < s.len() { Some(s[i + 1]) } else { None };
        lemma_line_step(s, i);
        if c == '\n' {
            let ps = lemma_lex_from_lines(s, i + 1, ln + 1);
            if let Ok(x) = lex_from(s, i + 1, ln + 1) {
                lemma_fit_from(s, x, ps, i, i + 1);
            }
            ps
        } else if c == ' ' || c == '\t' || c == '\r' {
            let ps = lemma_lex_from_lines(s, i + 1, ln);
            if let Ok(x) = lex_from(s, i + 1, ln) {
                lemma_fit_from(s, x, ps, i, i + 1);
            }
            ps
        } else if single_char_token(c) is Some {
            let ps = lemma_lex_from_lines(s, i + 1, ln);
            lemma_emit_lines(s, single_char_token(c)->0, ln, i, i + 1, lex_from(s, i + 1, ln), ps);
            seq![i] + ps
        } else if c == '-' {
            if next == Some('>') {
                lemma_line_step(s, i + 1);
                let ps = lemma_lex_from_lines(s, i + 2, ln);
                lemma_emit_lines(s, TokenOf::Arrow, ln, i, i + 2, lex_from(s, i + 2, ln), ps);
                seq![i] + ps
            } else if next matches Some(d) && is_digit(d) {
                lemma_digits_end(s, i + 1);
                let j = digits_end(s, i + 1);
                let v = dec_value(s.subrange(i + 1, j));
                lemma_line_same(s, i + 1, j);
                let ps = lemma_lex_from_lines(s, j, ln);
                lemma_emit_lines(s, TokenOf::Int((-v) as i16), ln, i, j, lex_from(s, j, ln), ps);
                seq![i] + ps
            } else {
                let ps = lemma_lex_from_lines(s, i + 1, ln);
                lemma_emit_lines(s, TokenOf::Minus, ln, i, i + 1, lex_from(s, i + 1, ln), ps);
                seq![i] + ps
            }
        } else if c == '=' || c == '<' || c == '>' || c == '!' {
            if next == Some('=') {
                lemma_line_step(s, i + 1);
                let ps = lemma_lex_from_lines(s, i + 2, ln);
                let t = if c == '=' {
                    TokenOf::EqEq
                } else if c == '<' {
                    TokenOf::LtEq
                } else if c == '>' {
                    TokenOf::GtEq
                } else {
                    TokenOf::NotEq
                };
                lemma_emit_lines(s, t, ln, i, i + 2, lex_from(s, i + 2, ln), ps);
                seq![i] + ps
            } else {
                let ps = lemma_lex_from_lines(s, i + 1, ln);
                let t = if c == '=' {
                    TokenOf::Equals
                } else if c == '<' {
                    TokenOf::Lt
                } else {
                    TokenOf::Gt
                };
                lemma_emit_lines(s, t, ln, i, i + 1, lex_from(s, i + 1, ln), ps);
                seq![i] + ps
            }
        } else if c == '/' {
            if next == Some('/') {
                lemma_line_step(s, i + 1);
                lemma_find_char(s, i + 2, '\n');
                let k = find_char(s, i + 2, '\n');
                lemma_line_same(s, i + 2, k);
                if k < s.len() {
                    lemma_line_step(s, k);
                    let ps = lemma_lex_from_lines(s, k + 1, ln + 1);
                    if let Ok(x) = lex_from(s, k + 1, ln + 1) {
                        lemma_fit_from(s, x, ps, i, k + 1);
                    }
                    ps
                } else {
                    let x: Seq<(SToken, u32)> = seq![(TokenOf::EOF, ln as u32)];
                    assert(x.subrange(0, 1) =~= x);
                    seq![s.len() as int]
                }
            } else {
                let ps = lemma_lex_from_lines(s, i + 1, ln);
                lemma_emit_lines(s, TokenOf::Slash, ln, i, i + 1, lex_from(s, i + 1, ln), ps);
                seq![i] + ps
            }
        } else if c == '"' {
            lemma_find_char(s, i + 1, '"');
            let k = find_char(s, i + 1, '"');
            if k < s.len() {
                let text = s.subrange(i + 1, k);
                lemma_line_count(s, i + 1, k);
                lemma_line_step(s, k);
                let ps = lemma_lex_from_lines(s, k + 1, ln + count_newlines(text));
                lemma_emit_lines(s, TokenOf::StringLit(text), ln, i, k + 1, lex_from(s, k + 1, ln + count_newlines(text)), ps);
                seq![i] + ps
            } else {
                Seq::empty()
            }
        } else if is_digit(c) {
            if c == '0' && next == Some('x') {
                lemma_line_step(s, i + 1);
                lemma_hex_end(s, i + 2);
                let j = hex_end(s, i + 2);
                lemma_line_same(s, i + 2, j);
                let ps = lemma_lex_from_lines(s, j, ln);
                lemma_emit_lines(s, TokenOf::Int(hex_value(s.subrange(i + 2, j)) as i16), ln, i, j, lex_from(s, j, ln), ps);
                seq![i] + ps
            } else {
                lemma_digits_end(s, i);
                let j = digits_end(s, i);
                lemma_line_same(s, i, j);
                let ps = lemma_lex_from_lines(s, j, ln);
                lemma_emit_lines(s, TokenOf::Int(dec_value(s.subrange(i, j)) as i16), ln, i, j, lex_from(s, j, ln), ps);
                seq![i] + ps
            }
        } else if is_ident_start(c) {
            lemma_ident_end(s, i + 1);
            let j = ident_end(s, i + 1);
            lemma_line_same(s, i + 1, j);
            let ps = lemma_lex_from_lines(s, j, ln);
            lemma_emit_lines(s, keyword_or_ident(s.subrange(i, j)), ln, i, j, lex_from(s, j, ln), ps);
            seq![i] + ps
        } else {
            Seq::empty()
        }
    }
}

/// Law: each token of a successful lex starts at a position of the text
/// (lexing from there gives that token first) and carries that position's
/// line, one plus the newlines before its first character; the positions
/// come in order, and the final `EOF` stands at the end of the text, on its
/// last line.
pub proof fn lemma_lex_lines(s: Seq<char>)
    ensures
        lex_spec(s) matches Ok(x) ==> exists|ps: Seq<int>| #[trigger] positions_fit(s, x, ps, 0),
{
    assert(s.take(0).len() == 0);
    let ps = lemma_lex_from_lines(s, 0, 1);
    if let Ok(x) = lex_spec(s) {
        assert(positions_fit(s, x, ps, 0));
    }
}

// ---------------------------------------------------------------------------
// Lexing does not depend on what comes before the position it starts at
// ---------------------------------------------------------------------------

proof fn lemma_digits_end_shift(p: Seq<char>, s: Seq<char>, i: int)
    requires
        0 <= i <= s.len(),
    ensures
        digits_end(p + s, p.len() + i) == p.len() + digits_end(s, i),
    decreases s.len() - i,
{
    if i < s.len() {
        assert((p + s)[p.len() + i] == s[i]);
        lemma_digits_end_shift(p, s, i + 1);
    }
}

proof fn lemma_hex_end_shift(p: Seq<char>, s: Seq<char>, i: int)
    requires
        0 <= i <= s.len(),
    ensures
        hex_end(p + s, p.len() + i) == p.len() + hex_end(s, i),
    decreases s.len() - i,
{
    if i < s.len() {
        assert((p + s)[p.len() + i] == s[i]);
        lemma_hex_end_shift(p, s, i + 1);
    }
}

proof fn lemma_ident_end_shift(p: Seq<char>, s: Seq<char>, i: int)
    requires
        0 <= i <= s.len(),
    ensures
        ident_end(p + s, p.len() + i) == p.len() + ident_end(s, i),
    decreases s.len() - i,
{
    if i < s.len() {
        assert((p + s)[p.len() + i] == s[i]);
        lemma_ident_end_shift(p, s, i + 1);
    }
}

proof fn lemma_find_char_shift(p: Seq<char>, s: Seq<char>, i: int, c: char)
    requires
        0 <= i <= s.len(),
    ensures
        find_char(p + s, p.len() + i, c) == p.len() + find_char(s, i, c),
    decreases s.len() - i,
{
    if i < s.len() {
        assert((p + s)[p.len() + i] == s[i]);
        lemma_find_char_shift(p, s, i + 1, c);
    }
}

proof fn lemma_sub_shift(p: Seq<char>, s: Seq<char>, a: int, b: int)
    requires
        0 <= a <= b <= s.len(),
    ensures
        (p + s).subrange(p.len() + a, p.len() + b) == s.subrange(a, b),
{
    assert((p + s).subrange(p.len() + a, p.len() + b) =~= s.subrange(a, b));
}

/// Lexing `p + s` from where `s` starts gives what lexing `s` gives.
pub(crate) proof fn lemma_lex_from_shift(p: Seq<char>, s: Seq<char>, i: int, ln: int)
    requires
        0 <= i <= s.len(),
    ensures
        lex_from(p + s, p.len() + i, ln) == lex_from(s, i, ln),
    decreases s.len() - i,
{
    let u = p + s;
    let k = p.len() as int;
    if i < s.len() {
        let c = s[i];
        assert(u[k + i] == c);
        if i + 1 < s.len() {
            assert(u[k + i + 1] == s[i + 1]);
        }
        if c == '\n' {
            lemma_lex_from_shift(p, s, i + 1, ln + 1);
        } else if c == ' ' || c == '\t' || c == '\r' {
            lemma_lex_from_shift(p, s, i + 1, ln);
        } else if single_char_token(c) is Some {
            lemma_lex_from_shift(p, s, i + 1, ln);
        } else if c == '-' {
            if i + 1 < s.len() && s[i + 1] == '>' {
                lemma_lex_from_shift(p, s, i + 2, ln);
            } else if i + 1 < s.len() && is_digit(s[i + 1]) {
                lemma_digits_end(s, i + 1);
                lemma_digits_end_shift(p, s, i + 1);
                let j = digits_end(s, i + 1);
                lemma_sub_shift(p, s, i + 1, j);
                lemma_lex_from_shift(p, s, j, ln);
            } else {
                lemma_lex_from_shift(p, s, i + 1, ln);
            }
        } else if c == '=' || c == '<' || c == '>' || c == '!' {
            if i + 1 < s.len() && s[i + 1] == '=' {
                lemma_lex_from_shift(p, s, i + 2, ln);
            } else {
                lemma_lex_from_shift(p, s, i + 1, ln);
            }
        } else if c == '/' {
            if i + 1 < s.len() && s[i + 1] == '/' {
                lemma_find_char(s, i + 2, '\n');
                lemma_find_char_shift(p, s, i + 2, '\n');
                let j = find_char(s, i + 2, '\n');
                if j < s.len() {
                    lemma_lex_from_shift(p, s, j + 1, ln + 1);
                }
            } else {
                lemma_lex_from_shift(p, s, i + 1, ln);
            }
        } else if c == '"' {
            lemma_find_char(s, i + 1, '"');
            lemma_find_char_shift(p, s, i + 1, '"');
            let j = find_char(s, i + 1, '"');
            if j < s.len() {
                lemma_sub_shift(p, s, i + 1, j);
                lemma_lex_from_shift(p, s, j + 1, ln + count_newlines(s.subrange(i + 1, j)));
            }
        } else if is_digit(c) {
            if c == '0' && i + 1 < s.len() && s[i + 1] == 'x' {
                lemma_hex_end(s, i + 2);
                lemma_hex_end_shift(p, s, i + 2);
                let j = hex_end(s, i + 2);
                lemma_sub_shift(p, s, i + 2, j);
                lemma_lex_from_shift(p, s, j, ln);
            } else {
                lemma_digits_end(s, i);
                lemma_digits_end_shift(p, s, i);
                let j = digits_end(s, i);
                lemma_sub_shift(p, s, i, j);
                lemma_lex_from_shift(p, s, j, ln);
            }
        } else if is_ident_start(c) {
            lemma_ident_end(s, i + 1);
            lemma_ident_end_shift(p, s, i + 1);
            let j = ident_end(s, i + 1);
            lemma_sub_shift(p, s, i, j);
            lemma_lex_from_shift(p, s, j, ln);
        }
    }
}

/// A space, a tab or a carriage return.
pub open spec fn is_blank(c: char) -> bool {
    c == ' ' || c == '\t' || c == '\r'
}

/// Law: a space, tab or carriage return put where the lexer stands (in
/// front of a token, or in front of the end) changes nothing it lexes from
/// there: the same tokens on the same lines, or the same error.
pub proof fn lemma_blank_inserted(s: Seq<char>, i: int, c: char, ln: int)
    requires
        0 <= i <= s.len(),
        is_blank(c),
    ensures
        lex_from(s.take(i) + seq![c] + s.skip(i), i, ln) == lex_from(s, i, ln),
{
    let t = s.take(i) + seq![c] + s.skip(i);
    assert(t[i] == c);
    lemma_lex_from_shift(s.take(i) + seq![c], s.skip(i), 0, ln);
    assert(s.take(i) + seq![c] + s.skip(i) == t);
    lemma_lex_from_shift(s.take(i), s.skip(i), 0, ln);
    assert(s.take(i) + s.skip(i) =~= s);
}

/// Law: blanks in front of a source text change nothing in what it lexes
/// to: `lex_spec(c + s) == lex_spec(s)` for a space, tab or carriage
/// return `c`.
pub proof fn lemma_leading_blank(s: Seq<char>, c: char)
    requires
        is_blank(c),
    ensures
        lex_spec(seq![c] + s) == lex_spec(s),
{
    lemma_blank_inserted(s, 0, c, 1);
    assert(s.take(0) + seq![c] + s.skip(0) =~= seq![c] + s);
}

// ---------------------------------------------------------------------------
// Executable lexer
// ---------------------------------------------------------------------------

/// Whether `c` may continue an identifier; see `is_ident_continue`.
fn ident_char(c: char) -> (r: bool)
    ensures
        r == is_ident_continue(c),
{
    ('a' <= c && c <= 'z') || ('A' <= c && c <= 'Z') || c == '_' || ('0' <= c && c <= '9')
}

/// The characters of `s`, in order.
fn to_chars(s: &str) -> (v: Vec<char>)
    ensures
        v@ == s@,
{
    let mut v: Vec<char> = Vec::new();
    for c in it: s.chars()
        invariant
            v@ == it.seq().take(it.index() as int),
    {
        v.push(c);
    }
    v
}

/// Whether `s[start..end]` spells `k`.
fn word_is(s: &Vec<char>, start: usize, end: usize, k: &[char]) -> (r: bool)
    requires
        start <= end <= s@.len(),
    ensures
        r == (s@.subrange(start as int, end as int) =~= k@),
{
    if end - start != k.len() {
        return false;
    }
    let mut i: usize = 0;
    while i < k.len()
        invariant
            end - start == k@.len(),
            start <= end <= s@.len(),
            i <= k@.len(),
            forall|j: int| 0 <= j < i ==> s@[start + j] == k@[j],
        decreases k.len() - i,
    {
        if s[start + i] != k[i] {
            return false;
        }
        i += 1;
    }
    true
}

/// The keyword spelled by `s[start..end]`, or an identifier with that name.
fn keyword_or_ident_token(s: &Vec<char>, src: &str, start: usize, end: usize) -> (t: Token)
    requires
        start <= end <= s@.len(),
        s@ == src@,
    ensures
        token_view(t) == keyword_or_ident(s@.subrange(start as int, end as int)),
{
    if false {
        TokenOf::EOF
    } else if word_is(s, start, end, &['v', 'a', 'r', 's']) {
        TokenOf::Vars
    } else if word_is(s, start, end, &['f', 'n']) {
        TokenOf::Fn
    } else if word_is(s, start, end, &['m', 'a', 'i', 'n']) {
        TokenOf::Main
    } else if word_is(s, start, end, &['i', 'f']) {
        TokenOf::If
    } else if word_is(s, start, end, &['e', 'l', 'i', 'f']) {
        TokenOf::Elif
    } else if word_is(s, start, end, &['e', 'l', 's', 'e']) {
        TokenOf::Else
    } else if word_is(s, start, end, &['l', 'o', 'o', 'p']) {
        TokenOf::Loop
    } else if word_is(s, start, end, &['w', 'h', 'i', 'l', 'e']) {
        TokenOf::While
    } else if word_is(s, start, end, &['s', 'p', 'r', 'i', 't', 'e', 's']) {
        TokenOf::Sprites
    } else if word_is(s, start, end, &['t', 'r', 'u', 'e']) {
        TokenOf::Bool(true)
    } else if word_is(s, start, end, &['f', 'a', 'l', 's', 'e']) {
        TokenOf::Bool(false)
    } else if word_is(s, start, end, &['a', 'n', 'd']) {
        TokenOf::And
    } else if word_is(s, start, end, &['o', 'r']) {
        TokenOf::Or
    } else if word_is(s, start, end, &['n', 'o', 't']) {
        TokenOf::Not
    } else if word_is(s, start, end, &['d', 'r', 'a', 'w']) {
        TokenOf::Draw
    } else if word_is(s, start, end, &['c', 'l', 'e', 'a', 'r']) {
        TokenOf::Clear
    } else if word_is(s, start, end, &['d', 'e', 'l', 'a', 'y']) {
        TokenOf::Delay
    } else if word_is(s, start, end, &['g', 'e', 't', 'd', 'e', 'l', 'a', 'y']) {
        TokenOf::GetDelay
    } else if word_is(s, start, end, &['b', 'e', 'e', 'p']) {
        TokenOf::Beep
    } else if word_is(s, start, end, &['g', 'e', 't', 'k', 'e', 'y']) {
        TokenOf::GetKey
    } else if word_is(s, start, end, &['k', 'e', 'y', 'p', 'r', 'e', 's', 's', 'e', 'd']) {
        TokenOf::KeyPressed
    } else if word_is(s, start, end, &['r', 'a', 'n', 'd']) {
        TokenOf::Rand
    } else if word_is(s, start, end, &['d', 'r', 'a', 'w', 'd', 'i', 'g', 'i', 't']) {
        TokenOf::DrawDigit
    } else {
        TokenOf::Ident(String::from_str(src.substring_char(start, end)))
    }
}

pub proof fn lemma_dec_push(w: Seq<char>, c: char)
    ensures
        dec_value(w.push(c)) == dec_value(w) * 10 + digit_value(c),
        hex_value(w.push(c)) == hex_value(w) * 16 + digit_value(c),
{
    assert(w.push(c).drop_last() =~= w);
}

pub proof fn lemma_dec_nonneg(w: Seq<char>)
    requires
        forall|k: int| 0 <= k < w.len() ==> is_hex_digit(#[trigger] w[k]),
    ensures
        dec_value(w) >= 0,
        hex_value(w) >= 0,
    decreases w.len(),
{
    if w.len() > 0 {
        assert forall|k: int| 0 <= k < w.drop_last().len() implies is_hex_digit(#[trigger] w.drop_last()[k]) by {
            assert(w.drop_last()[k] == w[k]);
        }
        lemma_dec_nonneg(w.drop_last());
        assert(is_hex_digit(w[w.len() - 1]));
    }
}

/// Scans the decimal digits that start at `start`: where they end, and their
/// value when it is at most 0x7FFF.
fn scan_decimal(s: &Vec<char>, start: usize) -> (r: (usize, Option<i16>))
    requires
        start <= s@.len(),
    ensures
        r.0 == digits_end(s@, start as int),
        match r.1 {
            Some(v) => v >= 0 && v as int == dec_value(s@.subrange(start as int, r.0 as int))
                && dec_value(s@.subrange(start as int, r.0 as int)) <= 0x7fff,
            None => dec_value(s@.subrange(start as int, r.0 as int)) > 0x7fff,
        },
{
    proof {
        lemma_digits_end(s@, start as int);
    }
    let mut j: usize = start;
    let mut val: u32 = 0;
    let mut over = false;
    while j < s.len() && '0' <= s[j] && s[j] <= '9'
        invariant
            start <= j <= s@.len(),
            digits_end(s@, start as int) == digits_end(s@, j as int),
            forall|k: int| start <= k < j ==> is_digit(#[trigger] s@[k]),
            !over ==> val as int == dec_value(s@.subrange(start as int, j as int)) && val <= 0x7fff,
            over <==> dec_value(s@.subrange(start as int, j as int)) > 0x7fff,
        decreases s.len() - j,
    {
        let ghost w = s@.subrange(start as int, j as int);
        proof {
            lemma_dec_push(w, s@[j as int]);
            assert(s@.subrange(start as int, j + 1) =~= w.push(s@[j as int]));
            assert forall|k: int| 0 <= k < w.len() implies is_hex_digit(#[trigger] w[k]) by {
                assert(w[k] == s@[start + k]);
            }
            lemma_dec_nonneg(w);
        }
        let d = (s[j] as u32) - ('0' as u32);
        if !over {
            let nv = val * 10 + d;
            if nv > 0x7fff {
                over = true;
            } else {
                val = nv;
            }
        } else {
            assert(dec_value(w) * 10 >= dec_value(w)) by (nonlinear_arith)
                requires
                    dec_value(w) >= 0,
            ;
        }
        j += 1;
    }
    if over {
        (j, None)
    } else {
        (j, Some(val as i16))
    }
}

fn hex_digit_value(c: char) -> (v: u32)
    requires
        is_hex_digit(c),
    ensures
        v as int == digit_value(c),
        v < 16,
{
    if '0' <= c && c <= '9' {
        (c as u32) - ('0' as u32)
    } else if 'a' <= c && c <= 'f' {
        (c as u32) - ('a' as u32) + 10
    } else {
        (c as u32) - ('A' as u32) + 10
    }
}

/// Scans the hex digits that start at `start`: where they end, and their
/// value when it is at most 0x7FFF.
fn scan_hex(s: &Vec<char>, start: usize) -> (r: (usize, Option<i16>))
    requires
        start <= s@.len(),
    ensures
        r.0 == hex_end(s@, start as int),
        match r.1 {
            Some(v) => v as int == hex_value(s@.subrange(start as int, r.0 as int))
                && hex_value(s@.subrange(start as int, r.0 as int)) <= 0x7fff,
            None => hex_value(s@.subrange(start as int, r.0 as int)) > 0x7fff,
        },
{
    proof {
        lemma_hex_end(s@, start as int);
    }
    let mut j: usize = start;
    let mut val: u32 = 0;
    let mut over = false;
    while j < s.len() && (('0' <= s[j] && s[j] <= '9') || ('a' <= s[j] && s[j] <= 'f') || ('A' <= s[j] && s[j] <= 'F'))
        invariant
            start <= j <= s@.len(),
            hex_end(s@, start as int) == hex_end(s@, j as int),
            forall|k: int| start <= k < j ==> is_hex_digit(#[trigger] s@[k]),
            !over ==> val as int == hex_value(s@.subrange(start as int, j as int)) && val <= 0x7fff,
            over <==> hex_value(s@.subrange(start as int, j as int)) > 0x7fff,
        decreases s.len() - j,
    {
        let ghost w = s@.subrange(start as int, j as int);
        proof {
            lemma_dec_push(w, s@[j as int]);
            assert(s@.subrange(start as int, j + 1) =~= w.push(s@[j as int]));
            assert forall|k: int| 0 <= k < w.len() implies is_hex_digit(#[trigger] w[k]) by {
                assert(w[k] == s@[start + k]);
            }
            lemma_dec_nonneg(w);
        }
        let d = hex_digit_value(s[j]);
        if !over {
            let nv = val * 16 + d;
            if nv > 0x7fff {
                over = true;
            } else {
                val = nv;
            }
        } else {
            assert(hex_value(w) * 16 >= hex_value(w)) by (nonlinear_arith)
                requires
                    hex_value(w) >= 0,
            ;
        }
        j += 1;
    }
    if over {
        (j, None)
    } else {
        (j, Some(val as i16))
    }
}

/// End of the identifier characters that start at `start`.
fn scan_ident(s: &Vec<char>, start: usize) -> (j: usize)
    requires
        start <= s@.len(),
    ensures
        j == ident_end(s@, start as int),
{
    let mut j = start;
    while j < s.len() && ident_char(s[j])
        invariant
            start <= j <= s@.len(),
            ident_end(s@, start as int) == ident_end(s@, j as int),
        decreases s.len() - j,
    {
        j += 1;
    }
    j
}

/// Index of the first `c` at or after `start`, or the length of `s`.
fn scan_to(s: &Vec<char>, start: usize, c: char) -> (k: usize)
    requires
        start <= s@.len(),
    ensures
        k == find_char(s@, start as int, c),
{
    let mut k = start;
    while k < s.len() && s[k] != c
        invariant
            start <= k <= s@.len(),
            find_char(s@, start as int, c) == find_char(s@, k as int, c),
        decreases s.len() - k,
    {
        k += 1;
    }
    k
}

pub proof fn lemma_count_newlines_push(w: Seq<char>, c: char)
    ensures
        count_newlines(w.push(c)) == count_newlines(w) + if c == '\n' { 1int } else { 0int },
{
    assert(w.push(c).drop_last() =~= w);
}

pub proof fn lemma_count_newlines_bound(w: Seq<char>)
    ensures
        0 <= count_newlines(w) <= w.len(),
    decreases w.len(),
{
    if w.len() > 0 {
        lemma_count_newlines_bound(w.drop_last());
    }
}

/// Number of newlines in `s[start..end]`.
fn newlines_in(s: &Vec<char>, start: usize, end: usize) -> (n: usize)
    requires
        start <= end <= s@.len(),
    ensures
        n as int == count_newlines(s@.subrange(start as int, end as int)),
{
    let mut n: usize = 0;
    let mut j = start;
    while j < end
        invariant
            start <= j <= end <= s@.len(),
            n as int == count_newlines(s@.subrange(start as int, j as int)),
            n <= j - start,
        decreases end - j,
    {
        proof {
            lemma_count_newlines_push(s@.subrange(start as int, j as int), s@[j as int]);
            assert(s@.subrange(start as int, j + 1) =~= s@.subrange(start as int, j as int).push(s@[j as int]));
        }
        if s[j] == '\n' {
            n += 1;
        }
        j += 1;
    }
    n
}

/// Tokens already produced, followed by what lexing the rest gives.
pub open spec fn join(p: Seq<(SToken, u32)>, r: SLexResult) -> SLexResult {
    match r {
        Ok(x) => Ok(p + x),
        Err(e) => Err(e),
    }
}

pub open spec fn lex_result_view(r: Result<Vec<Spanned>, LexError>) -> SLexResult {
    match r {
        Ok(v) => Ok(spanned_views(v@)),
        Err(e) => Err(e),
    }
}

pub proof fn lemma_join_emit(p: Seq<(SToken, u32)>, t: SToken, ln: u32, r: SLexResult)
    ensures
        join(p, emit(t, ln as int, r)) == join(p.push((t, ln)), r),
{
    match r {
        Ok(x) => {
            assert(p + (seq![(t, ln)] + x) =~= p.push((t, ln)) + x);
        },
        Err(e) => {},
    }
}

/// Appends `t` on line `ln`.
fn push_token(tokens: &mut Vec<Spanned>, t: Token, ln: u32)
    ensures
        spanned_views(final(tokens)@) == spanned_views(old(tokens)@).push((token_view(t), ln)),
{
    tokens.push((t, ln));
    assert(spanned_views(tokens@) =~= spanned_views(old(tokens)@).push((token_view(t), ln)));
}

/// One step of the lexer from position `i` on line `ln`: either it moved on to
/// `(i2, l2)`, with the tokens it produced appended, or it failed with the
/// error that the whole lexer reports.
pub open spec fn step_post(
    s: Seq<char>,
    i: int,
    ln: int,
    before: Seq<(SToken, u32)>,
    after: Seq<(SToken, u32)>,
    r: Result<(usize, u32), LexError>,
) -> bool {
    match r {
        Ok((i2, l2)) => {
            &&& i < i2 <= s.len()
            &&& 1 <= l2 <= i2 + 1
            &&& join(before, lex_from(s, i, ln)) == join(after, lex_from(s, i2 as int, l2 as int))
        },
        Err(e) => join(before, lex_from(s, i, ln)) == Err::<Seq<(SToken, u32)>, LexError>(e),
    }
}

/// Operators and delimiters (everything that starts with a punctuation
/// character other than `"`, `/` and `-`).
fn lex_punct(s: &Vec<char>, i: usize, line: u32, tokens: &mut Vec<Spanned>) -> (r: Result<(usize, u32), LexError>)
    requires
        i < s@.len() < 0xffff_fff0,
        1 <= line <= i + 1,
        single_char_token(s@[i as int]) is Some || s@[i as int] == '=' || s@[i as int] == '<'
            || s@[i as int] == '>' || s@[i as int] == '!',
    ensures
        step_post(s@, i as int, line as int, spanned_views(old(tokens)@), spanned_views(final(tokens)@), r),
{
    let c = s[i];
    let n = s.len();
    let ghost p = spanned_views(tokens@);
    let has2 = i + 1 < n;
    if c == '(' || c == ')' || c == '{' || c == '}' || c == '[' || c == ']' || c == ';'
        || c == ',' || c == '+' || c == '*' || c == '%' {
        let t = if c == '(' {
            Token::LParen
        } else if c == ')' {
            Token::RParen
        } else if c == '{' {
            Token::LBrace
        } else if c == '}' {
            Token::RBrace
        } else if c == '[' {
            Token::LBracket
        } else if c == ']' {
            Token::RBracket
        } else if c == ';' {
            Token::Semicolon
        } else if c == ',' {
            Token::Comma
        } else if c == '+' {
            Token::Plus
        } else if c == '*' {
            Token::Star
        } else {
            Token::Percent
        };
        proof {
            lemma_join_emit(p, token_view(t), line, lex_from(s@, i + 1, line as int));
        }
        push_token(tokens, t, line);
        Ok((i + 1, line))
    } else if has2 && s[i + 1] == '=' {
        let t = if c == '=' {
            Token::EqEq
        } else if c == '<' {
            Token::LtEq
        } else if c == '>' {
            Token::GtEq
        } else {
            Token::NotEq
        };
        proof {
            lemma_join_emit(p, token_view(t), line, lex_from(s@, i + 2, line as int));
        }
        push_token(tokens, t, line);
        Ok((i + 2, line))
    } else if c == '!' {
        Err(LexError { line, kind: LexErrorKind::BareBang })
    } else {
        let t = if c == '=' {
            Token::Equals
        } else if c == '<' {
            Token::Lt
        } else {
            Token::Gt
        };
        proof {
            lemma_join_emit(p, token_view(t), line, lex_from(s@, i + 1, line as int));
        }
        push_token(tokens, t, line);
        Ok((i + 1, line))
    }
}

/// `-`, `->` and negative integer literals.
fn lex_minus(s: &Vec<char>, i: usize, line: u32, tokens: &mut Vec<Spanned>) -> (r: Result<(usize, u32), LexError>)
    requires
        i < s@.len() < 0xffff_fff0,
        1 <= line <= i + 1,
        s@[i as int] == '-',
    ensures
        step_post(s@, i as int, line as int, spanned_views(old(tokens)@), spanned_views(final(tokens)@), r),
{
    let n = s.len();
    let ghost p = spanned_views(tokens@);
    let has2 = i + 1 < n;
    if has2 && s[i + 1] == '>' {
        proof {
            lemma_join_emit(p, TokenOf::Arrow, line, lex_from(s@, i + 2, line as int));
        }
        push_token(tokens, Token::Arrow, line);
        Ok((i + 2, line))
    } else if has2 && '0' <= s[i + 1] && s[i + 1] <= '9' {
        let (j, v) = scan_decimal(s, i + 1);
        proof {
            lemma_digits_end(s@, i + 1);
        }
        match v {
            None => Err(LexError { line, kind: LexErrorKind::NegativeOutOfRange }),
            Some(v) => {
                let t = Token::Int(-v);
                proof {
                    lemma_join_emit(p, token_view(t), line, lex_from(s@, j as int, line as int));
                }
                push_token(tokens, t, line);
                Ok((j, line))
            },
        }
    } else {
        proof {
            lemma_join_emit(p, TokenOf::Minus, line, lex_from(s@, i + 1, line as int));
        }
        push_token(tokens, Token::Minus, line);
        Ok((i + 1, line))
    }
}

/// `/` and `//` comments.
fn lex_slash(s: &Vec<char>, i: usize, line: u32, tokens: &mut Vec<Spanned>) -> (r: Result<(usize, u32), LexError>)
    requires
        i < s@.len() < 0xffff_fff0,
        1 <= line <= i + 1,
        s@[i as int] == '/',
    ensures
        step_post(s@, i as int, line as int, spanned_views(old(tokens)@), spanned_views(final(tokens)@), r),
{
    let n = s.len();
    let ghost p = spanned_views(tokens@);
    if i + 1 < n && s[i + 1] == '/' {
        let k = scan_to(s, i + 2, '\n');
        proof {
            lemma_find_char(s@, i + 2, '\n');
        }
        if k < n {
            Ok((k + 1, line + 1))
        } else {
            Ok((n, line))
        }
    } else {
        proof {
            lemma_join_emit(p, TokenOf::Slash, line, lex_from(s@, i + 1, line as int));
        }
        push_token(tokens, Token::Slash, line);
        Ok((i + 1, line))
    }
}

/// String literals.
fn lex_string(s: &Vec<char>, src: &str, i: usize, line: u32, tokens: &mut Vec<Spanned>) -> (r: Result<(usize, u32), LexError>)
    requires
        i < s@.len() < 0xffff_fff0,
        s@ == src@,
        1 <= line <= i + 1,
        s@[i as int] == '"',
    ensures
        step_post(s@, i as int, line as int, spanned_views(old(tokens)@), spanned_views(final(tokens)@), r),
{
    let n = s.len();
    let ghost p = spanned_views(tokens@);
    let k = scan_to(s, i + 1, '"');
    proof {
        lemma_find_char(s@, i + 1, '"');
    }
    if k >= n {
        return Err(LexError { line, kind: LexErrorKind::UnterminatedString });
    }
    let text = String::from_str(src.substring_char(i + 1, k));
    let nl = newlines_in(s, i + 1, k);
    let t = Token::StringLit(text);
    proof {
        lemma_count_newlines_bound(s@.subrange(i + 1, k as int));
        lemma_join_emit(p, token_view(t), line, lex_from(s@, k + 1, line + nl));
    }
    push_token(tokens, t, line);
    Ok((k + 1, line + nl as u32))
}

/// Decimal and hex literals.
fn lex_number(s: &Vec<char>, i: usize, line: u32, tokens: &mut Vec<Spanned>) -> (r: Result<(usize, u32), LexError>)
    requires
        i < s@.len() < 0xffff_fff0,
        1 <= line <= i + 1,
        is_digit(s@[i as int]),
    ensures
        step_post(s@, i as int, line as int, spanned_views(old(tokens)@), spanned_views(final(tokens)@), r),
{
    let n = s.len();
    let c = s[i];
    let ghost p = spanned_views(tokens@);
    if c == '0' && i + 1 < n && s[i + 1] == 'x' {
        let (j, v) = scan_hex(s, i + 2);
        proof {
            lemma_hex_end(s@, i + 2);
        }
        if j == i + 2 {
            return Err(LexError { line, kind: LexErrorKind::EmptyHex });
        }
        match v {
            None => Err(LexError { line, kind: LexErrorKind::HexTooLarge }),
            Some(v) => {
                if v > 0xff {
                    return Err(LexError { line, kind: LexErrorKind::HexTooLarge });
                }
                let t = Token::Int(v);
                proof {
                    lemma_join_emit(p, token_view(t), line, lex_from(s@, j as int, line as int));
                }
                push_token(tokens, t, line);
                Ok((j, line))
            },
        }
    } else {
        let (j, v) = scan_decimal(s, i);
        proof {
            lemma_digits_end(s@, i as int);
        }
        match v {
            None => Err(LexError { line, kind: LexErrorKind::IntTooLarge }),
            Some(v) => {
                if v > 0xff {
                    return Err(LexError { line, kind: LexErrorKind::IntTooLarge });
                }
                let t = Token::Int(v);
                proof {
                    lemma_join_emit(p, token_view(t), line, lex_from(s@, j as int, line as int));
                }
                push_token(tokens, t, line);
                Ok((j, line))
            },
        }
    }
}

/// Keywords and identifiers.
fn lex_word(s: &Vec<char>, src: &str, i: usize, line: u32, tokens: &mut Vec<Spanned>) -> (r: Result<(usize, u32), LexError>)
    requires
        i < s@.len() < 0xffff_fff0,
        s@ == src@,
        1 <= line <= i + 1,
        is_ident_start(s@[i as int]),
    ensures
        step_post(s@, i as int, line as int, spanned_views(old(tokens)@), spanned_views(final(tokens)@), r),
{
    let ghost p = spanned_views(tokens@);
    let j = scan_ident(s, i + 1);
    proof {
        lemma_ident_end(s@, i + 1);
    }
    let t = keyword_or_ident_token(s, src, i, j);
    proof {
        lemma_join_emit(p, token_view(t), line, lex_from(s@, j as int, line as int));
    }
    push_token(tokens, t, line);
    Ok((j, line))
}

/// Splits `source` into tokens, each tagged with the line it starts on; the
/// stream always ends with `EOF`. Fails on the first character sequence that
/// starts no token.
pub fn lex(source: String) -> (res: Result<Vec<Spanned>, LexError>)
    requires
        source@.len() < 0xffff_fff0,
    ensures
        lex_result_view(res) == lex_spec(source@),
{
    let src = source.as_str();
    let s = to_chars(src);
    let n = s.len();
    let mut tokens: Vec<Spanned> = Vec::new();
    let mut i: usize = 0;
    let mut line: u32 = 1;
    assert(spanned_views(tokens@) =~= Seq::<(SToken, u32)>::empty());
    assert(join(Seq::empty(), lex_from(s@, 0, 1)) == lex_from(s@, 0, 1)) by {
        match lex_from(s@, 0, 1) {
            Ok(x) => {
                assert(Seq::<(SToken, u32)>::empty() + x =~= x);
            },
            Err(_) => {},
        }
    }
    while i < n
        invariant
            s@ == source@,
            src@ == source@,
            n == s@.len(),
            n < 0xffff_fff0,
            i <= n,
            1 <= line <= i + 1,
            lex_spec(s@) == join(spanned_views(tokens@), lex_from(s@, i as int, line as int)),
        decreases n - i,
    {
        let c = s[i];
        if c == '\n' {
            i += 1;
            line += 1;
        } else if c == ' ' || c == '\t' || c == '\r' {
            i += 1;
        } else {
            let r = if c == '-' {
                lex_minus(&s, i, line, &mut tokens)
            } else if c == '/' {
                lex_slash(&s, i, line, &mut tokens)
            } else if c == '"' {
                lex_string(&s, src, i, line, &mut tokens)
            } else if '0' <= c && c <= '9' {
                lex_number(&s, i, line, &mut tokens)
            } else if ('a' <= c && c <= 'z') || ('A' <= c && c <= 'Z') || c == '_' {
                lex_word(&s, src, i, line, &mut tokens)
            } else if c == '(' || c == ')' || c == '{' || c == '}' || c == '[' || c == ']' || c == ';'
                || c == ',' || c == '+' || c == '*' || c == '%' || c == '=' || c == '<' || c == '>'
                || c == '!' {
                lex_punct(&s, i, line, &mut tokens)
            } else {
                Err(LexError { line, kind: LexErrorKind::UnexpectedChar(c) })
            };
            match r {
                Ok((i2, l2)) => {
                    i = i2;
                    line = l2;
                },
                Err(e) => {
                    return Err(e);
                },
            }
        }
    }
    proof {
        lemma_join_emit(spanned_views(tokens@), TokenOf::EOF, line, Ok(Seq::empty()));
        assert(seq![(TokenOf::EOF, line)] + Seq::<(SToken, u32)>::empty() =~= seq![(TokenOf::EOF, line)]);
    }
    push_token(&mut tokens, Token::EOF, line);
    assert(spanned_views(tokens@) =~= spanned_views(tokens@) + Seq::<(SToken, u32)>::empty());
    Ok(tokens)
}

/// How each token that is not a name, a number or a string is written.
pub open spec fn spelling(k: SToken) -> Seq<char> {
    match k {
        TokenOf::Vars => seq!['v', 'a', 'r', 's'],
        TokenOf::Sprites => seq!['s', 'p', 'r', 'i', 't', 'e', 's'],
        TokenOf::Fn => seq!['f', 'n'],
        TokenOf::Main => seq!['m', 'a', 'i', 'n'],
        TokenOf::If => seq!['i', 'f'],
        TokenOf::Elif => seq!['e', 'l', 'i', 'f'],
        TokenOf::Else => seq!['e', 'l', 's', 'e'],
        TokenOf::While => seq!['w', 'h', 'i', 'l', 'e'],
        TokenOf::Loop => seq!['l', 'o', 'o', 'p'],
        TokenOf::Draw => seq!['d', 'r', 'a', 'w'],
        TokenOf::DrawDigit => seq!['d', 'r', 'a', 'w', 'd', 'i', 'g', 'i', 't'],
        TokenOf::Clear => seq!['c', 'l', 'e', 'a', 'r'],
        TokenOf::Delay => seq!['d', 'e', 'l', 'a', 'y'],
        TokenOf::GetDelay => seq!['g', 'e', 't', 'd', 'e', 'l', 'a', 'y'],
        TokenOf::Beep => seq!['b', 'e', 'e', 'p'],
        TokenOf::GetKey => seq!['g', 'e', 't', 'k', 'e', 'y'],
        TokenOf::KeyPressed => seq!['k', 'e', 'y', 'p', 'r', 'e', 's', 's', 'e', 'd'],
        TokenOf::Rand => seq!['r', 'a', 'n', 'd'],
        TokenOf::And => seq!['a', 'n', 'd'],
        TokenOf::Or => seq!['o', 'r'],
        TokenOf::Not => seq!['n', 'o', 't'],
        TokenOf::Bool(b) => if b { seq!['t', 'r', 'u', 'e'] } else { seq!['f', 'a', 'l', 's', 'e'] },
        TokenOf::Plus => seq!['+'],
        TokenOf::Minus => seq!['-'],
        TokenOf::Star => seq!['*'],
        TokenOf::Slash => seq!['/'],
        TokenOf::Percent => seq!['%'],
        TokenOf::Equals => seq!['='],
        TokenOf::EqEq => seq!['=', '='],
        TokenOf::NotEq => seq!['!', '='],
        TokenOf::Lt => seq!['<'],
        TokenOf::Gt => seq!['>'],
        TokenOf::LtEq => seq!['<', '='],
        TokenOf::GtEq => seq!['>', '='],
        TokenOf::Arrow => seq!['-', '>'],
        TokenOf::LParen => seq!['('],
        TokenOf::RParen => seq![')'],
        TokenOf::LBrace => seq!['{'],
        TokenOf::RBrace => seq!['}'],
        TokenOf::LBracket => seq!['['],
        TokenOf::RBracket => seq![']'],
        TokenOf::Semicolon => seq![';'],
        TokenOf::Comma => seq![','],
        _ => Seq::empty(),
    }
}

/// After a blank that follows `w`, lexing goes on with `s`.
proof fn lemma_after_blank(w: Seq<char>, s: Seq<char>, ln: int)
    ensures
        lex_from(w + seq![' '] + s, w.len() as int, ln) == lex_from(s, 0, ln),
{
    let u = w + seq![' '] + s;
    assert(u[w.len() as int] == ' ');
    lemma_lex_from_shift(w + seq![' '], s, 0, ln);
    assert(w + seq![' '] + s == u);
}

proof fn lemma_ident_end_at(u: Seq<char>, i: int, n: int)
    requires
        1 <= i <= n < u.len(),
        forall|m: int| i <= m < n ==> is_ident_continue(#[trigger] u[m]),
        !is_ident_continue(u[n]),
    ensures
        ident_end(u, i) == n,
    decreases n - i,
{
    if i < n {
        lemma_ident_end_at(u, i + 1, n);
    }
}

/// A word followed by a blank lexes to its keyword, or to a name.
proof fn lemma_word_then(w: Seq<char>, s: Seq<char>, ln: int)
    requires
        w.len() >= 1,
        is_ident_start(w[0]),
        forall|m: int| 0 <= m < w.len() ==> is_ident_continue(#[trigger] w[m]),
    ensures
        lex_from(w + seq![' '] + s, 0, ln) == emit(keyword_or_ident(w), ln, lex_from(s, 0, ln)),
{
    let u = w + seq![' '] + s;
    let n = w.len() as int;
    assert forall|m: int| 1 <= m < n implies is_ident_continue(#[trigger] u[m]) by {
        assert(u[m] == w[m]);
    }
    assert(u[n] == ' ');
    assert(u[0] == w[0]);
    lemma_ident_end_at(u, 1, n);
    assert(u.subrange(0, n) =~= w);
    lemma_after_blank(w, s, ln);
}

/// Whether `k` is written with letters.
pub open spec fn is_word_token(k: SToken) -> bool {
    spelling(k).len() > 0 && is_ident_start(spelling(k)[0])
}

#[verifier::spinoff_prover]
#[verifier::rlimit(100)]
proof fn lemma_keyword_spelling(k: SToken)
    requires
        is_word_token(k),
    ensures
        spelling(k).len() >= 1,
        is_ident_start(spelling(k)[0]),
        forall|m: int| 0 <= m < spelling(k).len() ==> is_ident_continue(#[trigger] spelling(k)[m]),
        keyword_or_ident(spelling(k)) == k,
{
}

#[verifier::spinoff_prover]
#[verifier::rlimit(100)]
proof fn lemma_symbol_spelling(k: SToken, s: Seq<char>, ln: int)
    requires
        spelling(k).len() > 0,
        !is_word_token(k),
    ensures
        lex_from(spelling(k) + seq![' '] + s, 0, ln) == emit(k, ln, lex_from(spelling(k) + seq![' '] + s, spelling(k).len() as int, ln)),
{
    let w = spelling(k);
    let u = w + seq![' '] + s;
    assert(u[0] == w[0]);
    if w.len() == 1 {
        assert(u[1] == ' ');
        assert(lex_from(u, 1, ln) == lex_from(u, 2, ln));
    } else {
        assert(u[1] == w[1]);
        assert(u[2] == ' ');
    }
}

/// Law: each keyword, operator and punctuation token, written as it is
/// spelled and followed by a blank, lexes to that token, and lexing goes on
/// with what follows: `k s` lexes to `k` then the tokens of `s`.
pub proof fn lemma_spelling_lexes(k: SToken, s: Seq<char>, ln: int)
    requires
        spelling(k).len() > 0,
    ensures
        lex_from(spelling(k) + seq![' '] + s, 0, ln) == emit(k, ln, lex_from(s, 0, ln)),
{
    let w = spelling(k);
    lemma_after_blank(w, s, ln);
    if is_word_token(k) {
        lemma_keyword_spelling(k);
        lemma_word_then(w, s, ln);
    } else {
        lemma_symbol_spelling(k, s, ln);
    }
}

} // verus!
