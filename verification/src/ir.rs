//! Intermediate representation: quadruples (op, arg1, arg2, result).  An
//! absent field is "not applicable" for that operation.
use vstd::prelude::*;

verus! {

#[derive(Debug, Clone, Copy, PartialEq, Eq, Structural)]
pub enum IrOp {
    /// result = arg1 (an integer or boolean literal)
    LoadImm,
    /// result = arg1
    Copy,
    Add,
    Sub,
    Mul,
    Div,
    Mod,
    And,
    Or,
    /// result = !arg1
    Not,
    CmpEq,
    CmpNeq,
    CmpLt,
    CmpGt,
    CmpLtEq,
    CmpGtEq,
    /// arg1 = label name
    Label,
    /// arg1 = label
    Jump,
    /// if arg1 is false, jump to arg2
    JumpFalse,
    /// arg1 = function name, arg2 = argument count
    Call,
    Return,
    Clear,
    /// arg1 = x register, arg2 = y register, result = sprite name
    Draw,
    /// arg1 = x register, arg2 = y register, result = digit register
    DrawDigit,
    /// arg1 = value register
    SetDelay,
    /// arg1 = value register
    SetSound,
    /// result = destination register
    GetDelay,
    /// result = destination register
    GetKey,
    /// arg1 = key register, result = destination register
    KeyPressed,
    /// arg1 = mask, result = destination register
    Rand,
    /// arg1 = sprite name, arg2 = address
    SpriteData,
}

/// One instruction of the intermediate representation.
#[derive(Debug, Clone)]
pub struct Quad {
    pub op: IrOp,
    pub arg1: Option<String>,
    pub arg2: Option<String>,
    pub result: Option<String>,
}

/// Model of `Quad`.
pub struct SQuad {
    pub op: IrOp,
    pub arg1: Option<Seq<char>>,
    pub arg2: Option<Seq<char>>,
    pub result: Option<Seq<char>>,
}

pub open spec fn view_opt_string(o: Option<String>) -> Option<Seq<char>> {
    match o {
        Some(s) => Some(s@),
        None => None,
    }
}

pub open spec fn view_opt_str(o: Option<&str>) -> Option<Seq<char>> {
    match o {
        Some(s) => Some(s@),
        None => None,
    }
}

impl View for Quad {
    type V = SQuad;

    open spec fn view(&self) -> SQuad {
        SQuad {
            op: self.op,
            arg1: view_opt_string(self.arg1),
            arg2: view_opt_string(self.arg2),
            result: view_opt_string(self.result),
        }
    }
}

pub open spec fn view_quads(q: Seq<Quad>) -> Seq<SQuad> {
    q.map_values(|x: Quad| x@)
}

fn owned(o: Option<&str>) -> (r: Option<String>)
    ensures
        view_opt_string(r) == view_opt_str(o),
{
    match o {
        Some(s) => Some(s.to_owned()),
        None => None,
    }
}

impl Quad {
    pub fn new(op: IrOp, arg1: Option<&str>, arg2: Option<&str>, result: Option<&str>) -> (q: Quad)
        ensures
            q@ == (SQuad { op, arg1: view_opt_str(arg1), arg2: view_opt_str(arg2), result: view_opt_str(result) }),
    {
        Quad { op, arg1: owned(arg1), arg2: owned(arg2), result: owned(result) }
    }
}

// ---------------------------------------------------------------------------
// Numerals in operands
// ---------------------------------------------------------------------------

pub open spec fn digit_char(d: nat) -> char {
    if d == 0 {
        '0'
    } else if d == 1 {
        '1'
    } else if d == 2 {
        '2'
    } else if d == 3 {
        '3'
    } else if d == 4 {
        '4'
    } else if d == 5 {
        '5'
    } else if d == 6 {
        '6'
    } else if d == 7 {
        '7'
    } else if d == 8 {
        '8'
    } else if d == 9 {
        '9'
    } else if d == 10 {
        'A'
    } else if d == 11 {
        'B'
    } else if d == 12 {
        'C'
    } else if d == 13 {
        'D'
    } else if d == 14 {
        'E'
    } else {
        'F'
    }
}

/// Digits of `n` in base `b` (10 or 16), most significant first, capitals
/// above 9.
pub open spec fn numeral(n: nat, b: nat) -> Seq<char>
    recommends
        b == 10 || b == 16,
    decreases n,
{
    if b < 2 || n < b {
        seq![digit_char(n)]
    } else {
        proof {
            vstd::arithmetic::div_mod::lemma_div_decreases(n as int, b as int);
        }
        numeral(n / b, b).push(digit_char(n % b))
    }
}

/// The name of register `r`: `V` and its number in hexadecimal.
pub open spec fn reg_name(r: u8) -> Seq<char> {
    seq!['V'] + numeral(r as nat, 16)
}

/// The name of label `n`: `L` and its number in decimal.
pub open spec fn label_name(n: u32) -> Seq<char> {
    seq!['L'] + numeral(n as nat, 10)
}

fn digit_str(d: u8) -> (s: &'static str)
    requires
        d < 16,
    ensures
        s@ == seq![digit_char(d as nat)],
{
    proof {
        reveal_strlit("0");
        reveal_strlit("1");
        reveal_strlit("2");
        reveal_strlit("3");
        reveal_strlit("4");
        reveal_strlit("5");
        reveal_strlit("6");
        reveal_strlit("7");
        reveal_strlit("8");
        reveal_strlit("9");
        reveal_strlit("A");
        reveal_strlit("B");
        reveal_strlit("C");
        reveal_strlit("D");
        reveal_strlit("E");
        reveal_strlit("F");
    }
    match d {
        0 => "0",
        1 => "1",
        2 => "2",
        3 => "3",
        4 => "4",
        5 => "5",
        6 => "6",
        7 => "7",
        8 => "8",
        9 => "9",
        10 => "A",
        11 => "B",
        12 => "C",
        13 => "D",
        14 => "E",
        _ => "F",
    }
}

/// `numeral(n, b)` as a string.
pub fn numeral_string(n: u32, b: u32) -> (s: String)
    requires
        b == 10 || b == 16,
    ensures
        s@ == numeral(n as nat, b as nat),
    decreases n,
{
    if n < b {
        String::from_str(digit_str(n as u8))
    } else {
        let mut s = numeral_string(n / b, b);
        s.append(digit_str((n % b) as u8));
        s
    }
}

/// The decimal numeral of `n`.
pub fn decimal(n: u32) -> (s: String)
    ensures
        s@ == numeral(n as nat, 10),
{
    numeral_string(n, 10)
}

/// The name of register `r`; see `reg_name`.
pub fn register_name(r: u8) -> (s: String)
    ensures
        s@ == reg_name(r),
{
    proof { reveal_strlit("V"); }
    let mut s = String::from_str("V");
    let h = numeral_string(r as u32, 16);
    s.append(h.as_str());
    s
}

/// The name of label `n`; see `label_name`.
pub fn label_string(n: u32) -> (s: String)
    ensures
        s@ == label_name(n),
{
    proof { reveal_strlit("L"); }
    let mut s = String::from_str("L");
    let d = decimal(n);
    s.append(d.as_str());
    s
}


// ---------------------------------------------------------------------------
// Printing
// ---------------------------------------------------------------------------

/// The name of an operation, as printed.
pub open spec fn op_name(o: IrOp) -> Seq<char> {
    match o {
        IrOp::LoadImm => "LoadImm"@,
        IrOp::Copy => "Copy"@,
        IrOp::Add => "Add"@,
        IrOp::Sub => "Sub"@,
        IrOp::Mul => "Mul"@,
        IrOp::Div => "Div"@,
        IrOp::Mod => "Mod"@,
        IrOp::And => "And"@,
        IrOp::Or => "Or"@,
        IrOp::Not => "Not"@,
        IrOp::CmpEq => "CmpEq"@,
        IrOp::CmpNeq => "CmpNeq"@,
        IrOp::CmpLt => "CmpLt"@,
        IrOp::CmpGt => "CmpGt"@,
        IrOp::CmpLtEq => "CmpLtEq"@,
        IrOp::CmpGtEq => "CmpGtEq"@,
        IrOp::Label => "Label"@,
        IrOp::Jump => "Jump"@,
        IrOp::JumpFalse => "JumpFalse"@,
        IrOp::Call => "Call"@,
        IrOp::Return => "Return"@,
        IrOp::Clear => "Clear"@,
        IrOp::Draw => "Draw"@,
        IrOp::DrawDigit => "DrawDigit"@,
        IrOp::SetDelay => "SetDelay"@,
        IrOp::SetSound => "SetSound"@,
        IrOp::GetDelay => "GetDelay"@,
        IrOp::GetKey => "GetKey"@,
        IrOp::KeyPressed => "KeyPressed"@,
        IrOp::Rand => "Rand"@,
        IrOp::SpriteData => "SpriteData"@,
    }
}

/// An operand as printed: `_` when absent.
pub open spec fn field_text(f: Option<Seq<char>>) -> Seq<char> {
    match f {
        Some(t) => t,
        None => "_"@,
    }
}

/// A quadruple as printed: `(op, arg1, arg2, result)`.
pub open spec fn quad_text(q: SQuad) -> Seq<char> {
    "("@ + op_name(q.op) + ", "@ + field_text(q.arg1) + ", "@ + field_text(q.arg2) + ", "@ + field_text(q.result) + ")"@
}

fn op_str(o: IrOp) -> (s: &'static str)
    ensures
        s@ == op_name(o),
{
    match o {
        IrOp::LoadImm => "LoadImm",
        IrOp::Copy => "Copy",
        IrOp::Add => "Add",
        IrOp::Sub => "Sub",
        IrOp::Mul => "Mul",
        IrOp::Div => "Div",
        IrOp::Mod => "Mod",
        IrOp::And => "And",
        IrOp::Or => "Or",
        IrOp::Not => "Not",
        IrOp::CmpEq => "CmpEq",
        IrOp::CmpNeq => "CmpNeq",
        IrOp::CmpLt => "CmpLt",
        IrOp::CmpGt => "CmpGt",
        IrOp::CmpLtEq => "CmpLtEq",
        IrOp::CmpGtEq => "CmpGtEq",
        IrOp::Label => "Label",
        IrOp::Jump => "Jump",
        IrOp::JumpFalse => "JumpFalse",
        IrOp::Call => "Call",
        IrOp::Return => "Return",
        IrOp::Clear => "Clear",
        IrOp::Draw => "Draw",
        IrOp::DrawDigit => "DrawDigit",
        IrOp::SetDelay => "SetDelay",
        IrOp::SetSound => "SetSound",
        IrOp::GetDelay => "GetDelay",
        IrOp::GetKey => "GetKey",
        IrOp::KeyPressed => "KeyPressed",
        IrOp::Rand => "Rand",
        IrOp::SpriteData => "SpriteData",
    }
}

fn field_str(f: &Option<String>) -> (s: &str)
    ensures
        s@ == field_text(view_opt_string(*f)),
{
    match f {
        Some(t) => t.as_str(),
        None => "_",
    }
}

impl Quad {
    /// The printed form; see `quad_text`.
    pub fn text(&self) -> (s: String)
        ensures
            s@ == quad_text(self@),
    {
        let mut s = String::from_str("(");
        s.append(op_str(self.op));
        s.append(", ");
        s.append(field_str(&self.arg1));
        s.append(", ");
        s.append(field_str(&self.arg2));
        s.append(", ");
        s.append(field_str(&self.result));
        s.append(")");
        s
    }
}

} // verus!
