//! Compiled programs run on a small CHIP-8 interpreter: each test checks the
//! values the variables' registers hold when the program reaches its final
//! jump to itself.

use chipscript::analyzer::Analyzer;
use chipscript::ast::Program;
use chipscript::codegen::{Codegen, CodegenError};
use chipscript::lexer;
use chipscript::optimizer::Optimizer;
use chipscript::parser::Parser;

fn parse(src: &str) -> Program {
    let tokens = lexer::lex(src.to_string()).expect("the source lexes");
    Parser::new(tokens).parse().expect("the source parses")
}

fn compile(src: &str, optimize: bool) -> Vec<u8> {
    let mut program = parse(src);
    Analyzer::new().analyze(&program, &vec![]).expect("the program is accepted");
    if optimize {
        Optimizer::new().optimize(&mut program).expect("the program optimizes");
    }
    Codegen::new().generate(&program, &vec![]).expect("a ROM is generated")
}

/// The glyphs of the hexadecimal digits, five rows each, from address 0.
const FONT: [u8; 80] = [
    0xF0, 0x90, 0x90, 0x90, 0xF0, 0x20, 0x60, 0x20, 0x20, 0x70, 0xF0, 0x10, 0xF0, 0x80, 0xF0, 0xF0, 0x10, 0xF0, 0x10, 0xF0,
    0x90, 0x90, 0xF0, 0x10, 0x10, 0xF0, 0x80, 0xF0, 0x10, 0xF0, 0xF0, 0x80, 0xF0, 0x90, 0xF0, 0xF0, 0x10, 0x20, 0x40, 0x40,
    0xF0, 0x90, 0xF0, 0x90, 0xF0, 0xF0, 0x90, 0xF0, 0x10, 0xF0, 0xF0, 0x90, 0xF0, 0x90, 0x90, 0xE0, 0x90, 0xE0, 0x90, 0xE0,
    0xF0, 0x80, 0x80, 0x80, 0xF0, 0xE0, 0x90, 0x90, 0x90, 0xE0, 0xF0, 0x80, 0xF0, 0x80, 0xF0, 0xF0, 0x80, 0xF0, 0x80, 0x80,
];

/// Registers, memory and stack of a CHIP-8 machine; no key is ever pressed
/// and the screen is a 64 x 32 bit map.
struct Machine {
    v: [u8; 16],
    i: u16,
    pc: u16,
    stack: Vec<u16>,
    mem: Vec<u8>,
    screen: [[bool; 64]; 32],
    delay: u8,
}

impl Machine {
    fn new(rom: &[u8]) -> Machine {
        let mut mem = vec![0u8; 4096];
        mem[..80].copy_from_slice(&FONT);
        mem[0x200..0x200 + rom.len()].copy_from_slice(rom);
        Machine { v: [0; 16], i: 0, pc: 0x200, stack: Vec::new(), mem, screen: [[false; 64]; 32], delay: 0 }
    }

    /// Runs until a jump to itself; panics after `limit` instructions.
    fn run(&mut self, limit: usize) {
        for _ in 0..limit {
            let pc = self.pc as usize;
            let w = ((self.mem[pc] as u16) << 8) | self.mem[pc + 1] as u16;
            if w == 0x1000 | self.pc {
                return;
            }
            self.step(w);
        }
        panic!("the program did not reach its final jump");
    }

    fn step(&mut self, w: u16) {
        let x = ((w >> 8) & 0xF) as usize;
        let y = ((w >> 4) & 0xF) as usize;
        let kk = (w & 0xFF) as u8;
        let nnn = w & 0xFFF;
        self.pc += 2;
        match w >> 12 {
            0x0 => match w {
                0x00E0 => self.screen = [[false; 64]; 32],
                0x00EE => self.pc = self.stack.pop().expect("a return address"),
                _ => panic!("unknown instruction {:04X}", w),
            },
            0x1 => self.pc = nnn,
            0x2 => {
                self.stack.push(self.pc);
                self.pc = nnn;
            },
            0x3 => if self.v[x] == kk { self.pc += 2 },
            0x4 => if self.v[x] != kk { self.pc += 2 },
            0x5 => if self.v[x] == self.v[y] { self.pc += 2 },
            0x6 => self.v[x] = kk,
            0x7 => self.v[x] = self.v[x].wrapping_add(kk),
            0x8 => {
                let (a, b) = (self.v[x], self.v[y]);
                match w & 0xF {
                    0x0 => self.v[x] = b,
                    0x1 => self.v[x] = a | b,
                    0x2 => self.v[x] = a & b,
                    0x3 => self.v[x] = a ^ b,
                    0x4 => {
                        self.v[x] = a.wrapping_add(b);
                        self.v[15] = if a as u16 + b as u16 > 255 { 1 } else { 0 };
                    },
                    0x5 => {
                        self.v[x] = a.wrapping_sub(b);
                        self.v[15] = if a >= b { 1 } else { 0 };
                    },
                    0x7 => {
                        self.v[x] = b.wrapping_sub(a);
                        self.v[15] = if b >= a { 1 } else { 0 };
                    },
                    _ => panic!("unknown instruction {:04X}", w),
                }
            },
            0x9 => if self.v[x] != self.v[y] { self.pc += 2 },
            0xA => self.i = nnn,
            0xD => {
                let n = (w & 0xF) as usize;
                let mut erased = 0;
                for row in 0..n {
                    let bits = self.mem[self.i as usize + row];
                    for col in 0..8 {
                        if bits & (0x80 >> col) != 0 {
                            let sy = (self.v[y] as usize + row) % 32;
                            let sx = (self.v[x] as usize + col) % 64;
                            if self.screen[sy][sx] {
                                erased = 1;
                            }
                            self.screen[sy][sx] = !self.screen[sy][sx];
                        }
                    }
                }
                self.v[15] = erased;
            },
            0xE => match kk {
                0x9E => {},
                0xA1 => self.pc += 2,
                _ => panic!("unknown instruction {:04X}", w),
            },
            0xF => match kk {
                0x07 => self.v[x] = self.delay,
                0x15 => self.delay = self.v[x],
                0x18 => {},
                0x1E => self.i = self.i.wrapping_add(self.v[x] as u16),
                0x29 => self.i = (self.v[x] as u16 & 0xF) * 5,
                0x55 => {
                    for r in 0..=x {
                        self.mem[self.i as usize + r] = self.v[r];
                    }
                },
                0x65 => {
                    for r in 0..=x {
                        self.v[r] = self.mem[self.i as usize + r];
                    }
                },
                _ => panic!("unknown instruction {:04X}", w),
            },
            _ => panic!("unknown instruction {:04X}", w),
        }
    }
}

/// The registers of the `n` globals in declaration order, after running.
fn globals_after(src: &str, n: usize, optimize: bool) -> Vec<u8> {
    let rom = compile(src, optimize);
    let mut m = Machine::new(&rom);
    m.run(1_000_000);
    (0..n).map(|k| m.v[15 - n + k]).collect()
}

#[test]
fn comparisons_give_one_when_true() {
    let src = "vars { a = false; b = false; c = false; d = false; e = false; f = false; } main { \
               a = (3 == 3); b = (3 != 4); c = (2 < 3); d = (4 > 3); e = (3 <= 3); f = (3 >= 3); }";
    assert_eq!(globals_after(src, 6, false), vec![1, 1, 1, 1, 1, 1]);
}

#[test]
fn comparisons_give_zero_when_false() {
    let src = "vars { a = true; b = true; c = true; d = true; e = true; f = true; } main { \
               a = (3 == 4); b = (3 != 3); c = (3 < 3); d = (3 > 3); e = (4 <= 3); f = (2 >= 3); }";
    assert_eq!(globals_after(src, 6, false), vec![0, 0, 0, 0, 0, 0]);
}

#[test]
fn comparisons_on_variables() {
    let src = "vars { x = 7; y = 9; a = false; b = false; c = false; } main { \
               a = (x < y); b = (x > y); c = (y >= x); }";
    assert_eq!(globals_after(src, 5, false), vec![7, 9, 1, 0, 1]);
}

#[test]
fn arithmetic_wraps_at_256() {
    let src = "vars { x = 200; a = 0; b = 0; c = 0; } main { a = x + 100; b = 3 - 5; c = x * 2; }";
    assert_eq!(globals_after(src, 4, false), vec![200, 44, 254, 144]);
}

#[test]
fn multiply_divide_modulo() {
    let src = "vars { x = 17; y = 5; a = 0; b = 0; c = 0; d = 0; e = 0; } main { \
               a = x * y; b = x / y; c = x % y; d = y * 0; e = y / x; }";
    assert_eq!(globals_after(src, 7, false), vec![17, 5, 85, 3, 2, 0, 0]);
}

#[test]
fn comparison_and_product_without_and_with_folding() {
    let src = "vars { b = false; x = 0; } main { b = (1 == 1); x = 3 * 4; }";
    assert_eq!(globals_after(src, 2, false), vec![1, 12]);
    assert_eq!(globals_after(src, 2, true), vec![1, 12]);
}

#[test]
fn logic_operators() {
    let src = "vars { t = true; f = false; a = true; b = false; c = false; d = true; } main { \
               a = t and f; b = t or f; c = not f; d = f or f; }";
    assert_eq!(globals_after(src, 6, false), vec![1, 0, 0, 1, 1, 0]);
}

#[test]
fn call_arguments_arrive_in_order() {
    let src = "fn g(p, q) -> r { r = p - q; } fn f(a, b) -> s { s = g(b, a); } \
               vars { x = 0; } main { x = f(5, 3); }";
    assert_eq!(globals_after(src, 1, false), vec![254]);
    assert_eq!(globals_after(src, 1, true), vec![254]);
}

#[test]
fn while_loop_counts() {
    let src = "vars { i = 0; s = 0; } main { while (i < 5) { s = s + i; i = i + 1; } }";
    assert_eq!(globals_after(src, 2, false), vec![5, 10]);
}

#[test]
fn if_elif_else_branches() {
    let src = "vars { x = 2; r = 0; } main { if (x == 1) { r = 10; } elif (x == 2) { r = 20; } else { r = 30; } }";
    assert_eq!(globals_after(src, 2, false), vec![2, 20]);
}

#[test]
fn division_by_literal_zero_refused() {
    let p = parse("vars { x = 0; } main { x = x / 0; }");
    Analyzer::new().analyze(&p, &vec![]).expect("the program is accepted");
    let e = Codegen::new().generate(&p, &vec![]).expect_err("no ROM for a zero divisor");
    assert!(matches!(e, CodegenError::DivisionByZero));
}

#[test]
fn modulo_by_literal_zero_refused() {
    let p = parse("vars { x = 0; } main { x = x % 0; }");
    let e = Codegen::new().generate(&p, &vec![]).expect_err("no ROM for a zero divisor");
    assert!(matches!(e, CodegenError::ModuloByZero));
}

#[test]
fn call_returns_result_keeps_caller_values_and_updates_globals() {
    let src = "fn inc(a) -> r { g = g + a; r = a * 2; } vars { g = 1; x = 0; y = 0; } \
               main { y = 3; x = inc(y + 1) + y; }";
    assert_eq!(globals_after(src, 3, false), vec![5, 11, 3]);
}

#[test]
fn drawdigit_draws_the_glyph_and_reports_erasing() {
    let src = "vars { a = true; b = false; } main { a = drawdigit(62, 31, 0x1A); b = drawdigit(62, 31, 10); }";
    let rom = compile(src, false);
    let mut m = Machine::new(&rom);
    m.run(1_000_000);
    // the first draw erases nothing, the second erases the first
    assert_eq!((m.v[13], m.v[14]), (0, 1));
    assert!(m.screen.iter().all(|row| row.iter().all(|p| !*p)));
    let src = "vars { a = true; } main { a = drawdigit(62, 31, 0x1A); }";
    let rom = compile(src, false);
    let mut m = Machine::new(&rom);
    m.run(1_000_000);
    assert_eq!(m.v[14], 0);
    // glyph A (F0 90 F0 90 90) at (62, 31), wrapping at both edges
    assert!(m.screen[31][62] && m.screen[31][63] && m.screen[31][0] && m.screen[31][1] && !m.screen[31][2]);
    assert!(m.screen[0][62] && !m.screen[0][63] && !m.screen[0][0] && m.screen[0][1]);
    assert!(m.screen[1][62] && m.screen[1][1] && m.screen[1][0]);
}

#[test]
fn draw_flips_the_sprite_rows_and_reports_erasing() {
    let src = "sprites { s = [0x81, 0xFF]; } vars { a = true; b = true; } \
               main { a = draw(60, 10, s); b = draw(60, 11, s); }";
    let rom = compile(src, false);
    let mut m = Machine::new(&rom);
    m.run(1_000_000);
    // the second draw overlaps the first one's lower row: 0x81 over 0xFF
    assert_eq!((m.v[13], m.v[14]), (0, 1));
    // row 10: 0x81 at x = 60, wrapping to x = 3
    assert!(m.screen[10][60] && !m.screen[10][61] && m.screen[10][3]);
    // row 11: 0xFF then 0x81 flipped gives 0x7E
    assert!(!m.screen[11][60] && m.screen[11][61] && m.screen[11][2] && !m.screen[11][3]);
    // row 12: 0xFF
    assert!((60..64).chain(0..4).all(|x| m.screen[12][x]));
}
