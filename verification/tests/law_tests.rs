use chipscript::analyzer::{Analyzer, Type};
use chipscript::ast::{Expr, Op, Program};
use chipscript::codegen::Codegen;
use chipscript::lexer::{self, Token};
use chipscript::optimizer::Optimizer;
use chipscript::parser::Parser;

fn parse(src: &str) -> Program {
    let tokens = lexer::lex(src.to_string()).expect("the source lexes");
    Parser::new(tokens).parse().expect("the source parses")
}

fn compile(src: &str) -> Vec<u8> {
    let mut p = parse(src);
    Analyzer::new().analyze(&p, &vec![]).expect("the program is accepted");
    Optimizer::new().optimize(&mut p).expect("the program optimizes");
    Codegen::new().generate(&p, &vec![]).expect("a ROM is generated")
}

const SAMPLE: &str = "
    vars { n = 0; t = 0; b = false; }
    main {
        loop {
            delay(60);
            t = getdelay();
            while (t != 0) { t = getdelay(); }
            n = rand(0x0F);
            clear();
            b = drawdigit(30, 13, n);
        }
    }";

#[test]
fn lex_has_exactly_one_eof_at_the_end() {
    let t = lexer::lex("main { x = 1; } // done".to_string()).expect("the source lexes");
    assert_eq!(t.iter().filter(|(k, _)| *k == Token::EOF).count(), 1);
    assert_eq!(t.last().map(|(k, _)| k.clone()), Some(Token::EOF));
}

#[test]
fn lex_eof_carries_the_last_line() {
    let t = lexer::lex("a\nb\n\nc".to_string()).expect("the source lexes");
    assert_eq!(t.last(), Some(&(Token::EOF, 4)));
}

#[test]
fn lex_identifiers_take_ascii_letters_digits_and_underscores() {
    let t = lexer::lex("aZ_1 _b9".to_string()).expect("the source lexes");
    assert_eq!(t[0].0, Token::Ident("aZ_1".to_string()));
    assert_eq!(t[1].0, Token::Ident("_b9".to_string()));
    let e = lexer::lex("a\u{e9}".to_string()).expect_err("a letter outside ASCII is refused");
    assert_eq!(e.kind, chipscript::lexer::LexErrorKind::UnexpectedChar('\u{e9}'));
}

#[test]
fn optimize_twice_changes_nothing() {
    let src = "vars { x = 0; b = false; } main {
        x = (1 + 2) * x;
        if (1 == 1) { x = x * 1; } elif (b) { x = 2; } else { x = 3; }
        while (false) { clear(); }
        b = b == false;
    }";
    let mut once = parse(src);
    Optimizer::new().optimize(&mut once).expect("the program optimizes");
    let first = format!("{:?}", once);
    let mut again = Optimizer::new();
    again.optimize(&mut once).expect("the program optimizes");
    assert_eq!(format!("{:?}", once), first);
    assert_eq!((again.folds, again.dce, again.reductions), (0, 0, 0));
}

#[test]
fn folding_keeps_the_value() {
    let e = Expr::BinOp(
        Box::new(Expr::BinOp(Box::new(Expr::Int(200)), Op::Add, Box::new(Expr::Int(100)))),
        Op::Mul,
        Box::new(Expr::Int(3)),
    );
    let folded = Optimizer::new().fold_expr(e).expect("the expression folds");
    assert!(matches!(folded, Expr::Int(132)));
}

#[test]
fn folding_wraps_subtraction() {
    let e = Expr::BinOp(Box::new(Expr::Int(3)), Op::Sub, Box::new(Expr::Int(5)));
    assert!(matches!(Optimizer::new().fold_expr(e).expect("folds"), Expr::Int(254)));
}

#[test]
fn elif_after_false_if_is_kept() {
    let mut p = parse("vars { x = 0; b = false; } main { if (false) { x = 1; } elif (b) { x = 2; } else { x = 3; } }");
    Optimizer::new().optimize(&mut p).expect("the program optimizes");
    match &p.main[0] {
        chipscript::ast::Stmt::If(c, body, elifs, els) => {
            assert!(matches!(c, Expr::Var(n) if n == "b"));
            assert_eq!(body.len(), 1);
            assert!(elifs.is_empty());
            assert!(els.is_some());
        }
        other => panic!("expected an if, got {:?}", other),
    }
}

#[test]
fn rom_starts_with_jump_to_code() {
    let rom = compile("sprites { s = [0xAA, 0xBB, 0xCC]; } vars { h = false; } main { h = draw(1, 2, s); }");
    // Layout: jump, one save area of 14 bytes (V0..V13, one global in V14),
    // three sprite bytes and one byte of padding, then the code.
    let target = ((rom[0] as u16 & 0x0F) << 8) | rom[1] as u16;
    assert_eq!(rom[0] & 0xF0, 0x10);
    assert_eq!(target, 0x200 + 2 + 14 + 3 + 1);
    assert_eq!(&rom[16..20], &[0xAA, 0xBB, 0xCC, 0x00]);
}

#[test]
fn rom_sample_program_exact_size_and_end() {
    let rom = compile(SAMPLE);
    assert!(rom.len() <= 3584);
    let n = rom.len();
    let last = ((rom[n - 2] as u16) << 8) | rom[n - 1] as u16;
    assert_eq!(last, 0x1000 | (0x200 + n as u16 - 2));
}

#[test]
fn clear_program_exact_bytes() {
    let rom = compile("main { clear(); }");
    // JP 0x212, save area (15 zero bytes) padded by one, the jump over the
    // (no) functions, CLS, JP to itself.
    let mut expected = vec![0x12, 0x12];
    expected.extend(std::iter::repeat(0).take(15));
    expected.push(0);
    expected.extend([0x12, 0x14, 0x00, 0xE0, 0x12, 0x16]);
    assert_eq!(rom, expected);
}

#[test]
fn calls_are_patched_to_the_function() {
    let rom = compile("fn f() -> r { r = 7; } vars { x = 0; } main { x = f(); }");
    let f_addr = rom
        .chunks(2)
        .position(|w| w == [0x00, 0xEE])
        .map(|i| 0x200 + 2 * i as u16)
        .expect("a return");
    // The body of f is `V1 = 7` (two bytes) before the return.
    let start = f_addr - 2;
    let call = [0x20 | (start >> 8) as u8, (start & 0xFF) as u8];
    assert!(rom.windows(2).any(|w| w == call));
}

#[test]
fn accepted_programs_respect_the_limits() {
    let p = parse(SAMPLE);
    assert!(Analyzer::new().analyze(&p, &vec![]).is_ok());
    assert!(p.vars.len() <= 14);
}

#[test]
fn lex_lines_count_newlines_before_each_token() {
    let t = lexer::lex("a\n\n  b // c\n\"x\ny\" d".to_string()).expect("the source lexes");
    let lines: Vec<u32> = t.iter().map(|(_, l)| *l).collect();
    // a on line 1, b on 3, the string starts on 4, d after its newline on 5.
    assert_eq!(lines, vec![1, 3, 4, 5, 5]);
}

#[test]
fn each_expression_form_has_its_type() {
    let p = parse("sprites { s = [1]; } vars { x = 0; b = false; } main { }");
    let mut a = Analyzer::new();
    a.analyze(&p, &vec![]).expect("the program is accepted");
    let int = |n: u8| Box::new(Expr::Int(n));
    let var = |n: &str| Box::new(Expr::Var(n.to_string()));
    assert!(matches!(a.type_of_expr(&Expr::BinOp(int(1), Op::Mod, int(2))), Ok(Type::Int)));
    assert!(matches!(a.type_of_expr(&Expr::BinOp(int(1), Op::LtEq, var("x"))), Ok(Type::Bool)));
    assert!(matches!(a.type_of_expr(&Expr::BinOp(var("b"), Op::Or, var("b"))), Ok(Type::Bool)));
    assert!(matches!(a.type_of_expr(&Expr::Draw(int(0), var("x"), "s".to_string())), Ok(Type::Bool)));
    assert!(matches!(a.type_of_expr(&Expr::Var("b".to_string())), Ok(Type::Bool)));
    assert!(matches!(a.type_of_expr(&Expr::GetDelay), Ok(Type::Int)));
}

#[test]
fn rom_first_jump_lands_inside_on_an_even_address() {
    for src in ["main { clear(); }", SAMPLE, "sprites { s = [1, 2, 3]; } vars { h = false; } main { h = draw(1, 2, s); }"] {
        let rom = compile(src);
        let target = ((rom[0] as usize & 0x0F) << 8) | rom[1] as usize;
        assert!(target >= 0x202 && target < 0x200 + rom.len());
        assert_eq!(target % 2, 0);
        assert_eq!(rom.len() % 2, 0);
    }
}

#[test]
fn lex_token_starts_at_its_position() {
    let src = "x = 10;\n  y";
    let t = lexer::lex(src.to_string()).expect("the source lexes");
    // lexing from the position of `10` gives `10` first, on the same line
    let rest = lexer::lex(src[4..].to_string()).expect("the rest lexes");
    assert_eq!(t[2], rest[0]);
    assert_eq!(t[4], (Token::Ident("y".to_string()), 2));
}

#[test]
fn optimize_keeps_sprites_names_and_headers() {
    let src = "sprites { s = [1, 2]; } fn f(a, b) -> r { r = a + 2 * 3; } \
               vars { x = 1 + 1; y = 0; } main { y = f(x, 4 - 1); }";
    let before = parse(src);
    let mut p = before.clone();
    let mut o = Optimizer::new();
    o.optimize(&mut p).expect("the program optimizes");
    assert_eq!(p.sprites.len(), before.sprites.len());
    assert_eq!(p.sprites[0].name, before.sprites[0].name);
    let names: Vec<&String> = p.vars.iter().map(|v| &v.name).collect();
    let names0: Vec<&String> = before.vars.iter().map(|v| &v.name).collect();
    assert_eq!(names, names0);
    assert_eq!(p.functions[0].name, "f");
    assert_eq!(p.functions[0].args, vec!["a".to_string(), "b".to_string()]);
    assert_eq!(p.functions[0].ret, "r");
    assert!(o.folds >= 1);
}

#[test]
fn expressions_following_the_rules_type_check() {
    let p = parse("sprites { s = [1]; } fn f(a, b) -> r { r = a; } vars { x = 0; b = false; } main { }");
    let mut a = Analyzer::new();
    a.analyze(&p, &vec![]).expect("the program is accepted");
    let int = |n: u8| Box::new(Expr::Int(n));
    let call = Expr::Call("f".to_string(), vec![Expr::Int(1), Expr::Var("x".to_string())]);
    assert!(matches!(a.type_of_expr(&call), Ok(Type::Int)));
    assert!(matches!(a.type_of_expr(&Expr::BinOp(Box::new(call), Op::EqEq, int(3))), Ok(Type::Bool)));
    assert!(matches!(a.type_of_expr(&Expr::DrawDigit(int(0), int(1), int(2))), Ok(Type::Bool)));
    assert!(a.type_of_expr(&Expr::Call("f".to_string(), vec![Expr::Int(1)])).is_err());
    assert!(a.type_of_expr(&Expr::Draw(int(0), Box::new(Expr::Bool(true)), "s".to_string())).is_err());
}

#[test]
fn frame_depth_stays_below_the_number_of_functions() {
    let p = parse("fn a() -> r { r = b(); } fn b() -> r { r = c(); } fn c() -> r { r = 1; } \
                   vars { x = 0; } main { x = a(); }");
    let g = chipscript::callgraph::build_call_graph(&p);
    let depths = chipscript::callgraph::frame_depth_table(&g);
    assert!(depths.iter().all(|d| *d <= p.functions.len() + 1));
    assert_eq!(depths.iter().max(), Some(&2));
}
