use chipscript::analyzer::{AnalyzeError, Analyzer, Type};
use chipscript::ast::Program;
use chipscript::codegen::{Codegen, CodegenError};
use chipscript::lexer::{self, LexErrorKind};
use chipscript::optimizer::{OptimizeError, Optimizer};
use chipscript::parser::{ParseErrorKind, Parser, Punct, Section};

fn parse(src: &str) -> Program {
    let tokens = lexer::lex(src.to_string()).expect("the source lexes");
    Parser::new(tokens).parse().expect("the source parses")
}

fn lex_error(src: &str) -> (u32, LexErrorKind) {
    let e = lexer::lex(src.to_string()).expect_err("the source is refused");
    (e.line, e.kind)
}

fn parse_error(src: &str) -> (u32, ParseErrorKind) {
    let tokens = lexer::lex(src.to_string()).expect("the source lexes");
    let e = Parser::new(tokens).parse().expect_err("the source is refused");
    (e.line, e.kind)
}

fn analyze_error(src: &str) -> AnalyzeError {
    let p = parse(src);
    Analyzer::new().analyze(&p, &vec![]).expect_err("the program is refused")
}

fn codegen_error(src: &str) -> CodegenError {
    let p = parse(src);
    Codegen::new().generate(&p, &vec![]).expect_err("no ROM is generated")
}

// --- Lexer errors -----------------------------------------------------------

#[test]
fn lex_bare_bang_on_its_line() {
    assert_eq!(lex_error("\n\n!"), (3, LexErrorKind::BareBang));
}

#[test]
fn lex_unterminated_string() {
    assert_eq!(lex_error("\"abc"), (1, LexErrorKind::UnterminatedString));
}

#[test]
fn lex_empty_hex() {
    assert_eq!(lex_error("0x"), (1, LexErrorKind::EmptyHex));
}

#[test]
fn lex_hex_too_large() {
    assert_eq!(lex_error("0x100"), (1, LexErrorKind::HexTooLarge));
    assert_eq!(lex_error("0x8000"), (1, LexErrorKind::HexTooLarge));
    assert!(lexer::lex("0xFF".to_string()).is_ok());
}

#[test]
fn lex_int_too_large() {
    assert_eq!(lex_error("256"), (1, LexErrorKind::IntTooLarge));
    assert_eq!(lex_error("\n32768"), (2, LexErrorKind::IntTooLarge));
    assert!(lexer::lex("255".to_string()).is_ok());
}

#[test]
fn lex_negative_out_of_range() {
    assert_eq!(lex_error("-32768"), (1, LexErrorKind::NegativeOutOfRange));
}

#[test]
fn lex_unexpected_char_names_it() {
    assert_eq!(lex_error("x\n  #"), (2, LexErrorKind::UnexpectedChar('#')));
}

// --- Parser errors ------------------------------------------------------------

#[test]
fn parse_expected_semicolon() {
    assert_eq!(parse_error("vars { x = 0 }"), (1, ParseErrorKind::Expected(Punct::Semicolon)));
}

#[test]
fn parse_duplicate_main() {
    assert_eq!(parse_error("main { }\nmain { }"), (2, ParseErrorKind::DuplicateSection(Section::Main)));
}

#[test]
fn parse_duplicate_vars() {
    assert_eq!(parse_error("vars { } vars { }"), (1, ParseErrorKind::DuplicateSection(Section::Vars)));
}

#[test]
fn parse_unexpected_top_level() {
    assert_eq!(parse_error("42"), (1, ParseErrorKind::UnexpectedTopLevel));
}

#[test]
fn parse_expected_var_name() {
    assert_eq!(parse_error("vars { 5 = 1; }").1, ParseErrorKind::ExpectedVarName);
}

#[test]
fn parse_expected_fn_name() {
    assert_eq!(parse_error("fn 3() -> r { }").1, ParseErrorKind::ExpectedFnName);
}

#[test]
fn parse_unexpected_statement_start() {
    assert_eq!(parse_error("main { 5; }").1, ParseErrorKind::UnexpectedStatementStart);
}

#[test]
fn parse_unexpected_in_expression() {
    assert_eq!(parse_error("vars { x = 0; } main { x = ; }").1, ParseErrorKind::UnexpectedInExpression);
}

#[test]
fn parse_sprite_row_out_of_range() {
    assert_eq!(parse_error("sprites { s = [1, -1]; }"), (1, ParseErrorKind::IntOutOfRange));
}

#[test]
fn parse_sprite_rows_need_commas() {
    assert_eq!(parse_error("sprites { s = [1 2]; }"), (1, ParseErrorKind::Expected(Punct::Comma)));
}

#[test]
fn parse_call_arguments_need_commas() {
    let src = "fn f(a, b) -> r { r = a; } vars { x = 0; } main { x = f(1 2); }";
    assert_eq!(parse_error(src).1, ParseErrorKind::Expected(Punct::Comma));
}

#[test]
fn parse_parameters_need_commas() {
    assert_eq!(parse_error("fn f(a b) -> r { r = a; }").1, ParseErrorKind::Expected(Punct::Comma));
}

#[test]
fn parse_comma_separated_lists_accepted() {
    let p = parse("sprites { s = [1, 2, 255]; e = []; } fn f(a, b) -> r { r = a; } fn g() -> r { r = 1; } vars { x = 0; } main { x = f(1, 2); x = g(); }");
    assert_eq!(p.sprites.len(), 2);
    assert_eq!(p.functions[0].args.len(), 2);
    assert_eq!(p.functions[1].args.len(), 0);
}

// --- Analyzer errors ----------------------------------------------------------

#[test]
fn analyze_too_many_variables_counts_them() {
    let vars: String = (0..15).map(|i| format!("v{} = 0;", i)).collect::<Vec<_>>().join(" ");
    let e = analyze_error(&format!("vars {{ {} }} main {{ clear(); }}", vars));
    assert!(matches!(e, AnalyzeError::TooManyVariables(15)));
}

#[test]
fn analyze_fourteen_variables_allowed() {
    let vars: String = (0..14).map(|i| format!("v{} = 0;", i)).collect::<Vec<_>>().join(" ");
    let p = parse(&format!("vars {{ {} }} main {{ clear(); }}", vars));
    assert!(Analyzer::new().analyze(&p, &vec![]).is_ok());
}

#[test]
fn analyze_non_constant_initializer() {
    let e = analyze_error("vars { x = getkey(); } main { clear(); }");
    assert!(matches!(e, AnalyzeError::NonConstantInitializer(n) if n == "x"));
}

#[test]
fn analyze_duplicate_variable() {
    let e = analyze_error("vars { x = 0; x = 1; } main { clear(); }");
    assert!(matches!(e, AnalyzeError::DuplicateName(n) if n == "x"));
}

#[test]
fn analyze_function_name_collision() {
    let e = analyze_error("vars { f = 0; } fn f() -> r { r = 0; } main { clear(); }");
    assert!(matches!(e, AnalyzeError::FunctionNameCollision(n) if n == "f"));
}

#[test]
fn analyze_sprite_name_collision() {
    let e = analyze_error("vars { s = 0; } sprites { s = [0xFF]; } main { clear(); }");
    assert!(matches!(e, AnalyzeError::SpriteNameCollision(n) if n == "s"));
}

#[test]
fn analyze_recursion_names_a_cycle() {
    let e = analyze_error("fn f() -> r { r = g(); } fn g() -> r { r = f(); } main { f(); }");
    match e {
        AnalyzeError::RecursiveCall(c) => {
            assert!(c.len() >= 2);
            assert_eq!(c.first(), c.last());
            assert!(c.iter().all(|n| n == "f" || n == "g"));
        }
        other => panic!("expected a recursion error, got {:?}", other),
    }
}

#[test]
fn analyze_self_recursion() {
    let e = analyze_error("fn f() -> r { r = f(); } main { f(); }");
    assert!(matches!(e, AnalyzeError::RecursiveCall(c) if c == vec!["f".to_string(), "f".to_string()]));
}

#[test]
fn analyze_call_chain_too_deep() {
    let mut src = String::new();
    for i in 0..17 {
        src.push_str(&format!("fn f{}() -> r {{ r = f{}(); }} ", i, i + 1));
    }
    src.push_str("fn f17() -> r { r = 0; } main { f0(); }");
    let e = analyze_error(&src);
    assert!(matches!(e, AnalyzeError::CallChainTooDeep(18)));
}

#[test]
fn analyze_sixteen_nested_calls_allowed() {
    let mut src = String::new();
    for i in 0..15 {
        src.push_str(&format!("fn f{}() -> r {{ r = f{}(); }} ", i, i + 1));
    }
    src.push_str("fn f15() -> r { r = 0; } main { f0(); }");
    let p = parse(&src);
    assert!(Analyzer::new().analyze(&p, &vec![]).is_ok());
}

#[test]
fn analyze_type_mismatch_reports_types() {
    let e = analyze_error("vars { x = 0; } main { x = true; }");
    assert!(matches!(e, AnalyzeError::TypeMismatch(n, Type::Int, Type::Bool) if n == "x"));
}

#[test]
fn analyze_elif_condition_not_bool() {
    let e = analyze_error("vars { x = 0; b = false; } main { if (b) { clear(); } elif (x) { clear(); } }");
    assert!(matches!(e, AnalyzeError::ElifConditionNotBool(Type::Int)));
}

#[test]
fn analyze_arg_not_int() {
    let e = analyze_error("fn f(a) -> r { r = a; } vars { x = 0; } main { x = f(true); }");
    assert!(matches!(e, AnalyzeError::ArgNotInt(1, n, Type::Bool) if n == "f"));
}

#[test]
fn analyze_wrong_arg_count_reports_counts() {
    let e = analyze_error("fn f(a) -> r { r = a; } vars { x = 0; } main { x = f(1, 2); }");
    assert!(matches!(e, AnalyzeError::WrongArgCount(n, 1, 2) if n == "f"));
}

#[test]
fn analyze_ordered_comparison_of_bools() {
    let e = analyze_error("vars { a = false; b = false; } main { b = a < b; }");
    assert!(matches!(e, AnalyzeError::OrderedComparisonNotInt));
}

#[test]
fn analyze_keypressed_arg_not_int() {
    let e = analyze_error("vars { b = false; } main { b = keypressed(true); }");
    assert!(matches!(e, AnalyzeError::KeyPressedArgNotInt(Type::Bool)));
}

#[test]
fn analyze_draw_y_not_int() {
    let e = analyze_error("sprites { s = [1]; } vars { h = false; b = false; } main { h = draw(0, b, s); }");
    assert!(matches!(e, AnalyzeError::DrawYNotInt));
}

#[test]
fn analyze_draw_y_undeclared() {
    let e = analyze_error("sprites { s = [1]; } vars { h = false; } main { h = draw(0, zz, s); }");
    assert!(matches!(e, AnalyzeError::UndeclaredVariable(n) if n == "zz"));
}

#[test]
fn analyze_drawdigit_n_not_int() {
    let e = analyze_error("vars { h = false; } main { h = drawdigit(0, 0, true); }");
    assert!(matches!(e, AnalyzeError::DrawDigitNNotInt(Type::Bool)));
}

#[test]
fn analyze_sprite_file_found_by_size() {
    let p = parse("sprites { s = \"s.spr\"; } vars { h = false; } main { h = draw(0, 0, s); }");
    assert!(Analyzer::new().analyze(&p, &vec![("s.spr".to_string(), 5)]).is_ok());
    let e = Analyzer::new().analyze(&p, &vec![("t.spr".to_string(), 5)]).expect_err("missing file");
    assert!(matches!(e, AnalyzeError::SpriteFileNotFound(f) if f == "s.spr"));
    let e = Analyzer::new().analyze(&p, &vec![("s.spr".to_string(), 16)]).expect_err("tall sprite");
    assert!(matches!(e, AnalyzeError::SpriteTooTall(n, 16) if n == "s"));
}

#[test]
fn analyze_symbol_tables_after_success() {
    let p = parse("sprites { s = [0xFF]; } vars { x = 0; b = false; } fn f(a) -> r { r = a; } main { x = f(x); }");
    let mut a = Analyzer::new();
    a.analyze(&p, &vec![]).expect("the program is accepted");
    assert_eq!(a.sprites(), &vec!["s".to_string()]);
    assert!(a.vars().iter().any(|(n, t)| n == "x" && *t == Type::Int));
    assert!(a.vars().iter().any(|(n, t)| n == "b" && *t == Type::Bool));
    assert_eq!(a.functions().len(), 1);
    assert_eq!(a.functions()[0].0, "f");
    assert_eq!(a.functions()[0].1, vec!["a".to_string()]);
}

#[test]
fn analyze_type_of_expression() {
    let p = parse("vars { x = 0; b = false; } main { clear(); }");
    let mut a = Analyzer::new();
    a.analyze(&p, &vec![]).expect("the program is accepted");
    let e = parse("vars { t = 1 + 2; } main { }").vars.remove(0).value;
    assert_eq!(a.type_of_expr(&e).expect("typed"), Type::Int);
    let c = parse("vars { t = 1 < 2; } main { }").vars.remove(0).value;
    assert_eq!(a.type_of_expr(&c).expect("typed"), Type::Bool);
}

// --- Optimizer errors ---------------------------------------------------------

#[test]
fn optimize_division_by_zero_in_program() {
    let mut p = parse("vars { x = 0; } main { x = 4 / 0; }");
    assert_eq!(Optimizer::new().optimize(&mut p), Err(OptimizeError::DivisionByZero));
}

// --- Code generator errors ----------------------------------------------------

#[test]
fn codegen_no_register_for_undeclared_variable() {
    assert!(matches!(codegen_error("main { x = 1; }"), CodegenError::NoRegister(n) if n == "x"));
}

#[test]
fn codegen_unknown_function() {
    assert!(matches!(codegen_error("main { g(); }"), CodegenError::UnknownFunction(n) if n == "g"));
}

#[test]
fn codegen_no_sprite_address() {
    let e = codegen_error("vars { h = false; } main { h = draw(0, 0, ghost); }");
    assert!(matches!(e, CodegenError::NoSpriteAddress(n) if n == "ghost"));
}

#[test]
fn codegen_rand_mask_not_literal() {
    let e = codegen_error("vars { r = 0; m = 0; } main { r = rand(m); }");
    assert!(matches!(e, CodegenError::RandMaskNotLiteral));
}

#[test]
fn codegen_out_of_registers_names_last_work_register() {
    let vars: String = (0..14).map(|i| format!("v{} = 0;", i)).collect::<Vec<_>>().join(" ");
    let e = codegen_error(&format!("vars {{ {} }} main {{ v0 = v1 + v2; }}", vars));
    assert!(matches!(e, CodegenError::OutOfRegisters(0)));
}

#[test]
fn codegen_sprite_file_unreadable() {
    let e = codegen_error("sprites { s = \"s.spr\"; } main { clear(); }");
    assert!(matches!(e, CodegenError::SpriteFileUnreadable(f) if f == "s.spr"));
}

#[test]
fn codegen_program_too_large() {
    let body = "clear(); ".repeat(1800);
    let e = codegen_error(&format!("main {{ {} }}", body));
    assert!(matches!(e, CodegenError::ProgramTooLarge(n) if n > 3584));
}

#[test]
fn codegen_scratch_register_of_multiplication_is_not_budgeted() {
    // Twelve globals leave V1 and V2 for temporaries: the analyzer counts two
    // for `a * b`, while the multiplication loop needs a third, its counter.
    let vars: String = (0..12).map(|i| format!("v{} = 0;", i)).collect::<Vec<_>>().join(" ");
    let src = format!("vars {{ {} }} main {{ v0 = v1 * v2; }}", vars);
    let p = parse(&src);
    assert!(Analyzer::new().analyze(&p, &vec![]).is_ok());
    assert!(matches!(codegen_error(&src), CodegenError::OutOfRegisters(2)));
}
