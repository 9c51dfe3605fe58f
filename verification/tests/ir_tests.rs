use chipscript::ast::Program;
use chipscript::codegen::Codegen;
use chipscript::ir::{IrOp, Quad};
use chipscript::lexer;
use chipscript::parser::Parser;

fn parse(src: &str) -> Program {
    let tokens = lexer::lex(src.to_string()).expect("the source lexes");
    let mut p = Parser::new(tokens);
    p.parse().expect("the source parses")
}

/// The quadruples of `src`, generated without analysis or optimization.
fn compile_ir(src: &str) -> Vec<Quad> {
    let program = parse(src);
    let mut cg = Codegen::new();
    cg.generate(&program, &vec![]).expect("a ROM is generated");
    cg.get_ir().to_vec()
}

#[test]
fn load_immediate_produces_loadimm_quad() {
    let ir = compile_ir("vars { x = 42; } main { clear(); }");
    assert!(ir.iter().any(|q| matches!(q.op, IrOp::LoadImm) && q.arg1.as_deref() == Some("42")));
}

#[test]
fn clear_produces_clear_quad() {
    let ir = compile_ir("main { clear(); }");
    assert!(ir.iter().any(|q| matches!(q.op, IrOp::Clear)));
}

#[test]
fn while_produces_label_and_jumpfalse() {
    let ir = compile_ir("vars { x = 0; } main { while(x) { x = 0; } }");
    assert!(ir.iter().any(|q| matches!(q.op, IrOp::Label)));
    assert!(ir.iter().any(|q| matches!(q.op, IrOp::JumpFalse)));
}

#[test]
fn function_produces_label_and_return() {
    let ir = compile_ir("fn f() -> r { r = 0; } main { f(); }");
    assert!(ir.iter().any(|q| matches!(q.op, IrOp::Label) && q.arg1.as_deref() == Some("f")));
    assert!(ir.iter().any(|q| matches!(q.op, IrOp::Return)));
}

#[test]
fn add_produces_add_quad() {
    let ir = compile_ir("vars { x = 0; } main { x = 1 + 2; }");
    assert!(ir.iter().any(|q| matches!(q.op, IrOp::Add)));
}

#[test]
fn quad_prints_as_a_tuple() {
    let q = Quad::new(IrOp::LoadImm, Some("42"), None, Some("V1"));
    assert_eq!(q.text(), "(LoadImm, 42, _, V1)");
    let r = Quad::new(IrOp::Return, None, None, None);
    assert_eq!(r.text(), "(Return, _, _, _)");
}

#[test]
fn register_and_label_names() {
    let ir = compile_ir("vars { x = 0; } main { x = 15; loop { clear(); } }");
    assert!(ir.iter().any(|q| q.text() == "(LoadImm, 15, _, VE)"));
    assert!(ir.iter().any(|q| q.text() == "(Label, L0, _, _)"));
    assert!(ir.iter().any(|q| q.text() == "(Jump, L0, _, _)"));
}
