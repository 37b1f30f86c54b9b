use tapelang::parser::Parser;
use tapelang::program::{Program, Statement};

#[test]
fn listing_of_flat_program() {
    let program = Parser::new(b"+>.").parse().unwrap();
    assert_eq!(program.to_string(), "+>.");
    assert_eq!(program.fmt_indented(3), "   +>.");
}

#[test]
fn listing_indents_loop_bodies() {
    let program = Parser::new(b"+[->+<].").parse().unwrap();
    assert_eq!(program.to_string(), "+[\n  ->+<\n]\n.");
}

#[test]
fn listing_of_nested_loops() {
    let program = Parser::new(b"[[-]]").parse().unwrap();
    assert_eq!(program.fmt_indented(1), " [\n   [\n     -\n   ]\n\n ]\n");
}

#[test]
fn program_keeps_its_statements() {
    let program = Program::new(vec![Statement::PutChar, Statement::Loop(vec![Statement::GetChar])]);
    assert_eq!(format!("{:?}", program.statements()), "[PutChar, Loop([GetChar])]");
    assert_eq!(Program::new(Vec::new()).to_string(), "");
}
