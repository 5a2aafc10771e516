use isbfc::lir::{LVal, RVal, LIR};
use isbfc::optimizer::peephole::optimize::optimize as optimize_tokens;
use isbfc::optimizer::peephole::token::{ast_to_tokens, Token};
use isbfc::optimizer::peephole::OldOptimizer;
use isbfc::optimizer::simple;
use isbfc::optimizer::simple_add;
use isbfc::parser::parse;

fn s(text: &str) -> String {
    text.to_string()
}

#[test]
fn simple_lowers_each_command() {
    let ast = parse(b"+>,.").unwrap();
    assert_eq!(
        simple::optimize(&ast),
        vec![
            LIR::DeclareBssBuf(s("strbuf"), 1),
            LIR::Add(LVal::Tape(0), RVal::Tape(0), RVal::Immediate(1)),
            LIR::Shift(1),
            LIR::Input(s("strbuf"), 0, 1),
            LIR::Mov(LVal::Tape(0), RVal::Buf(s("strbuf"), 0)),
            LIR::Mov(LVal::Buf(s("strbuf"), 0), RVal::Tape(0)),
            LIR::Output(s("strbuf"), 0, 1),
        ]
    );
}

#[test]
fn simple_numbers_loops_in_order_of_opening() {
    let ast = parse(b"[[-]][+]").unwrap();
    assert_eq!(
        simple::optimize(&ast),
        vec![
            LIR::DeclareBssBuf(s("strbuf"), 1),
            LIR::Jp(s("endloop1")),
            LIR::Label(s("loop1")),
            LIR::Jp(s("endloop2")),
            LIR::Label(s("loop2")),
            LIR::Add(LVal::Tape(0), RVal::Tape(0), RVal::Immediate(-1)),
            LIR::Label(s("endloop2")),
            LIR::Jnz(RVal::Tape(0), s("loop2")),
            LIR::Label(s("endloop1")),
            LIR::Jnz(RVal::Tape(0), s("loop1")),
            LIR::Jp(s("endloop3")),
            LIR::Label(s("loop3")),
            LIR::Add(LVal::Tape(0), RVal::Tape(0), RVal::Immediate(1)),
            LIR::Label(s("endloop3")),
            LIR::Jnz(RVal::Tape(0), s("loop3")),
        ]
    );
}

#[test]
fn simple_add_commits_adds_then_shift() {
    let ast = parse(b">+<++>>.").unwrap();
    assert_eq!(
        simple_add::optimize(&ast),
        vec![
            LIR::DeclareBssBuf(s("strbuf"), 1),
            LIR::Add(LVal::Tape(0), RVal::Tape(0), RVal::Immediate(2)),
            LIR::Add(LVal::Tape(1), RVal::Tape(1), RVal::Immediate(1)),
            LIR::Shift(2),
            LIR::Mov(LVal::Buf(s("strbuf"), 0), RVal::Tape(0)),
            LIR::Output(s("strbuf"), 0, 1),
            LIR::Shift(0),
        ]
    );
}

#[test]
fn tokens_of_a_program() {
    let ast = parse(b"+>[-].,").unwrap();
    assert_eq!(
        ast_to_tokens(&ast),
        vec![
            Token::Add(0, 1),
            Token::Move(1),
            Token::Loop(vec![Token::Add(0, -1)]),
            Token::LoadOut(0, 0),
            Token::Output,
            Token::Input,
        ]
    );
}

#[test]
fn scan_idiom() {
    let ast = parse(b">>>+<[<]+.").unwrap();
    let tokens = optimize_tokens(&ast_to_tokens(&ast));
    let scans = tokens.iter().filter(|t| **t == Token::Scan(-1)).count();
    assert_eq!(scans, 1);
    assert!(!tokens.iter().any(|t| matches!(t, Token::Loop(_))));
    assert_eq!(
        tokens,
        vec![
            Token::Add(3, 1),
            Token::Move(2),
            Token::Scan(-1),
            Token::LoadOut(0, 1),
            Token::Output,
        ]
    );
}

#[test]
fn clear_cell_leaves_no_label() {
    let ast = parse(b"+++[-].").unwrap();
    let lir = OldOptimizer.optimize(&ast, 1);
    assert!(!lir.iter().any(|i| matches!(i, LIR::Label(_))));
    let outputs = lir.iter().filter(|i| matches!(i, LIR::Output(_, _, _))).count();
    assert_eq!(outputs, 1);
}
