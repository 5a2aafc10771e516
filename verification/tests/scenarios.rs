use isbfc::lir::{LVal, RVal, LIR};
use isbfc::optimizer::peephole::optimize::optimize as optimize_tokens;
use isbfc::optimizer::peephole::token::{ast_to_tokens, Token};
use isbfc::optimizer::{Optimizer, OptimizerKind};
use isbfc::parser::parse;
use std::collections::HashMap;

/// Runs an instruction list on a tape of byte cells and gives what it
/// writes; `None` if it does not end within the given number of steps.
fn run(lir: &[LIR], input: &[u8], fuel: usize) -> Option<Vec<u8>> {
    let mut labels: HashMap<&str, usize> = HashMap::new();
    let mut bufs: HashMap<String, Vec<u8>> = HashMap::new();
    for (i, instr) in lir.iter().enumerate() {
        match instr {
            LIR::Label(name) => {
                assert!(labels.insert(name.as_str(), i).is_none());
            }
            LIR::DeclareBssBuf(name, size) => {
                bufs.insert(name.clone(), vec![0; *size]);
            }
            _ => {}
        }
    }
    let mut tape = vec![0u8; 60000];
    let mut cursor: i64 = 30000;
    let mut regs: HashMap<u32, u8> = HashMap::new();
    let mut input = input.iter();
    let mut output = Vec::new();
    let mut pc = 0;
    let mut steps = 0;

    fn read(
        v: &RVal,
        tape: &[u8],
        cursor: i64,
        regs: &HashMap<u32, u8>,
        bufs: &HashMap<String, Vec<u8>>,
    ) -> u8 {
        match v {
            RVal::Reg(n) => regs[n],
            RVal::Tape(o) => tape[(cursor + *o as i64) as usize],
            RVal::Buf(name, i) => bufs[name][*i],
            RVal::Immediate(v) => *v as u8,
        }
    }

    while pc < lir.len() {
        steps += 1;
        if steps > fuel {
            return None;
        }
        let mut next = pc + 1;
        match &lir[pc] {
            LIR::Shift(k) => cursor += *k as i64,
            LIR::Mul(d, a, b) | LIR::Add(d, a, b) | LIR::Sub(d, a, b) => {
                let x = read(a, &tape, cursor, &regs, &bufs);
                let y = read(b, &tape, cursor, &regs, &bufs);
                let value = match &lir[pc] {
                    LIR::Mul(..) => x.wrapping_mul(y),
                    LIR::Add(..) => x.wrapping_add(y),
                    _ => x.wrapping_sub(y),
                };
                match d {
                    LVal::Reg(n) => {
                        regs.insert(*n, value);
                    }
                    LVal::Tape(o) => tape[(cursor + *o as i64) as usize] = value,
                    LVal::Buf(name, i) => bufs.get_mut(name).unwrap()[*i] = value,
                }
            }
            LIR::Mov(d, s) => {
                let value = read(s, &tape, cursor, &regs, &bufs);
                match d {
                    LVal::Reg(n) => {
                        regs.insert(*n, value);
                    }
                    LVal::Tape(o) => tape[(cursor + *o as i64) as usize] = value,
                    LVal::Buf(name, i) => bufs.get_mut(name).unwrap()[*i] = value,
                }
            }
            LIR::Label(_) | LIR::DeclareBssBuf(_, _) => {}
            LIR::Jp(name) => next = labels[name.as_str()],
            LIR::Jz(c, name) => {
                if read(c, &tape, cursor, &regs, &bufs) == 0 {
                    next = labels[name.as_str()];
                }
            }
            LIR::Jnz(c, name) => {
                if read(c, &tape, cursor, &regs, &bufs) != 0 {
                    next = labels[name.as_str()];
                }
            }
            LIR::Input(name, off, len) => {
                let buf = bufs.get_mut(name).unwrap();
                for k in 0..*len {
                    if let Some(b) = input.next() {
                        buf[*off + k] = *b;
                    }
                }
            }
            LIR::Output(name, off, len) => {
                output.extend_from_slice(&bufs[name][*off..*off + *len]);
            }
        }
        pc = next;
    }
    Some(output)
}

fn all_kinds() -> Vec<OptimizerKind> {
    vec![
        OptimizerKind::Simple,
        OptimizerKind::SimpleAdd,
        OptimizerKind::Old,
        OptimizerKind::New,
    ]
}

fn outputs(source: &[u8], input: &[u8]) -> Vec<Vec<u8>> {
    let ast = parse(source).unwrap();
    all_kinds()
        .iter()
        .map(|kind| run(&kind.optimize(&ast, 1), input, 10_000_000).unwrap())
        .collect()
}

#[test]
fn hello_constant() {
    let source = b"++++++++[>++++++++<-]>+.";
    for out in outputs(source, b"") {
        assert_eq!(out, vec![0x41]);
    }
    let ast = parse(source).unwrap();
    let lir = OptimizerKind::New.optimize(&ast, 1);
    assert!(!lir
        .iter()
        .any(|i| matches!(i, LIR::Jp(_) | LIR::Jnz(_, _))));
}

#[test]
fn echo_until_zero() {
    for out in outputs(b",[.,]", b"Hi\0") {
        assert_eq!(out, b"Hi".to_vec());
    }
}

#[test]
fn clear_cell_idiom() {
    let source = b"+++[-].";
    for out in outputs(source, b"") {
        assert_eq!(out, vec![0x00]);
    }
    for out in outputs(source, b"any input") {
        assert_eq!(out, vec![0x00]);
    }
    let ast = parse(source).unwrap();
    let lir = OptimizerKind::Old.optimize(&ast, 1);
    assert!(!lir.iter().any(|i| matches!(i, LIR::Label(_))));
    let outputs = lir
        .iter()
        .filter(|i| matches!(i, LIR::Output(_, _, _)))
        .count();
    assert_eq!(outputs, 1);
}

#[test]
fn scan_idiom_tokens() {
    let ast = parse(b">>>+<[<]+.").unwrap();
    let tokens = optimize_tokens(&ast_to_tokens(&ast));
    let scans = tokens.iter().filter(|t| **t == Token::Scan(-1)).count();
    assert_eq!(scans, 1);
    assert!(!tokens
        .iter()
        .any(|t| matches!(t, Token::Loop(_) | Token::If(_, _))));
}

#[test]
fn scan_idiom_behaviour() {
    for out in outputs(b">>>+<[<]+.", b"") {
        assert_eq!(out, vec![1]);
    }
}

#[test]
fn optimizers_agree_with_the_baseline() {
    let programs: Vec<(&[u8], &[u8])> = vec![
        (b"+++.>++.<.", b""),
        (b",>,<.>.", b"ab"),
        (b"++[>+++[>++<-]<-]>>.", b""),
        (b"+++++[>+++++[>++<-]<-]>>+.", b""),
        (b",[->+>++<<]>.>.", b"\x05"),
        (b"++>+++<[->[->+>+<<]>>[-<<+>>]<<<]>>.", b""),
        (b",[>,]<[.<]", b"abc\0"),
        (b">+>++>+++<<<[>]<.", b""),
        (b"+[->,.<]", b"x"),
        (b",.,.,.", b"xyz"),
        (b"-.+.", b""),
        (b",----------[++++++++++.,----------]", b"line\nrest"),
    ];
    for (source, input) in programs {
        let outs = outputs(source, input);
        for (kind, out) in all_kinds().iter().zip(outs.iter()) {
            assert_eq!(
                out,
                &outs[0],
                "{:?} on {}",
                kind,
                String::from_utf8_lossy(source)
            );
        }
    }
}

#[test]
fn level_zero_is_the_baseline() {
    let ast = parse(b"++[>+<-]>.,[.,]").unwrap();
    let baseline = OptimizerKind::Simple.optimize(&ast, 0);
    for kind in all_kinds() {
        assert_eq!(kind.optimize(&ast, 0), baseline);
        assert_eq!(kind.dumpir(&ast, 0), OptimizerKind::Simple.dumpir(&ast, 0));
    }
}

#[test]
fn labels_are_defined_once_and_registers_written_once() {
    let ast = parse(b"+[>[-]+[>,.<[->+<]]<]>[>]<[.<]++[>+++[>++<-]<-]").unwrap();
    for kind in all_kinds() {
        let lir = kind.optimize(&ast, 1);
        let mut labels: Vec<&String> = Vec::new();
        let mut regs: Vec<u32> = Vec::new();
        for instr in &lir {
            match instr {
                LIR::Label(name) => {
                    assert!(!labels.contains(&name));
                    labels.push(name);
                }
                LIR::Mul(LVal::Reg(n), _, _)
                | LIR::Add(LVal::Reg(n), _, _)
                | LIR::Sub(LVal::Reg(n), _, _)
                | LIR::Mov(LVal::Reg(n), _) => {
                    assert!(!regs.contains(n));
                    regs.push(*n);
                }
                _ => {}
            }
        }
        for instr in &lir {
            match instr {
                LIR::Jp(name) | LIR::Jz(_, name) | LIR::Jnz(_, name) => {
                    assert!(labels.contains(&name));
                }
                _ => {}
            }
        }
    }
}

#[test]
fn optimizing_twice_gives_the_same() {
    let ast = parse(b"++[>+++[>++<-]<-]>>.,[.,]").unwrap();
    for kind in all_kinds() {
        assert_eq!(kind.optimize(&ast, 1), kind.optimize(&ast, 1));
        assert_eq!(kind.dumpir(&ast, 1), kind.dumpir(&ast, 1));
    }
}

#[test]
fn optimizers_by_name() {
    assert_eq!(OptimizerKind::by_name("simple"), Some(OptimizerKind::Simple));
    assert_eq!(
        OptimizerKind::by_name("simple_add"),
        Some(OptimizerKind::SimpleAdd)
    );
    assert_eq!(OptimizerKind::by_name("old"), Some(OptimizerKind::Old));
    assert_eq!(OptimizerKind::by_name("new"), Some(OptimizerKind::New));
    assert_eq!(OptimizerKind::by_name("newer"), None);
    assert_eq!(OptimizerKind::by_name(""), None);
    for kind in all_kinds() {
        assert_eq!(OptimizerKind::by_name(kind.name()), Some(kind));
    }
}
