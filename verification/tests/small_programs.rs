use isbfc::lir::{LVal, RVal, LIR};
use isbfc::optimizer::peephole::optimize::{count_tokens, optimize, tokens_equal};
use isbfc::optimizer::peephole::token::ast_to_tokens;
use isbfc::optimizer::{Optimizer, OptimizerKind};
use isbfc::parser::parse;
use std::collections::HashMap;

const COMMANDS: &[u8] = b"+-<>[],.";
const TAPE: usize = 4096;

/// Every program of exactly `len` commands whose brackets match.
fn programs_of(len: usize) -> Vec<Vec<u8>> {
    let mut found = Vec::new();
    let mut text = vec![0u8; len];
    let mut digits = vec![0usize; len];
    loop {
        let mut depth: i32 = 0;
        let mut ok = true;
        for i in 0..len {
            text[i] = COMMANDS[digits[i]];
            if text[i] == b'[' {
                depth += 1;
            } else if text[i] == b']' {
                depth -= 1;
                if depth < 0 {
                    ok = false;
                }
            }
        }
        if ok && depth == 0 {
            found.push(text.clone());
        }
        let mut i = 0;
        while i < len {
            digits[i] += 1;
            if digits[i] < COMMANDS.len() {
                break;
            }
            digits[i] = 0;
            i += 1;
        }
        if i == len {
            return found;
        }
    }
}

fn value_of(
    v: &RVal,
    tape: &[u8],
    cursor: usize,
    regs: &HashMap<u32, u8>,
    bufs: &HashMap<String, Vec<u8>>,
) -> Option<u8> {
    match v {
        RVal::Reg(n) => regs.get(n).copied(),
        RVal::Tape(o) => tape.get((cursor as i64 + *o as i64) as usize).copied(),
        RVal::Buf(name, i) => bufs.get(name).and_then(|b| b.get(*i)).copied(),
        RVal::Immediate(v) => Some(*v as u8),
    }
}

fn put(
    d: &LVal,
    value: u8,
    tape: &mut [u8],
    cursor: usize,
    regs: &mut HashMap<u32, u8>,
    bufs: &mut HashMap<String, Vec<u8>>,
) -> Option<()> {
    match d {
        LVal::Reg(n) => {
            regs.insert(*n, value);
        }
        LVal::Tape(o) => *tape.get_mut((cursor as i64 + *o as i64) as usize)? = value,
        LVal::Buf(name, i) => *bufs.get_mut(name)?.get_mut(*i)? = value,
    }
    Some(())
}

/// What an instruction list writes on a tape of byte cells, and whether a
/// read found the input at its end; nothing if the list does not end within
/// `fuel` steps or leaves the tape.
fn written(lir: &[LIR], input: &[u8], fuel: usize) -> Option<(Vec<u8>, bool)> {
    let mut labels: HashMap<&str, usize> = HashMap::new();
    let mut bufs: HashMap<String, Vec<u8>> = HashMap::new();
    for (i, instr) in lir.iter().enumerate() {
        match instr {
            LIR::Label(name) => {
                assert!(labels.insert(name.as_str(), i).is_none());
            }
            LIR::DeclareBssBuf(name, size) => {
                bufs.insert(name.clone(), vec![0; *size]);
            }
            _ => {}
        }
    }
    let mut tape = vec![0u8; TAPE];
    let mut cursor: usize = TAPE / 2;
    let mut regs: HashMap<u32, u8> = HashMap::new();
    let mut input = input.iter();
    let mut output = Vec::new();
    let mut starved = false;
    let mut pc = 0;
    let mut steps = 0;
    while pc < lir.len() {
        steps += 1;
        if steps > fuel {
            return None;
        }
        let mut next = pc + 1;
        match &lir[pc] {
            LIR::Shift(k) => {
                let moved = cursor as i64 + *k as i64;
                if moved < 64 || moved >= (TAPE - 64) as i64 {
                    return None;
                }
                cursor = moved as usize;
            }
            LIR::Mul(d, a, b) | LIR::Add(d, a, b) | LIR::Sub(d, a, b) => {
                let x = value_of(a, &tape, cursor, &regs, &bufs)?;
                let y = value_of(b, &tape, cursor, &regs, &bufs)?;
                let value = match &lir[pc] {
                    LIR::Mul(..) => x.wrapping_mul(y),
                    LIR::Add(..) => x.wrapping_add(y),
                    _ => x.wrapping_sub(y),
                };
                put(d, value, &mut tape, cursor, &mut regs, &mut bufs)?;
            }
            LIR::Mov(d, s) => {
                let value = value_of(s, &tape, cursor, &regs, &bufs)?;
                put(d, value, &mut tape, cursor, &mut regs, &mut bufs)?;
            }
            LIR::Label(_) | LIR::DeclareBssBuf(_, _) => {}
            LIR::Jp(name) => next = labels[name.as_str()],
            LIR::Jz(c, name) => {
                if value_of(c, &tape, cursor, &regs, &bufs)? == 0 {
                    next = labels[name.as_str()];
                }
            }
            LIR::Jnz(c, name) => {
                if value_of(c, &tape, cursor, &regs, &bufs)? != 0 {
                    next = labels[name.as_str()];
                }
            }
            LIR::Input(name, off, len) => {
                let buf = bufs.get_mut(name)?;
                for k in 0..*len {
                    match input.next() {
                        Some(b) => buf[*off + k] = *b,
                        None => starved = true,
                    }
                }
            }
            LIR::Output(name, off, len) => {
                output.extend_from_slice(&bufs[name][*off..*off + *len]);
            }
        }
        pc = next;
    }
    Some((output, starved))
}

fn text_of(source: &[u8]) -> String {
    String::from_utf8_lossy(source).into_owned()
}

fn settles(len: usize) {
    for source in programs_of(len) {
        let tokens = ast_to_tokens(&parse(&source).unwrap());
        let optimized = optimize(&tokens);
        assert!(count_tokens(&optimized) <= count_tokens(&tokens));
        let again = optimize(&optimized);
        assert!(tokens_equal(&again, &optimized), "{}", text_of(&source));
    }
}

/// The programs of `len` commands that, where the baseline lowering ends
/// with no read starved, do not write the same under `kind`.
fn differing(len: usize, kind: OptimizerKind) -> Vec<String> {
    let input = [3u8, 1, 0, 2, 255, 7, 0, 1];
    let mut found = Vec::new();
    for source in programs_of(len) {
        let ast = parse(&source).unwrap();
        let baseline = OptimizerKind::Simple.optimize(&ast, 1);
        let expected = match written(&baseline, &input, 2000) {
            Some((out, false)) => out,
            _ => continue,
        };
        let lir = kind.optimize(&ast, 1);
        if written(&lir, &input, 20000).map(|r| r.0) != Some(expected) {
            found.push(text_of(&source));
        }
    }
    found
}

#[test]
fn small_programs_settle() {
    for len in 0..=5 {
        settles(len);
    }
}

#[test]
fn programs_of_six_commands_settle() {
    settles(6);
}

#[test]
fn programs_of_seven_commands_settle() {
    settles(7);
}

#[test]
fn programs_of_seven_commands_keep_their_output_rewritten() {
    assert_eq!(differing(7, OptimizerKind::Old), Vec::<String>::new());
}

#[test]
fn small_programs_keep_their_output() {
    for len in 0..=5 {
        assert_eq!(differing(len, OptimizerKind::SimpleAdd), Vec::<String>::new());
        assert_eq!(differing(len, OptimizerKind::Old), Vec::<String>::new());
    }
}

#[test]
fn programs_of_six_commands_keep_their_output_gathered() {
    assert_eq!(differing(6, OptimizerKind::SimpleAdd), Vec::<String>::new());
}

#[test]
fn programs_of_six_commands_keep_their_output_rewritten() {
    assert_eq!(differing(6, OptimizerKind::Old), Vec::<String>::new());
}

#[test]
fn small_programs_under_the_graph_optimizer() {
    for len in 0..=5 {
        assert_eq!(differing(len, OptimizerKind::New), Vec::<String>::new());
    }
}

#[test]
fn programs_of_six_commands_under_the_graph_optimizer() {
    let found = differing(6, OptimizerKind::New);
    let shown: Vec<String> = found.iter().take(40).cloned().collect();
    assert!(found.is_empty(), "{} differ: {:?}", found.len(), shown);
}

#[test]
fn read_at_the_end_of_input_keeps_what_the_buffer_held() {
    // The baseline reads into the buffer that it writes from; the token
    // and graph lowerings read into a buffer of their own.
    let ast = parse(b"+.,.").unwrap();
    let simple = written(&OptimizerKind::Simple.optimize(&ast, 1), b"", 10000).unwrap();
    let old = written(&OptimizerKind::Old.optimize(&ast, 1), b"", 10000).unwrap();
    let graph = written(&OptimizerKind::New.optimize(&ast, 1), b"", 10000).unwrap();
    assert!(simple.1 && old.1 && graph.1);
    assert_eq!(simple.0, vec![1, 1]);
    assert_eq!(old.0, vec![1, 0]);
    assert_eq!(graph.0, vec![1, 0]);
}

#[test]
fn flattened_loop_sets_its_constants_without_a_test() {
    // The loop is never entered, but the graph optimizer has made its body
    // part of the enclosing block.
    let ast = parse(b">+<[->[-]<]>.").unwrap();
    let simple = written(&OptimizerKind::Simple.optimize(&ast, 1), b"", 10000).unwrap().0;
    let old = written(&OptimizerKind::Old.optimize(&ast, 1), b"", 10000).unwrap().0;
    let graph = written(&OptimizerKind::New.optimize(&ast, 1), b"", 10000).unwrap().0;
    assert_eq!(simple, vec![1]);
    assert_eq!(old, vec![1]);
    assert_eq!(graph, vec![0]);
}

#[test]
fn copied_cell_is_not_read_after_it_is_written() {
    // The second cell takes what the first held and the first is cleared;
    // simplified, the graph would write the first cell and then copy it.
    for source in [&b",>[-]<[->+<]>[.>]"[..], &b",>[-]<[->+<]>[>]<."[..]] {
        let ast = parse(source).unwrap();
        for kind in [OptimizerKind::SimpleAdd, OptimizerKind::Old, OptimizerKind::New] {
            let out = written(&kind.optimize(&ast, 1), &[7], 10000).unwrap().0;
            assert_eq!(out, vec![7], "{} under {}", text_of(source), kind.name());
        }
    }
}

fn next_number(seed: &mut u64, n: usize) -> usize {
    *seed = seed
        .wrapping_mul(6364136223846793005)
        .wrapping_add(1442695040888963407);
    ((*seed >> 33) as usize) % n
}

/// A program put together from common idioms; loops that clear a cell
/// stand at the top level only.
fn idiom_program(seed: &mut u64, pieces: usize, depth: usize, top: bool) -> Vec<u8> {
    let parts: [&[u8]; 22] = [
        b"+", b"-", b">", b"<", b",", b".", b"++", b"--", b"[->+<]", b"[-<+>]",
        b"[->++>+<<]", b"[>]", b"[<]", b"[->+>+<<]", b"[->>+<<]", b"[-<<+>>]",
        b"[->-<]", b"+++", b">>", b"<<", b"[-<->]", b"[->+++<]",
    ];
    let clears: [&[u8]; 3] = [b"[-]", b"[-]+", b">[-]<"];
    let mut text = Vec::new();
    for _ in 0..pieces {
        let r = next_number(seed, 28);
        if r >= 25 {
            if top {
                text.extend_from_slice(clears[r - 25]);
            }
        } else if r >= 22 {
            if depth > 0 {
                text.push(b'[');
                let inner = 1 + next_number(seed, 4);
                text.extend(idiom_program(seed, inner, depth - 1, false));
                text.push(b']');
            }
        } else {
            text.extend_from_slice(parts[r]);
        }
    }
    text
}

#[test]
fn idiom_programs_keep_their_output() {
    let input = [3u8, 1, 0, 2, 255, 7, 0, 1, 9, 9, 9, 9];
    let mut seed = 4242u64;
    let mut compared = 0;
    for _ in 0..40000 {
        let pieces = 2 + next_number(&mut seed, 6);
        let mut source = idiom_program(&mut seed, pieces, 2, true);
        source.extend_from_slice(b".>.<<.");
        let ast = parse(&source).unwrap();
        let baseline = OptimizerKind::Simple.optimize(&ast, 1);
        let expected = match written(&baseline, &input, 5000) {
            Some((out, false)) => out,
            _ => continue,
        };
        compared += 1;
        for kind in [OptimizerKind::SimpleAdd, OptimizerKind::Old, OptimizerKind::New] {
            let lir = kind.optimize(&ast, 1);
            assert_eq!(
                written(&lir, &input, 50000).map(|r| r.0),
                Some(expected.clone()),
                "{} under {}",
                text_of(&source),
                kind.name()
            );
        }
    }
    assert!(compared > 10000);
}
