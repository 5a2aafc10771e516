use isbfc::elf::{
    elf64_find_section, elf64_image, elf64_names_within, EHDR_SIZE, PHDR_SIZE, SHDR_SIZE,
};
use isbfc::offset_map::OffsetMap;
use isbfc::optimizer::new::dag::{Node, Value, DAG};
use isbfc::optimizer::new::ir::IR;
use isbfc::optimizer::new::optimize_expr::{optimize, optimize_expr};
use isbfc::optimizer::peephole::optimize::{count_tokens, optimize as optimize_tokens, tokens_equal};
use isbfc::optimizer::peephole::optimize_state::OptimizeState;
use isbfc::optimizer::peephole::token::{ast_to_tokens, Token};
use isbfc::parser::{ast_fits, ast_size_within, parse, AST};
use isbfc::text::{append_decimal, append_signed_decimal, append_spaces, numbered};
use std::collections::HashSet;

fn entries<V: Copy>(map: &OffsetMap<V>) -> Vec<(i32, V)> {
    (0..map.len()).map(|i| map.entry(i)).collect()
}

#[test]
fn decimal_texts() {
    let mut s = String::new();
    append_decimal(&mut s, 0);
    s.push(' ');
    append_decimal(&mut s, 7);
    s.push(' ');
    append_decimal(&mut s, 10);
    s.push(' ');
    append_decimal(&mut s, 18446744073709551615);
    assert_eq!(s, "0 7 10 18446744073709551615");
    let mut t = String::new();
    append_signed_decimal(&mut t, -1);
    t.push(' ');
    append_signed_decimal(&mut t, i64::MIN);
    t.push(' ');
    append_signed_decimal(&mut t, 42);
    assert_eq!(t, "-1 -9223372036854775808 42");
    let mut u = String::from("x");
    append_spaces(&mut u, 3);
    assert_eq!(u, "x   ");
    assert_eq!(numbered("endloop", 120), "endloop120");
}

#[test]
fn offset_map_keeps_ascending_order() {
    let mut map: OffsetMap<i32> = OffsetMap::new();
    assert!(map.is_empty());
    map.insert(3, 30);
    map.insert(-1, 10);
    map.insert(2, 20);
    map.insert(3, 31);
    assert_eq!(entries(&map), vec![(-1, 10), (2, 20), (3, 31)]);
    assert_eq!(map.len(), 3);
    assert_eq!(map.get(2), Some(20));
    assert_eq!(map.get(0), None);
    assert!(map.contains_key(-1));
    assert!(!map.contains_key(4));
    map.remove(2);
    map.remove(7);
    assert_eq!(entries(&map), vec![(-1, 10), (3, 31)]);
    map.clear();
    assert!(map.is_empty());
}

#[test]
fn optimize_state_adds_and_sets() {
    let mut state = OptimizeState::new();
    state.add(1, 2);
    state.add(1, 3);
    state.add(0, 1);
    state.add(0, -1);
    assert_eq!(entries(&state.adds), vec![(1, 5)]);
    state.set(1, 7);
    assert_eq!(entries(&state.adds), vec![]);
    assert_eq!(entries(&state.sets), vec![(1, 7)]);
    state.add(1, 1);
    assert_eq!(entries(&state.sets), vec![(1, 8)]);
    state.add(-2, 4);
    state.set(-5, 0);
    state.shift = 3;
    state.apply_adds_sets();
    state.apply_shift();
    state.apply_shift();
    assert_eq!(
        state.tokens,
        vec![
            Token::Assign(-5, 0),
            Token::Assign(1, 8),
            Token::Add(-2, 4),
            Token::Move(3),
        ]
    );
    assert!(state.adds.is_empty() && state.sets.is_empty());
    assert_eq!(state.shift, 0);
}

#[test]
fn wrapping_adds() {
    let mut state = OptimizeState::new();
    state.add(0, i32::MAX);
    state.add(0, 1);
    assert_eq!(entries(&state.adds), vec![(0, i32::MIN)]);
}

#[test]
fn token_pass_recognises_multiply_copy() {
    let ast = parse(b",[->++>---<<]>.").unwrap();
    assert_eq!(
        optimize_tokens(&ast_to_tokens(&ast)),
        vec![
            Token::Input,
            Token::MulCopy(0, 1, 2),
            Token::MulCopy(0, 2, -3),
            Token::LoadOut(1, 0),
            Token::Output,
        ]
    );
}

#[test]
fn token_pass_guards_sets_of_a_cleared_loop() {
    let ast = parse(b",[>[-]<-]>.").unwrap();
    assert_eq!(
        optimize_tokens(&ast_to_tokens(&ast)),
        vec![
            Token::Input,
            Token::If(0, vec![Token::Assign(1, 0), Token::Assign(0, 0)]),
            Token::LoadOut(1, 0),
            Token::Output,
        ]
    );
}

#[test]
fn token_pass_keeps_other_loops() {
    let ast = parse(b",[.-]").unwrap();
    assert_eq!(
        optimize_tokens(&ast_to_tokens(&ast)),
        vec![
            Token::Input,
            Token::Loop(vec![Token::LoadOut(0, 0), Token::Output, Token::Add(0, -1)]),
        ]
    );
}

#[test]
fn optimized_tokens_are_a_fixed_point() {
    let sources: Vec<&[u8]> = vec![
        b"++[>+++[>++<-]<-]>>.",
        b",[->+>++<<]>.>.",
        b">+>++>+++<<<[>]<.,[>[-]+<-]>[.-]",
        b"[-]+++[->++<]>.",
        b",>,<[->>+<<]>[->+<]>.",
    ];
    for source in sources {
        let tokens = ast_to_tokens(&parse(source).unwrap());
        let optimized = optimize_tokens(&tokens);
        assert!(count_tokens(&optimized) <= count_tokens(&tokens));
        let again = optimize_tokens(&optimized);
        assert!(tokens_equal(&again, &optimized));
    }
}

#[test]
fn token_equality_and_count() {
    let a = vec![Token::Loop(vec![Token::If(1, vec![Token::Assign(0, 0)])]), Token::Output];
    let b = vec![Token::Loop(vec![Token::If(1, vec![Token::Assign(0, 0)])]), Token::Output];
    let c = vec![Token::Loop(vec![Token::If(2, vec![Token::Assign(0, 0)])]), Token::Output];
    assert!(tokens_equal(&a, &b));
    assert!(!tokens_equal(&a, &c));
    assert!(!tokens_equal(&a, &a[..1]));
    assert_eq!(count_tokens(&a), 4);
    assert_eq!(count_tokens(&[]), 0);
}

#[test]
fn ast_sizes() {
    let ast = parse(b"+[>[-]<]").unwrap();
    assert_eq!(ast_size_within(&ast, 100), Some(6));
    assert_eq!(ast_size_within(&ast, 6), Some(6));
    assert_eq!(ast_size_within(&ast, 5), None);
    assert!(ast_fits(&ast));
    assert_eq!(ast_size_within(&[AST::Input], 0), None);
}

#[test]
fn dag_shares_equal_values() {
    let mut dag = DAG::new(false);
    let a = dag.add_node(Value::Tape(1));
    let b = dag.add_node(Value::Const(2));
    let c = dag.add_node(Value::Tape(1));
    assert_eq!(a, Node(0));
    assert_eq!(b, Node(1));
    assert_eq!(c, a);
    assert_eq!(dag.len(), 2);
    assert_eq!(dag.topological_sort(), vec![Node(0), Node(1)]);
}

#[test]
fn dag_get_and_set() {
    let mut dag = DAG::new(false);
    assert!(dag.is_empty());
    assert_eq!(dag.get(3), Value::Tape(3));
    let zeroed = DAG::new(true);
    assert_eq!(zeroed.get(3), Value::Const(0));
    assert!(zeroed.is_zeroed());
    dag.set(3, Value::Const(9));
    dag.set(-1, Value::Tape(2));
    assert_eq!(dag.get(3), Value::Const(9));
    assert_eq!(dag.terminals(), vec![(-1, Node(1)), (3, Node(0))]);
    assert_eq!(dag.terminal_count(), 2);
    dag.clear();
    assert!(dag.is_empty());
}

#[test]
fn dag_add_folds_constants() {
    let mut dag = DAG::new(false);
    dag.add(0, 2);
    assert_eq!(dag.as_add_const(0), Some(2));
    dag.add(0, 3);
    assert_eq!(dag.as_add_const(0), Some(5));
    assert_eq!(dag.as_add_const(1), None);
    let mut zeroed = DAG::new(true);
    zeroed.add(0, 2);
    zeroed.add(0, 3);
    assert_eq!(zeroed.get(0), Value::Const(5));
    assert_eq!(zeroed.as_add_const(0), None);
}

#[test]
fn dag_mul_and_dependencies() {
    let mut dag = DAG::new(false);
    dag.add(1, 4);
    dag.mul(1, Value::Tape(2));
    let terminals = dag.terminals();
    assert_eq!(terminals.len(), 1);
    let node = terminals[0].1;
    assert!(matches!(dag.value(node), Value::Multiply(_, _)));
    let deps: HashSet<i32> = dag.dependencies(node);
    assert_eq!(deps, [1, 2].into_iter().collect());
}

#[test]
fn dag_shift_moves_offsets() {
    let mut dag = DAG::new(false);
    dag.add(0, 1);
    dag.shift(2);
    assert_eq!(dag.as_add_const(2), Some(1));
    assert_eq!(dag.get(0), Value::Tape(0));
    assert_eq!(dag.value(Node(0)), Value::Tape(2));
}

#[test]
fn dag_extend_reads_through_terminals() {
    let mut before = DAG::new(false);
    before.set(0, Value::Const(8));
    let mut after = DAG::new(false);
    let tape1 = after.add_node(Value::Tape(1));
    let tape0 = after.add_node(Value::Tape(0));
    after.set(1, Value::Add(tape1, tape0));
    before.extend(after);
    assert_eq!(before.len(), 4);
    assert_eq!(before.value(Node(1)), Value::Tape(1));
    assert_eq!(before.value(Node(2)), Value::Const(8));
    assert_eq!(before.value(Node(3)), Value::Add(Node(1), Node(2)));
    assert_eq!(before.terminals(), vec![(0, Node(0)), (1, Node(3))]);
}

#[test]
fn dag_simplify_folds() {
    let mut dag = DAG::new(false);
    let t = dag.add_node(Value::Tape(0));
    let zero = dag.add_node(Value::Const(0));
    let one = dag.add_node(Value::Const(1));
    let two = dag.add_node(Value::Const(2));
    let three = dag.add_node(Value::Const(3));
    let sum = dag.add_node(Value::Add(t, zero));
    let product = dag.add_node(Value::Multiply(one, sum));
    dag.set(0, Value::Multiply(product, zero));
    dag.set(1, Value::Add(two, three));
    dag.set(2, Value::Multiply(two, three));
    dag.set(3, Value::Add(zero, two));
    dag.set(4, Value::Multiply(t, two));
    dag.simplify();
    assert_eq!(dag.get(0), Value::Const(0));
    assert_eq!(dag.get(1), Value::Const(5));
    assert_eq!(dag.get(2), Value::Const(6));
    assert_eq!(dag.get(3), Value::Const(2));
    assert!(matches!(dag.get(4), Value::Multiply(_, _)));
    assert!(dag.len() <= 7);
}

#[test]
fn dag_simplify_drops_a_terminal_that_keeps_its_cell() {
    let mut dag = DAG::new(false);
    let t = dag.add_node(Value::Tape(0));
    let zero = dag.add_node(Value::Const(0));
    let one = dag.add_node(Value::Const(1));
    let sum = dag.add_node(Value::Add(t, zero));
    dag.set(0, Value::Multiply(one, sum));
    dag.set(1, Value::Const(4));
    dag.simplify();
    assert_eq!(dag.terminal_count(), 1);
    assert_eq!(dag.get(0), Value::Tape(0));
    assert_eq!(dag.get(1), Value::Const(4));
}

#[test]
fn dag_simplify_makes_no_copy_of_another_cell() {
    let mut dag = DAG::new(false);
    let t = dag.add_node(Value::Tape(0));
    let zero = dag.add_node(Value::Const(0));
    dag.set(0, Value::Const(0));
    dag.set(1, Value::Add(zero, t));
    let nodes = dag.len();
    dag.simplify();
    assert_eq!(dag.len(), nodes);
    assert_eq!(dag.get(0), Value::Const(0));
    assert_eq!(dag.get(1), Value::Add(zero, t));
}

#[test]
fn graph_form_of_a_block() {
    let ast = parse(b">++<-").unwrap();
    let ir = optimize(&ast);
    assert_eq!(ir.len(), 1);
    match &ir[0] {
        IR::Expr(dag) => {
            assert!(dag.is_zeroed());
            assert_eq!(dag.get(0), Value::Const(-1));
            assert_eq!(dag.get(1), Value::Const(2));
        }
        _ => panic!("a graph"),
    }
}

#[test]
fn graph_form_keeps_a_loop_that_is_not_flat() {
    let ast = parse(b",[.-]").unwrap();
    let (ir, shift) = optimize_expr(&ast, &DAG::new(true));
    assert_eq!(shift, 0);
    assert!(matches!(ir[0], IR::Input(0)));
    assert!(ir.iter().any(|step| matches!(step, IR::Loop(0, _, 0))));
}

#[test]
fn graph_form_flattens_a_multiplier_loop() {
    let ast = parse(b",[->+++<]>.").unwrap();
    let ir = optimize(&ast);
    assert!(!ir.iter().any(|step| matches!(step, IR::Loop(_, _, _))));
}

fn le(x: u64, n: usize) -> Vec<u8> {
    x.to_le_bytes()[..n].to_vec()
}

#[test]
fn elf_image_layout() {
    let text = vec![0x90u8; 5000];
    let image = elf64_image(&text, 77);
    assert_eq!(image.len(), 0x1000 + 5000);
    assert_eq!(&image[..4], b"\x7fELF");
    assert_eq!(&image[4..9], &[2, 1, 1, 0, 0]);
    assert_eq!(&image[9..16], &[0; 7]);
    assert_eq!(&image[16..18], &le(2, 2)[..]);
    assert_eq!(&image[18..20], &le(62, 2)[..]);
    assert_eq!(&image[24..32], &le(0x401000, 8)[..]);
    assert_eq!(&image[32..40], &le(64, 8)[..]);
    assert_eq!(&image[52..54], &le(EHDR_SIZE as u64, 2)[..]);
    assert_eq!(&image[54..56], &le(PHDR_SIZE as u64, 2)[..]);
    assert_eq!(&image[56..58], &le(2, 2)[..]);
    assert_eq!(&image[58..60], &le(SHDR_SIZE as u64, 2)[..]);
    // The program header of the code.
    assert_eq!(&image[64..68], &le(1, 4)[..]);
    assert_eq!(&image[68..72], &le(5, 4)[..]);
    assert_eq!(&image[72..80], &le(0x1000, 8)[..]);
    assert_eq!(&image[96..104], &le(5000, 8)[..]);
    // The program header of the zeroed data: on the page after the code.
    assert_eq!(&image[120..124], &le(1, 4)[..]);
    assert_eq!(&image[124..128], &le(6, 4)[..]);
    assert_eq!(&image[128..136], &le(0x1000 + 0x2000, 8)[..]);
    assert_eq!(&image[136..144], &le(0x401000 + 0x2000, 8)[..]);
    assert_eq!(&image[152..160], &le(0, 8)[..]);
    assert_eq!(&image[160..168], &le(77, 8)[..]);
    assert!(image[176..0x1000].iter().all(|b| *b == b'0'));
    assert_eq!(&image[0x1000..], &text[..]);
}

fn shdr(name: u32, offset: u64, size: u64) -> Vec<u8> {
    let mut h = Vec::new();
    h.extend(le(name as u64, 4));
    h.extend(le(1, 4));
    h.extend(le(0, 8));
    h.extend(le(0, 8));
    h.extend(le(offset, 8));
    h.extend(le(size, 8));
    h.extend(le(0, 4));
    h.extend(le(0, 4));
    h.extend(le(1, 8));
    h.extend(le(0, 8));
    h
}

fn object_file() -> Vec<u8> {
    let names = b"\0.text\0.bss\0.shstrtab\0";
    let mut file = vec![0u8; 64];
    file[40..48].copy_from_slice(&le(64 + names.len() as u64, 8));
    file[60..62].copy_from_slice(&le(4, 2));
    file[62..64].copy_from_slice(&le(3, 2));
    file.extend_from_slice(names);
    file.extend(shdr(0, 0, 0));
    file.extend(shdr(1, 0x40, 0x123));
    file.extend(shdr(7, 0x200, 0x456));
    file.extend(shdr(12, 64, names.len() as u64));
    file
}

#[test]
fn elf_section_lookup() {
    let file = object_file();
    assert!(elf64_names_within(&file));
    let text = elf64_find_section(&file, b".text").unwrap();
    assert_eq!(text.sh_name, 1);
    assert_eq!(text.sh_size, 0x123);
    let bss = elf64_find_section(&file, b".bss").unwrap();
    assert_eq!(bss.sh_offset, 0x200);
    assert_eq!(bss.sh_size, 0x456);
    assert_eq!(elf64_find_section(&file, b".shstrtab").unwrap().sh_name, 12);
    assert_eq!(elf64_find_section(&file, b".data"), None);
    assert_eq!(elf64_find_section(&file, b".tex"), None);
    assert_eq!(elf64_find_section(&file, b".text\0"), None);
    assert_eq!(elf64_find_section(&file, b"").unwrap().sh_name, 0);
}

#[test]
fn elf_name_outside_the_table() {
    let mut file = object_file();
    let at = file.len() - 3 * 64;
    file[at..at + 4].copy_from_slice(&le(1000, 4));
    assert!(!elf64_names_within(&file));
    assert!(elf64_names_within(&[]));
    assert_eq!(elf64_find_section(&[], b".text"), None);
}
