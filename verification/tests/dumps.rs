use isbfc::dump::{to_text, Doc};
use isbfc::lir::{LVal, RVal, LIR};
use isbfc::optimizer::dumpir::{dump_ir, dump_lir, dump_steps, dump_tokens};
use isbfc::optimizer::new::optimize_expr::optimize;
use isbfc::optimizer::peephole::token::Token;
use isbfc::optimizer::simple_add::ast_to_ir;
use isbfc::optimizer::{Optimizer, OptimizerKind};
use isbfc::parser::parse;

#[test]
fn layout_of_a_tree() {
    let doc = Doc::Tuple(
        "Pair".to_string(),
        vec![
            Doc::Text("1".to_string()),
            Doc::List(vec![Doc::Text("a".to_string()), Doc::List(vec![])]),
        ],
    );
    assert_eq!(
        to_text(&doc),
        "Pair(\n    1,\n    [\n        a,\n        [],\n    ],\n)"
    );
    assert_eq!(to_text(&Doc::Tuple("Unit".to_string(), vec![])), "Unit");
    assert_eq!(to_text(&Doc::Entries(vec![])), "{}");
    assert_eq!(
        to_text(&Doc::Record(
            "R".to_string(),
            vec![("x".to_string(), Doc::Text("1".to_string()))]
        )),
        "R {\n    x: 1,\n}"
    );
}

#[test]
fn dump_of_tokens() {
    let tokens = vec![
        Token::Add(0, 1),
        Token::Loop(vec![Token::Move(1)]),
        Token::If(2, vec![Token::Assign(0, 0), Token::MulCopy(0, 1, -2)]),
        Token::Scan(-1),
        Token::LoadOut(0, 3),
        Token::LoadOutSet(65),
        Token::Output,
        Token::Input,
        Token::Loop(vec![]),
    ];
    assert_eq!(
        dump_tokens(&tokens),
        "[\n    Add(offset=0, value=1),\n    Loop(content=[\n        Move(offset=1),\n    ]),\n    \
         If(offset=2, content=[\n        Set(offset=0, value=0),\n        \
         MulCopy(src=0, dest=1, mul=-2),\n    ]),\n    Scan(offset=-1),\n    \
         LoadOut(offset=0, add=3),\n    LoadOutSet(value=65),\n    Output,\n    Input,\n    \
         Loop(content=[]),\n]\n"
    );
}

#[test]
fn dump_of_an_instruction_list() {
    let lir = vec![
        LIR::Shift(1),
        LIR::Mov(LVal::Buf("strbuf".to_string(), 0), RVal::Immediate(-1)),
        LIR::Label("loop1".to_string()),
    ];
    assert_eq!(
        dump_lir(&lir),
        "[\n    Shift(\n        1,\n    ),\n    Mov(\n        Buf(\n            \"strbuf\",\n            \
         0,\n        ),\n        Immediate(\n            -1,\n        ),\n    ),\n    Label(\n        \
         \"loop1\",\n    ),\n]\n"
    );
    assert_eq!(dump_lir(&[]), "[]\n");
}

#[test]
fn dump_of_the_gathered_form() {
    let ast = parse(b">+<-.").unwrap();
    assert_eq!(
        dump_steps(&ast_to_ir(&ast)),
        "[\n    Adds(\n        {\n            0: -1,\n            1: 1,\n        },\n    ),\n    \
         Shift(\n        0,\n    ),\n    Output,\n    Adds(\n        {},\n    ),\n    Shift(\n        \
         0,\n    ),\n]\n"
    );
}

#[test]
fn dump_of_the_graph_form() {
    let ast = parse(b",+.").unwrap();
    assert_eq!(
        dump_ir(&optimize(&ast)),
        "[\n    Input(\n        0,\n    ),\n    Expr(\n        DAG {\n            nodes: [\n                \
         Tape(\n                    0,\n                ),\n                Const(\n                    \
         1,\n                ),\n                Add(\n                    Node(\n                        \
         0,\n                    ),\n                    Node(\n                        1,\n                    \
         ),\n                ),\n            ],\n            terminals: {\n                0: Node(\n                    \
         2,\n                ),\n            },\n            zeroed: false,\n        },\n    ),\n    \
         Output(\n        Tape(\n            0,\n        ),\n    ),\n]"
    );
}

#[test]
fn dumps_of_the_optimizers() {
    let ast = parse(b"+.").unwrap();
    assert_eq!(
        OptimizerKind::Old.dumpir(&ast, 1),
        "[\n    LoadOut(offset=0, add=1),\n    Output,\n]\n"
    );
    assert_eq!(
        OptimizerKind::New.dumpir(&ast, 1),
        "[\n    Output(\n        Immediate(\n            1,\n        ),\n    ),\n    Expr(\n        \
         DAG {\n            nodes: [\n                Const(\n                    1,\n                ),\n            \
         ],\n            terminals: {\n                0: Node(\n                    0,\n                ),\n            \
         },\n            zeroed: true,\n        },\n    ),\n]"
    );
    assert!(OptimizerKind::Simple
        .dumpir(&ast, 1)
        .starts_with("[\n    DeclareBssBuf(\n        \"strbuf\",\n        1,\n    ),\n"));
    assert!(OptimizerKind::SimpleAdd
        .dumpir(&ast, 1)
        .starts_with("[\n    Adds(\n        {\n            0: 1,\n        },\n    ),\n"));
}
