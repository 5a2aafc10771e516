//! The dumps of the forms that the optimizers work on.

use vstd::prelude::*;
use vstd::string::*;
use crate::dump::{
    doc_text, docs_view, entries_view, fields_view, flag, flag_doc, lemma_doc_view, list, number,
    number_doc, offsets, offsets_doc, push_doc, quoted, quoted_doc, text, to_text, tuple1, tuple2,
    tuple3, unsigned, unsigned_doc, wrapped, Doc, SpecDoc,
};
use crate::lir::{LVal, RVal, SpecLIR, SpecLVal, SpecRVal, LIR};
use crate::optimizer::new::dag::{Node, SpecDAG, Value, DAG};
use crate::optimizer::new::ir::{lemma_loop_ir_view, SpecIR, IR};
use crate::optimizer::peephole::token::{
    lemma_if_token_view, lemma_loop_token_view, SpecToken, Token,
};
use crate::optimizer::simple_add::{lemma_loop_step_view, SimpleAddIR, SpecSimpleAddIR};
use crate::text::{append_signed_decimal, signed_decimal};

verus! {

/// The tree of a writable location.
pub open spec fn lval_doc(val: SpecLVal) -> SpecDoc {
    match val {
        SpecLVal::Reg(n) => SpecDoc::Tuple("Reg"@, seq![unsigned_doc(n as nat)]),
        SpecLVal::Tape(o) => SpecDoc::Tuple("Tape"@, seq![number_doc(o as int)]),
        SpecLVal::Buf(name, i) => SpecDoc::Tuple(
            "Buf"@,
            seq![quoted_doc(name), unsigned_doc(i as nat)],
        ),
    }
}

/// The tree of a readable value.
pub open spec fn rval_doc(val: SpecRVal) -> SpecDoc {
    match val {
        SpecRVal::Reg(n) => SpecDoc::Tuple("Reg"@, seq![unsigned_doc(n as nat)]),
        SpecRVal::Tape(o) => SpecDoc::Tuple("Tape"@, seq![number_doc(o as int)]),
        SpecRVal::Buf(name, i) => SpecDoc::Tuple(
            "Buf"@,
            seq![quoted_doc(name), unsigned_doc(i as nat)],
        ),
        SpecRVal::Immediate(v) => SpecDoc::Tuple("Immediate"@, seq![number_doc(v as int)]),
    }
}

/// The tree of an instruction.
pub open spec fn instr_doc(instr: SpecLIR) -> SpecDoc {
    match instr {
        SpecLIR::Shift(k) => SpecDoc::Tuple("Shift"@, seq![number_doc(k as int)]),
        SpecLIR::Mul(d, a, b) => SpecDoc::Tuple("Mul"@, seq![lval_doc(d), rval_doc(a), rval_doc(b)]),
        SpecLIR::Add(d, a, b) => SpecDoc::Tuple("Add"@, seq![lval_doc(d), rval_doc(a), rval_doc(b)]),
        SpecLIR::Sub(d, a, b) => SpecDoc::Tuple("Sub"@, seq![lval_doc(d), rval_doc(a), rval_doc(b)]),
        SpecLIR::Mov(d, s) => SpecDoc::Tuple("Mov"@, seq![lval_doc(d), rval_doc(s)]),
        SpecLIR::Label(name) => SpecDoc::Tuple("Label"@, seq![quoted_doc(name)]),
        SpecLIR::Jp(name) => SpecDoc::Tuple("Jp"@, seq![quoted_doc(name)]),
        SpecLIR::Jz(c, name) => SpecDoc::Tuple("Jz"@, seq![rval_doc(c), quoted_doc(name)]),
        SpecLIR::Jnz(c, name) => SpecDoc::Tuple("Jnz"@, seq![rval_doc(c), quoted_doc(name)]),
        SpecLIR::DeclareBssBuf(name, n) => SpecDoc::Tuple(
            "DeclareBssBuf"@,
            seq![quoted_doc(name), unsigned_doc(n as nat)],
        ),
        SpecLIR::Input(name, off, len) => SpecDoc::Tuple(
            "Input"@,
            seq![quoted_doc(name), unsigned_doc(off as nat), unsigned_doc(len as nat)],
        ),
        SpecLIR::Output(name, off, len) => SpecDoc::Tuple(
            "Output"@,
            seq![quoted_doc(name), unsigned_doc(off as nat), unsigned_doc(len as nat)],
        ),
    }
}

/// The tree of an instruction list.
pub open spec fn lir_doc(lir: Seq<SpecLIR>) -> SpecDoc {
    SpecDoc::List(Seq::new(lir.len(), |i: int| instr_doc(lir[i])))
}

/// The dump of an instruction list: the laid-out tree and a line feed.
pub open spec fn lir_dump(lir: Seq<SpecLIR>) -> Seq<char> {
    doc_text(lir_doc(lir), 0) + "\n"@
}

fn lval_to_doc(val: &LVal) -> (d: Doc)
    ensures
        d.deep_view() == lval_doc(val@),
{
    match val {
        LVal::Reg(n) => tuple1("Reg", unsigned(*n as u64)),
        LVal::Tape(o) => tuple1("Tape", number(*o as i64)),
        LVal::Buf(name, i) => tuple2("Buf", quoted(name), unsigned(*i as u64)),
    }
}

fn rval_to_doc(val: &RVal) -> (d: Doc)
    ensures
        d.deep_view() == rval_doc(val@),
{
    match val {
        RVal::Reg(n) => tuple1("Reg", unsigned(*n as u64)),
        RVal::Tape(o) => tuple1("Tape", number(*o as i64)),
        RVal::Buf(name, i) => tuple2("Buf", quoted(name), unsigned(*i as u64)),
        RVal::Immediate(v) => tuple1("Immediate", number(*v as i64)),
    }
}

fn instr_to_doc(instr: &LIR) -> (d: Doc)
    ensures
        d.deep_view() == instr_doc(instr@),
{
    match instr {
        LIR::Shift(k) => tuple1("Shift", number(*k as i64)),
        LIR::Mul(d, a, b) => tuple3("Mul", lval_to_doc(d), rval_to_doc(a), rval_to_doc(b)),
        LIR::Add(d, a, b) => tuple3("Add", lval_to_doc(d), rval_to_doc(a), rval_to_doc(b)),
        LIR::Sub(d, a, b) => tuple3("Sub", lval_to_doc(d), rval_to_doc(a), rval_to_doc(b)),
        LIR::Mov(d, s) => tuple2("Mov", lval_to_doc(d), rval_to_doc(s)),
        LIR::Label(name) => tuple1("Label", quoted(name)),
        LIR::Jp(name) => tuple1("Jp", quoted(name)),
        LIR::Jz(c, name) => tuple2("Jz", rval_to_doc(c), quoted(name)),
        LIR::Jnz(c, name) => tuple2("Jnz", rval_to_doc(c), quoted(name)),
        LIR::DeclareBssBuf(name, n) => tuple2("DeclareBssBuf", quoted(name), unsigned(*n as u64)),
        LIR::Input(name, off, len) => tuple3(
            "Input",
            quoted(name),
            unsigned(*off as u64),
            unsigned(*len as u64),
        ),
        LIR::Output(name, off, len) => tuple3(
            "Output",
            quoted(name),
            unsigned(*off as u64),
            unsigned(*len as u64),
        ),
    }
}

/// The dump of an instruction list.
pub fn dump_lir(lir: &[LIR]) -> (s: String)
    ensures
        s@ == lir_dump(lir.deep_view()),
{
    let ghost all = lir.deep_view();
    let mut items: Vec<Doc> = Vec::new();
    let mut i: usize = 0;
    while i < lir.len()
        invariant
            i <= lir.len(),
            all == lir.deep_view(),
            docs_view(items@).len() == i,
            forall|k: int| 0 <= k < i ==> docs_view(items@)[k] == instr_doc(all[k]),
        decreases lir.len() - i,
    {
        assert(all[i as int] == lir@[i as int]@);
        push_doc(&mut items, instr_to_doc(&lir[i]));
        i = i + 1;
    }
    assert(docs_view(items@) =~= lir_doc(all)->List_0);
    let mut s = to_text(&list(items));
    s.append("\n");
    s
}

/// The text of a token without a body.
pub open spec fn flat_token_text(token: SpecToken) -> Seq<char> {
    match token {
        SpecToken::Output => "Output"@,
        SpecToken::Input => "Input"@,
        SpecToken::Move(o) => "Move(offset="@ + signed_decimal(o as int) + ")"@,
        SpecToken::Add(o, v) => "Add(offset="@ + signed_decimal(o as int) + ", value="@
            + signed_decimal(v as int) + ")"@,
        SpecToken::Assign(o, v) => "Set(offset="@ + signed_decimal(o as int) + ", value="@
            + signed_decimal(v as int) + ")"@,
        SpecToken::MulCopy(s, d, m) => "MulCopy(src="@ + signed_decimal(s as int) + ", dest="@
            + signed_decimal(d as int) + ", mul="@ + signed_decimal(m as int) + ")"@,
        SpecToken::Scan(o) => "Scan(offset="@ + signed_decimal(o as int) + ")"@,
        SpecToken::LoadOut(o, a) => "LoadOut(offset="@ + signed_decimal(o as int) + ", add="@
            + signed_decimal(a as int) + ")"@,
        SpecToken::LoadOutSet(v) => "LoadOutSet(value="@ + signed_decimal(v as int) + ")"@,
        _ => Seq::empty(),
    }
}

/// The tree of a token.
pub open spec fn token_doc(token: SpecToken) -> SpecDoc
    decreases token,
{
    match token {
        SpecToken::Loop(body) => SpecDoc::Wrapped(
            "Loop(content="@,
            Box::new(
                SpecDoc::List(
                    Seq::new(
                        body.len(),
                        |i: int|
                            if 0 <= i < body.len() {
                                token_doc(body[i])
                            } else {
                                SpecDoc::Text(Seq::empty())
                            },
                    ),
                ),
            ),
            ")"@,
        ),
        SpecToken::If(o, body) => SpecDoc::Wrapped(
            "If(offset="@ + signed_decimal(o as int) + ", content="@,
            Box::new(
                SpecDoc::List(
                    Seq::new(
                        body.len(),
                        |i: int|
                            if 0 <= i < body.len() {
                                token_doc(body[i])
                            } else {
                                SpecDoc::Text(Seq::empty())
                            },
                    ),
                ),
            ),
            ")"@,
        ),
        _ => SpecDoc::Text(flat_token_text(token)),
    }
}

/// The trees of a token sequence.
pub open spec fn token_docs(tokens: Seq<SpecToken>) -> Seq<SpecDoc> {
    Seq::new(tokens.len(), |i: int| token_doc(tokens[i]))
}

/// The dump of a token sequence: the laid-out list and a line feed.
pub open spec fn tokens_dump(tokens: Seq<SpecToken>) -> Seq<char> {
    doc_text(SpecDoc::List(token_docs(tokens)), 0) + "\n"@
}

proof fn lemma_token_doc(token: SpecToken)
    ensures
        token matches SpecToken::Loop(body) ==> token_doc(token) == SpecDoc::Wrapped(
            "Loop(content="@,
            Box::new(SpecDoc::List(token_docs(body))),
            ")"@,
        ),
        token matches SpecToken::If(o, body) ==> token_doc(token) == SpecDoc::Wrapped(
            "If(offset="@ + signed_decimal(o as int) + ", content="@,
            Box::new(SpecDoc::List(token_docs(body))),
            ")"@,
        ),
{
    match token {
        SpecToken::Loop(body) => {
            let inner = *(token_doc(token)->Wrapped_1);
            assert(inner->List_0 =~= token_docs(body));
        },
        SpecToken::If(o, body) => {
            let inner = *(token_doc(token)->Wrapped_1);
            assert(inner->List_0 =~= token_docs(body));
        },
        _ => {},
    }
}

fn pair_text(name: &str, a: i32, second: &str, b: i32) -> (d: Doc)
    ensures
        d.deep_view() == SpecDoc::Text(
            name@ + signed_decimal(a as int) + second@ + signed_decimal(b as int) + ")"@,
        ),
{
    let mut t = String::from_str(name);
    append_signed_decimal(&mut t, a as i64);
    t.append(second);
    append_signed_decimal(&mut t, b as i64);
    t.append(")");
    assert(t@ =~= name@ + signed_decimal(a as int) + second@ + signed_decimal(b as int) + ")"@);
    Doc::Text(t)
}

fn single_text(name: &str, a: i32) -> (d: Doc)
    ensures
        d.deep_view() == SpecDoc::Text(name@ + signed_decimal(a as int) + ")"@),
{
    let mut t = String::from_str(name);
    append_signed_decimal(&mut t, a as i64);
    t.append(")");
    assert(t@ =~= name@ + signed_decimal(a as int) + ")"@);
    Doc::Text(t)
}

fn token_to_doc(token: &Token) -> (d: Doc)
    ensures
        d.deep_view() == token_doc(token.deep_view()),
    decreases token, 0nat,
{
    proof {
        lemma_token_doc(token.deep_view());
    }
    match token {
        Token::Output => text("Output"),
        Token::Input => text("Input"),
        Token::Move(o) => single_text("Move(offset=", *o),
        Token::Add(o, v) => pair_text("Add(offset=", *o, ", value=", *v),
        Token::Assign(o, v) => pair_text("Set(offset=", *o, ", value=", *v),
        Token::MulCopy(s, d, m) => {
            let mut t = String::from_str("MulCopy(src=");
            append_signed_decimal(&mut t, *s as i64);
            t.append(", dest=");
            append_signed_decimal(&mut t, *d as i64);
            t.append(", mul=");
            append_signed_decimal(&mut t, *m as i64);
            t.append(")");
            assert(t@ =~= flat_token_text(token.deep_view()));
            Doc::Text(t)
        },
        Token::Scan(o) => single_text("Scan(offset=", *o),
        Token::LoadOut(o, a) => pair_text("LoadOut(offset=", *o, ", add=", *a),
        Token::LoadOutSet(v) => single_text("LoadOutSet(value=", *v),
        Token::Loop(body) => {
            proof {
                lemma_loop_token_view(*body);
            }
            let inner = tokens_to_doc(body.as_slice());
            wrapped(String::from_str("Loop(content="), inner, ")")
        },
        Token::If(o, body) => {
            proof {
                lemma_if_token_view(*o, *body);
            }
            let inner = tokens_to_doc(body.as_slice());
            let mut before = String::from_str("If(offset=");
            append_signed_decimal(&mut before, *o as i64);
            before.append(", content=");
            assert(before@ =~= "If(offset="@ + signed_decimal(*o as int) + ", content="@);
            wrapped(before, inner, ")")
        },
    }
}

/// The tree of a token sequence.
pub fn tokens_to_doc(tokens: &[Token]) -> (d: Doc)
    ensures
        d.deep_view() == SpecDoc::List(token_docs(tokens.deep_view())),
    decreases tokens@, 1nat,
{
    let ghost all = tokens.deep_view();
    let mut items: Vec<Doc> = Vec::new();
    let mut i: usize = 0;
    while i < tokens.len()
        invariant
            i <= tokens.len(),
            all == tokens.deep_view(),
            docs_view(items@).len() == i,
            forall|k: int| 0 <= k < i ==> docs_view(items@)[k] == token_doc(all[k]),
        decreases tokens.len() - i,
    {
        assert(all[i as int] == tokens@[i as int].deep_view());
        push_doc(&mut items, token_to_doc(&tokens[i]));
        i = i + 1;
    }
    assert(docs_view(items@) =~= token_docs(all));
    list(items)
}

/// The dump of a token sequence.
pub fn dump_tokens(tokens: &[Token]) -> (s: String)
    ensures
        s@ == tokens_dump(tokens.deep_view()),
{
    let mut s = to_text(&tokens_to_doc(tokens));
    s.append("\n");
    s
}

/// The tree of a step of the gathered form.
pub open spec fn step_doc(step: SpecSimpleAddIR) -> SpecDoc
    decreases step,
{
    match step {
        SpecSimpleAddIR::Output => SpecDoc::Text("Output"@),
        SpecSimpleAddIR::Input => SpecDoc::Text("Input"@),
        SpecSimpleAddIR::Loop(body) => SpecDoc::Tuple(
            "Loop"@,
            seq![
                SpecDoc::List(
                    Seq::new(
                        body.len(),
                        |i: int|
                            if 0 <= i < body.len() {
                                step_doc(body[i])
                            } else {
                                SpecDoc::Text(Seq::empty())
                            },
                    ),
                ),
            ],
        ),
        SpecSimpleAddIR::Adds(adds) => SpecDoc::Tuple("Adds"@, seq![offsets_doc(adds)]),
        SpecSimpleAddIR::Shift(k) => SpecDoc::Tuple("Shift"@, seq![number_doc(k as int)]),
    }
}

/// The trees of a gathered form.
pub open spec fn step_docs(ir: Seq<SpecSimpleAddIR>) -> Seq<SpecDoc> {
    Seq::new(ir.len(), |i: int| step_doc(ir[i]))
}

/// The dump of a gathered form: the laid-out list and a line feed.
pub open spec fn gathered_dump(ir: Seq<SpecSimpleAddIR>) -> Seq<char> {
    doc_text(SpecDoc::List(step_docs(ir)), 0) + "\n"@
}

proof fn lemma_step_doc(step: SpecSimpleAddIR)
    ensures
        step matches SpecSimpleAddIR::Loop(body) ==> step_doc(step) == SpecDoc::Tuple(
            "Loop"@,
            seq![SpecDoc::List(step_docs(body))],
        ),
{
    match step {
        SpecSimpleAddIR::Loop(body) => {
            let items = step_doc(step)->Tuple_1;
            assert(items[0]->List_0 =~= step_docs(body));
            assert(items =~= seq![SpecDoc::List(step_docs(body))]);
        },
        _ => {},
    }
}

fn step_to_doc(step: &SimpleAddIR) -> (d: Doc)
    ensures
        d.deep_view() == step_doc(step.deep_view()),
    decreases step, 0nat,
{
    proof {
        lemma_step_doc(step.deep_view());
    }
    match step {
        SimpleAddIR::Output => text("Output"),
        SimpleAddIR::Input => text("Input"),
        SimpleAddIR::Loop(body) => {
            proof {
                lemma_loop_step_view(*body);
            }
            tuple1("Loop", steps_to_doc(body.as_slice()))
        },
        SimpleAddIR::Adds(adds) => tuple1("Adds", offsets(adds)),
        SimpleAddIR::Shift(k) => tuple1("Shift", number(*k as i64)),
    }
}

/// The tree of a gathered form.
pub fn steps_to_doc(ir: &[SimpleAddIR]) -> (d: Doc)
    ensures
        d.deep_view() == SpecDoc::List(step_docs(ir.deep_view())),
    decreases ir@, 1nat,
{
    let ghost all = ir.deep_view();
    let mut items: Vec<Doc> = Vec::new();
    let mut i: usize = 0;
    while i < ir.len()
        invariant
            i <= ir.len(),
            all == ir.deep_view(),
            docs_view(items@).len() == i,
            forall|k: int| 0 <= k < i ==> docs_view(items@)[k] == step_doc(all[k]),
        decreases ir.len() - i,
    {
        assert(all[i as int] == ir@[i as int].deep_view());
        push_doc(&mut items, step_to_doc(&ir[i]));
        i = i + 1;
    }
    assert(docs_view(items@) =~= step_docs(all));
    list(items)
}

/// The dump of a gathered form.
pub fn dump_steps(ir: &[SimpleAddIR]) -> (s: String)
    ensures
        s@ == gathered_dump(ir.deep_view()),
{
    let mut s = to_text(&steps_to_doc(ir));
    s.append("\n");
    s
}

/// The tree of a node index.
pub open spec fn node_doc(node: Node) -> SpecDoc {
    SpecDoc::Tuple("Node"@, seq![unsigned_doc(node.0 as nat)])
}

/// The tree of what a node computes.
pub open spec fn value_doc(value: Value) -> SpecDoc {
    match value {
        Value::Tape(o) => SpecDoc::Tuple("Tape"@, seq![number_doc(o as int)]),
        Value::Const(v) => SpecDoc::Tuple("Const"@, seq![number_doc(v as int)]),
        Value::Multiply(a, b) => SpecDoc::Tuple("Multiply"@, seq![node_doc(a), node_doc(b)]),
        Value::Add(a, b) => SpecDoc::Tuple("Add"@, seq![node_doc(a), node_doc(b)]),
    }
}

/// The tree of a graph: its nodes in order, its terminals in ascending
/// order of offset, and its flag.
pub open spec fn dag_doc(d: SpecDAG) -> SpecDoc {
    SpecDoc::Record(
        "DAG"@,
        seq![
            ("nodes"@, SpecDoc::List(Seq::new(d.nodes.len(), |i: int| value_doc(d.nodes[i])))),
            (
                "terminals"@,
                SpecDoc::Entries(
                    Seq::new(
                        d.terminals.len(),
                        |i: int|
                            (number_doc(d.terminals[i].0 as int), node_doc(d.terminals[i].1)),
                    ),
                ),
            ),
            ("zeroed"@, flag_doc(d.zeroed)),
        ],
    )
}

/// The tree of a step of the intermediate form.
pub open spec fn ir_step_doc(step: SpecIR) -> SpecDoc
    decreases step,
{
    match step {
        SpecIR::Output(v) => SpecDoc::Tuple("Output"@, seq![rval_doc(v)]),
        SpecIR::Input(o) => SpecDoc::Tuple("Input"@, seq![number_doc(o as int)]),
        SpecIR::Loop(o, body, e) => SpecDoc::Tuple(
            "Loop"@,
            seq![
                number_doc(o as int),
                SpecDoc::List(
                    Seq::new(
                        body.len(),
                        |i: int|
                            if 0 <= i < body.len() {
                                ir_step_doc(body[i])
                            } else {
                                SpecDoc::Text(Seq::empty())
                            },
                    ),
                ),
                number_doc(e as int),
            ],
        ),
        SpecIR::Expr(d) => SpecDoc::Tuple("Expr"@, seq![dag_doc(d)]),
    }
}

/// The trees of an intermediate form.
pub open spec fn ir_docs(ir: Seq<SpecIR>) -> Seq<SpecDoc> {
    Seq::new(ir.len(), |i: int| ir_step_doc(ir[i]))
}

/// The dump of an intermediate form: the laid-out list.
pub open spec fn ir_dump(ir: Seq<SpecIR>) -> Seq<char> {
    doc_text(SpecDoc::List(ir_docs(ir)), 0)
}

proof fn lemma_ir_step_doc(step: SpecIR)
    ensures
        step matches SpecIR::Loop(o, body, e) ==> ir_step_doc(step) == SpecDoc::Tuple(
            "Loop"@,
            seq![number_doc(o as int), SpecDoc::List(ir_docs(body)), number_doc(e as int)],
        ),
{
    match step {
        SpecIR::Loop(o, body, e) => {
            let items = ir_step_doc(step)->Tuple_1;
            assert(items[1]->List_0 =~= ir_docs(body));
            assert(items =~= seq![
                number_doc(o as int),
                SpecDoc::List(ir_docs(body)),
                number_doc(e as int),
            ]);
        },
        _ => {},
    }
}

fn node_to_doc(node: Node) -> (d: Doc)
    ensures
        d.deep_view() == node_doc(node),
{
    tuple1("Node", unsigned(node.0 as u64))
}

fn value_to_doc(value: Value) -> (d: Doc)
    ensures
        d.deep_view() == value_doc(value),
{
    match value {
        Value::Tape(o) => tuple1("Tape", number(o as i64)),
        Value::Const(v) => tuple1("Const", number(v as i64)),
        Value::Multiply(a, b) => tuple2("Multiply", node_to_doc(a), node_to_doc(b)),
        Value::Add(a, b) => tuple2("Add", node_to_doc(a), node_to_doc(b)),
    }
}

fn dag_to_doc(dag: &DAG) -> (d: Doc)
    ensures
        d.deep_view() == dag_doc(dag@),
{
    let ghost g = dag@;
    let mut nodes: Vec<Doc> = Vec::new();
    let mut i: usize = 0;
    while i < dag.len()
        invariant
            i <= g.nodes.len(),
            g == dag@,
            docs_view(nodes@).len() == i,
            forall|k: int| 0 <= k < i ==> docs_view(nodes@)[k] == value_doc(g.nodes[k]),
        decreases g.nodes.len() - i,
    {
        push_doc(&mut nodes, value_to_doc(dag.value(Node(i))));
        i = i + 1;
    }
    let terminals = dag.terminals();
    let mut entries: Vec<(Doc, Doc)> = Vec::new();
    let mut j: usize = 0;
    while j < terminals.len()
        invariant
            j <= terminals@.len(),
            terminals@ == g.terminals,
            entries@.len() == j,
            forall|k: int|
                0 <= k < j ==> (entries@[k].0.deep_view(), entries@[k].1.deep_view()) == (
                    number_doc(g.terminals[k].0 as int),
                    node_doc(g.terminals[k].1),
                ),
        decreases terminals@.len() - j,
    {
        let (offset, node) = terminals[j];
        entries.push((number(offset as i64), node_to_doc(node)));
        j = j + 1;
    }
    let node_list = list(nodes);
    let entry_map = Doc::Entries(entries);
    let zeroed = flag(dag.is_zeroed());
    proof {
        lemma_doc_view(entry_map);
        assert(docs_view(nodes@) =~= Seq::new(g.nodes.len(), |i: int| value_doc(g.nodes[i])));
        assert(entries_view(entries@) =~= Seq::new(
            g.terminals.len(),
            |i: int| (number_doc(g.terminals[i].0 as int), node_doc(g.terminals[i].1)),
        ));
    }
    let mut fields: Vec<(String, Doc)> = Vec::new();
    fields.push((String::from_str("nodes"), node_list));
    fields.push((String::from_str("terminals"), entry_map));
    fields.push((String::from_str("zeroed"), zeroed));
    let d = Doc::Record(String::from_str("DAG"), fields);
    proof {
        lemma_doc_view(d);
        assert(fields_view(fields@) =~= dag_doc(g)->Record_1);
    }
    d
}

fn ir_step_to_doc(step: &IR) -> (d: Doc)
    ensures
        d.deep_view() == ir_step_doc(step.deep_view()),
    decreases step, 0nat,
{
    proof {
        lemma_ir_step_doc(step.deep_view());
    }
    match step {
        IR::Output(v) => tuple1("Output", rval_to_doc(v)),
        IR::Input(o) => tuple1("Input", number(*o as i64)),
        IR::Loop(o, body, e) => {
            proof {
                lemma_loop_ir_view(*o, *body, *e);
            }
            tuple3("Loop", number(*o as i64), ir_to_doc(body.as_slice()), number(*e as i64))
        },
        IR::Expr(dag) => tuple1("Expr", dag_to_doc(dag)),
    }
}

/// The tree of an intermediate form.
pub fn ir_to_doc(ir: &[IR]) -> (d: Doc)
    ensures
        d.deep_view() == SpecDoc::List(ir_docs(ir.deep_view())),
    decreases ir@, 1nat,
{
    let ghost all = ir.deep_view();
    let mut items: Vec<Doc> = Vec::new();
    let mut i: usize = 0;
    while i < ir.len()
        invariant
            i <= ir.len(),
            all == ir.deep_view(),
            docs_view(items@).len() == i,
            forall|k: int| 0 <= k < i ==> docs_view(items@)[k] == ir_step_doc(all[k]),
        decreases ir.len() - i,
    {
        assert(all[i as int] == ir@[i as int].deep_view());
        push_doc(&mut items, ir_step_to_doc(&ir[i]));
        i = i + 1;
    }
    assert(docs_view(items@) =~= ir_docs(all));
    list(items)
}

/// The dump of an intermediate form.
pub fn dump_ir(ir: &[IR]) -> (s: String)
    ensures
        s@ == ir_dump(ir.deep_view()),
{
    to_text(&ir_to_doc(ir))
}

} // verus!
