//! Pretty-printed dumps of the intermediate forms, for debugging.
//!
//! A form is first described as a tree of texts, tuples, lists, records and
//! maps, and the tree is then laid out: every item of a tuple, a list, a
//! record or a map stands on a line of its own, four spaces deeper than
//! what holds it, and ends with a comma.

use vstd::prelude::*;
use vstd::string::*;
use crate::offset_map::OffsetMap;
use crate::text::{
    append_decimal, append_signed_decimal, append_spaces, decimal, signed_decimal, spaces,
};

verus! {

/// A tree that describes a value.
pub enum Doc {
    /// A text as it stands.
    Text(String),
    /// A name and, between round brackets, the items. Without items the
    /// name stands alone.
    Tuple(String, Vec<Doc>),
    /// The items between square brackets.
    List(Vec<Doc>),
    /// A name and, between braces, the named fields.
    Record(String, Vec<(String, Doc)>),
    /// The entries, each a key and a value, between braces.
    Entries(Vec<(Doc, Doc)>),
    /// A tree between two texts.
    Wrapped(String, Box<Doc>, String),
}

/// The mathematical value of a [`Doc`].
pub enum SpecDoc {
    Text(Seq<char>),
    Tuple(Seq<char>, Seq<SpecDoc>),
    List(Seq<SpecDoc>),
    Record(Seq<char>, Seq<(Seq<char>, SpecDoc)>),
    Entries(Seq<(SpecDoc, SpecDoc)>),
    Wrapped(Seq<char>, Box<SpecDoc>, Seq<char>),
}

/// The value of a tree.
pub open spec fn doc_view(doc: Doc) -> SpecDoc
    decreases doc,
{
    match doc {
        Doc::Text(t) => SpecDoc::Text(t@),
        Doc::Tuple(name, items) => SpecDoc::Tuple(
            name@,
            Seq::new(
                items@.len(),
                |i: int|
                    if 0 <= i < items@.len() {
                        doc_view(items@[i])
                    } else {
                        SpecDoc::Text(Seq::empty())
                    },
            ),
        ),
        Doc::List(items) => SpecDoc::List(
            Seq::new(
                items@.len(),
                |i: int|
                    if 0 <= i < items@.len() {
                        doc_view(items@[i])
                    } else {
                        SpecDoc::Text(Seq::empty())
                    },
            ),
        ),
        Doc::Record(name, fields) => SpecDoc::Record(
            name@,
            Seq::new(
                fields@.len(),
                |i: int|
                    if 0 <= i < fields@.len() {
                        (fields@[i].0@, doc_view(fields@[i].1))
                    } else {
                        (Seq::empty(), SpecDoc::Text(Seq::empty()))
                    },
            ),
        ),
        Doc::Entries(entries) => SpecDoc::Entries(
            Seq::new(
                entries@.len(),
                |i: int|
                    if 0 <= i < entries@.len() {
                        (doc_view(entries@[i].0), doc_view(entries@[i].1))
                    } else {
                        (SpecDoc::Text(Seq::empty()), SpecDoc::Text(Seq::empty()))
                    },
            ),
        ),
        Doc::Wrapped(before, inner, after) => SpecDoc::Wrapped(
            before@,
            Box::new(doc_view(*inner)),
            after@,
        ),
    }
}

impl DeepView for Doc {
    type V = SpecDoc;

    open spec fn deep_view(&self) -> SpecDoc {
        doc_view(*self)
    }
}

/// The value of a list of trees.
pub open spec fn docs_view(docs: Seq<Doc>) -> Seq<SpecDoc> {
    Seq::new(docs.len(), |i: int| doc_view(docs[i]))
}

/// The value of a list of named trees.
pub open spec fn fields_view(fields: Seq<(String, Doc)>) -> Seq<(Seq<char>, SpecDoc)> {
    Seq::new(fields.len(), |i: int| (fields[i].0@, doc_view(fields[i].1)))
}

/// The value of a list of pairs of trees.
pub open spec fn entries_view(entries: Seq<(Doc, Doc)>) -> Seq<(SpecDoc, SpecDoc)> {
    Seq::new(entries.len(), |i: int| (doc_view(entries[i].0), doc_view(entries[i].1)))
}

pub proof fn lemma_doc_view(doc: Doc)
    ensures
        doc matches Doc::Text(t) ==> doc_view(doc) == SpecDoc::Text(t@),
        doc matches Doc::Tuple(name, items) ==> doc_view(doc) == SpecDoc::Tuple(
            name@,
            docs_view(items@),
        ),
        doc matches Doc::List(items) ==> doc_view(doc) == SpecDoc::List(docs_view(items@)),
        doc matches Doc::Record(name, fields) ==> doc_view(doc) == SpecDoc::Record(
            name@,
            fields_view(fields@),
        ),
        doc matches Doc::Entries(entries) ==> doc_view(doc) == SpecDoc::Entries(
            entries_view(entries@),
        ),
        doc matches Doc::Wrapped(before, inner, after) ==> doc_view(doc) == SpecDoc::Wrapped(
            before@,
            Box::new(doc_view(*inner)),
            after@,
        ),
{
    match doc {
        Doc::Tuple(name, items) => {
            assert(doc_view(doc)->Tuple_1 =~= docs_view(items@));
        },
        Doc::List(items) => {
            assert(doc_view(doc)->List_0 =~= docs_view(items@));
        },
        Doc::Record(name, fields) => {
            assert(doc_view(doc)->Record_1 =~= fields_view(fields@));
        },
        Doc::Entries(entries) => {
            assert(doc_view(doc)->Entries_0 =~= entries_view(entries@));
        },
        _ => {},
    }
}

/// The level one deeper; the deepest level that can be counted stands for
/// all beyond it.
pub open spec fn deeper(level: usize) -> usize {
    if level < usize::MAX {
        (level + 1) as usize
    } else {
        level
    }
}

/// The indentation of a level: four spaces for each.
pub open spec fn indent(level: usize) -> Seq<char>
    decreases level,
{
    if level == 0 {
        Seq::empty()
    } else {
        indent((level - 1) as usize) + spaces(4)
    }
}

/// The laid-out text of a tree at a level.
pub open spec fn doc_text(doc: SpecDoc, level: usize) -> Seq<char>
    decreases doc, 0nat,
{
    match doc {
        SpecDoc::Text(t) => t,
        SpecDoc::Tuple(name, items) => if items.len() == 0 {
            name
        } else {
            name + "(\n"@ + items_text(items, deeper(level)) + indent(level) + ")"@
        },
        SpecDoc::List(items) => if items.len() == 0 {
            "[]"@
        } else {
            "[\n"@ + items_text(items, deeper(level)) + indent(level) + "]"@
        },
        SpecDoc::Record(name, fields) => name + " {\n"@ + fields_text(fields, deeper(level))
            + indent(level) + "}"@,
        SpecDoc::Entries(entries) => if entries.len() == 0 {
            "{}"@
        } else {
            "{\n"@ + entries_text(entries, deeper(level)) + indent(level) + "}"@
        },
        SpecDoc::Wrapped(before, inner, after) => before + doc_text(*inner, level) + after,
    }
}

/// The lines of the items of a tuple or a list.
pub open spec fn items_text(items: Seq<SpecDoc>, level: usize) -> Seq<char>
    decreases items, 1nat,
{
    if items.len() == 0 {
        Seq::empty()
    } else {
        items_text(items.drop_last(), level) + indent(level) + doc_text(items.last(), level)
            + ",\n"@
    }
}

/// The lines of the fields of a record.
pub open spec fn fields_text(fields: Seq<(Seq<char>, SpecDoc)>, level: usize) -> Seq<char>
    decreases fields, 1nat,
{
    if fields.len() == 0 {
        Seq::empty()
    } else {
        fields_text(fields.drop_last(), level) + indent(level) + fields.last().0 + ": "@
            + doc_text(fields.last().1, level) + ",\n"@
    }
}

/// The lines of the entries of a map.
pub open spec fn entries_text(entries: Seq<(SpecDoc, SpecDoc)>, level: usize) -> Seq<char>
    decreases entries, 1nat,
{
    if entries.len() == 0 {
        Seq::empty()
    } else {
        entries_text(entries.drop_last(), level) + indent(level) + doc_text(
            entries.last().0,
            level,
        ) + ": "@ + doc_text(entries.last().1, level) + ",\n"@
    }
}

/// Whether `items` are the items of the tuple or the list `doc`.
pub open spec fn holds(doc: Doc, items: Seq<Doc>) -> bool {
    match doc {
        Doc::Tuple(_, its) => its@ == items,
        Doc::List(its) => its@ == items,
        _ => false,
    }
}

/// Whether `fields` are the fields of the record `doc`.
pub open spec fn holds_fields(doc: Doc, fields: Seq<(String, Doc)>) -> bool {
    match doc {
        Doc::Record(_, fs) => fs@ == fields,
        _ => false,
    }
}

/// Whether `entries` are the entries of the map `doc`.
pub open spec fn holds_entries(doc: Doc, entries: Seq<(Doc, Doc)>) -> bool {
    match doc {
        Doc::Entries(es) => es@ == entries,
        _ => false,
    }
}

fn append_indent(out: &mut String, level: usize)
    ensures
        final(out)@ == old(out)@ + indent(level),
{
    let mut k: usize = 0;
    assert(out@ =~= old(out)@ + indent(0));
    while k < level
        invariant
            k <= level,
            out@ == old(out)@ + indent(k),
        decreases level - k,
    {
        append_spaces(out, 4);
        k = k + 1;
        assert(out@ =~= old(out)@ + indent(k));
    }
}

fn deeper_level(level: usize) -> (next: usize)
    ensures
        next == deeper(level),
{
    if level < usize::MAX {
        level + 1
    } else {
        level
    }
}

/// Appends the laid-out text of a tree at a level.
pub fn render(doc: &Doc, level: usize, out: &mut String)
    ensures
        final(out)@ == old(out)@ + doc_text(doc.deep_view(), level),
    decreases doc,
{
    proof {
        lemma_doc_view(*doc);
    }
    let next = deeper_level(level);
    match doc {
        Doc::Text(t) => {
            out.append(t.as_str());
        },
        Doc::Tuple(name, items) => {
            out.append(name.as_str());
            if items.len() > 0 {
                out.append("(\n");
                let ghost start = out@;
                let ghost all = docs_view(items@);
                let mut i: usize = 0;
                assert(all.subrange(0, 0) =~= Seq::<SpecDoc>::empty());
                assert(out@ =~= start + items_text(all.subrange(0, 0), next));
                while i < items.len()
                    invariant
                        i <= items.len(),
                        all == docs_view(items@),
                        out@ == start + items_text(all.subrange(0, i as int), next),
                        holds(*doc, items@),
                    decreases items.len() - i,
                {
                    assert(decreases_to!(*doc => items@[i as int]));
                    let ghost part = all.subrange(0, i + 1);
                    assert(part.drop_last() =~= all.subrange(0, i as int));
                    assert(part.last() == items@[i as int].deep_view());
                    append_indent(out, next);
                    render(&items[i], next, out);
                    out.append(",\n");
                    i = i + 1;
                    assert(out@ =~= start + items_text(part, next));
                }
                assert(all.subrange(0, i as int) =~= all);
                append_indent(out, level);
                out.append(")");
            }
            assert(out@ =~= old(out)@ + doc_text(doc.deep_view(), level));
        },
        Doc::List(items) => {
            if items.len() == 0 {
                out.append("[]");
            } else {
                out.append("[\n");
                let ghost start = out@;
                let ghost all = docs_view(items@);
                let mut i: usize = 0;
                assert(all.subrange(0, 0) =~= Seq::<SpecDoc>::empty());
                assert(out@ =~= start + items_text(all.subrange(0, 0), next));
                while i < items.len()
                    invariant
                        i <= items.len(),
                        all == docs_view(items@),
                        out@ == start + items_text(all.subrange(0, i as int), next),
                        holds(*doc, items@),
                    decreases items.len() - i,
                {
                    assert(decreases_to!(*doc => items@[i as int]));
                    let ghost part = all.subrange(0, i + 1);
                    assert(part.drop_last() =~= all.subrange(0, i as int));
                    assert(part.last() == items@[i as int].deep_view());
                    append_indent(out, next);
                    render(&items[i], next, out);
                    out.append(",\n");
                    i = i + 1;
                    assert(out@ =~= start + items_text(part, next));
                }
                assert(all.subrange(0, i as int) =~= all);
                append_indent(out, level);
                out.append("]");
            }
            assert(out@ =~= old(out)@ + doc_text(doc.deep_view(), level));
        },
        Doc::Record(name, fields) => {
            out.append(name.as_str());
            out.append(" {\n");
            let ghost start = out@;
            let ghost all = fields_view(fields@);
            let mut i: usize = 0;
            assert(all.subrange(0, 0) =~= Seq::<(Seq<char>, SpecDoc)>::empty());
            assert(out@ =~= start + fields_text(all.subrange(0, 0), next));
            while i < fields.len()
                invariant
                    i <= fields.len(),
                    all == fields_view(fields@),
                    out@ == start + fields_text(all.subrange(0, i as int), next),
                    holds_fields(*doc, fields@),
                decreases fields.len() - i,
            {
                assert(decreases_to!(*doc => fields@[i as int]));
                assert(decreases_to!(fields@[i as int] => fields@[i as int].1));
                assert(decreases_to!(*doc => fields@[i as int].1));
                let ghost part = all.subrange(0, i + 1);
                assert(part.drop_last() =~= all.subrange(0, i as int));
                assert(part.last() == (fields@[i as int].0@, fields@[i as int].1.deep_view()));
                append_indent(out, next);
                out.append(fields[i].0.as_str());
                out.append(": ");
                render(&fields[i].1, next, out);
                out.append(",\n");
                i = i + 1;
                assert(out@ =~= start + fields_text(part, next));
            }
            assert(all.subrange(0, i as int) =~= all);
            append_indent(out, level);
            out.append("}");
            assert(out@ =~= old(out)@ + doc_text(doc.deep_view(), level));
        },
        Doc::Entries(entries) => {
            if entries.len() == 0 {
                out.append("{}");
            } else {
                out.append("{\n");
                let ghost start = out@;
                let ghost all = entries_view(entries@);
                let mut i: usize = 0;
                assert(all.subrange(0, 0) =~= Seq::<(SpecDoc, SpecDoc)>::empty());
                assert(out@ =~= start + entries_text(all.subrange(0, 0), next));
                while i < entries.len()
                    invariant
                        i <= entries.len(),
                        all == entries_view(entries@),
                        out@ == start + entries_text(all.subrange(0, i as int), next),
                        holds_entries(*doc, entries@),
                    decreases entries.len() - i,
                {
                    assert(decreases_to!(*doc => entries@[i as int]));
                    assert(decreases_to!(entries@[i as int] => entries@[i as int].0));
                    assert(decreases_to!(entries@[i as int] => entries@[i as int].1));
                    let ghost part = all.subrange(0, i + 1);
                    assert(part.drop_last() =~= all.subrange(0, i as int));
                    assert(part.last() == (
                        entries@[i as int].0.deep_view(),
                        entries@[i as int].1.deep_view(),
                    ));
                    append_indent(out, next);
                    render(&entries[i].0, next, out);
                    out.append(": ");
                    render(&entries[i].1, next, out);
                    out.append(",\n");
                    i = i + 1;
                    assert(out@ =~= start + entries_text(part, next));
                }
                assert(all.subrange(0, i as int) =~= all);
                append_indent(out, level);
                out.append("}");
            }
            assert(out@ =~= old(out)@ + doc_text(doc.deep_view(), level));
        },
        Doc::Wrapped(before, inner, after) => {
            out.append(before.as_str());
            render(inner, level, out);
            out.append(after.as_str());
            assert(out@ =~= old(out)@ + doc_text(doc.deep_view(), level));
        },
    }
}

/// The laid-out text of a tree.
pub fn to_text(doc: &Doc) -> (text: String)
    ensures
        text@ == doc_text(doc.deep_view(), 0),
{
    let mut text = String::new();
    render(doc, 0, &mut text);
    text
}

/// The tree of a number.
pub open spec fn number_doc(n: int) -> SpecDoc {
    SpecDoc::Text(signed_decimal(n))
}

/// The tree of a name: the name between double quotes.
pub open spec fn quoted_doc(name: Seq<char>) -> SpecDoc {
    SpecDoc::Text("\""@ + name + "\""@)
}

/// The tree of a truth value.
pub open spec fn flag_doc(b: bool) -> SpecDoc {
    SpecDoc::Text(if b {
        "true"@
    } else {
        "false"@
    })
}

pub fn number(n: i64) -> (d: Doc)
    ensures
        d.deep_view() == number_doc(n as int),
{
    let mut t = String::new();
    append_signed_decimal(&mut t, n);
    assert(t@ =~= signed_decimal(n as int));
    Doc::Text(t)
}

pub fn quoted(name: &String) -> (d: Doc)
    ensures
        d.deep_view() == quoted_doc(name@),
{
    let mut t = String::from_str("\"");
    t.append(name.as_str());
    t.append("\"");
    Doc::Text(t)
}

pub fn flag(b: bool) -> (d: Doc)
    ensures
        d.deep_view() == flag_doc(b),
{
    if b {
        Doc::Text(String::from_str("true"))
    } else {
        Doc::Text(String::from_str("false"))
    }
}

/// The tree of a number that is not negative.
pub open spec fn unsigned_doc(n: nat) -> SpecDoc {
    SpecDoc::Text(decimal(n))
}

pub fn unsigned(n: u64) -> (d: Doc)
    ensures
        d.deep_view() == unsigned_doc(n as nat),
{
    let mut t = String::new();
    append_decimal(&mut t, n);
    assert(t@ =~= decimal(n as nat));
    Doc::Text(t)
}

pub fn text(t: &str) -> (d: Doc)
    ensures
        d.deep_view() == SpecDoc::Text(t@),
{
    Doc::Text(String::from_str(t))
}

/// Appends a tree to a list of trees.
pub fn push_doc(items: &mut Vec<Doc>, d: Doc)
    ensures
        docs_view(final(items)@) == docs_view(old(items)@).push(d.deep_view()),
{
    items.push(d);
    assert(docs_view(items@) =~= docs_view(old(items)@).push(d.deep_view()));
}

pub fn tuple(name: &str, items: Vec<Doc>) -> (d: Doc)
    ensures
        d.deep_view() == SpecDoc::Tuple(name@, docs_view(items@)),
{
    let d = Doc::Tuple(String::from_str(name), items);
    proof {
        lemma_doc_view(d);
    }
    d
}

pub fn list(items: Vec<Doc>) -> (d: Doc)
    ensures
        d.deep_view() == SpecDoc::List(docs_view(items@)),
{
    let d = Doc::List(items);
    proof {
        lemma_doc_view(d);
    }
    d
}

pub fn wrapped(before: String, inner: Doc, after: &str) -> (d: Doc)
    ensures
        d.deep_view() == SpecDoc::Wrapped(before@, Box::new(inner.deep_view()), after@),
{
    Doc::Wrapped(before, Box::new(inner), String::from_str(after))
}

/// A tuple of one item.
pub fn tuple1(name: &str, a: Doc) -> (d: Doc)
    ensures
        d.deep_view() == SpecDoc::Tuple(name@, seq![a.deep_view()]),
{
    let mut items: Vec<Doc> = Vec::new();
    push_doc(&mut items, a);
    assert(docs_view(items@) =~= seq![a.deep_view()]);
    tuple(name, items)
}

/// A tuple of two items.
pub fn tuple2(name: &str, a: Doc, b: Doc) -> (d: Doc)
    ensures
        d.deep_view() == SpecDoc::Tuple(name@, seq![a.deep_view(), b.deep_view()]),
{
    let mut items: Vec<Doc> = Vec::new();
    push_doc(&mut items, a);
    push_doc(&mut items, b);
    assert(docs_view(items@) =~= seq![a.deep_view(), b.deep_view()]);
    tuple(name, items)
}

/// A tuple of three items.
pub fn tuple3(name: &str, a: Doc, b: Doc, c: Doc) -> (d: Doc)
    ensures
        d.deep_view() == SpecDoc::Tuple(name@, seq![a.deep_view(), b.deep_view(), c.deep_view()]),
{
    let mut items: Vec<Doc> = Vec::new();
    push_doc(&mut items, a);
    push_doc(&mut items, b);
    push_doc(&mut items, c);
    assert(docs_view(items@) =~= seq![a.deep_view(), b.deep_view(), c.deep_view()]);
    tuple(name, items)
}

/// The tree of a map from offsets to numbers, in the order of the entries.
pub open spec fn offsets_doc(entries: Seq<(i32, i32)>) -> SpecDoc {
    SpecDoc::Entries(
        Seq::new(
            entries.len(),
            |i: int| (number_doc(entries[i].0 as int), number_doc(entries[i].1 as int)),
        ),
    )
}

pub fn offsets(map: &OffsetMap<i32>) -> (d: Doc)
    ensures
        d.deep_view() == offsets_doc(map@),
{
    let mut entries: Vec<(Doc, Doc)> = Vec::new();
    let mut i: usize = 0;
    while i < map.len()
        invariant
            i <= map@.len(),
            entries@.len() == i,
            forall|k: int|
                0 <= k < i ==> (doc_view(entries@[k].0), doc_view(entries@[k].1)) == (
                    number_doc(map@[k].0 as int),
                    number_doc(map@[k].1 as int),
                ),
        decreases map@.len() - i,
    {
        let (offset, value) = map.entry(i);
        entries.push((number(offset as i64), number(value as i64)));
        i = i + 1;
    }
    let d = Doc::Entries(entries);
    proof {
        lemma_doc_view(d);
        assert(entries_view(entries@) =~= offsets_doc(map@)->Entries_0);
    }
    d
}

} // verus!
