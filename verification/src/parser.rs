//! The Brainfuck parser: source bytes to a tree of commands.
//!
//! Only the eight command bytes matter; every other byte is commentary.
//! Runs of `+`/`-` and of `<`/`>` are fused into one node while they are
//! recognised, and a run that sums to zero leaves no node. Deltas are 32-bit
//! and wrap.

use unicode_width::UnicodeWidthStr;
use vstd::prelude::*;
use vstd::string::*;
use crate::text::{append_decimal, append_spaces, decimal, spaces};

verus! {

/// One command of a parsed program.
#[derive(Debug, PartialEq, Eq)]
pub enum AST {
    /// Writes the current cell.
    Output,
    /// Reads one byte into the current cell.
    Input,
    /// Runs the body while the current cell is not zero.
    Loop(Vec<AST>),
    /// Adds to the current cell.
    Add(i32),
    /// Moves the data pointer.
    Shift(i32),
}

/// The mathematical value of an [`AST`] node: a loop body is a sequence.
pub enum SpecAST {
    Output,
    Input,
    Loop(Seq<SpecAST>),
    Add(i32),
    Shift(i32),
}

/// The value of a node.
pub open spec fn ast_view(a: AST) -> SpecAST
    decreases a,
{
    match a {
        AST::Output => SpecAST::Output,
        AST::Input => SpecAST::Input,
        AST::Loop(body) => SpecAST::Loop(
            Seq::new(
                body@.len(),
                |i: int|
                    if 0 <= i < body@.len() {
                        ast_view(body@[i])
                    } else {
                        SpecAST::Output
                    },
            ),
        ),
        AST::Add(n) => SpecAST::Add(n),
        AST::Shift(n) => SpecAST::Shift(n),
    }
}

impl DeepView for AST {
    type V = SpecAST;

    open spec fn deep_view(&self) -> SpecAST {
        ast_view(*self)
    }
}

/// The value of a loop node is the loop of the value of its body.
pub proof fn lemma_loop_view(body: Vec<AST>)
    ensures
        AST::Loop(body).deep_view() == SpecAST::Loop(body.deep_view()),
{
    let a = AST::Loop(body);
    let inner = Seq::new(
        body@.len(),
        |i: int|
            if 0 <= i < body@.len() {
                body@[i].deep_view()
            } else {
                SpecAST::Output
            },
    );
    assert(a.deep_view() is Loop);
    let x = a.deep_view()->Loop_0;
    assert(x.len() == body@.len());
    assert forall|i: int| 0 <= i < x.len() implies x[i] == body@[i].deep_view() by {}
    assert(x =~= body.deep_view());
}

/// The number of nodes of a program, loop bodies included.
pub open spec fn ast_size(ast: Seq<SpecAST>) -> nat
    decreases ast,
{
    if ast.len() == 0 {
        0
    } else {
        ast_size(ast.drop_last()) + 1 + match ast.last() {
            SpecAST::Loop(body) => ast_size(body),
            _ => 0,
        }
    }
}

/// The largest number of nodes of a program that the optimizers take: with
/// it every label and register number fits its 32 bits.
pub const MAX_AST_NODES: usize = 0x1000_0000;

/// What can be wrong with a source text.
#[derive(Debug, Clone, Copy, PartialEq, Eq, Structural)]
pub enum ParseErrorType {
    /// The text ends inside a loop.
    UnclosedLoop,
    /// A `]` stands where no loop is open.
    ExtraCloseLoop,
}

/// The byte `+`.
pub const PLUS: u8 = 43;

/// The byte `-`.
pub const MINUS: u8 = 45;

/// The byte `<`.
pub const LEFT: u8 = 60;

/// The byte `>`.
pub const RIGHT: u8 = 62;

/// The byte `[`.
pub const OPEN: u8 = 91;

/// The byte `]`.
pub const CLOSE: u8 = 93;

/// The byte `,`.
pub const COMMA: u8 = 44;

/// The byte `.`.
pub const DOT: u8 = 46;

/// The line feed byte.
pub const NEWLINE: u8 = 10;

pub open spec fn is_shift_byte(c: u8) -> bool {
    c == RIGHT || c == LEFT
}

pub open spec fn is_add_byte(c: u8) -> bool {
    c == PLUS || c == MINUS
}

/// The pending run and the nodes so far, once the byte `c` has been seen: a
/// pending shift ends at any byte but `<` and `>`, a pending add at any byte
/// but `+` and `-`.
pub open spec fn flush_before(c: u8, shift: i32, add: i32, out: Seq<SpecAST>) -> (
    i32,
    i32,
    Seq<SpecAST>,
) {
    if shift != 0 && !is_shift_byte(c) {
        (0i32, add, out.push(SpecAST::Shift(shift)))
    } else if add != 0 && !is_add_byte(c) {
        (shift, 0i32, out.push(SpecAST::Add(add)))
    } else {
        (shift, add, out)
    }
}

/// The nodes so far with the pending run, if any, added.
pub open spec fn flush_all(shift: i32, add: i32, out: Seq<SpecAST>) -> Seq<SpecAST> {
    if shift != 0 {
        out.push(SpecAST::Shift(shift))
    } else if add != 0 {
        out.push(SpecAST::Add(add))
    } else {
        out
    }
}

/// The outcome of parsing one block: the nodes, or the kind of error with the
/// byte position that it is reported at.
pub type SpecParse = Result<Seq<SpecAST>, (ParseErrorType, int)>;

/// Parses the block that continues at byte `i`, at nesting depth `level`,
/// with a pending run (`shift`, `add`) and the nodes `out` already read.
/// `start` is the position of the `[` that opened the block. Gives the
/// outcome and the position after the block.
pub open spec fn parse_block(
    code: Seq<u8>,
    i: int,
    start: int,
    level: nat,
    shift: i32,
    add: i32,
    out: Seq<SpecAST>,
) -> (SpecParse, int)
    decreases code.len() - i,
{
    if i < 0 || i >= code.len() {
        if level != 0 {
            (Err((ParseErrorType::UnclosedLoop, start)), i)
        } else {
            (Ok(flush_all(shift, add, out)), i)
        }
    } else {
        let c = code[i];
        let (shift, add, out) = flush_before(c, shift, add, out);
        if c == PLUS {
            parse_block(code, i + 1, start, level, shift, add.wrapping_add(1), out)
        } else if c == MINUS {
            parse_block(code, i + 1, start, level, shift, add.wrapping_sub(1), out)
        } else if c == RIGHT {
            parse_block(code, i + 1, start, level, shift.wrapping_add(1), add, out)
        } else if c == LEFT {
            parse_block(code, i + 1, start, level, shift.wrapping_sub(1), add, out)
        } else if c == OPEN {
            let (body, j) = parse_block(code, i + 1, i, level + 1, 0, 0, Seq::empty());
            match body {
                Err(e) => (Err(e), j),
                Ok(b) => if i < j <= code.len() {
                    parse_block(code, j, start, level, shift, add, out.push(SpecAST::Loop(b)))
                } else {
                    (Err((ParseErrorType::UnclosedLoop, start)), j)
                },
            }
        } else if c == CLOSE {
            if level == 0 {
                (Err((ParseErrorType::ExtraCloseLoop, i)), i + 1)
            } else {
                (Ok(flush_all(shift, add, out)), i + 1)
            }
        } else if c == COMMA {
            parse_block(code, i + 1, start, level, shift, add, out.push(SpecAST::Input))
        } else if c == DOT {
            parse_block(code, i + 1, start, level, shift, add, out.push(SpecAST::Output))
        } else {
            parse_block(code, i + 1, start, level, shift, add, out)
        }
    }
}

/// The outcome of parsing a whole source text.
pub open spec fn parse_spec(code: Seq<u8>) -> SpecParse {
    parse_block(code, 0, 0, 0, 0, 0, Seq::empty()).0
}

/// Where the line that holds byte `pos` begins: after the nearest line feed
/// before `pos`, or at the start of the text.
pub open spec fn line_start(code: Seq<u8>, pos: int) -> int
    decreases pos,
{
    if pos <= 0 {
        0
    } else if code[pos - 1] == NEWLINE {
        pos
    } else {
        line_start(code, pos - 1)
    }
}

/// Where the line that holds byte `pos` ends: at the nearest line feed at or
/// after `pos`, or at the end of the text.
pub open spec fn line_end(code: Seq<u8>, pos: int) -> int
    decreases code.len() - pos,
{
    if pos >= code.len() {
        code.len() as int
    } else if code[pos] == NEWLINE {
        pos
    } else {
        line_end(code, pos + 1)
    }
}

/// The number of line feeds among the first `n` bytes.
pub open spec fn count_newlines(code: Seq<u8>, n: int) -> nat
    decreases n,
{
    if n <= 0 {
        0
    } else {
        count_newlines(code, n - 1) + if code[n - 1] == NEWLINE {
            1nat
        } else {
            0nat
        }
    }
}

/// The mathematical value of a [`ParseError`].
pub struct SpecParseError {
    /// What is wrong.
    pub err: ParseErrorType,
    /// The bytes of the line that the error is reported on, without its line
    /// feed.
    pub line: Seq<u8>,
    /// The number of that line, counted from 1.
    pub linenum: nat,
    /// The number of bytes of the line that stand before the reported byte.
    pub offset: nat,
}

/// The error of kind `err` reported at byte `pos` of `code`.
pub open spec fn error_at(err: ParseErrorType, code: Seq<u8>, pos: int) -> SpecParseError {
    SpecParseError {
        err,
        line: code.subrange(line_start(code, pos), line_end(code, pos)),
        linenum: count_newlines(code, line_start(code, pos)) + 1,
        offset: (pos - line_start(code, pos)) as nat,
    }
}

/// The displayed width, in terminal columns, of a text: the result of
/// `unicode_width::UnicodeWidthStr::width` on it.
pub uninterp spec fn display_width(text: Seq<char>) -> nat;

/// The text that `String::from_utf8_lossy` makes of bytes: the decoded
/// characters, with a replacement character for what is not UTF-8.
pub uninterp spec fn utf8_lossy(bytes: Seq<u8>) -> Seq<char>;

/// Calls `unicode_width::UnicodeWidthStr::width`. The contract only names
/// the result: the width is a function of the characters alone.
#[verifier::external_body]
fn str_display_width(text: &str) -> (w: usize)
    ensures
        w == display_width(text@),
{
    UnicodeWidthStr::width(text)
}

/// Calls `String::from_utf8_lossy` and takes the text as an owned string. The
/// contract only names the result.
#[verifier::external_body]
fn bytes_to_text(bytes: &[u8]) -> (s: String)
    ensures
        s@ == utf8_lossy(bytes@),
{
    String::from_utf8_lossy(bytes).into_owned()
}

/// A parse error with the place it is reported at.
#[derive(Debug)]
pub struct ParseError {
    err: ParseErrorType,
    line: Vec<u8>,
    linenum: usize,
    offset: usize,
}

impl View for ParseError {
    type V = SpecParseError;

    closed spec fn view(&self) -> SpecParseError {
        SpecParseError {
            err: self.err,
            line: self.line@,
            linenum: self.linenum as nat,
            offset: self.offset as nat,
        }
    }
}

/// The column, counted from 1, of what stands after a prefix of the given
/// displayed width. The last representable column stands for all beyond it.
pub open spec fn column_of_width(width: nat) -> nat {
    if width + 1 <= usize::MAX {
        width + 1
    } else {
        usize::MAX as nat
    }
}

/// The column, counted from 1 in displayed columns, that an error is
/// reported at.
pub open spec fn error_column(e: SpecParseError) -> nat {
    column_of_width(display_width(utf8_lossy(e.line.subrange(0, e.offset as int))))
}

/// The first line of the message for an error of kind `err`.
pub open spec fn message_head(err: ParseErrorType, linenum: nat, column: nat) -> Seq<char> {
    match err {
        ParseErrorType::UnclosedLoop => "reached EOF with unterminated loop\nLoop started at "@
            + decimal(linenum) + ":"@ + decimal(column) + "\n"@,
        ParseErrorType::ExtraCloseLoop => "[ found at "@ + decimal(linenum) + ":"@ + decimal(
            column,
        ) + " when not in a loop\n"@,
    }
}

/// The whole message: the head, the line, and a caret under the reported
/// column.
pub open spec fn message_text(
    err: ParseErrorType,
    linenum: nat,
    width: nat,
    line_text: Seq<char>,
) -> Seq<char> {
    message_head(err, linenum, column_of_width(width)) + line_text + "\n"@ + spaces(width) + "^"@
}

/// The message for an error on line `linenum`, whose line reads `line_text`
/// and whose reported byte stands after a prefix of displayed width `width`.
pub fn render_message(err: ParseErrorType, linenum: usize, width: usize, line_text: &str) -> (s:
    String)
    ensures
        s@ == message_text(err, linenum as nat, width as nat, line_text@),
{
    let column: usize = if width < usize::MAX {
        width + 1
    } else {
        usize::MAX
    };
    let mut s = String::new();
    match err {
        ParseErrorType::UnclosedLoop => {
            s.append("reached EOF with unterminated loop\nLoop started at ");
            append_decimal(&mut s, column_u64(linenum));
            s.append(":");
            append_decimal(&mut s, column_u64(column));
            s.append("\n");
        },
        ParseErrorType::ExtraCloseLoop => {
            s.append("[ found at ");
            append_decimal(&mut s, column_u64(linenum));
            s.append(":");
            append_decimal(&mut s, column_u64(column));
            s.append(" when not in a loop\n");
        },
    }
    assert(s@ =~= message_head(err, linenum as nat, column_of_width(width as nat)));
    s.append(line_text);
    s.append("\n");
    append_spaces(&mut s, width);
    s.append("^");
    assert(s@ =~= message_text(err, linenum as nat, width as nat, line_text@));
    s
}

fn column_u64(n: usize) -> (r: u64)
    ensures
        r == n,
{
    n as u64
}

impl ParseError {
    #[verifier::type_invariant]
    spec fn well_formed(self) -> bool {
        self.offset <= self.line@.len()
    }

    fn new(err: ParseErrorType, code: &[u8], i: usize) -> (e: Self)
        requires
            i < code.len(),
        ensures
            e@ == error_at(err, code@, i as int),
    {
        let (start, end, linenum) = find_line(code, i);
        let line = slice_to_owned(code, start, end);
        Self { err, line, linenum, offset: i - start }
    }

    /// What is wrong.
    pub fn kind(&self) -> (k: ParseErrorType)
        ensures
            k == self@.err,
    {
        self.err
    }

    /// The number, counted from 1, of the line that the error is reported on.
    pub fn line_number(&self) -> (n: usize)
        ensures
            n == self@.linenum,
    {
        self.linenum
    }

    /// The bytes of that line.
    pub fn line(&self) -> (l: &Vec<u8>)
        ensures
            l@ == self@.line,
    {
        &self.line
    }

    /// The number of bytes of the line that stand before the reported byte.
    pub fn offset(&self) -> (n: usize)
        ensures
            n == self@.offset,
    {
        self.offset
    }

    /// The column, counted from 1 in displayed columns, that the error is
    /// reported at.
    pub fn column(&self) -> (c: usize)
        ensures
            c == error_column(self@),
    {
        proof {
            use_type_invariant(self);
        }
        let prefix = slice_to_owned(self.line.as_slice(), 0, self.offset);
        let text = bytes_to_text(prefix.as_slice());
        let width = str_display_width(text.as_str());
        if width < usize::MAX {
            width + 1
        } else {
            usize::MAX
        }
    }

    /// The message that reports the error: what is wrong and where, the line,
    /// and a caret under the reported column.
    pub fn message(&self) -> (s: String)
        ensures
            s@ == message_text(
                self@.err,
                self@.linenum,
                display_width(utf8_lossy(self@.line.subrange(0, self@.offset as int))),
                utf8_lossy(self@.line),
            ),
    {
        proof {
            use_type_invariant(self);
        }
        let prefix = slice_to_owned(self.line.as_slice(), 0, self.offset);
        let text = bytes_to_text(prefix.as_slice());
        let width = str_display_width(text.as_str());
        let line_text = bytes_to_text(self.line.as_slice());
        render_message(self.err, self.linenum, width, line_text.as_str())
    }
}

/// The bytes `code[from..to]` as a vector.
fn slice_to_owned(code: &[u8], from: usize, to: usize) -> (v: Vec<u8>)
    requires
        from <= to <= code.len(),
    ensures
        v@ == code@.subrange(from as int, to as int),
{
    let mut v: Vec<u8> = Vec::new();
    let mut k: usize = from;
    while k < to
        invariant
            from <= k <= to <= code.len(),
            v@ == code@.subrange(from as int, k as int),
        decreases to - k,
    {
        v.push(code[k]);
        k = k + 1;
        assert(v@ =~= code@.subrange(from as int, k as int));
    }
    v
}

/// The start and the end of the line that holds byte `i`, and the number of
/// that line, counted from 1.
fn find_line(code: &[u8], i: usize) -> (r: (usize, usize, usize))
    requires
        i < code.len(),
    ensures
        r.0 == line_start(code@, i as int),
        r.1 == line_end(code@, i as int),
        r.2 == count_newlines(code@, line_start(code@, i as int)) + 1,
        r.0 <= i <= r.1 <= code.len(),
{
    let mut start: usize = i;
    while start > 0 && code[start - 1] != NEWLINE
        invariant
            start <= i < code.len(),
            line_start(code@, i as int) == line_start(code@, start as int),
        decreases start,
    {
        start = start - 1;
    }
    let mut end: usize = i;
    while end < code.len() && code[end] != NEWLINE
        invariant
            i <= end <= code.len(),
            line_end(code@, i as int) == line_end(code@, end as int),
        decreases code.len() - end,
    {
        end = end + 1;
    }
    let mut linenum: usize = 1;
    let mut k: usize = 0;
    while k < start
        invariant
            k <= start <= i < code.len(),
            linenum == count_newlines(code@, k as int) + 1,
            linenum <= k + 1,
        decreases start - k,
    {
        if code[k] == NEWLINE {
            linenum = linenum + 1;
        }
        k = k + 1;
    }
    (start, end, linenum)
}

/// Whether `r` is the outcome `p` of parsing `code`: the same nodes, or the
/// error of the same kind reported at the same byte.
pub open spec fn is_parse_of(r: Result<Vec<AST>, ParseError>, code: Seq<u8>, p: SpecParse) -> bool {
    match p {
        Ok(ast) => r matches Ok(v) && v.deep_view() == ast,
        Err((kind, pos)) => r matches Err(e) && e@ == error_at(kind, code, pos),
    }
}

/// Parses Brainfuck source to a tree of commands.
pub fn parse(code: &[u8]) -> (r: Result<Vec<AST>, ParseError>)
    ensures
        is_parse_of(r, code@, parse_spec(code@)),
{
    let mut i: usize = 0;
    _parse(code, &mut i, 0, 0)
}

fn _parse(code: &[u8], i: &mut usize, level: usize, start: usize) -> (r: Result<
    Vec<AST>,
    ParseError,
>)
    requires
        *old(i) <= code.len(),
        level <= *old(i),
        level > 0 ==> start < code.len(),
    ensures
        *old(i) <= *final(i) <= code.len(),
        *final(i) == parse_block(
            code@,
            *old(i) as int,
            start as int,
            level as nat,
            0,
            0,
            Seq::empty(),
        ).1,
        is_parse_of(
            r,
            code@,
            parse_block(code@, *old(i) as int, start as int, level as nat, 0, 0, Seq::empty()).0,
        ),
    decreases code.len() - *old(i),
{
    let mut shift: i32 = 0;
    let mut add: i32 = 0;
    let mut tokens: Vec<AST> = Vec::new();
    let ghost goal = parse_block(
        code@,
        *old(i) as int,
        start as int,
        level as nat,
        0,
        0,
        Seq::empty(),
    );
    assert(tokens.deep_view() =~= Seq::<SpecAST>::empty());
    while *i < code.len()
        invariant
            *old(i) <= *i <= code.len(),
            level <= *old(i),
            level > 0 ==> start < code.len(),
            goal == parse_block(
                code@,
                *old(i) as int,
                start as int,
                level as nat,
                0,
                0,
                Seq::empty(),
            ),
            goal == parse_block(
                code@,
                *i as int,
                start as int,
                level as nat,
                shift,
                add,
                tokens.deep_view(),
            ),
        decreases code.len() - *i,
    {
        let c = code[*i];
        let ghost at = *i;
        let ghost before = tokens.deep_view();
        *i = *i + 1;
        if shift != 0 && !(c == RIGHT || c == LEFT) {
            tokens.push(AST::Shift(shift));
            assert(tokens.deep_view() =~= before.push(SpecAST::Shift(shift)));
            shift = 0;
        } else if add != 0 && !(c == PLUS || c == MINUS) {
            tokens.push(AST::Add(add));
            assert(tokens.deep_view() =~= before.push(SpecAST::Add(add)));
            add = 0;
        }
        let ghost flushed = tokens.deep_view();
        if c == PLUS {
            add = add.wrapping_add(1);
        } else if c == MINUS {
            add = add.wrapping_sub(1);
        } else if c == RIGHT {
            shift = shift.wrapping_add(1);
        } else if c == LEFT {
            shift = shift.wrapping_sub(1);
        } else if c == OPEN {
            let ghost inner = parse_block(
                code@,
                at + 1,
                at as int,
                (level + 1) as nat,
                0,
                0,
                Seq::empty(),
            );
            match _parse(code, i, level + 1, *i - 1) {
                Ok(body) => {
                    proof {
                        lemma_loop_view(body);
                    }
                    tokens.push(AST::Loop(body));
                    assert(tokens.deep_view() =~= flushed.push(
                        SpecAST::Loop(inner.0->Ok_0),
                    ));
                },
                Err(e) => {
                    return Err(e);
                },
            }
        } else if c == CLOSE {
            if shift != 0 {
                tokens.push(AST::Shift(shift));
                assert(tokens.deep_view() =~= flushed.push(SpecAST::Shift(shift)));
            } else if add != 0 {
                tokens.push(AST::Add(add));
                assert(tokens.deep_view() =~= flushed.push(SpecAST::Add(add)));
            }
            if level == 0 {
                return Err(ParseError::new(ParseErrorType::ExtraCloseLoop, code, *i - 1));
            } else {
                return Ok(tokens);
            }
        } else if c == COMMA {
            tokens.push(AST::Input);
            assert(tokens.deep_view() =~= flushed.push(SpecAST::Input));
        } else if c == DOT {
            tokens.push(AST::Output);
            assert(tokens.deep_view() =~= flushed.push(SpecAST::Output));
        }
    }
    if level != 0 {
        Err(ParseError::new(ParseErrorType::UnclosedLoop, code, start))
    } else {
        let ghost before = tokens.deep_view();
        if shift != 0 {
            tokens.push(AST::Shift(shift));
            assert(tokens.deep_view() =~= before.push(SpecAST::Shift(shift)));
        } else if add != 0 {
            tokens.push(AST::Add(add));
            assert(tokens.deep_view() =~= before.push(SpecAST::Add(add)));
        }
        Ok(tokens)
    }
}

/// A prefix of a program has no more nodes than the program.
pub proof fn lemma_ast_size_prefix(ast: Seq<SpecAST>, i: int)
    requires
        0 <= i <= ast.len(),
    ensures
        ast_size(ast.subrange(0, i)) <= ast_size(ast),
    decreases ast.len() - i,
{
    if i == ast.len() {
        assert(ast.subrange(0, i) =~= ast);
    } else {
        lemma_ast_size_prefix(ast, i + 1);
        assert(ast.subrange(0, i + 1).drop_last() =~= ast.subrange(0, i));
    }
}

/// The number of nodes of a program, if it is at most `limit`.
pub fn ast_size_within(ast: &[AST], limit: usize) -> (n: Option<usize>)
    ensures
        match n {
            Some(n) => n == ast_size(ast.deep_view()) && n <= limit,
            None => ast_size(ast.deep_view()) > limit,
        },
    decreases ast@,
{
    let ghost all = ast.deep_view();
    let mut n: usize = 0;
    let mut i: usize = 0;
    assert(all.subrange(0, 0) =~= Seq::<SpecAST>::empty());
    while i < ast.len()
        invariant
            i <= ast.len(),
            all == ast.deep_view(),
            n == ast_size(all.subrange(0, i as int)),
            n <= limit,
        decreases ast.len() - i,
    {
        let ghost next = all.subrange(0, i + 1);
        proof {
            lemma_ast_size_prefix(all, i + 1);
            assert(next.drop_last() =~= all.subrange(0, i as int));
            assert(next.last() == ast@[i as int].deep_view());
        }
        if n == limit {
            return None;
        }
        let inner = match &ast[i] {
            AST::Loop(body) => {
                proof {
                    lemma_loop_view(*body);
                }
                match ast_size_within(body.as_slice(), limit - n - 1) {
                    Some(inner) => inner,
                    None => {
                        return None;
                    },
                }
            },
            _ => 0,
        };
        n = n + 1 + inner;
        i = i + 1;
    }
    assert(all.subrange(0, ast.len() as int) =~= all);
    Some(n)
}

/// Whether a program is small enough for the optimizers.
pub fn ast_fits(ast: &[AST]) -> (ok: bool)
    ensures
        ok == (ast_size(ast.deep_view()) <= MAX_AST_NODES),
{
    ast_size_within(ast, MAX_AST_NODES).is_some()
}

} // verus!
