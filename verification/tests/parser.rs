use isbfc::parser::{parse, ParseErrorType, AST};

#[test]
fn parses_each_command() {
    let ast = parse(b"+>-<,.[+]").unwrap();
    assert_eq!(
        ast,
        vec![
            AST::Add(1),
            AST::Shift(1),
            AST::Add(-1),
            AST::Shift(-1),
            AST::Input,
            AST::Output,
            AST::Loop(vec![AST::Add(1)]),
        ]
    );
}

#[test]
fn fuses_runs() {
    assert_eq!(
        parse(b"+++>>><<-").unwrap(),
        vec![AST::Add(3), AST::Shift(1), AST::Add(-1)]
    );
}

#[test]
fn drops_runs_that_sum_to_zero() {
    assert_eq!(parse(b"+-.").unwrap(), vec![AST::Output]);
    assert_eq!(parse(b"><.").unwrap(), vec![AST::Output]);
    assert_eq!(parse(b"").unwrap(), vec![]);
}

#[test]
fn keeps_a_run_that_ends_the_text() {
    assert_eq!(parse(b"++").unwrap(), vec![AST::Add(2)]);
    assert_eq!(parse(b".<<").unwrap(), vec![AST::Output, AST::Shift(-2)]);
}

#[test]
fn commentary_is_discarded_and_ends_a_run() {
    assert_eq!(
        parse(b"+ hello +\n.").unwrap(),
        vec![AST::Add(1), AST::Add(1), AST::Output]
    );
}

#[test]
fn nested_loops() {
    assert_eq!(
        parse(b"[[-]>]").unwrap(),
        vec![AST::Loop(vec![
            AST::Loop(vec![AST::Add(-1)]),
            AST::Shift(1)
        ])]
    );
}

#[test]
fn unclosed_loop_is_reported_at_its_opening() {
    let err = parse(b"++[+").unwrap_err();
    assert_eq!(err.kind(), ParseErrorType::UnclosedLoop);
    assert_eq!(err.line_number(), 1);
    assert_eq!(err.column(), 3);
    assert_eq!(err.offset(), 2);
    assert_eq!(err.line(), &b"++[+".to_vec());
}

#[test]
fn extra_close_is_reported_at_the_bracket() {
    let err = parse(b"++]").unwrap_err();
    assert_eq!(err.kind(), ParseErrorType::ExtraCloseLoop);
    assert_eq!(err.line_number(), 1);
    assert_eq!(err.column(), 3);
}

#[test]
fn error_on_a_later_line() {
    let err = parse(b"+\n-\n >]<\n.").unwrap_err();
    assert_eq!(err.kind(), ParseErrorType::ExtraCloseLoop);
    assert_eq!(err.line_number(), 3);
    assert_eq!(err.offset(), 2);
    assert_eq!(err.column(), 3);
    assert_eq!(err.line(), &b" >]<".to_vec());
}

#[test]
fn innermost_unclosed_loop_is_reported() {
    let err = parse(b"[\n  [").unwrap_err();
    assert_eq!(err.kind(), ParseErrorType::UnclosedLoop);
    assert_eq!(err.line_number(), 2);
    assert_eq!(err.column(), 3);
}

#[test]
fn column_counts_displayed_width() {
    // Two wide characters (each three bytes, two columns) before the bracket.
    let src = "\u{FF28}\u{FF45}]".as_bytes().to_vec();
    let err = parse(&src).unwrap_err();
    assert_eq!(err.kind(), ParseErrorType::ExtraCloseLoop);
    assert_eq!(err.offset(), 6);
    assert_eq!(err.column(), 5);
}

#[test]
fn message_of_unclosed_loop() {
    let err = parse(b"++[+").unwrap_err();
    assert_eq!(
        err.message(),
        "reached EOF with unterminated loop\nLoop started at 1:3\n++[+\n  ^"
    );
}

#[test]
fn message_of_extra_close() {
    let err = parse(b".\n++]").unwrap_err();
    assert_eq!(
        err.message(),
        "[ found at 2:3 when not in a loop\n++]\n  ^"
    );
}

fn unparse(ast: &[AST], out: &mut Vec<u8>) {
    for node in ast {
        match node {
            AST::Add(n) => {
                for _ in 0..n.unsigned_abs() {
                    out.push(if *n > 0 { b'+' } else { b'-' });
                }
            }
            AST::Shift(n) => {
                for _ in 0..n.unsigned_abs() {
                    out.push(if *n > 0 { b'>' } else { b'<' });
                }
            }
            AST::Input => out.push(b','),
            AST::Output => out.push(b'.'),
            AST::Loop(body) => {
                out.push(b'[');
                unparse(body, out);
                out.push(b']');
            }
        }
    }
}

fn cancelled(text: &[u8]) -> Vec<u8> {
    let mut done: Vec<u8> = Vec::new();
    for c in text {
        let undoes = match (done.last(), c) {
            (Some(b'+'), b'-') | (Some(b'-'), b'+') | (Some(b'<'), b'>') | (Some(b'>'), b'<') => {
                true
            }
            _ => false,
        };
        if undoes {
            done.pop();
        } else {
            done.push(*c);
        }
    }
    done
}

#[test]
fn parse_then_unparse_is_equivalent_under_fusion() {
    let sources: Vec<&[u8]> = vec![
        b"",
        b"+",
        b"+-",
        b"+->-<+",
        b">+-<",
        b"++[>+<-]>.,",
        b"[[[]]]",
        b"-[+]>>><<<<.[,.]+++---",
        b"+>-<[<>+-.]-+",
    ];
    for source in sources {
        let ast = parse(source).unwrap();
        let mut back = Vec::new();
        unparse(&ast, &mut back);
        assert_eq!(cancelled(&back), cancelled(source));
    }
}

#[test]
fn message_with_bytes_that_are_not_text() {
    let err = parse(b"\xff]").unwrap_err();
    assert_eq!(err.kind(), ParseErrorType::ExtraCloseLoop);
    assert_eq!(err.offset(), 1);
    assert_eq!(err.column(), 2);
    assert_eq!(
        err.message(),
        "[ found at 1:2 when not in a loop\n\u{fffd}]\n ^"
    );
}
