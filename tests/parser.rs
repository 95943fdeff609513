use bf::ast::parse_program;
use bf::ast::Statement;
use bf::ast::Statement::Cmd;
use bf::common::Command::{Down, In, Left, Out, Right, Up};
use bf::common::Error;

fn assert_parse(input: &str, program: Vec<Statement>) {
    assert_eq!(parse_program(input.as_bytes()), Ok(program));
}

fn assert_parse_error(input: &str, message: Error) {
    assert_eq!(parse_program(input.as_bytes()), Err(message));
}

fn mk_loop(instructions: Vec<Statement>) -> Statement {
    Statement::Loop(instructions)
}

#[test]
fn parser_single_byte_instructions_parse() {
    assert_parse("<", vec![Cmd(Left)]);
    assert_parse(">", vec![Cmd(Right)]);
    assert_parse("+", vec![Cmd(Up)]);
    assert_parse("-", vec![Cmd(Down)]);
    assert_parse(",", vec![Cmd(In)]);
    assert_parse(".", vec![Cmd(Out)]);
}

#[test]
fn parser_multiple_instructions_parse() {
    assert_parse(
        "<><>+-+-.",
        vec![
            Cmd(Left),
            Cmd(Right),
            Cmd(Left),
            Cmd(Right),
            Cmd(Up),
            Cmd(Down),
            Cmd(Up),
            Cmd(Down),
            Cmd(Out),
        ],
    );
}

#[test]
fn parser_empty_program_parses() {
    assert_parse("", vec![]);
}

#[test]
fn parser_empty_loop_parses() {
    assert_parse("[]", vec![mk_loop(vec![])]);
}

#[test]
fn parser_non_empty_loop_parses() {
    assert_parse("[<]", vec![mk_loop(vec![Cmd(Left)])]);
    assert_parse("[<.>]", vec![mk_loop(vec![Cmd(Left), Cmd(Out), Cmd(Right)])]);
}

#[test]
fn parser_nested_loops_parse() {
    assert_parse("[<[]]", vec![mk_loop(vec![Cmd(Left), mk_loop(vec![])])]);
    assert_parse(
        "[<[+],]",
        vec![mk_loop(vec![Cmd(Left), mk_loop(vec![Cmd(Up)]), Cmd(In)])],
    );
}

#[test]
fn parser_comment_is_ignored() {
    assert_parse("hello <", vec![Cmd(Left)]);
    assert_parse(
        "h[e<l[l+o] ,world]",
        vec![mk_loop(vec![Cmd(Left), mk_loop(vec![Cmd(Up)]), Cmd(In)])],
    );
}

#[test]
fn parser_trailing_comment_is_ignored() {
    assert_parse("< hello", vec![Cmd(Left)]);
}

#[test]
fn parser_all_comment_program_parses() {
    assert_parse("hello", vec![]);
}

#[test]
fn parser_left_bracket_without_right_is_error() {
    assert_parse_error("[", Error::UnmatchedBegin);
    assert_parse_error("[<[.]", Error::UnmatchedBegin);
}

#[test]
fn parser_right_bracket_without_left_is_error() {
    assert_parse_error("]", Error::UnmatchedEnd);
    assert_parse_error(".[.].]", Error::UnmatchedEnd);
}

#[test]
fn unmatched_end_is_reported_before_a_later_open_bracket() {
    assert_parse_error("][", Error::UnmatchedEnd);
    assert_parse_error("[]][[", Error::UnmatchedEnd);
}

#[test]
fn balanced_brackets_parse_and_unbalanced_do_not() {
    for (src, ok) in [("[[]][]", true), ("[[]", false), ("[]]", false), ("a[b]c", true)] {
        assert_eq!(parse_program(src.as_bytes()).is_ok(), ok, "{}", src);
    }
}

#[test]
fn error_descriptions() {
    assert_eq!(Error::UnmatchedBegin.describe(), "unmatched '['");
    assert_eq!(Error::UnmatchedEnd.describe(), "unmatched ']'");
    assert_eq!(Error::PointerUnderflow.describe(), "pointer underflow");
    assert_eq!(Error::PointerOverflow.describe(), "pointer overflow");
}
