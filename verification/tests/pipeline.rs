//! The execution pipeline's compute side: request validation, toolchain
//! arguments, rendering, and re-parsing captured output.

use abes_nice_procs::lex::{lex, LexError};
use abes_nice_procs::method::{
    compile_command_args, method_output, method_request, MethodError,
};
use abes_nice_procs::token::{printer, render_seq, token_to_string, Delim, Token};

fn id(s: &str) -> Token {
    Token::Ident(s.to_string())
}

fn mark(c: char) -> Token {
    Token::Punct(c)
}

#[test]
fn request_yields_file_name_and_spaced_body() {
    let tokens = vec![
        id("file_name"),
        mark(','),
        id("fn"),
        id("main"),
        Token::Group(Delim::Paren, vec![]),
        Token::Group(Delim::Brace, vec![]),
    ];
    let plan = method_request(&tokens).unwrap();
    assert_eq!(plan.name, "file_name");
    assert_eq!(plan.source_file, "file_name.rs");
    assert_eq!(plan.source_text, "fn main () {}");
}

#[test]
fn request_without_name_fails() {
    assert!(matches!(method_request(&vec![]), Err(MethodError::MissingPath)));
    assert!(matches!(
        method_request(&vec![mark('!')]),
        Err(MethodError::MissingPath)
    ));
}

#[test]
fn request_without_separator_fails() {
    assert!(matches!(
        method_request(&vec![id("name")]),
        Err(MethodError::MissingComma)
    ));
    assert!(matches!(
        method_request(&vec![id("name"), id("oops")]),
        Err(MethodError::MissingComma)
    ));
}

#[test]
fn compile_arguments_name_file_and_dialect() {
    let tokens = vec![id("art"), mark(','), id("x")];
    let plan = method_request(&tokens).unwrap();
    let args = compile_command_args(&plan, &"2021".to_string());
    assert_eq!(args, vec!["art.rs".to_string(), "--edition".to_string(), "2021".to_string()]);
}

#[test]
fn printed_digits_come_back_as_a_numeric_literal() {
    let out = method_output(&b"5".to_vec()).unwrap();
    assert_eq!(out.len(), 1);
    match &out[0] {
        Token::IntLit(s) => assert_eq!(s, "5"),
        _ => panic!("expected a numeric literal"),
    }
}

#[test]
fn longer_digit_runs_keep_their_digits() {
    let out = method_output(&b"12345".to_vec()).unwrap();
    assert_eq!(out.len(), 1);
    match &out[0] {
        Token::IntLit(s) => assert_eq!(s, "12345"),
        _ => panic!("expected a numeric literal"),
    }
}

#[test]
fn printed_escaped_quotes_come_back_as_a_text_literal() {
    // The executed program printed "Hello" with the quotes escaped, so
    // its captured output holds a quoted sequence.
    let out = method_output(&b"\"Hello\"".to_vec()).unwrap();
    assert_eq!(out.len(), 1);
    match &out[0] {
        Token::StrLit(s) => assert_eq!(s, "Hello"),
        _ => panic!("expected a text literal"),
    }
}

#[test]
fn escapes_inside_text_resolve() {
    let out = method_output(&b"\"a\\\"b\\\\c\\n\"".to_vec()).unwrap();
    assert_eq!(out.len(), 1);
    match &out[0] {
        Token::StrLit(s) => assert_eq!(s, "a\"b\\c\n"),
        _ => panic!("expected a text literal"),
    }
}

#[test]
fn output_that_does_not_tokenize_fails() {
    assert!(matches!(
        method_output(&vec![200u8]),
        Err(MethodError::BadOutput(LexError::BadByte))
    ));
    assert!(matches!(
        method_output(&b"(".to_vec()),
        Err(MethodError::BadOutput(LexError::UnclosedGroup))
    ));
}

#[test]
fn captured_output_splices_as_structured_tokens() {
    let out = lex(&b"foo(1, 2)".to_vec()).unwrap();
    assert_eq!(out.len(), 2);
    assert!(matches!(&out[0], Token::Ident(s) if s == "foo"));
    match &out[1] {
        Token::Group(Delim::Paren, inner) => {
            assert_eq!(inner.len(), 3);
            assert!(matches!(&inner[0], Token::IntLit(s) if s == "1"));
            assert!(matches!(&inner[1], Token::Punct(',')));
            assert!(matches!(&inner[2], Token::IntLit(s) if s == "2"));
        },
        _ => panic!("expected a parenthesized group"),
    }
}

#[test]
fn nested_groups_nest() {
    let out = lex(&b"{ [x] }".to_vec()).unwrap();
    assert_eq!(out.len(), 1);
    match &out[0] {
        Token::Group(Delim::Brace, inner) => match &inner[0] {
            Token::Group(Delim::Bracket, leaf) => {
                assert!(matches!(&leaf[0], Token::Ident(s) if s == "x"));
            },
            _ => panic!("expected a bracket group"),
        },
        _ => panic!("expected a brace group"),
    }
}

#[test]
fn unterminated_text_fails() {
    assert!(matches!(lex(&b"\"abc".to_vec()), Err(LexError::Unterminated)));
}

#[test]
fn unknown_escape_fails() {
    assert!(matches!(lex(&b"\"\\q\"".to_vec()), Err(LexError::BadEscape)));
}

#[test]
fn byte_outside_the_grammar_fails() {
    assert!(matches!(lex(&vec![200u8]), Err(LexError::BadByte)));
    assert!(matches!(lex(&vec![7u8]), Err(LexError::BadByte)));
}

#[test]
fn stray_closing_bracket_fails() {
    assert!(matches!(lex(&b")".to_vec()), Err(LexError::UnmatchedClose)));
}

#[test]
fn wrong_closing_bracket_fails() {
    assert!(matches!(lex(&b"(]".to_vec()), Err(LexError::MismatchedClose)));
}

#[test]
fn unclosed_group_fails() {
    assert!(matches!(lex(&b"(x".to_vec()), Err(LexError::UnclosedGroup)));
}

#[test]
fn rendered_text_literal_is_quoted_and_escaped() {
    let t = Token::StrLit("say \"hi\"".to_string());
    assert_eq!(token_to_string(&t, false), "\"say \\\"hi\\\"\"");
}

#[test]
fn rendering_and_reparsing_a_text_literal_round_trips() {
    let t = Token::StrLit("a\"b\\c".to_string());
    let rendered = token_to_string(&t, false);
    let back = lex(&rendered.into_bytes()).unwrap();
    assert_eq!(back.len(), 1);
    match &back[0] {
        Token::StrLit(s) => assert_eq!(s, "a\"b\\c"),
        _ => panic!("expected a text literal"),
    }
}

#[test]
fn control_characters_render_as_their_escapes() {
    let t = Token::StrLit("a\nb\tc\rd".to_string());
    assert_eq!(token_to_string(&t, false), "\"a\\nb\\tc\\rd\"");
}

#[test]
fn control_characters_round_trip_through_render_and_reparse() {
    let t = Token::StrLit("line\none\tand\rmore".to_string());
    let rendered = token_to_string(&t, false);
    let back = lex(&rendered.into_bytes()).unwrap();
    assert_eq!(back.len(), 1);
    match &back[0] {
        Token::StrLit(s) => assert_eq!(s, "line\none\tand\rmore"),
        _ => panic!("expected a text literal"),
    }
}

#[test]
fn printer_keeps_one_line_per_node_for_control_content() {
    let tokens = vec![Token::StrLit("two\nlines".to_string()), id("after")];
    let mut out = String::new();
    printer(&tokens, 0, &mut out);
    assert_eq!(out, "literal: \"two\\nlines\"\nident: after\n");
    assert_eq!(out.matches('\n').count(), 2);
}

#[test]
fn glued_and_spaced_rendering_differ_only_in_separators() {
    let ts = vec![id("let"), id("x"), mark('='), Token::IntLit("7".to_string()), mark(';')];
    assert_eq!(render_seq(&ts, false), "letx=7;");
    assert_eq!(render_seq(&ts, true), "let x = 7 ;");
}

#[test]
fn group_rendering_keeps_its_delimiters() {
    let t = Token::Group(Delim::Bracket, vec![id("a"), mark(','), id("b")]);
    assert_eq!(token_to_string(&t, false), "[a,b]");
    assert_eq!(token_to_string(&t, true), "[a , b]");
}

#[test]
fn printer_indents_nested_groups() {
    let tokens = vec![
        id("outer"),
        Token::Group(
            Delim::Brace,
            vec![Token::IntLit("7".to_string()), Token::Group(Delim::Paren, vec![mark('+')])],
        ),
    ];
    let mut out = String::new();
    printer(&tokens, 0, &mut out);
    assert_eq!(out, "ident: outer\ngroup:\n\tliteral: 7\n\tgroup:\n\t\tpunct: +\n");
}

#[test]
fn whitespace_between_tokens_is_skipped() {
    let out = lex(&b"  one \t two \n 3 ".to_vec()).unwrap();
    assert_eq!(out.len(), 3);
    assert!(matches!(&out[0], Token::Ident(s) if s == "one"));
    assert!(matches!(&out[1], Token::Ident(s) if s == "two"));
    assert!(matches!(&out[2], Token::IntLit(s) if s == "3"));
}
