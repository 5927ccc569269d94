//! Declaration parsing and codec generation, end to end.

use abes_nice_procs::generate::{bound_free, from_binary, generate, to_binary, Direction};
use abes_nice_procs::parse::{DeriveData, ParseError, What};
use abes_nice_procs::token::{Delim, Token};

fn id(s: &str) -> Token {
    Token::Ident(s.to_string())
}

fn mark(c: char) -> Token {
    Token::Punct(c)
}

fn body(ts: Vec<Token>) -> Token {
    Token::Group(Delim::Brace, ts)
}

fn two_field_struct() -> Vec<Token> {
    vec![
        id("struct"),
        id("Foo"),
        body(vec![
            id("a"),
            mark(':'),
            id("u8"),
            mark(','),
            id("b"),
            mark(':'),
            id("String"),
        ]),
    ]
}

#[test]
fn parse_two_field_struct() {
    let d = DeriveData::parse(two_field_struct()).unwrap();
    assert!(matches!(d.what, What::Struct));
    assert_eq!(d.name, "Foo");
    assert_eq!(d.generic.len(), 0);
    assert_eq!(d.fields.len(), 2);
    assert_eq!(d.fields[0].name, "a");
    assert_eq!(d.fields[0].data_type, "u8");
    assert_eq!(d.fields[1].name, "b");
    assert_eq!(d.fields[1].data_type, "String");
}

#[test]
fn parse_enum_kind() {
    let tokens = vec![id("enum"), id("Choice"), body(vec![id("x"), mark(':'), id("u8")])];
    let d = DeriveData::parse(tokens).unwrap();
    assert!(matches!(d.what, What::Enum));
    assert_eq!(d.name, "Choice");
}

#[test]
fn parse_skips_leading_tokens_before_kind() {
    let tokens = vec![
        mark('#'),
        id("pub"),
        id("struct"),
        id("Bar"),
        body(vec![id("x"), mark(':'), id("u8")]),
    ];
    let d = DeriveData::parse(tokens).unwrap();
    assert_eq!(d.name, "Bar");
}

#[test]
fn parse_keeps_generics_verbatim() {
    let tokens = vec![
        id("struct"),
        id("Pair"),
        id("T"),
        mark(':'),
        id("Clone"),
        mark(','),
        id("U"),
        body(vec![id("x"), mark(':'), id("T")]),
    ];
    let d = DeriveData::parse(tokens).unwrap();
    assert_eq!(d.generic.len(), 5);
}

#[test]
fn round_trip_decode_reads_a_before_b() {
    let out = from_binary(two_field_struct()).unwrap();
    assert_eq!(
        out,
        "impl FromBinary for Foo{ fn from_binary(binary: &mut dyn std::io::Read) -> Self \
         {self.a=u8::from_binary(binary),self.b=String::from_binary(binary),}}"
    );
    let a_pos = out.find("self.a").unwrap();
    let b_pos = out.find("self.b").unwrap();
    assert!(a_pos < b_pos);
}

#[test]
fn round_trip_encode_writes_a_before_b() {
    let out = to_binary(two_field_struct()).unwrap();
    assert_eq!(
        out,
        "impl ToBinary for Foo{ fn to_binary(self, write: &mut dyn std::io::Write) \
         {self.a.to_binary(write);self.b.to_binary(write);}}"
    );
    let a_pos = out.find("self.a").unwrap();
    let b_pos = out.find("self.b").unwrap();
    assert!(a_pos < b_pos);
}

#[test]
fn three_fields_emit_three_statements_in_order() {
    let tokens = vec![
        id("struct"),
        id("Trip"),
        body(vec![
            id("first"),
            mark(':'),
            id("u8"),
            mark(','),
            id("second"),
            mark(':'),
            id("u16"),
            mark(','),
            id("third"),
            mark(':'),
            id("u32"),
        ]),
    ];
    let out = generate(tokens, Direction::Encode).unwrap();
    assert_eq!(out.matches("to_binary(write);").count(), 3);
    let pos_first = out.find("self.first").unwrap();
    let pos_second = out.find("self.second").unwrap();
    let pos_third = out.find("self.third").unwrap();
    assert!(pos_first < pos_second && pos_second < pos_third);
    assert!(out.contains("self.first.to_binary(write);"));
    assert!(out.contains("self.second.to_binary(write);"));
    assert!(out.contains("self.third.to_binary(write);"));
}

#[test]
fn bound_stripping_yields_name_only_list() {
    let generic = vec![
        id("T"),
        mark(':'),
        id("Clone"),
        mark(','),
        id("U"),
        mark(':'),
        id("Default"),
    ];
    assert_eq!(bound_free(&generic), "T,U");
}

#[test]
fn bound_stripping_of_empty_generics_is_empty() {
    assert_eq!(bound_free(&Vec::new()), "");
}

#[test]
fn generics_render_verbatim_in_the_header() {
    let tokens = vec![
        id("struct"),
        id("Pair"),
        id("T"),
        mark(':'),
        id("Clone"),
        mark(','),
        id("U"),
        mark(':'),
        id("Default"),
        body(vec![id("x"), mark(':'), id("T"), mark(','), id("y"), mark(':'), id("U")]),
    ];
    let out = generate(tokens, Direction::Decode).unwrap();
    assert_eq!(
        out,
        "implT:Clone,U:Default FromBinary for PairT,U{ fn from_binary(binary: &mut dyn \
         std::io::Read) -> Self {self.x=T::from_binary(binary),self.y=U::from_binary(binary),}}"
    );
}

#[test]
fn field_with_only_name_and_separator_fails() {
    let tokens = vec![id("struct"), id("Foo"), body(vec![id("x"), mark(':')])];
    assert!(matches!(DeriveData::parse(tokens), Err(ParseError::FieldTooShort)));
}

#[test]
fn empty_body_fails_as_too_short_segment() {
    let tokens = vec![id("struct"), id("Foo"), body(vec![])];
    assert!(matches!(DeriveData::parse(tokens), Err(ParseError::FieldTooShort)));
}

#[test]
fn trailing_separator_fails_as_too_short_segment() {
    let tokens = vec![
        id("struct"),
        id("Foo"),
        body(vec![id("a"), mark(':'), id("u8"), mark(',')]),
    ];
    assert!(matches!(DeriveData::parse(tokens), Err(ParseError::FieldTooShort)));
}

#[test]
fn missing_kind_fails() {
    let tokens = vec![id("union"), id("Foo"), body(vec![id("a"), mark(':'), id("u8")])];
    assert!(matches!(DeriveData::parse(tokens), Err(ParseError::MissingKind)));
}

#[test]
fn missing_name_fails() {
    let tokens = vec![id("struct")];
    assert!(matches!(DeriveData::parse(tokens), Err(ParseError::MissingName)));
}

#[test]
fn non_identifier_name_fails() {
    let tokens = vec![id("struct"), mark('!')];
    assert!(matches!(DeriveData::parse(tokens), Err(ParseError::NameNotIdent)));
}

#[test]
fn missing_body_group_fails() {
    let tokens = vec![id("struct"), id("Foo"), id("T")];
    assert!(matches!(DeriveData::parse(tokens), Err(ParseError::MissingBody)));
}

#[test]
fn field_without_separator_fails() {
    let tokens = vec![id("struct"), id("Foo"), body(vec![id("a"), id("b"), id("c")])];
    assert!(matches!(DeriveData::parse(tokens), Err(ParseError::FieldNoColon)));
}

#[test]
fn parse_errors_on_bad_segment_only_after_good_ones() {
    let tokens = vec![
        id("struct"),
        id("Foo"),
        body(vec![id("a"), mark(':'), id("u8"), mark(','), id("b"), mark(':')]),
    ];
    assert!(matches!(DeriveData::parse(tokens), Err(ParseError::FieldTooShort)));
}

#[test]
fn kind_vocabulary_and_surface_text() {
    assert_eq!(What::from_ident(&"struct".to_string()), Some(What::Struct));
    assert_eq!(What::from_ident(&"enum".to_string()), Some(What::Enum));
    assert_eq!(What::from_ident(&"impl".to_string()), None);
    assert_eq!(What::Struct.text(), "struct");
    assert_eq!(What::Enum.text(), "enum");
}
