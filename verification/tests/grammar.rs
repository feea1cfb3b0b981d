//! The value-tree grammar: parsing, serializing, and the round trip.

use glyphstool::{ParseErrorKind, Plist};

fn parse_ok(text: &str) -> Plist {
    Plist::parse(text).expect("expected a successful parse")
}

#[test]
fn parses_scalars() {
    assert_eq!(parse_ok("42"), Plist::Int(42));
    assert_eq!(parse_ok("-17"), Plist::Int(-17));
    assert_eq!(parse_ok("1.5"), Plist::Float(String::from("1.5")));
    assert_eq!(parse_ok("-2.5e10"), Plist::Float(String::from("-2.5e10")));
    assert_eq!(parse_ok("hello"), Plist::Str(String::from("hello")));
    assert_eq!(parse_ok("\"a b\""), Plist::Str(String::from("a b")));
}

#[test]
fn parses_escapes() {
    assert_eq!(parse_ok("\"a\\\"b\""), Plist::Str(String::from("a\"b")));
    assert_eq!(parse_ok("\"a\\\\b\""), Plist::Str(String::from("a\\b")));
}

#[test]
fn parses_containers() {
    assert_eq!(
        parse_ok("(1, 2, 3)"),
        Plist::Arr(vec![Plist::Int(1), Plist::Int(2), Plist::Int(3)])
    );
    assert_eq!(parse_ok("()"), Plist::Arr(vec![]));
    assert_eq!(
        parse_ok("{a = 1;}"),
        Plist::Dict(vec![(String::from("a"), Plist::Int(1))])
    );
    assert_eq!(parse_ok("{}"), Plist::Dict(vec![]));
    assert_eq!(
        parse_ok(" { a = ( x , { b = \"y\" ; } ) ; } "),
        Plist::Dict(vec![(
            String::from("a"),
            Plist::Arr(vec![
                Plist::Str(String::from("x")),
                Plist::Dict(vec![(String::from("b"), Plist::Str(String::from("y")))]),
            ])
        )])
    );
}

#[test]
fn duplicate_key_last_write_wins_at_first_position() {
    assert_eq!(
        parse_ok("{a = 1; b = 2; a = 3;}"),
        Plist::Dict(vec![
            (String::from("a"), Plist::Int(3)),
            (String::from("b"), Plist::Int(2)),
        ])
    );
}

#[test]
fn unterminated_dictionary_fails_at_end_of_input() {
    let e = Plist::parse("{a=1;").unwrap_err();
    assert_eq!(e.kind, ParseErrorKind::UnterminatedContainer);
    assert_eq!(e.pos, 5);
}

#[test]
fn unterminated_string_fails_at_end_of_input() {
    let e = Plist::parse("\"abc").unwrap_err();
    assert_eq!(e.kind, ParseErrorKind::UnterminatedString);
    assert_eq!(e.pos, 4);
}

#[test]
fn trailing_data_is_an_error() {
    let e = Plist::parse("1 2").unwrap_err();
    assert_eq!(e.kind, ParseErrorKind::TrailingData);
    assert_eq!(e.pos, 2);
}

#[test]
fn misplaced_token_is_an_error() {
    let e = Plist::parse("{a 1;}").unwrap_err();
    assert_eq!(e.kind, ParseErrorKind::UnexpectedToken);
    let e = Plist::parse("(1 2)").unwrap_err();
    assert_eq!(e.kind, ParseErrorKind::UnexpectedToken);
}

#[test]
fn oversized_integer_is_an_error() {
    assert_eq!(parse_ok("9223372036854775807"), Plist::Int(i64::MAX));
    assert_eq!(parse_ok("-9223372036854775808"), Plist::Int(i64::MIN));
    let e = Plist::parse("9223372036854775808").unwrap_err();
    assert_eq!(e.kind, ParseErrorKind::UnexpectedToken);
}

#[test]
fn serializes_canonically() {
    assert_eq!(Plist::Int(-5).serialize(), "-5");
    assert_eq!(Plist::Float(String::from("1.5")).serialize(), "1.5");
    assert_eq!(Plist::Str(String::from("bare")).serialize(), "bare");
    assert_eq!(Plist::Str(String::from("a b")).serialize(), "\"a b\"");
    assert_eq!(Plist::Str(String::from("")).serialize(), "\"\"");
    // a numeric-looking string is quoted so it reads back as a string
    assert_eq!(Plist::Str(String::from("123")).serialize(), "\"123\"");
    assert_eq!(
        Plist::Dict(vec![
            (String::from("a"), Plist::Int(1)),
            (String::from("b"), Plist::Arr(vec![Plist::Int(2), Plist::Int(3)])),
        ])
        .serialize(),
        "{a = 1;b = (2, 3);}"
    );
}

#[test]
fn value_tree_idempotence() {
    // for any text that parses, serializing and re-parsing yields the same tree
    let texts = [
        "{glyphs = (); customKey = \"v\";}",
        "  ( 1 , -2.5 , \"x \\\" y\" , { k = v ; } ) ",
        "{a = 1; a = 2.5; b = \"123\"; c = ({n = ();}, 7);}",
        "\"\"",
        "-0.125e-2",
    ];
    for t in texts {
        let first = parse_ok(t);
        let text2 = first.serialize();
        let second = parse_ok(&text2);
        let text3 = second.serialize();
        assert_eq!(second, parse_ok(t));
        // and serialization is stable from then on
        assert_eq!(text2, text3);
    }
}

#[test]
fn escaped_strings_round_trip() {
    let v = Plist::Str(String::from("a\"b\\c d"));
    let text = v.serialize();
    assert_eq!(text, "\"a\\\"b\\\\c d\"");
    assert_eq!(Plist::parse(&text).unwrap(), v);
}

#[test]
fn float_lexemes_are_kept_exactly() {
    let text = "{w = 1.50; e = 2E+3;}";
    let v = Plist::parse(text).unwrap();
    let out = v.serialize();
    assert_eq!(out, "{w = 1.50;e = 2E+3;}");
}
