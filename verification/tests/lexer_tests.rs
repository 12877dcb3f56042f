use neoteric::lexer::{tokenise, Token};

#[test]
fn some_test() {
    let lexer = tokenise(
        "hello-world 13 (a b) (({a + 12.f}))[1] \"hello \\\"world\\\"\"\n   hello\n  äußerst entzückend",
    );

    for (token, span) in lexer {
        println!("{:?} {:?}", token, span);
    }
}

#[test]
fn scans_every_kind_of_token() {
    let tokens = tokenise("f(x) {y} [z] \"s\" ;c\n");
    assert_eq!(
        tokens,
        vec![
            (Token::Identifier("f"), 0..1),
            (Token::ParenOpen, 1..2),
            (Token::Identifier("x"), 2..3),
            (Token::ParenClose, 3..4),
            (Token::Spaces(" "), 4..5),
            (Token::CurlyOpen, 5..6),
            (Token::Identifier("y"), 6..7),
            (Token::CurlyClose, 7..8),
            (Token::Spaces(" "), 8..9),
            (Token::BracketOpen, 9..10),
            (Token::Identifier("z"), 10..11),
            (Token::BracketClose, 11..12),
            (Token::Spaces(" "), 12..13),
            (Token::String("s"), 13..16),
            (Token::Spaces(" "), 16..17),
            (Token::Comment, 17..20),
        ]
    );
}

#[test]
fn string_text_is_what_stands_between_the_quotes() {
    let tokens = tokenise("\"hello \\\"world\\\"\"");
    assert_eq!(tokens, vec![(Token::String("hello \\\"world\\\""), 0..17)]);
    assert_eq!(tokenise("\"\""), vec![(Token::String(""), 0..2)]);
}

#[test]
fn spaces_before_a_line_feed_belong_to_the_newline() {
    assert_eq!(
        tokenise("a \t\nb\r\n  c"),
        vec![
            (Token::Identifier("a"), 0..1),
            (Token::Newline, 1..4),
            (Token::Identifier("b"), 4..5),
            (Token::Newline, 5..7),
            (Token::Spaces("  "), 7..9),
            (Token::Identifier("c"), 9..10),
        ]
    );
}

#[test]
fn form_feed_is_blank_and_vertical_tab_is_not() {
    assert_eq!(
        tokenise("a\u{c}b\u{b}c"),
        vec![
            (Token::Identifier("a"), 0..1),
            (Token::Spaces("\u{c}"), 1..2),
            (Token::Identifier("b"), 2..3),
            (Token::Error("Invalid token"), 3..4),
            (Token::Identifier("c"), 4..5),
        ]
    );
}

#[test]
fn lone_carriage_return_is_an_error() {
    assert_eq!(
        tokenise("a\rb"),
        vec![
            (Token::Identifier("a"), 0..1),
            (Token::Error("Invalid token"), 1..2),
            (Token::Identifier("b"), 2..3),
        ]
    );
    assert_eq!(
        tokenise(" \r"),
        vec![(Token::Spaces(" "), 0..1), (Token::Error("Invalid token"), 1..2)]
    );
}

#[test]
fn identifiers_may_hold_any_other_character() {
    assert_eq!(
        tokenise("äußerst entzückend"),
        vec![
            (Token::Identifier("äußerst"), 0..9),
            (Token::Spaces(" "), 9..10),
            (Token::Identifier("entzückend"), 10..21),
        ]
    );
    assert_eq!(tokenise("12.f"), vec![(Token::Identifier("12.f"), 0..4)]);
    assert_eq!(tokenise("a\\b'c"), vec![(Token::Identifier("a\\b'c"), 0..5)]);
}

#[test]
fn unicode_white_space_ends_an_identifier_and_is_an_error() {
    // U+00A0 takes two bytes, U+2003 and U+3000 three.
    assert_eq!(
        tokenise("a\u{a0}b\u{2003}c\u{3000}"),
        vec![
            (Token::Identifier("a"), 0..1),
            (Token::Error("Invalid token"), 1..3),
            (Token::Identifier("b"), 3..4),
            (Token::Error("Invalid token"), 4..7),
            (Token::Identifier("c"), 7..8),
            (Token::Error("Invalid token"), 8..11),
        ]
    );
    // U+200B is no white space, nor is U+00A1.
    assert_eq!(tokenise("a\u{200b}b"), vec![(Token::Identifier("a\u{200b}b"), 0..5)]);
    assert_eq!(tokenise("\u{a1}"), vec![(Token::Identifier("\u{a1}"), 0..2)]);
}

#[test]
fn comment_runs_to_the_next_n_or_backslash() {
    assert_eq!(
        tokenise("; to do\nx"),
        vec![(Token::Comment, 0..9)]
    );
    assert_eq!(
        tokenise(";ab nc"),
        vec![(Token::Comment, 0..4), (Token::Identifier("nc"), 4..6)]
    );
    assert_eq!(
        tokenise(";a\\b"),
        vec![(Token::Comment, 0..2), (Token::Identifier("\\b"), 2..4)]
    );
    assert_eq!(tokenise(";"), vec![(Token::Comment, 0..1)]);
}

#[test]
fn unclosed_string_is_an_error_to_the_end_of_the_text() {
    assert_eq!(tokenise("\"abc"), vec![(Token::Error("Invalid token"), 0..4)]);
    assert_eq!(tokenise("\""), vec![(Token::Error("Invalid token"), 0..1)]);
    assert_eq!(tokenise("\"ab\\"), vec![(Token::Error("Invalid token"), 0..4)]);
}

#[test]
fn backslash_before_another_character_breaks_a_string() {
    assert_eq!(
        tokenise("\"a\\b\""),
        vec![
            (Token::Error("Invalid token"), 0..3),
            (Token::Identifier("b"), 3..4),
            (Token::Error("Invalid token"), 4..5),
        ]
    );
}

#[test]
fn empty_text_has_no_tokens() {
    assert_eq!(tokenise(""), vec![]);
}

#[test]
fn tokens_cover_the_text_without_a_gap() {
    let text = "define test (a b)\n    (print \"hello\") ; note\n\u{a0}x\r\n\"open";
    let tokens = tokenise(text);
    let mut at = 0;
    for (_, span) in &tokens {
        assert_eq!(span.start, at);
        assert!(span.start < span.end);
        at = span.end;
    }
    assert_eq!(at, text.len());
}

#[test]
fn scanner_makes_no_indent_and_no_dedent() {
    let tokens = tokenise("a\n  b\n    c\nd");
    assert!(tokens.iter().all(|(t, _)| *t != Token::Indent && *t != Token::Dedent));
}

#[test]
fn same_compares_variant_and_text() {
    assert!(Token::Identifier("a").same(&Token::Identifier("a")));
    assert!(!Token::Identifier("a").same(&Token::Identifier("b")));
    assert!(!Token::Identifier("a").same(&Token::String("a")));
    assert!(Token::ParenClose.same(&Token::ParenClose));
    assert!(!Token::ParenClose.same(&Token::CurlyClose));
    assert!(Token::Error("x").same(&Token::Error("x")));
    assert!(!Token::Spaces(" ").same(&Token::Spaces("  ")));
}

#[test]
fn is_opening_holds_of_the_three_opening_brackets() {
    assert!(Token::ParenOpen.is_opening());
    assert!(Token::CurlyOpen.is_opening());
    assert!(Token::BracketOpen.is_opening());
    assert!(!Token::ParenClose.is_opening());
    assert!(!Token::Identifier("(").is_opening());
}
