use neoteric::indent::{handle_whitespace, IndentStack, Measured};
use neoteric::lexer::{tokenise, Token};
use std::ops::Range;

fn logical(text: &str) -> Vec<(Token<'_>, Range<usize>)> {
    handle_whitespace(tokenise(text))
}

fn kinds<'a>(tokens: &[(Token<'a>, Range<usize>)]) -> Vec<Token<'a>> {
    tokens.iter().map(|(t, _)| *t).collect()
}

fn count(tokens: &[(Token<'_>, Range<usize>)], kind: Token<'_>) -> usize {
    tokens.iter().filter(|(t, _)| *t == kind).count()
}

/// The nesting depth of explicit brackets after `tokens`.
fn depth(tokens: &[(Token<'_>, Range<usize>)]) -> usize {
    let mut open = 0usize;
    for (t, _) in tokens {
        match t {
            Token::ParenOpen | Token::CurlyOpen | Token::BracketOpen => open += 1,
            Token::ParenClose | Token::CurlyClose | Token::BracketClose => {
                open = open.saturating_sub(1)
            }
            _ => {}
        }
    }
    open
}

#[test]
fn deeper_line_opens_a_level_and_shallower_line_closes_it() {
    assert_eq!(
        logical("a\n  b\nc"),
        vec![
            (Token::Identifier("a"), 0..1),
            (Token::Newline, 1..2),
            (Token::Indent, 2..4),
            (Token::Identifier("b"), 4..5),
            (Token::Newline, 5..6),
            (Token::Dedent, 6..7),
            (Token::Identifier("c"), 6..7),
        ]
    );
}

#[test]
fn same_width_puts_out_nothing() {
    assert_eq!(
        kinds(&logical("a\n  b\n  c")),
        vec![
            Token::Identifier("a"),
            Token::Newline,
            Token::Indent,
            Token::Identifier("b"),
            Token::Newline,
            Token::Identifier("c"),
        ]
    );
}

#[test]
fn one_dedent_for_each_closed_level_all_with_the_same_span() {
    assert_eq!(
        logical("a\n  b\n    c\nd"),
        vec![
            (Token::Identifier("a"), 0..1),
            (Token::Newline, 1..2),
            (Token::Indent, 2..4),
            (Token::Identifier("b"), 4..5),
            (Token::Newline, 5..6),
            (Token::Indent, 6..10),
            (Token::Identifier("c"), 10..11),
            (Token::Newline, 11..12),
            (Token::Dedent, 12..13),
            (Token::Dedent, 12..13),
            (Token::Identifier("d"), 12..13),
        ]
    );
}

#[test]
fn dedent_to_an_open_level_in_between() {
    assert_eq!(
        kinds(&logical("a\n  b\n    c\n  d")),
        vec![
            Token::Identifier("a"),
            Token::Newline,
            Token::Indent,
            Token::Identifier("b"),
            Token::Newline,
            Token::Indent,
            Token::Identifier("c"),
            Token::Newline,
            Token::Dedent,
            Token::Identifier("d"),
        ]
    );
}

#[test]
fn dedent_to_a_width_that_is_no_level_is_an_error_token() {
    // Levels 2 and 4 are open when a line of width 3 comes.
    let tokens = logical("a\n  b\n    c\n   d");
    assert_eq!(
        tokens,
        vec![
            (Token::Identifier("a"), 0..1),
            (Token::Newline, 1..2),
            (Token::Indent, 2..4),
            (Token::Identifier("b"), 4..5),
            (Token::Newline, 5..6),
            (Token::Indent, 6..10),
            (Token::Identifier("c"), 10..11),
            (Token::Newline, 11..12),
            (Token::Error("Invalid indentation"), 12..15),
            (Token::Identifier("d"), 15..16),
        ]
    );
    assert_eq!(count(&tokens, Token::Dedent), 0);
}

#[test]
fn scan_goes_on_behind_an_invalid_indentation() {
    // Width 3 closes level 4 and matches none; level 2 is still open.
    assert_eq!(
        kinds(&logical("a\n  b\n    c\n   d\n  e\nf")),
        vec![
            Token::Identifier("a"),
            Token::Newline,
            Token::Indent,
            Token::Identifier("b"),
            Token::Newline,
            Token::Indent,
            Token::Identifier("c"),
            Token::Newline,
            Token::Error("Invalid indentation"),
            Token::Identifier("d"),
            Token::Newline,
            Token::Identifier("e"),
            Token::Newline,
            Token::Dedent,
            Token::Identifier("f"),
        ]
    );
}

#[test]
fn bad_dedent_of_the_first_level() {
    assert_eq!(
        logical("a\n  b\n c"),
        vec![
            (Token::Identifier("a"), 0..1),
            (Token::Newline, 1..2),
            (Token::Indent, 2..4),
            (Token::Identifier("b"), 4..5),
            (Token::Newline, 5..6),
            (Token::Error("Invalid indentation"), 6..7),
            (Token::Identifier("c"), 7..8),
        ]
    );
}

#[test]
fn nothing_inside_brackets_is_indentation() {
    assert_eq!(
        logical("(a\n    b)"),
        vec![
            (Token::ParenOpen, 0..1),
            (Token::Identifier("a"), 1..2),
            (Token::Identifier("b"), 7..8),
            (Token::ParenClose, 8..9),
        ]
    );
    assert_eq!(
        kinds(&logical("f[a {b\n  c}\n      d]\n  e")),
        vec![
            Token::Identifier("f"),
            Token::BracketOpen,
            Token::Identifier("a"),
            Token::CurlyOpen,
            Token::Identifier("b"),
            Token::Identifier("c"),
            Token::CurlyClose,
            Token::Identifier("d"),
            Token::BracketClose,
            Token::Newline,
            Token::Indent,
            Token::Identifier("e"),
        ]
    );
}

#[test]
fn indent_and_dedent_stand_outside_all_brackets() {
    let tokens = logical("a (b\n  c)\n  d [e\nf]\n    g\nh (i\n j)");
    for i in 0..tokens.len() {
        if tokens[i].0 == Token::Indent || tokens[i].0 == Token::Dedent {
            assert_eq!(depth(&tokens[..i]), 0);
        }
    }
    assert_eq!(count(&tokens, Token::Indent), 2);
    assert_eq!(count(&tokens, Token::Dedent), 2);
}

#[test]
fn blank_lines_leave_no_trace() {
    assert_eq!(
        kinds(&logical("\n\na\n\n  \n  b\n\nc\n")),
        vec![
            Token::Identifier("a"),
            Token::Newline,
            Token::Indent,
            Token::Identifier("b"),
            Token::Newline,
            Token::Dedent,
            Token::Identifier("c"),
            Token::Newline,
        ]
    );
}

#[test]
fn comment_only_lines_leave_no_trace() {
    // An indented line that holds only a comment opens no level.
    let tokens = vec![
        (Token::Identifier("a"), 0..1),
        (Token::Newline, 1..2),
        (Token::Spaces("    "), 2..6),
        (Token::Comment, 6..9),
        (Token::Newline, 9..10),
        (Token::Comment, 10..13),
        (Token::Newline, 13..14),
        (Token::Identifier("b"), 14..15),
    ];
    assert_eq!(
        handle_whitespace(tokens),
        vec![
            (Token::Identifier("a"), 0..1),
            (Token::Newline, 1..2),
            (Token::Identifier("b"), 14..15),
        ]
    );
}

#[test]
fn comment_behind_content_is_dropped_and_the_line_break_kept() {
    let tokens = vec![
        (Token::Identifier("a"), 0..1),
        (Token::Spaces(" "), 1..2),
        (Token::Comment, 2..5),
        (Token::Newline, 5..6),
        (Token::Identifier("b"), 6..7),
    ];
    assert_eq!(
        handle_whitespace(tokens),
        vec![
            (Token::Identifier("a"), 0..1),
            (Token::Newline, 5..6),
            (Token::Identifier("b"), 6..7),
        ]
    );
}

#[test]
fn width_is_measured_when_content_follows_a_comment() {
    let tokens = vec![
        (Token::Spaces("  "), 0..2),
        (Token::Comment, 2..5),
        (Token::Identifier("a"), 5..6),
    ];
    assert_eq!(
        handle_whitespace(tokens),
        vec![(Token::Indent, 0..2), (Token::Identifier("a"), 5..6)]
    );
}

#[test]
fn first_line_may_be_indented() {
    assert_eq!(
        logical("  a\nb"),
        vec![
            (Token::Indent, 0..2),
            (Token::Identifier("a"), 2..3),
            (Token::Newline, 3..4),
            (Token::Dedent, 4..5),
            (Token::Identifier("b"), 4..5),
        ]
    );
}

#[test]
fn white_space_at_the_end_of_the_input_is_no_line() {
    assert_eq!(
        logical("a\n  "),
        vec![(Token::Identifier("a"), 0..1), (Token::Newline, 1..2)]
    );
}

#[test]
fn open_levels_at_the_end_are_left_open() {
    let tokens = logical("a\n  b\n    c");
    assert_eq!(count(&tokens, Token::Indent), 2);
    assert_eq!(count(&tokens, Token::Dedent), 0);
}

#[test]
fn width_is_counted_in_bytes() {
    // A tab is one byte wide, as a space is.
    assert_eq!(
        kinds(&logical("a\n\t\tb\n  c\n d")),
        vec![
            Token::Identifier("a"),
            Token::Newline,
            Token::Indent,
            Token::Identifier("b"),
            Token::Newline,
            Token::Identifier("c"),
            Token::Newline,
            Token::Error("Invalid indentation"),
            Token::Identifier("d"),
        ]
    );
}

#[test]
fn error_tokens_pass_through_in_every_state() {
    let tokens = vec![
        (Token::Error("x"), 0..1),
        (Token::Error("y"), 1..2),
        (Token::Newline, 2..3),
        (Token::Error("z"), 3..4),
        (Token::ParenOpen, 4..5),
        (Token::Error("w"), 5..6),
        (Token::ParenClose, 6..7),
    ];
    assert_eq!(handle_whitespace(tokens.clone()), tokens);
}

#[test]
fn error_token_at_the_start_of_a_line_is_content() {
    let tokens = vec![
        (Token::Identifier("a"), 0..1),
        (Token::Newline, 1..2),
        (Token::Spaces("  "), 2..4),
        (Token::Error("x"), 4..5),
        (Token::Newline, 5..6),
        (Token::Error("y"), 6..7),
    ];
    assert_eq!(
        handle_whitespace(tokens),
        vec![
            (Token::Identifier("a"), 0..1),
            (Token::Newline, 1..2),
            (Token::Indent, 2..4),
            (Token::Error("x"), 4..5),
            (Token::Newline, 5..6),
            (Token::Dedent, 6..7),
            (Token::Error("y"), 6..7),
        ]
    );
}

#[test]
fn closing_bracket_with_nothing_open_is_left_to_the_parser() {
    assert_eq!(
        kinds(&logical(")\n  a )\n b")),
        vec![
            Token::ParenClose,
            Token::Newline,
            Token::Indent,
            Token::Identifier("a"),
            Token::ParenClose,
            Token::Newline,
            Token::Error("Invalid indentation"),
            Token::Identifier("b"),
        ]
    );
}

#[test]
fn nested_brackets_close_one_by_one() {
    assert_eq!(
        kinds(&logical("((a\n)\n b)\n  c")),
        vec![
            Token::ParenOpen,
            Token::ParenOpen,
            Token::Identifier("a"),
            Token::ParenClose,
            Token::Identifier("b"),
            Token::ParenClose,
            Token::Newline,
            Token::Indent,
            Token::Identifier("c"),
        ]
    );
}

#[test]
fn empty_input_gives_no_tokens() {
    assert_eq!(handle_whitespace(Vec::new()), vec![]);
}

#[test]
fn indents_match_dedents_and_open_levels() {
    // Two levels stay open at the end.
    let tokens = logical("a\n  b\n    c\n  d\n      e\n        f\n      g");
    assert_eq!(count(&tokens, Token::Indent), 4);
    assert_eq!(count(&tokens, Token::Dedent), 2);
    // All levels are closed by the last line.
    let tokens = logical("a\n  b\n    c\n  d\n      e\nf");
    assert_eq!(count(&tokens, Token::Indent), 3);
    assert_eq!(count(&tokens, Token::Dedent), 3);
}

#[test]
fn no_prefix_closes_more_than_it_opened() {
    let tokens = logical("  a\n    b\n c\n  d\ne\n      f\n   g\nh");
    for k in 0..=tokens.len() {
        assert!(count(&tokens[..k], Token::Dedent) <= count(&tokens[..k], Token::Indent));
    }
}

#[test]
fn indentation_is_followed_by_content() {
    let tokens = logical("a\n  b\n    c\nd\n  e\n  ");
    for i in 0..tokens.len() {
        if tokens[i].0 == Token::Indent || tokens[i].0 == Token::Dedent {
            assert!(i + 1 < tokens.len());
        }
    }
}

#[test]
fn spans_of_logical_tokens_do_not_run_backwards() {
    let text = "a (b\n  c)\n  d [e\nf]\n    g\nh";
    let tokens = logical(text);
    for i in 1..tokens.len() {
        assert!(tokens[i - 1].1.start <= tokens[i].1.start);
        assert!(tokens[i - 1].1.end <= tokens[i].1.end);
    }
    for (_, span) in &tokens {
        assert!(span.start <= span.end && span.end <= text.len());
    }
}

#[test]
fn stack_starts_empty() {
    let stack = IndentStack::new();
    assert_eq!(stack.depth(), 0);
    assert_eq!(stack.top(), 0);
}

#[test]
fn measure_opens_a_level_for_a_deeper_line() {
    let mut stack = IndentStack::new();
    assert_eq!(stack.measure(2), Measured::Indent);
    assert_eq!(stack.measure(4), Measured::Indent);
    assert_eq!(stack.depth(), 2);
    assert_eq!(stack.top(), 4);
}

#[test]
fn measure_of_the_same_width_closes_nothing() {
    let mut stack = IndentStack::new();
    assert_eq!(stack.measure(0), Measured::Dedent(0));
    stack.measure(3);
    assert_eq!(stack.measure(3), Measured::Dedent(0));
    assert_eq!(stack.depth(), 1);
}

#[test]
fn measure_closes_every_level_above_the_width() {
    let mut stack = IndentStack::new();
    stack.measure(2);
    stack.measure(4);
    stack.measure(8);
    assert_eq!(stack.measure(2), Measured::Dedent(2));
    assert_eq!(stack.top(), 2);
    stack.measure(5);
    assert_eq!(stack.measure(0), Measured::Dedent(2));
    assert_eq!(stack.depth(), 0);
}

#[test]
fn measure_rejects_a_width_between_two_levels() {
    let mut stack = IndentStack::new();
    stack.measure(2);
    stack.measure(4);
    assert_eq!(stack.measure(3), Measured::Invalid);
    // Level 4 is closed, level 2 is not.
    assert_eq!(stack.depth(), 1);
    assert_eq!(stack.top(), 2);
    assert_eq!(stack.measure(1), Measured::Invalid);
    assert_eq!(stack.depth(), 0);
}
