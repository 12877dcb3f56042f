use neoteric::lexer::{tokenise, Token};
use neoteric::parser::{handle_whitespace, parse, ParseError, Parser};
use neoteric::value::{Atom, Group, GroupType, Spanned};
use std::ops::Range;

fn show_group(group: &Group<'_>) -> String {
    let (open, close) = match group.group_type {
        GroupType::Indentation => ("<", ">"),
        GroupType::Parenthesis => ("(", ")"),
        GroupType::Curly => ("{", "}"),
        GroupType::Bracket => ("[", "]"),
    };
    let children: Vec<String> = group.children.iter().map(show).collect();
    format!("{}{}{}", open, children.join(" "), close)
}

/// Identifiers as they are, strings in quotes, groups in their brackets
/// (`<` `>` for indentation), `~` between the two parts of a neoteric atom.
fn show(atom: &Atom<'_>) -> String {
    match atom {
        Atom::Identifier(text) => text.0.to_string(),
        Atom::String(text) => format!("\"{}\"", text.0),
        Atom::Group(group) => show_group(group),
        Atom::Neoteric { lhs, rhs } => format!("{}~{}", show(lhs), show_group(rhs)),
    }
}

fn group_spans(group: &Group<'_>, out: &mut Vec<Range<usize>>) {
    out.push(group.start_delim.1.clone());
    for child in &group.children {
        spans(child, out);
    }
    out.push(group.end_delim.1.clone());
}

fn spans(atom: &Atom<'_>, out: &mut Vec<Range<usize>>) {
    match atom {
        Atom::Identifier(text) | Atom::String(text) => out.push(text.1.clone()),
        Atom::Group(group) => group_spans(group, out),
        Atom::Neoteric { lhs, rhs } => {
            spans(lhs, out);
            group_spans(rhs, out);
        }
    }
}

/// The tokens that an atom stands for, in the order of the tree.
fn leaves<'a>(atom: &Atom<'a>, out: &mut Vec<(Token<'a>, Range<usize>)>) {
    match atom {
        Atom::Identifier(text) => out.push((Token::Identifier(text.0), text.1.clone())),
        Atom::String(text) => out.push((Token::String(text.0), text.1.clone())),
        Atom::Group(group) => group_leaves(group, out),
        Atom::Neoteric { lhs, rhs } => {
            leaves(lhs, out);
            group_leaves(rhs, out);
        }
    }
}

fn group_leaves<'a>(group: &Group<'a>, out: &mut Vec<(Token<'a>, Range<usize>)>) {
    let brackets = match group.group_type {
        GroupType::Indentation => None,
        GroupType::Parenthesis => Some((Token::ParenOpen, Token::ParenClose)),
        GroupType::Curly => Some((Token::CurlyOpen, Token::CurlyClose)),
        GroupType::Bracket => Some((Token::BracketOpen, Token::BracketClose)),
    };
    if let Some((open, _)) = brackets {
        out.push((open, group.start_delim.1.clone()));
    }
    for child in &group.children {
        leaves(child, out);
    }
    if let Some((_, close)) = brackets {
        out.push((close, group.end_delim.1.clone()));
    }
}

fn shapes(text: &str) -> Vec<String> {
    parse(text).unwrap().iter().map(show).collect()
}

#[test]
fn parenthesised_group() {
    let atoms = parse("(a b)").unwrap();
    assert_eq!(
        atoms,
        vec![Atom::Group(Group {
            group_type: GroupType::Parenthesis,
            start_delim: Spanned((), 0..1),
            children: vec![
                Atom::Identifier(Spanned("a", 1..2)),
                Atom::Identifier(Spanned("b", 3..4)),
            ],
            end_delim: Spanned((), 4..5),
        })]
    );
}

#[test]
fn adjacent_bracket_makes_a_neoteric_atom() {
    let atoms = parse("f(x)").unwrap();
    assert_eq!(
        atoms,
        vec![Atom::Neoteric {
            lhs: Box::new(Atom::Identifier(Spanned("f", 0..1))),
            rhs: Group {
                group_type: GroupType::Parenthesis,
                start_delim: Spanned((), 1..2),
                children: vec![Atom::Identifier(Spanned("x", 2..3))],
                end_delim: Spanned((), 3..4),
            },
        }]
    );
}

#[test]
fn gap_before_the_bracket_makes_two_siblings() {
    let atoms = parse("f (x)").unwrap();
    assert_eq!(atoms.len(), 1);
    assert_eq!(
        atoms[0],
        Atom::Group(Group {
            group_type: GroupType::Indentation,
            start_delim: Spanned((), 0..1),
            children: vec![
                Atom::Identifier(Spanned("f", 0..1)),
                Atom::Group(Group {
                    group_type: GroupType::Parenthesis,
                    start_delim: Spanned((), 2..3),
                    children: vec![Atom::Identifier(Spanned("x", 3..4))],
                    end_delim: Spanned((), 4..5),
                }),
            ],
            end_delim: Spanned((), 4..5),
        })
    );
}

#[test]
fn same_tokens_with_other_spans_give_another_tree() {
    let kinds = |text| -> Vec<Token<'static>> {
        handle_whitespace(tokenise(text)).into_iter().map(|(t, _)| t).collect()
    };
    assert_eq!(kinds("f(x)"), kinds("f (x)"));
    assert_eq!(shapes("f(x)"), vec!["f~(x)"]);
    assert_eq!(shapes("f (x)"), vec!["<f (x)>"]);
    assert_eq!(shapes("(f(x))"), vec!["(f~(x))"]);
    assert_eq!(shapes("(f (x))"), vec!["(f (x))"]);
    assert_eq!(shapes("(f\n(x))"), vec!["(f (x))"]);
}

#[test]
fn neoteric_with_every_bracket() {
    assert_eq!(shapes("test{1 + 3}"), vec!["test~{1 + 3}"]);
    assert_eq!(shapes("v[i]"), vec!["v~[i]"]);
    assert_eq!(shapes("f()"), vec!["f~()"]);
    assert_eq!(shapes("(f(g(x)) y)"), vec!["(f~(g~(x)) y)"]);
}

#[test]
fn only_an_identifier_heads_a_neoteric_atom() {
    assert_eq!(shapes("(\"s\"(x) (a)(b) f(x)(y))"), vec!["(\"s\" (x) (a) (b) f~(x) (y))"]);
}

#[test]
fn curly_neoteric_example() {
    let atoms = parse("test{1 + 3}").unwrap();
    assert_eq!(
        atoms,
        vec![Atom::Neoteric {
            lhs: Box::new(Atom::Identifier(Spanned("test", 0..4))),
            rhs: Group {
                group_type: GroupType::Curly,
                start_delim: Spanned((), 4..5),
                children: vec![
                    Atom::Identifier(Spanned("1", 5..6)),
                    Atom::Identifier(Spanned("+", 7..8)),
                    Atom::Identifier(Spanned("3", 9..10)),
                ],
                end_delim: Spanned((), 10..11),
            },
        }]
    );
}

#[test]
fn single_atom_line_is_the_atom_itself() {
    assert_eq!(parse("a").unwrap(), vec![Atom::Identifier(Spanned("a", 0..1))]);
    assert_eq!(parse("\"s\"\n").unwrap(), vec![Atom::String(Spanned("s", 0..3))]);
    assert_eq!(shapes("a\nb\n(c d)\n"), vec!["a", "b", "(c d)"]);
}

#[test]
fn line_of_two_atoms_is_an_indentation_group() {
    let atoms = parse("a b\n").unwrap();
    assert_eq!(
        atoms,
        vec![Atom::Group(Group {
            group_type: GroupType::Indentation,
            start_delim: Spanned((), 0..1),
            children: vec![
                Atom::Identifier(Spanned("a", 0..1)),
                Atom::Identifier(Spanned("b", 2..3)),
            ],
            end_delim: Spanned((), 3..4),
        })]
    );
    assert_eq!(shapes("a b\nc d e"), vec!["<a b>", "<c d e>"]);
}

#[test]
fn line_with_a_block_below_is_an_indentation_group() {
    let atoms = parse("a\n  b\nc").unwrap();
    assert_eq!(
        atoms,
        vec![
            Atom::Group(Group {
                group_type: GroupType::Indentation,
                start_delim: Spanned((), 0..1),
                children: vec![
                    Atom::Identifier(Spanned("a", 0..1)),
                    Atom::Identifier(Spanned("b", 4..5)),
                ],
                end_delim: Spanned((), 6..7),
            }),
            Atom::Identifier(Spanned("c", 6..7)),
        ]
    );
}

#[test]
fn blocks_nest() {
    assert_eq!(shapes("a\n  b\n    c\n    d e\n  f\ng"), vec!["<a <b c <d e>> f>", "g"]);
    assert_eq!(shapes("a\n  b\n    c"), vec!["<a <b c>>"]);
}

#[test]
fn define_example() {
    let text = "define test (a b)\n    (print \"hello\")\n    (another-thing 1 2)\n";
    assert_eq!(
        shapes(text),
        vec!["<define test (a b) (print \"hello\") (another-thing 1 2)>"]
    );
    let atoms = parse(text).unwrap();
    match &atoms[0] {
        Atom::Group(group) => {
            assert_eq!(group.group_type, GroupType::Indentation);
            assert_eq!(group.start_delim.1, 0..6);
            assert_eq!(group.end_delim.1, 61..62);
        }
        other => panic!("expected a group, found {:?}", other),
    }
}

#[test]
fn bracket_group_may_span_lines() {
    assert_eq!(shapes("(a\n    b)"), vec!["(a b)"]);
    assert_eq!(shapes("f(a\n\n  b\n  )\n"), vec!["f~(a b)"]);
}

#[test]
fn comment_inside_brackets_is_dropped() {
    let tokens = vec![
        (Token::ParenOpen, 0..1),
        (Token::Identifier("a"), 1..2),
        (Token::Spaces(" "), 2..3),
        (Token::Comment, 3..6),
        (Token::Newline, 6..7),
        (Token::Spaces("  "), 7..9),
        (Token::Identifier("b"), 9..10),
        (Token::ParenClose, 10..11),
    ];
    let atoms = Parser::new(tokens).parse_toplevel().unwrap();
    assert_eq!(atoms.iter().map(show).collect::<Vec<_>>(), vec!["(a b)"]);
}

#[test]
fn mixed_brackets() {
    assert_eq!(shapes("[a {b} (c)]"), vec!["[a {b} (c)]"]);
    assert_eq!(shapes("()"), vec!["()"]);
}

#[test]
fn whole_input_may_be_indented() {
    assert_eq!(shapes("  a\n  b"), vec!["a", "b"]);
    assert_eq!(shapes("  a\n  b\n"), vec!["a", "b"]);
}

#[test]
fn dedent_of_an_indented_input_is_consumed() {
    // Indent a Newline Dedent, then the end.
    let tokens = vec![
        (Token::Indent, 0..2),
        (Token::Identifier("a"), 2..3),
        (Token::Newline, 3..4),
        (Token::Dedent, 4..4),
    ];
    let mut parser = Parser::new(tokens);
    assert_eq!(
        parser.parse_toplevel(),
        Ok(vec![Atom::Identifier(Spanned("a", 2..3))])
    );
}

#[test]
fn empty_input_has_no_atoms() {
    assert_eq!(parse(""), Ok(vec![]));
    assert_eq!(parse("\n\n"), Ok(vec![]));
}

#[test]
fn wrong_closing_bracket() {
    assert_eq!(
        parse("(a]"),
        Err(ParseError::MismatchedToken {
            expected: Token::ParenClose,
            found: Token::BracketClose,
            span: 2..3,
        })
    );
    assert_eq!(
        parse("{a (b}"),
        Err(ParseError::MismatchedToken {
            expected: Token::ParenClose,
            found: Token::CurlyClose,
            span: 5..6,
        })
    );
    assert_eq!(
        parse("[a)"),
        Err(ParseError::MismatchedToken {
            expected: Token::BracketClose,
            found: Token::ParenClose,
            span: 2..3,
        })
    );
}

#[test]
fn input_ends_before_the_closing_bracket() {
    assert_eq!(
        parse("(a"),
        Err(ParseError::ExpectedTokFoundEof { expected: Token::ParenClose, pos: Some(2) })
    );
    assert_eq!(
        parse("f{"),
        Err(ParseError::ExpectedTokFoundEof { expected: Token::CurlyClose, pos: Some(2) })
    );
    assert_eq!(
        parse("(a\n  b\n"),
        Err(ParseError::ExpectedTokFoundEof { expected: Token::ParenClose, pos: Some(6) })
    );
}

#[test]
fn token_left_over() {
    assert_eq!(
        parse("a )"),
        Err(ParseError::ExpectedEofFoundToken { found: Token::ParenClose, span: 2..3 })
    );
    assert_eq!(
        parse("  a\nb"),
        Err(ParseError::ExpectedEofFoundToken { found: Token::Identifier("b"), span: 4..5 })
    );
}

#[test]
fn bad_dedent_example() {
    assert_eq!(
        parse("a\n  b\n c"),
        Err(ParseError::InvalidInput { reason: "Invalid indentation", span: 6..7 })
    );
}

#[test]
fn error_token_of_the_scanner_is_invalid_input() {
    assert_eq!(
        parse("a \"b"),
        Err(ParseError::InvalidInput { reason: "Invalid token", span: 2..4 })
    );
    assert_eq!(
        parse("(a \u{b} b)"),
        Err(ParseError::InvalidInput { reason: "Invalid token", span: 3..4 })
    );
}

#[test]
fn first_failure_is_reported() {
    // The wrong bracket comes before the invalid indentation.
    assert_eq!(
        parse("(a]\n  b\n c"),
        Err(ParseError::MismatchedToken {
            expected: Token::ParenClose,
            found: Token::BracketClose,
            span: 2..3,
        })
    );
    // The invalid indentation comes before the missing bracket.
    assert_eq!(
        parse("a\n  b\n c (d"),
        Err(ParseError::InvalidInput { reason: "Invalid indentation", span: 6..7 })
    );
}

#[test]
fn spans_run_forward_in_tree_order() {
    let text = "define test (a b)\n    (print \"hello\")\n    f(x {y\n z})\n\ntest{1 + 3}\n  g\n    h i\nj";
    let atoms = parse(text).unwrap();
    let mut all = Vec::new();
    for atom in &atoms {
        spans(atom, &mut all);
    }
    assert!(all.len() > 20);
    for span in &all {
        assert!(span.start <= span.end && span.end <= text.len());
    }
    for i in 1..all.len() {
        assert!(all[i - 1].start <= all[i].start);
        assert!(all[i - 1].end <= all[i].end);
    }
}

#[test]
fn tree_holds_the_tokens_of_the_text() {
    let text = "define test (a b)\n    (print \"hello\")\n    f(x {y\n z})\n\ntest{1 + 3}\n  g\n    h i\nj";
    let atoms = parse(text).unwrap();
    let mut found = Vec::new();
    for atom in &atoms {
        leaves(atom, &mut found);
    }
    let scanned: Vec<_> = tokenise(text)
        .into_iter()
        .filter(|(t, _)| !matches!(t, Token::Spaces(_) | Token::Newline | Token::Comment))
        .collect();
    assert_eq!(found, scanned);
}

#[test]
fn parse_runs_the_three_stages() {
    assert_eq!(parse("f(x)"), Parser::new(tokenise("f(x)")).parse_toplevel());
    assert_eq!(parse("(a"), Parser::new(tokenise("(a")).parse_toplevel());
    assert_eq!(
        parse("a\n  b").unwrap().iter().map(show).collect::<Vec<_>>(),
        vec!["<a b>"]
    );
}

#[test]
fn atom_start_tells_where_an_atom_begins() {
    let mut parser = Parser::new(tokenise("a)"));
    assert!(parser.atom_start());
    assert_eq!(parser.parse_atom(), Ok(Atom::Identifier(Spanned("a", 0..1))));
    assert!(!parser.atom_start());
    let parser = Parser::new(tokenise(""));
    assert!(!parser.atom_start());
    assert!(Parser::new(tokenise("\"s\"")).atom_start());
    assert!(Parser::new(tokenise("[")).atom_start());
}

#[test]
fn parse_atom_reads_one_atom() {
    let mut parser = Parser::new(tokenise("(a b) c"));
    assert_eq!(show(&parser.parse_atom().unwrap()), "(a b)");
    assert_eq!(show(&parser.parse_atom().unwrap()), "c");
    assert!(!parser.atom_start());
}

#[test]
fn parse_atom_reports_a_broken_group() {
    let mut parser = Parser::new(tokenise("f(a]"));
    assert_eq!(
        parser.parse_atom(),
        Err(ParseError::MismatchedToken {
            expected: Token::ParenClose,
            found: Token::BracketClose,
            span: 3..4,
        })
    );
}

#[test]
fn line_group_reads_one_line_and_its_block() {
    let mut parser = Parser::new(tokenise("a b\n  c\nd\n"));
    assert_eq!(show(&parser.parse_maybe_indent_group().unwrap()), "<a b c>");
    assert_eq!(show(&parser.parse_maybe_indent_group().unwrap()), "d");
    assert!(!parser.atom_start());
}

#[test]
fn line_group_with_a_block_that_starts_with_no_atom() {
    // The block holds no line group: the closing bracket ends it at once.
    let mut parser = Parser::new(tokenise("a\n  )"));
    assert_eq!(
        parser.parse_maybe_indent_group(),
        Ok(Atom::Group(Group {
            group_type: GroupType::Indentation,
            start_delim: Spanned((), 0..1),
            children: vec![Atom::Identifier(Spanned("a", 0..1))],
            end_delim: Spanned((), 4..5),
        }))
    );
}

#[test]
fn line_group_of_an_empty_stream_is_an_empty_group() {
    let mut parser = Parser::new(Vec::new());
    assert_eq!(
        parser.parse_maybe_indent_group(),
        Ok(Atom::Group(Group {
            group_type: GroupType::Indentation,
            start_delim: Spanned((), 0..0),
            children: vec![],
            end_delim: Spanned((), 0..0),
        }))
    );
}

#[test]
fn line_group_where_no_atom_starts_is_an_empty_group() {
    let mut parser = Parser::new(tokenise(")"));
    assert_eq!(
        parser.parse_maybe_indent_group(),
        Ok(Atom::Group(Group {
            group_type: GroupType::Indentation,
            start_delim: Spanned((), 0..1),
            children: vec![],
            end_delim: Spanned((), 0..0),
        }))
    );
}

#[test]
fn line_group_at_the_end_of_the_stream() {
    let mut parser = Parser::new(tokenise("ab"));
    parser.parse_atom().unwrap();
    assert_eq!(
        parser.parse_maybe_indent_group(),
        Ok(Atom::Group(Group {
            group_type: GroupType::Indentation,
            start_delim: Spanned((), 2..2),
            children: vec![],
            end_delim: Spanned((), 0..2),
        }))
    );
}

#[test]
fn spanned_gives_its_value() {
    let mut spanned = Spanned(5u8, 1..2);
    assert_eq!(*spanned, 5);
    *spanned = 7;
    assert_eq!(spanned, Spanned(7u8, 1..2));
}
