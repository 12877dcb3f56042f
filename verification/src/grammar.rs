//! The grammar of the atom parser, as functions from a logical token stream
//! and a position to the atom found there and the position behind it.
//!
//! ```text
//! toplevel      := Indent? line-group* Dedent? end
//! line-group    := atom* ( Newline ( Indent line-group* Dedent? )? )?
//! atom          := bracket-group | neoteric | Identifier | String
//! bracket-group := '(' atom* ')' | '{' atom* '}' | '[' atom* ']'
//! neoteric      := Identifier bracket-group      -- no byte between the two
//! ```

use crate::lexer::{opens, Lexeme, TokenView};
use crate::value::{AtomView, GroupType, GroupView};
use std::ops::Range;
use vstd::prelude::*;

verus! {

/// Model of a parse error.
pub enum ParseErrorView {
    MismatchedToken { expected: TokenView, found: TokenView, span: Range<usize> },
    ExpectedTokFoundEof { expected: TokenView, pos: Option<usize> },
    ExpectedEofFoundToken { found: TokenView, span: Range<usize> },
    InvalidInput { reason: Seq<char>, span: Range<usize> },
}

/// A parse error and the position of the token at which it was found (the
/// length of the stream where the input ended too early).
pub type Failure = (ParseErrorView, int);

/// What a grammar function yields: the value and the position behind it, or
/// a failure.
pub type Parsed<A> = Result<(A, int), Failure>;

/// An atom can start at `pos`: an identifier, a string or an opening bracket
/// stands there.
pub open spec fn starts_atom(t: Seq<Lexeme>, pos: int) -> bool {
    &&& 0 <= pos < t.len()
    &&& (opens(t[pos].0) || t[pos].0 is Identifier || t[pos].0 is String)
}

/// A `Newline` stands at `pos`.
pub open spec fn newline_at(t: Seq<Lexeme>, pos: int) -> bool {
    0 <= pos < t.len() && t[pos].0 is Newline
}

/// An `Indent` stands at `pos`.
pub open spec fn indent_at(t: Seq<Lexeme>, pos: int) -> bool {
    0 <= pos < t.len() && t[pos].0 is Indent
}

/// A `Dedent` stands at `pos`.
pub open spec fn dedent_at(t: Seq<Lexeme>, pos: int) -> bool {
    0 <= pos < t.len() && t[pos].0 is Dedent
}

/// The bracket that closes `open`.
pub open spec fn closer(open: TokenView) -> TokenView {
    match open {
        TokenView::ParenOpen => TokenView::ParenClose,
        TokenView::CurlyOpen => TokenView::CurlyClose,
        _ => TokenView::BracketClose,
    }
}

/// The kind of group that `open` starts.
pub open spec fn group_type_of(open: TokenView) -> GroupType {
    match open {
        TokenView::ParenOpen => GroupType::Parenthesis,
        TokenView::CurlyOpen => GroupType::Curly,
        _ => GroupType::Bracket,
    }
}

/// The failure for a token that stands where it must not: an error token
/// from the scanner or the normaliser is reported as invalid input, with its
/// reason; any other token by `otherwise`.
pub open spec fn reject(t: Seq<Lexeme>, pos: int, otherwise: ParseErrorView) -> Failure {
    match t[pos].0 {
        TokenView::Error(reason) => (ParseErrorView::InvalidInput { reason, span: t[pos].1 }, pos),
        _ => (otherwise, pos),
    }
}

/// The token `expected` at `pos`: its span and the position behind it.
/// Another token there is a mismatch, the end of the stream is reported with
/// the end of the last token (no position in an empty stream).
pub open spec fn expect_at(t: Seq<Lexeme>, pos: int, expected: TokenView) -> Parsed<Range<usize>> {
    if 0 <= pos < t.len() {
        if t[pos].0 == expected {
            Ok((t[pos].1, pos + 1))
        } else {
            Err(
                reject(
                    t,
                    pos,
                    ParseErrorView::MismatchedToken { expected, found: t[pos].0, span: t[pos].1 },
                ),
            )
        }
    } else {
        Err(
            (
                ParseErrorView::ExpectedTokFoundEof {
                    expected,
                    pos: if 0 < pos <= t.len() {
                        Some(t[pos - 1].1.end)
                    } else {
                        None
                    },
                },
                pos,
            ),
        )
    }
}

/// The atoms that follow each other from `pos` on, as many as there are.
pub open spec fn atoms_from(t: Seq<Lexeme>, pos: int) -> Parsed<Seq<AtomView>>
    decreases t.len() - pos, 2nat,
{
    if starts_atom(t, pos) {
        match atom_at(t, pos) {
            Err(e) => Err(e),
            Ok((first, next)) => if pos < next <= t.len() {
                match atoms_from(t, next) {
                    Err(e) => Err(e),
                    Ok((rest, end)) => Ok((seq![first] + rest, end)),
                }
            } else {
                Ok((seq![first], next))
            },
        }
    } else {
        Ok((Seq::empty(), pos))
    }
}

/// The atom that starts at `pos`.
///
/// An identifier whose span ends exactly where the span of a following
/// opening bracket starts is the head of a neoteric expression; with any gap
/// between the two it stands alone and the group is its sibling.
pub open spec fn atom_at(t: Seq<Lexeme>, pos: int) -> Parsed<AtomView>
    recommends
        starts_atom(t, pos),
    decreases t.len() - pos, 1nat,
    when starts_atom(t, pos)
{
    match t[pos].0 {
        TokenView::Identifier(text) => {
            let head = AtomView::Identifier(text, t[pos].1);
            if pos + 1 < t.len() && opens(t[pos + 1].0) && t[pos + 1].1.start == t[pos].1.end {
                match group_at(t, pos + 1) {
                    Err(e) => Err(e),
                    Ok((rhs, next)) => Ok((AtomView::Neoteric { lhs: Box::new(head), rhs }, next)),
                }
            } else {
                Ok((head, pos + 1))
            }
        },
        TokenView::String(text) => Ok((AtomView::String(text, t[pos].1), pos + 1)),
        _ => match group_at(t, pos) {
            Err(e) => Err(e),
            Ok((group, next)) => Ok((AtomView::Group(group), next)),
        },
    }
}

/// The bracketed group whose opening bracket stands at `pos`: the atoms
/// behind it and the matching closing bracket.
pub open spec fn group_at(t: Seq<Lexeme>, pos: int) -> Parsed<GroupView>
    recommends
        0 <= pos < t.len(),
        opens(t[pos].0),
    decreases t.len() - pos, 0nat,
    when 0 <= pos < t.len()
{
    match atoms_from(t, pos + 1) {
        Err(e) => Err(e),
        Ok((children, close)) => match expect_at(t, close, closer(t[pos].0)) {
            Err(e) => Err(e),
            Ok((end, next)) => Ok(
                (
                    GroupView {
                        group_type: group_type_of(t[pos].0),
                        start: t[pos].1,
                        children,
                        end,
                    },
                    next,
                ),
            ),
        },
    }
}

/// The span at which a line group that starts at `pos` begins: that of the
/// token there, or the empty span at the end of the stream.
pub open spec fn start_span(t: Seq<Lexeme>, pos: int) -> Range<usize> {
    if 0 <= pos < t.len() {
        t[pos].1
    } else if 0 < pos <= t.len() {
        Range { start: t[pos - 1].1.end, end: t[pos - 1].1.end }
    } else {
        Range { start: 0, end: 0 }
    }
}

/// The span of the token before `pos`; with no token before it, the empty
/// span at the start of the stream.
pub open spec fn last_span(t: Seq<Lexeme>, pos: int) -> Range<usize> {
    if 0 < pos <= t.len() {
        t[pos - 1].1
    } else {
        Range { start: start_span(t, 0).start, end: start_span(t, 0).start }
    }
}

/// Closes a line group that no `Dedent` or following token ends: a single
/// child stands for itself, any other number of children is wrapped in an
/// indentation group that ends with the last token read.
pub open spec fn close_line(t: Seq<Lexeme>, pos: int, children: Seq<AtomView>, end: int) -> Parsed<
    AtomView,
> {
    if children.len() == 1 {
        Ok((children[0], end))
    } else {
        Ok(
            (
                AtomView::Group(
                    GroupView {
                        group_type: GroupType::Indentation,
                        start: start_span(t, pos),
                        children,
                        end: last_span(t, end),
                    },
                ),
                end,
            ),
        )
    }
}

/// The line group that starts at `pos`: the atoms of the line and, behind a
/// `Newline` and an `Indent`, the line groups of the indented block.
///
/// With a block, the result is an indentation group of the line's atoms
/// followed by the block's groups; it ends at the `Dedent`, which is
/// consumed, or at the token that follows the block, which is not. Where the
/// stream ends inside the block, or no block follows, `close_line` decides.
pub open spec fn line_group_at(t: Seq<Lexeme>, pos: int) -> Parsed<AtomView>
    decreases t.len() - pos, 3nat,
{
    match atoms_from(t, pos) {
        Err(e) => Err(e),
        Ok((line, after)) => if newline_at(t, after) {
            if indent_at(t, after + 1) && pos <= after {
                match line_groups_from(t, after + 2) {
                    Err(e) => Err(e),
                    Ok((block, end)) => if 0 <= end < t.len() {
                        Ok(
                            (
                                AtomView::Group(
                                    GroupView {
                                        group_type: GroupType::Indentation,
                                        start: start_span(t, pos),
                                        children: line + block,
                                        end: t[end].1,
                                    },
                                ),
                                if t[end].0 is Dedent {
                                    end + 1
                                } else {
                                    end
                                },
                            ),
                        )
                    } else {
                        close_line(t, pos, line + block, end)
                    },
                }
            } else {
                close_line(t, pos, line, after + 1)
            }
        } else {
            close_line(t, pos, line, after)
        },
    }
}

/// The line groups that follow each other from `pos` on, as long as an atom
/// starts the next one.
pub open spec fn line_groups_from(t: Seq<Lexeme>, pos: int) -> Parsed<Seq<AtomView>>
    decreases t.len() - pos, 4nat,
{
    if starts_atom(t, pos) {
        match line_group_at(t, pos) {
            Err(e) => Err(e),
            Ok((first, next)) => if pos < next <= t.len() {
                match line_groups_from(t, next) {
                    Err(e) => Err(e),
                    Ok((rest, end)) => Ok((seq![first] + rest, end)),
                }
            } else {
                Ok((seq![first], next))
            },
        }
    } else {
        Ok((Seq::empty(), pos))
    }
}

/// The whole input from `pos` on: an optional `Indent`, line groups, the
/// `Dedent` that matches the `Indent`, and the end of the stream. A token
/// that is left over is a failure.
pub open spec fn toplevel_at(t: Seq<Lexeme>, pos: int) -> Parsed<Seq<AtomView>> {
    let start = if indent_at(t, pos) {
        pos + 1
    } else {
        pos
    };
    match line_groups_from(t, start) {
        Err(e) => Err(e),
        Ok((children, after)) => {
            let end = if indent_at(t, pos) && dedent_at(t, after) {
                after + 1
            } else {
                after
            };
            if 0 <= end < t.len() {
                Err(
                    reject(
                        t,
                        end,
                        ParseErrorView::ExpectedEofFoundToken { found: t[end].0, span: t[end].1 },
                    ),
                )
            } else {
                Ok((children, end))
            }
        },
    }
}

} // verus!
