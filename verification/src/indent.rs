//! The indentation normaliser: from the scanned token stream to the logical
//! token stream that the parser reads.
//!
//! Leading white space of a line becomes `Indent` / `Dedent` tokens, comments
//! and blank lines disappear, and inside an explicit bracket pair neither
//! white space nor line breaks leave a trace.

use crate::lexer::{blank, closes, lexemes, opens, Lexeme, Token, TokenView};
use std::ops::Range;
use vstd::prelude::*;
use vstd::utf8::encode_utf8;

verus! {

/// The reason carried by the error token that reports a dedent to a width
/// that is not an open level.
pub open spec fn invalid_indentation() -> Seq<char> {
    "Invalid indentation"@
}

/// The width of a run of leading white space: its length in bytes, which
/// for spaces, tabs and form feeds is the number of characters.
pub open spec fn width(text: Seq<char>) -> nat {
    encode_utf8(text).len()
}

/// The innermost open level, 0 at column 0.
pub open spec fn top(levels: Seq<nat>) -> nat {
    if levels.len() == 0 {
        0
    } else {
        levels.last()
    }
}

/// Levels are positive and strictly increasing from bottom to top.
pub open spec fn increasing(levels: Seq<nat>) -> bool {
    &&& forall|i: int| 0 <= i < levels.len() ==> 0 < #[trigger] levels[i]
    &&& forall|i: int, j: int| 0 <= i < j < levels.len() ==> levels[i] < levels[j]
}

/// How many levels at the top of the stack lie above `width`.
pub open spec fn levels_above(levels: Seq<nat>, width: nat) -> nat
    decreases levels.len(),
{
    if levels.len() > 0 && levels.last() > width {
        1 + levels_above(levels.drop_last(), width)
    } else {
        0
    }
}

/// What measuring a line did to the stack of levels.
#[derive(Debug, Clone, Copy, PartialEq, Eq)]
pub enum Measured {
    /// The line is deeper than every open level: one level was opened.
    Indent,
    /// The line sits on an open level (or at column 0); that many levels
    /// above it were closed, possibly none.
    Dedent(usize),
    /// The line is shallower than the innermost level and matches none.
    Invalid,
}

/// The levels that remain after a line of the given width was measured:
/// one more if the line is deeper than all of them, else those that do not
/// lie above it.
pub open spec fn measured_levels(levels: Seq<nat>, width: nat) -> Seq<nat> {
    if width > top(levels) {
        levels.push(width)
    } else {
        levels.take(levels.len() - levels_above(levels, width))
    }
}

/// The tokens that measuring a line of the given width puts out, all with
/// the span `at`: one `Indent`, or one `Dedent` for each closed level, or one
/// error token where the width matches no open level.
pub open spec fn indentation_tokens(levels: Seq<nat>, width: nat, at: Range<usize>) -> Seq<
    Lexeme,
> {
    if width > top(levels) {
        seq![(TokenView::Indent, at)]
    } else if top(measured_levels(levels, width)) == width {
        Seq::new(levels_above(levels, width), |i: int| (TokenView::Dedent, at))
    } else {
        seq![(TokenView::Error(invalid_indentation()), at)]
    }
}

/// Whether `m` is the outcome of measuring a line of the given width.
pub open spec fn is_measured(levels: Seq<nat>, width: nat, m: Measured) -> bool {
    match m {
        Measured::Indent => width > top(levels),
        Measured::Dedent(closed) => {
            &&& width <= top(levels)
            &&& top(measured_levels(levels, width)) == width
            &&& closed == levels_above(levels, width)
        },
        Measured::Invalid => {
            &&& width <= top(levels)
            &&& top(measured_levels(levels, width)) != width
        },
    }
}

/// `levels_above` never counts more levels than there are.
pub proof fn lemma_levels_above_bound(levels: Seq<nat>, width: nat)
    ensures
        levels_above(levels, width) <= levels.len(),
    decreases levels.len(),
{
    if levels.len() > 0 && levels.last() > width {
        lemma_levels_above_bound(levels.drop_last(), width);
    }
}

/// The stack of open indentation levels.
pub struct IndentStack {
    levels: Vec<usize>,
}

impl View for IndentStack {
    type V = Seq<nat>;

    closed spec fn view(&self) -> Seq<nat> {
        Seq::new(self.levels@.len(), |i: int| self.levels@[i] as nat)
    }
}

impl IndentStack {
    /// The levels are positive and strictly increasing.
    pub open spec fn wf(&self) -> bool {
        increasing(self@)
    }

    /// The empty stack: column 0.
    pub fn new() -> (s: Self)
        ensures
            s@ == Seq::<nat>::empty(),
            s.wf(),
    {
        let s = IndentStack { levels: Vec::new() };
        assert(s@ =~= Seq::<nat>::empty());
        s
    }

    /// The number of open levels.
    pub fn depth(&self) -> (d: usize)
        ensures
            d == self@.len(),
    {
        self.levels.len()
    }

    /// The innermost open level, 0 when none is open.
    pub fn top(&self) -> (t: usize)
        ensures
            t == top(self@),
    {
        let n = self.levels.len();
        if n == 0 {
            0
        } else {
            self.levels[n - 1]
        }
    }

    /// Measures a line that starts at `width`: opens a level if it is deeper
    /// than the innermost one, else closes every level above it. The levels
    /// above `width` are closed even when `width` matches none of the rest.
    pub fn measure(&mut self, width: usize) -> (m: Measured)
        ensures
            final(self)@ == measured_levels(old(self)@, width as nat),
            is_measured(old(self)@, width as nat, m),
            old(self).wf() ==> final(self).wf(),
    {
        let ghost before = self@;
        proof {
            lemma_levels_above_bound(before, width as nat);
            assert(before.len() == self.levels.len());
        }
        if width > self.top() {
            self.levels.push(width);
            assert(self@ =~= before.push(width as nat));
            return Measured::Indent;
        }
        let mut closed: usize = 0;
        while self.top() > width
            invariant
                before.len() <= usize::MAX,
                closed + self@.len() == before.len(),
                self@ == before.take(before.len() - closed),
                levels_above(before, width as nat) == closed + levels_above(self@, width as nat),
            decreases self@.len(),
        {
            let ghost prev = self@;
            self.levels.pop();
            assert(self@ =~= prev.drop_last());
            closed = closed + 1;
            assert(self@ =~= before.take(before.len() - closed));
        }
        if self.top() == width {
            Measured::Dedent(closed)
        } else {
            Measured::Invalid
        }
    }
}

/// Where the normaliser stands within the current line.
pub enum LineState {
    /// No content has been seen yet.
    StartOfInput,
    /// A line break was kept and no content of the new line has been seen.
    StartOfLine,
    /// Content of the current line has been seen.
    InLine,
    /// Inside that many explicit bracket pairs.
    Suppressed(nat),
}

/// The state of the normaliser between two tokens.
pub struct Layout {
    pub line: LineState,
    /// The leading white space of the current line, width and span, seen at
    /// the start of the line and applied when the line turns out to hold
    /// content.
    pub pending: Option<(nat, Range<usize>)>,
    /// The open indentation levels.
    pub indents: Seq<nat>,
}

/// The state before the first token.
pub open spec fn initial() -> Layout {
    Layout { line: LineState::StartOfInput, pending: None, indents: Seq::empty() }
}

/// One transition of the normaliser: the state after the token and the
/// logical tokens put out for it.
///
/// * Inside brackets, white space, line breaks and comments vanish and every
///   other token passes; brackets move the nesting depth.
/// * Within a line, white space and comments vanish, a line break is kept and
///   starts a new line, an opening bracket enters suppression.
/// * At the start of a line, the first run of white space is remembered,
///   comments vanish, and a line break ends a blank line without a trace. Any
///   other token is content: the remembered width (0 if there is none) is
///   measured against the open levels, the resulting tokens go out, and the
///   token follows them.
pub open spec fn step(l: Layout, tok: TokenView, span: Range<usize>) -> (Layout, Seq<Lexeme>) {
    match l.line {
        LineState::Suppressed(depth) => {
            if blank(tok) {
                (l, Seq::empty())
            } else if opens(tok) {
                (Layout { line: LineState::Suppressed(depth + 1), ..l }, seq![(tok, span)])
            } else if closes(tok) {
                (
                    Layout {
                        line: if depth <= 1 {
                            LineState::InLine
                        } else {
                            LineState::Suppressed((depth - 1) as nat)
                        },
                        ..l
                    },
                    seq![(tok, span)],
                )
            } else {
                (l, seq![(tok, span)])
            }
        },
        LineState::InLine => {
            if tok is Newline {
                (Layout { line: LineState::StartOfLine, ..l }, seq![(tok, span)])
            } else if blank(tok) {
                (l, Seq::empty())
            } else if opens(tok) {
                (Layout { line: LineState::Suppressed(1), ..l }, seq![(tok, span)])
            } else {
                (l, seq![(tok, span)])
            }
        },
        LineState::StartOfInput | LineState::StartOfLine => {
            if tok is Spaces {
                (
                    Layout {
                        pending: if l.pending is Some {
                            l.pending
                        } else {
                            Some((width(tok->Spaces_0), span))
                        },
                        ..l
                    },
                    Seq::empty(),
                )
            } else if tok is Comment {
                (l, Seq::empty())
            } else if tok is Newline {
                (Layout { pending: None, ..l }, Seq::empty())
            } else {
                let (w, at) = match l.pending {
                    Some(p) => p,
                    None => (0nat, span),
                };
                (
                    Layout {
                        line: if opens(tok) {
                            LineState::Suppressed(1)
                        } else {
                            LineState::InLine
                        },
                        pending: None,
                        indents: measured_levels(l.indents, w),
                    },
                    indentation_tokens(l.indents, w, at).push((tok, span)),
                )
            }
        },
    }
}

/// The state reached and the logical tokens put out after all of `tokens`.
pub open spec fn run(tokens: Seq<Lexeme>) -> (Layout, Seq<Lexeme>)
    decreases tokens.len(),
{
    if tokens.len() == 0 {
        (initial(), Seq::empty())
    } else {
        let (before, out) = run(tokens.drop_last());
        let (after, emitted) = step(before, tokens.last().0, tokens.last().1);
        (after, out + emitted)
    }
}

/// The logical token stream of a scanned token stream.
pub open spec fn normalize(tokens: Seq<Lexeme>) -> Seq<Lexeme> {
    run(tokens).1
}

/// The levels left open at the end of the input.
pub open spec fn open_levels(tokens: Seq<Lexeme>) -> Seq<nat> {
    run(tokens).0.indents
}

enum Mode {
    StartOfInput,
    StartOfLine,
    InLine,
    Suppressed(usize),
}

impl View for Mode {
    type V = LineState;

    closed spec fn view(&self) -> LineState {
        match self {
            Mode::StartOfInput => LineState::StartOfInput,
            Mode::StartOfLine => LineState::StartOfLine,
            Mode::InLine => LineState::InLine,
            Mode::Suppressed(depth) => LineState::Suppressed(*depth as nat),
        }
    }
}

proof fn lemma_lexemes_push(tokens: Seq<(Token<'_>, Range<usize>)>, token: (Token<'_>, Range<usize>))
    ensures
        lexemes(tokens.push(token)) == lexemes(tokens).push((token.0@, token.1)),
{
    assert(lexemes(tokens.push(token)) =~= lexemes(tokens).push((token.0@, token.1)));
}

/// Measures a line of the given width and appends the resulting tokens.
fn emit_indentation<'src>(
    stack: &mut IndentStack,
    width: usize,
    at: &Range<usize>,
    out: &mut Vec<(Token<'src>, Range<usize>)>,
)
    ensures
        final(stack)@ == measured_levels(old(stack)@, width as nat),
        lexemes(final(out)@) == lexemes(old(out)@) + indentation_tokens(
            old(stack)@,
            width as nat,
            *at,
        ),
{
    let ghost levels = stack@;
    let ghost before = lexemes(out@);
    match stack.measure(width) {
        Measured::Indent => {
            proof {
                lemma_lexemes_push(out@, (Token::Indent, *at));
            }
            out.push((Token::Indent, Range { start: at.start, end: at.end }));
            assert(lexemes(out@) =~= before + indentation_tokens(levels, width as nat, *at));
        },
        Measured::Dedent(closed) => {
            let mut k: usize = 0;
            while k < closed
                invariant
                    k <= closed,
                    lexemes(out@) == before + Seq::new(k as nat, |i: int| (TokenView::Dedent, *at)),
                decreases closed - k,
            {
                proof {
                    lemma_lexemes_push(out@, (Token::Dedent, *at));
                }
                out.push((Token::Dedent, Range { start: at.start, end: at.end }));
                k = k + 1;
                assert(lexemes(out@) =~= before + Seq::new(
                    k as nat,
                    |i: int| (TokenView::Dedent, *at),
                ));
            }
        },
        Measured::Invalid => {
            proof {
                lemma_lexemes_push(out@, (Token::Error("Invalid indentation"), *at));
            }
            out.push((Token::Error("Invalid indentation"), Range { start: at.start, end: at.end }));
            assert(lexemes(out@) =~= before + indentation_tokens(levels, width as nat, *at));
        },
    }
}

/// Turns the scanned token stream into the logical token stream.
///
/// The leading white space of a line is measured when the first content of
/// the line arrives, and becomes one `Indent`, or one `Dedent` for each
/// level that the line leaves, or nothing where the width is that of the
/// innermost level. A line that starts at column 0 is measured as width 0.
/// Comments, white space within a line and lines without content are
/// dropped, and nothing inside an explicit bracket pair is read as
/// indentation or as a line break. A dedent to a width that is not an open
/// level puts out an error token with the reason `Invalid indentation`
/// instead of `Dedent`s; the pass goes on. Levels still open at the end of
/// the input are left open.
pub fn handle_whitespace<'src>(tokens: Vec<(Token<'src>, Range<usize>)>) -> (out: Vec<
    (Token<'src>, Range<usize>),
>)
    ensures
        lexemes(out@) == normalize(lexemes(tokens@)),
{
    let ghost input = lexemes(tokens@);
    let mut out: Vec<(Token<'src>, Range<usize>)> = Vec::new();
    let mut stack = IndentStack::new();
    let mut mode = Mode::StartOfInput;
    let mut pending: Option<(usize, Range<usize>)> = None;
    let n = tokens.len();
    let mut i: usize = 0;
    assert(lexemes(out@) =~= Seq::<Lexeme>::empty());
    assert(input.take(0) =~= Seq::<Lexeme>::empty());
    while i < n
        invariant
            n == tokens.len(),
            input == lexemes(tokens@),
            i <= n,
            mode matches Mode::Suppressed(depth) ==> depth <= i,
            run(input.take(i as int)).0 == (Layout {
                line: mode@,
                pending: match pending {
                    Some(p) => Some((p.0 as nat, p.1)),
                    None => None,
                },
                indents: stack@,
            }),
            run(input.take(i as int)).1 == lexemes(out@),
        decreases n - i,
    {
        let tok = tokens[i].0;
        let span = Range { start: tokens[i].1.start, end: tokens[i].1.end };
        proof {
            assert(input.take(i + 1).drop_last() =~= input.take(i as int));
            assert(input.take(i + 1).last() == (tok@, span));
            lemma_lexemes_push(out@, (tok, span));
        }
        let ghost before = lexemes(out@);
        match mode {
            Mode::Suppressed(depth) => match tok {
                Token::Spaces(_) | Token::Newline | Token::Comment => {
                    assert(lexemes(out@) =~= before + Seq::<Lexeme>::empty());
                },
                Token::ParenOpen | Token::CurlyOpen | Token::BracketOpen => {
                    out.push((tok, span));
                    mode = Mode::Suppressed(depth + 1);
                    assert(lexemes(out@) =~= before + seq![(tok@, span)]);
                },
                Token::ParenClose | Token::CurlyClose | Token::BracketClose => {
                    out.push((tok, span));
                    if depth <= 1 {
                        mode = Mode::InLine;
                    } else {
                        mode = Mode::Suppressed(depth - 1);
                    }
                    assert(lexemes(out@) =~= before + seq![(tok@, span)]);
                },
                _ => {
                    out.push((tok, span));
                    assert(lexemes(out@) =~= before + seq![(tok@, span)]);
                },
            },
            Mode::InLine => match tok {
                Token::Newline => {
                    out.push((tok, span));
                    mode = Mode::StartOfLine;
                    assert(lexemes(out@) =~= before + seq![(tok@, span)]);
                },
                Token::Spaces(_) | Token::Comment => {
                    assert(lexemes(out@) =~= before + Seq::<Lexeme>::empty());
                },
                Token::ParenOpen | Token::CurlyOpen | Token::BracketOpen => {
                    out.push((tok, span));
                    mode = Mode::Suppressed(1);
                    assert(lexemes(out@) =~= before + seq![(tok@, span)]);
                },
                _ => {
                    out.push((tok, span));
                    assert(lexemes(out@) =~= before + seq![(tok@, span)]);
                },
            },
            _ => match tok {
                Token::Spaces(text) => {
                    if pending.is_none() {
                        pending = Some((text.as_bytes().len(), span));
                    }
                    assert(lexemes(out@) =~= before + Seq::<Lexeme>::empty());
                },
                Token::Comment => {
                    assert(lexemes(out@) =~= before + Seq::<Lexeme>::empty());
                },
                Token::Newline => {
                    pending = None;
                    assert(lexemes(out@) =~= before + Seq::<Lexeme>::empty());
                },
                _ => {
                    let ghost levels = stack@;
                    match pending {
                        Some((w, at)) => {
                            emit_indentation(&mut stack, w, &at, &mut out);
                        },
                        None => {
                            emit_indentation(&mut stack, 0, &span, &mut out);
                        },
                    }
                    pending = None;
                    proof {
                        lemma_lexemes_push(out@, (tok, span));
                    }
                    out.push((tok, span));
                    mode = match tok {
                        Token::ParenOpen | Token::CurlyOpen | Token::BracketOpen => Mode::Suppressed(1),
                        _ => Mode::InLine,
                    };
                },
            },
        }
        i = i + 1;
    }
    assert(input.take(n as int) =~= input);
    out
}

} // verus!
