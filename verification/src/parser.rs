//! The atom parser: recursive descent over the logical token stream.

use crate::grammar::{
    atom_at, atoms_from, expect_at, group_at, line_group_at, line_groups_from, starts_atom,
    toplevel_at, Failure, ParseErrorView, Parsed,
};
pub use crate::indent::handle_whitespace;
use crate::indent::normalize;
use crate::lexer::{lexemes, opens, scan, tokenise, Lexeme, Token};
use crate::value::{Atom, AtomView, Group, GroupType, GroupView, Spanned};
use std::ops::Range;
use vstd::prelude::*;
use vstd::utf8::encode_utf8;

verus! {

/// Why a token stream is not a sequence of atoms.
#[derive(Debug, PartialEq, Eq)]
pub enum ParseError<'src> {
    /// Another token stands where `expected` must stand.
    MismatchedToken { expected: Token<'static>, found: Token<'src>, span: Range<usize> },
    /// The stream ends where `expected` must stand; `pos` is the end of the
    /// last token, if there is one.
    ExpectedTokFoundEof { expected: Token<'static>, pos: Option<usize> },
    /// A token is left over behind the last line group.
    ExpectedEofFoundToken { found: Token<'src>, span: Range<usize> },
    /// An error token of the scanner or the normaliser was met.
    InvalidInput { reason: &'src str, span: Range<usize> },
}

impl<'src> View for ParseError<'src> {
    type V = ParseErrorView;

    open spec fn view(&self) -> ParseErrorView {
        match self {
            ParseError::MismatchedToken { expected, found, span } => ParseErrorView::MismatchedToken {
                expected: expected@,
                found: found@,
                span: *span,
            },
            ParseError::ExpectedTokFoundEof { expected, pos } => ParseErrorView::ExpectedTokFoundEof {
                expected: expected@,
                pos: *pos,
            },
            ParseError::ExpectedEofFoundToken { found, span } => ParseErrorView::ExpectedEofFoundToken {
                found: found@,
                span: *span,
            },
            ParseError::InvalidInput { reason, span } => ParseErrorView::InvalidInput {
                reason: reason@,
                span: *span,
            },
        }
    }
}

/// The models of a sequence of atoms.
pub open spec fn models(atoms: Seq<Atom<'_>>) -> Seq<AtomView> {
    Seq::new(atoms.len(), |i: int| atoms[i].model())
}

/// `r`, together with the position `end` reached, is what the grammar yields.
pub open spec fn is_atom(r: Result<Atom<'_>, ParseError<'_>>, end: int, spec: Parsed<AtomView>) -> bool {
    match r {
        Ok(atom) => spec == Ok::<(AtomView, int), Failure>((atom@, end)),
        Err(e) => spec == Err::<(AtomView, int), Failure>((e@, end)),
    }
}

/// `r`, together with the position `end` reached, is what the grammar yields.
pub open spec fn is_atoms(
    r: Result<Vec<Atom<'_>>, ParseError<'_>>,
    end: int,
    spec: Parsed<Seq<AtomView>>,
) -> bool {
    match r {
        Ok(atoms) => spec == Ok::<(Seq<AtomView>, int), Failure>((models(atoms@), end)),
        Err(e) => spec == Err::<(Seq<AtomView>, int), Failure>((e@, end)),
    }
}

/// The logical token stream of a text.
pub open spec fn logical_tokens(src: Seq<u8>) -> Seq<Lexeme> {
    normalize(scan(src, 0))
}

/// The atoms of a text: scanned, normalised and parsed from the first
/// token on.
pub open spec fn parse_text(src: Seq<u8>) -> Parsed<Seq<AtomView>> {
    toplevel_at(logical_tokens(src), 0)
}

/// Scans, normalises and parses `text`: its atoms, or the first failure.
pub fn parse(text: &str) -> (r: Result<Vec<Atom<'_>>, ParseError<'_>>)
    ensures
        match r {
            Ok(atoms) => parse_text(encode_utf8(text@)) matches Ok((found, _)) && found == models(
                atoms@,
            ),
            Err(e) => parse_text(encode_utf8(text@)) matches Err((found, _)) && found == e@,
        },
{
    let mut parser = Parser::new(tokenise(text));
    parser.parse_toplevel()
}

/// A cursor over a logical token stream.
pub struct Parser<'src> {
    tokens: Vec<(Token<'src>, Range<usize>)>,
    cur_tok: usize,
}

impl<'src> Parser<'src> {
    #[verifier::type_invariant]
    spec fn in_bounds(&self) -> bool {
        self.cur_tok <= self.tokens.len()
    }

    /// The logical token stream that is parsed.
    pub closed spec fn stream(&self) -> Seq<Lexeme> {
        lexemes(self.tokens@)
    }

    /// The index of the next token to read.
    pub closed spec fn position(&self) -> int {
        self.cur_tok as int
    }

    /// A parser at the start of the logical token stream of `tokens`, a
    /// scanned token stream.
    pub fn new(tokens: Vec<(Token<'src>, Range<usize>)>) -> (p: Self)
        ensures
            p.stream() == normalize(lexemes(tokens@)),
            p.position() == 0,
    {
        Parser { tokens: handle_whitespace(tokens), cur_tok: 0 }
    }

    /// Moves the cursor over one token.
    fn advance(&mut self)
        requires
            old(self).position() < old(self).stream().len(),
        ensures
            final(self).stream() == old(self).stream(),
            final(self).position() == old(self).position() + 1,
    {
        assert(self.cur_tok < self.tokens.len());
        self.cur_tok += 1;
    }

    /// The token `n` places behind the cursor, if the stream goes that far.
    fn peek_tok(&self, n: usize) -> (r: Option<(Token<'src>, Range<usize>)>)
        ensures
            self.position() + n < self.stream().len() ==> (r matches Some(tok) && (tok.0@, tok.1)
                == self.stream()[self.position() + n]),
            self.position() + n >= self.stream().len() ==> r is None,
    {
        proof {
            use_type_invariant(self);
        }
        if n < self.tokens.len() - self.cur_tok {
            let i = self.cur_tok + n;
            Some((self.tokens[i].0, Range { start: self.tokens[i].1.start, end: self.tokens[i].1.end }))
        } else {
            None
        }
    }

    /// The span of the token before the cursor, if there is one.
    fn last_tok_span(&self) -> (r: Option<Range<usize>>)
        ensures
            self.position() > 0 ==> r == Some(self.stream()[self.position() - 1].1),
            self.position() == 0 ==> r is None,
    {
        proof {
            use_type_invariant(self);
        }
        if self.cur_tok > 0 {
            let i = self.cur_tok - 1;
            Some(Range { start: self.tokens[i].1.start, end: self.tokens[i].1.end })
        } else {
            None
        }
    }

    /// Whether an atom can start at the cursor.
    pub fn atom_start(&self) -> (r: bool)
        ensures
            r == starts_atom(self.stream(), self.position()),
    {
        match self.peek_tok(0) {
            Some((tok, _)) => match tok {
                Token::ParenOpen
                | Token::BracketOpen
                | Token::CurlyOpen
                | Token::Identifier(_)
                | Token::String(_) => true,
                _ => false,
            },
            None => false,
        }
    }

    /// Reads the token `expected`, or fails without moving: with a mismatch
    /// where another token stands at the cursor, with invalid input where
    /// that token is an error token, and with the end of the last token
    /// where the stream has ended.
    fn expect(&mut self, expected: Token<'static>) -> (r: Result<
        (Token<'src>, Range<usize>),
        ParseError<'src>,
    >)
        ensures
            final(self).stream() == old(self).stream(),
            match r {
                Ok(found) => {
                    &&& expect_at(old(self).stream(), old(self).position(), expected@) == Ok::<
                        (Range<usize>, int),
                        Failure,
                    >((found.1, final(self).position()))
                    &&& found.0@ == expected@
                },
                Err(e) => expect_at(old(self).stream(), old(self).position(), expected@) == Err::<
                    (Range<usize>, int),
                    Failure,
                >((e@, final(self).position())),
            },
    {
        match self.peek_tok(0) {
            Some((tok, span)) => {
                if tok.same(&expected) {
                    self.advance();
                    Ok((tok, span))
                } else {
                    match tok {
                        Token::Error(reason) => Err(ParseError::InvalidInput { reason, span }),
                        _ => Err(ParseError::MismatchedToken { expected, found: tok, span }),
                    }
                }
            },
            None => {
                let pos = match self.last_tok_span() {
                    Some(span) => Some(span.end),
                    None => None,
                };
                proof {
                    use_type_invariant(&*self);
                }
                Err(ParseError::ExpectedTokFoundEof { expected, pos })
            },
        }
    }

    /// The atoms that follow each other from the cursor on.
    fn parse_atoms(&mut self) -> (r: Result<Vec<Atom<'src>>, ParseError<'src>>)
        ensures
            final(self).stream() == old(self).stream(),
            is_atoms(
                r,
                final(self).position(),
                atoms_from(old(self).stream(), old(self).position()),
            ),
            old(self).position() <= final(self).position() <= final(self).stream().len(),
            r is Ok && starts_atom(old(self).stream(), old(self).position()) ==> old(
                self,
            ).position() < final(self).position(),
        decreases old(self).stream().len() - old(self).position(), 2nat,
    {
        let ghost t = self.stream();
        let ghost start = self.position();
        let mut children: Vec<Atom<'src>> = Vec::new();
        proof {
            use_type_invariant(&*self);
            assert(models(children@) + atoms_from(t, start)->Ok_0.0 =~= atoms_from(t, start)->Ok_0.0);
        }
        while self.atom_start()
            invariant
                t == old(self).stream(),
                start == old(self).position(),
                self.stream() == t,
                start <= self.position() <= t.len(),
                children@.len() > 0 ==> start < self.position(),
                match atoms_from(t, self.position()) {
                    Ok((rest, end)) => atoms_from(t, start) == Ok::<(Seq<AtomView>, int), Failure>(
                        (models(children@) + rest, end),
                    ),
                    Err(e) => atoms_from(t, start) == Err::<(Seq<AtomView>, int), Failure>(e),
                },
            decreases t.len() - self.position(),
        {
            let ghost here = self.position();
            let ghost before = models(children@);
            match self.parse_atom() {
                Ok(atom) => {
                    children.push(atom);
                    proof {
                        assert(models(children@) =~= before + seq![atom@]);
                        match atoms_from(t, self.position()) {
                            Ok((rest, end)) => {
                                assert(before + (seq![atom@] + rest) =~= models(children@) + rest);
                            },
                            Err(e) => {},
                        }
                    }
                },
                Err(e) => {
                    return Err(e);
                },
            }
        }
        proof {
            assert(models(children@) + Seq::<AtomView>::empty() =~= models(children@));
        }
        Ok(children)
    }

    /// Parses the bracketed group whose opening bracket stands at the cursor.
    fn parse_explicit_group(&mut self) -> (r: Result<Group<'src>, ParseError<'src>>)
        requires
            0 <= old(self).position() < old(self).stream().len(),
            opens(old(self).stream()[old(self).position()].0),
        ensures
            final(self).stream() == old(self).stream(),
            match r {
                Ok(group) => group_at(old(self).stream(), old(self).position()) == Ok::<
                    (GroupView, int),
                    Failure,
                >((group@, final(self).position())),
                Err(e) => group_at(old(self).stream(), old(self).position()) == Err::<
                    (GroupView, int),
                    Failure,
                >((e@, final(self).position())),
            },
            old(self).position() < final(self).position() <= final(self).stream().len(),
        decreases old(self).stream().len() - old(self).position(), 0nat,
    {
        let ghost t = self.stream();
        let ghost start = self.position();
        let tok = self.tokens[self.cur_tok].0;
        let start_span = Range {
            start: self.tokens[self.cur_tok].1.start,
            end: self.tokens[self.cur_tok].1.end,
        };
        self.advance();
        let children = match self.parse_atoms() {
            Ok(children) => children,
            Err(e) => {
                return Err(e);
            },
        };
        let (to_expect, group_type) = match tok {
            Token::ParenOpen => (Token::ParenClose, GroupType::Parenthesis),
            Token::CurlyOpen => (Token::CurlyClose, GroupType::Curly),
            Token::BracketOpen => (Token::BracketClose, GroupType::Bracket),
            _ => unreached(),
        };
        match self.expect(to_expect) {
            Ok((_, end_span)) => {
                let group = Group {
                    group_type,
                    start_delim: Spanned((), start_span),
                    children,
                    end_delim: Spanned((), end_span),
                };
                proof {
                    assert(group@.children =~= models(group.children@));
                }
                Ok(group)
            },
            Err(e) => Err(e),
        }
    }

    /// Parses the atom that starts at the cursor: an identifier, a string, a
    /// bracketed group, or a neoteric expression where an opening bracket
    /// follows an identifier without a gap. An atom must start at the
    /// cursor, which `atom_start` tells.
    pub fn parse_atom(&mut self) -> (r: Result<Atom<'src>, ParseError<'src>>)
        requires
            starts_atom(old(self).stream(), old(self).position()),
        ensures
            final(self).stream() == old(self).stream(),
            is_atom(r, final(self).position(), atom_at(old(self).stream(), old(self).position())),
            old(self).position() < final(self).position() <= final(self).stream().len(),
        decreases old(self).stream().len() - old(self).position(), 1nat,
    {
        let ghost t = self.stream();
        let ghost start = self.position();
        let tok = self.tokens[self.cur_tok].0;
        let span = Range {
            start: self.tokens[self.cur_tok].1.start,
            end: self.tokens[self.cur_tok].1.end,
        };
        match tok {
            Token::Identifier(text) => {
                self.advance();
                let adjacent = match self.peek_tok(0) {
                    Some((next, next_span)) => next.is_opening() && next_span.start == span.end,
                    None => false,
                };
                let head = Atom::Identifier(Spanned(text, span));
                assert(head.model() == AtomView::Identifier(text@, span));
                if adjacent {
                    match self.parse_explicit_group() {
                        Ok(rhs) => Ok(Atom::Neoteric { lhs: Box::new(head), rhs }),
                        Err(e) => Err(e),
                    }
                } else {
                    Ok(head)
                }
            },
            Token::String(text) => {
                self.advance();
                Ok(Atom::String(Spanned(text, span)))
            },
            Token::ParenOpen | Token::CurlyOpen | Token::BracketOpen => {
                match self.parse_explicit_group() {
                    Ok(group) => Ok(Atom::Group(group)),
                    Err(e) => Err(e),
                }
            },
            _ => unreached(),
        }
    }

    /// The line groups that follow each other from the cursor on.
    fn parse_line_groups(&mut self) -> (r: Result<Vec<Atom<'src>>, ParseError<'src>>)
        ensures
            final(self).stream() == old(self).stream(),
            is_atoms(
                r,
                final(self).position(),
                line_groups_from(old(self).stream(), old(self).position()),
            ),
            old(self).position() <= final(self).position() <= final(self).stream().len(),
        decreases old(self).stream().len() - old(self).position(), 4nat,
    {
        let ghost t = self.stream();
        let ghost start = self.position();
        let mut children: Vec<Atom<'src>> = Vec::new();
        proof {
            use_type_invariant(&*self);
            assert(models(children@) + line_groups_from(t, start)->Ok_0.0 =~= line_groups_from(
                t,
                start,
            )->Ok_0.0);
        }
        while self.atom_start()
            invariant
                t == old(self).stream(),
                start == old(self).position(),
                self.stream() == t,
                start <= self.position() <= t.len(),
                match line_groups_from(t, self.position()) {
                    Ok((rest, end)) => line_groups_from(t, start) == Ok::<
                        (Seq<AtomView>, int),
                        Failure,
                    >((models(children@) + rest, end)),
                    Err(e) => line_groups_from(t, start) == Err::<(Seq<AtomView>, int), Failure>(e),
                },
            decreases t.len() - self.position(),
        {
            let ghost before = models(children@);
            match self.parse_maybe_indent_group() {
                Ok(group) => {
                    children.push(group);
                    proof {
                        assert(models(children@) =~= before + seq![group@]);
                        match line_groups_from(t, self.position()) {
                            Ok((rest, end)) => {
                                assert(before + (seq![group@] + rest) =~= models(children@) + rest);
                            },
                            Err(e) => {},
                        }
                    }
                },
                Err(e) => {
                    return Err(e);
                },
            }
        }
        proof {
            assert(models(children@) + Seq::<AtomView>::empty() =~= models(children@));
        }
        Ok(children)
    }

    /// Parses a line group: the atoms of the line at the cursor and, where a
    /// line break and an `Indent` follow, the indented block below it.
    ///
    /// A block makes an indentation group of the line's atoms and the
    /// block's groups. Without a block, a single atom is returned as it is,
    /// and any other number of atoms is wrapped in an indentation group.
    pub fn parse_maybe_indent_group(&mut self) -> (r: Result<Atom<'src>, ParseError<'src>>)
        ensures
            final(self).stream() == old(self).stream(),
            is_atom(
                r,
                final(self).position(),
                line_group_at(old(self).stream(), old(self).position()),
            ),
            old(self).position() <= final(self).position() <= final(self).stream().len(),
            r is Ok && starts_atom(old(self).stream(), old(self).position()) ==> old(
                self,
            ).position() < final(self).position(),
        decreases old(self).stream().len() - old(self).position(), 3nat,
    {
        let ghost t = self.stream();
        let ghost start = self.position();
        let start_span = match self.peek_tok(0) {
            Some((_, span)) => span,
            None => match self.last_tok_span() {
                Some(span) => Range { start: span.end, end: span.end },
                None => Range { start: 0, end: 0 },
            },
        };
        proof {
            use_type_invariant(&*self);
        }
        let mut children = match self.parse_atoms() {
            Ok(children) => children,
            Err(e) => {
                return Err(e);
            },
        };
        let ghost line = models(children@);
        let newline = match self.peek_tok(0) {
            Some((Token::Newline, _)) => true,
            _ => false,
        };
        if newline {
            self.advance();
            let indent = match self.peek_tok(0) {
                Some((Token::Indent, _)) => true,
                _ => false,
            };
            if indent {
                self.advance();
                let mut block = match self.parse_line_groups() {
                    Ok(block) => block,
                    Err(e) => {
                        return Err(e);
                    },
                };
                let ghost below = models(block@);
                children.append(&mut block);
                proof {
                    assert(models(children@) =~= line + below);
                }
                match self.peek_tok(0) {
                    Some((tok, end_span)) => {
                        match tok {
                            Token::Dedent => {
                                self.advance();
                            },
                            _ => {},
                        }
                        let group = Group {
                            group_type: GroupType::Indentation,
                            start_delim: Spanned((), start_span),
                            children,
                            end_delim: Spanned((), end_span),
                        };
                        proof {
                            assert(group@.children =~= models(group.children@));
                        }
                        return Ok(Atom::Group(group));
                    },
                    None => {},
                }
            }
        }
        if children.len() == 1 {
            Ok(children.pop().unwrap())
        } else {
            let end_span = match self.last_tok_span() {
                Some(span) => span,
                None => Range { start: start_span.start, end: start_span.start },
            };
            let group = Group {
                group_type: GroupType::Indentation,
                start_delim: Spanned((), start_span),
                children,
                end_delim: Spanned((), end_span),
            };
            proof {
                assert(group@.children =~= models(group.children@));
            }
            Ok(Atom::Group(group))
        }
    }

    /// Parses the whole stream from the cursor on: an optional `Indent`, the
    /// line groups, the `Dedent` that closes the `Indent`, and then nothing.
    /// On success every token has been read.
    pub fn parse_toplevel(&mut self) -> (r: Result<Vec<Atom<'src>>, ParseError<'src>>)
        ensures
            final(self).stream() == old(self).stream(),
            is_atoms(r, final(self).position(), toplevel_at(old(self).stream(), old(self).position())),
            old(self).position() <= final(self).position() <= final(self).stream().len(),
            r is Ok ==> final(self).position() == final(self).stream().len(),
    {
        proof {
            use_type_invariant(&*self);
        }
        let is_indented = match self.peek_tok(0) {
            Some((Token::Indent, _)) => true,
            _ => false,
        };
        if is_indented {
            self.advance();
        }
        let children = match self.parse_line_groups() {
            Ok(children) => children,
            Err(e) => {
                return Err(e);
            },
        };
        if is_indented {
            let closed = match self.peek_tok(0) {
                Some((Token::Dedent, _)) => true,
                _ => false,
            };
            if closed {
                self.advance();
            }
        }
        match self.peek_tok(0) {
            Some((tok, span)) => match tok {
                Token::Error(reason) => Err(ParseError::InvalidInput { reason, span }),
                _ => Err(ParseError::ExpectedEofFoundToken { found: tok, span }),
            },
            None => Ok(children),
        }
    }
}

} // verus!
