//! Tokens and the scanner that produces them.

use std::ops::Range;
use vstd::prelude::*;
use vstd::utf8::{
    decode_utf8, encode_utf8, encode_utf8_decode_utf8, encode_utf8_valid_utf8, is_char_boundary,
    is_char_boundary_iff_not_is_continuation_byte, is_char_boundary_start_end_of_seq,
    is_continuation_byte, length_of_first_scalar, pop_first_scalar, valid_utf8,
};

verus! {

/// A lexical token. `Indent` and `Dedent` are never scanned: the
/// indentation normaliser puts them into the logical token stream.
#[derive(Debug, PartialEq, Eq, Clone, Copy)]
pub enum Token<'src> {
    /// A run of characters that are neither white space nor brackets, quotes
    /// or semicolons.
    Identifier(&'src str),
    /// The text between two quotes; `\"` in it is left as written.
    String(&'src str),
    /// A comment, from its `;` on.
    Comment,
    ParenOpen,
    ParenClose,
    CurlyOpen,
    CurlyClose,
    BracketOpen,
    BracketClose,
    /// A line break, with the spaces, tabs and form feeds before it.
    Newline,
    /// A run of spaces, tabs and form feeds that no line break follows.
    Spaces(&'src str),
    /// What is no token, with the reason.
    Error(&'src str),
    /// A line that is deeper than the one before it.
    Indent,
    /// One level of indentation that a line has left.
    Dedent,
}

/// Model of a [`Token`]: the same variants, texts as character sequences.
pub enum TokenView {
    Identifier(Seq<char>),
    String(Seq<char>),
    Comment,
    ParenOpen,
    ParenClose,
    CurlyOpen,
    CurlyClose,
    BracketOpen,
    BracketClose,
    Newline,
    Spaces(Seq<char>),
    Error(Seq<char>),
    Indent,
    Dedent,
}

impl<'src> View for Token<'src> {
    type V = TokenView;

    open spec fn view(&self) -> TokenView {
        match self {
            Token::Identifier(s) => TokenView::Identifier(s@),
            Token::String(s) => TokenView::String(s@),
            Token::Comment => TokenView::Comment,
            Token::ParenOpen => TokenView::ParenOpen,
            Token::ParenClose => TokenView::ParenClose,
            Token::CurlyOpen => TokenView::CurlyOpen,
            Token::CurlyClose => TokenView::CurlyClose,
            Token::BracketOpen => TokenView::BracketOpen,
            Token::BracketClose => TokenView::BracketClose,
            Token::Newline => TokenView::Newline,
            Token::Spaces(s) => TokenView::Spaces(s@),
            Token::Error(s) => TokenView::Error(s@),
            Token::Indent => TokenView::Indent,
            Token::Dedent => TokenView::Dedent,
        }
    }
}

/// A token of the model together with its span.
pub type Lexeme = (TokenView, Range<usize>);

/// The model of a token vector: every token by its view, spans unchanged.
pub open spec fn lexemes(tokens: Seq<(Token<'_>, Range<usize>)>) -> Seq<Lexeme> {
    Seq::new(tokens.len(), |i: int| (tokens[i].0@, tokens[i].1))
}

/// `(`, `{` or `[`.
pub open spec fn opens(t: TokenView) -> bool {
    t is ParenOpen || t is CurlyOpen || t is BracketOpen
}

/// `)`, `}` or `]`.
pub open spec fn closes(t: TokenView) -> bool {
    t is ParenClose || t is CurlyClose || t is BracketClose
}

/// Tokens that carry no content of their own: white space, line breaks and
/// comments.
pub open spec fn blank(t: TokenView) -> bool {
    t is Spaces || t is Newline || t is Comment
}

fn str_eq(a: &str, b: &str) -> (same: bool)
    ensures
        same == (a@ == b@),
{
    let x = a.as_bytes();
    let y = b.as_bytes();
    proof {
        encode_utf8_decode_utf8(a@);
        encode_utf8_decode_utf8(b@);
    }
    if x.len() != y.len() {
        return false;
    }
    let mut i: usize = 0;
    while i < x.len()
        invariant
            i <= x.len(),
            x.len() == y.len(),
            x@ == encode_utf8(a@),
            y@ == encode_utf8(b@),
            forall|k: int| 0 <= k < i ==> x@[k] == y@[k],
        decreases x.len() - i,
    {
        if x[i] != y[i] {
            return false;
        }
        i = i + 1;
    }
    assert(x@ =~= y@);
    true
}

impl<'src> Token<'src> {
    /// Whether this token is `(`, `{` or `[`.
    pub fn is_opening(&self) -> (r: bool)
        ensures
            r == opens(self@),
    {
        match self {
            Token::ParenOpen | Token::CurlyOpen | Token::BracketOpen => true,
            _ => false,
        }
    }

    /// Whether two tokens are the same variant with the same text.
    pub fn same(&self, other: &Token<'_>) -> (r: bool)
        ensures
            r == (self@ == other@),
    {
        match (self, other) {
            (Token::Identifier(a), Token::Identifier(b)) => str_eq(a, b),
            (Token::String(a), Token::String(b)) => str_eq(a, b),
            (Token::Spaces(a), Token::Spaces(b)) => str_eq(a, b),
            (Token::Error(a), Token::Error(b)) => str_eq(a, b),
            (Token::Comment, Token::Comment) => true,
            (Token::ParenOpen, Token::ParenOpen) => true,
            (Token::ParenClose, Token::ParenClose) => true,
            (Token::CurlyOpen, Token::CurlyOpen) => true,
            (Token::CurlyClose, Token::CurlyClose) => true,
            (Token::BracketOpen, Token::BracketOpen) => true,
            (Token::BracketClose, Token::BracketClose) => true,
            (Token::Newline, Token::Newline) => true,
            (Token::Indent, Token::Indent) => true,
            (Token::Dedent, Token::Dedent) => true,
            _ => false,
        }
    }
}

/// `(`
pub const PAREN_OPEN: u8 = 0x28;

/// `)`
pub const PAREN_CLOSE: u8 = 0x29;

/// `{`
pub const CURLY_OPEN: u8 = 0x7b;

/// `}`
pub const CURLY_CLOSE: u8 = 0x7d;

/// `[`
pub const BRACKET_OPEN: u8 = 0x5b;

/// `]`
pub const BRACKET_CLOSE: u8 = 0x5d;

/// `"`
pub const QUOTE: u8 = 0x22;

/// `;`
pub const SEMICOLON: u8 = 0x3b;

/// `\`
pub const BACKSLASH: u8 = 0x5c;

/// `n`
pub const LETTER_N: u8 = 0x6e;

/// A space.
pub const SPACE: u8 = 0x20;

/// A tab.
pub const TAB: u8 = 0x09;

/// A form feed.
pub const FORM_FEED: u8 = 0x0c;

/// A line feed.
pub const LINE_FEED: u8 = 0x0a;

/// A carriage return.
pub const CARRIAGE_RETURN: u8 = 0x0d;

/// The reason carried by the error token for text that starts no token.
pub open spec fn invalid_token() -> Seq<char> {
    "Invalid token"@
}

/// The text of the bytes from `from` up to `to`.
pub open spec fn text_between(src: Seq<u8>, from: int, to: int) -> Seq<char> {
    decode_utf8(src.subrange(from, to))
}

/// The number of bytes of the white-space character that starts at `pos`,
/// 0 where none starts there. White space is what Unicode calls so: U+0009
/// to U+000D, U+0020, U+0085, U+00A0, U+1680, U+2000 to U+200A, U+2028,
/// U+2029, U+202F, U+205F and U+3000.
pub open spec fn space_len(src: Seq<u8>, pos: int) -> int {
    if !(0 <= pos < src.len()) {
        0
    } else if 0x09 <= src[pos] <= 0x0d || src[pos] == 0x20 {
        1
    } else if src[pos] == 0xc2 && pos + 1 < src.len() && (src[pos + 1] == 0x85 || src[pos + 1]
        == 0xa0) {
        2
    } else if pos + 2 < src.len() && ({
        ||| src[pos] == 0xe1 && src[pos + 1] == 0x9a && src[pos + 2] == 0x80
        ||| src[pos] == 0xe2 && src[pos + 1] == 0x80 && (0x80 <= src[pos + 2] <= 0x8a || src[pos
            + 2] == 0xa8 || src[pos + 2] == 0xa9 || src[pos + 2] == 0xaf)
        ||| src[pos] == 0xe2 && src[pos + 1] == 0x81 && src[pos + 2] == 0x9f
        ||| src[pos] == 0xe3 && src[pos + 1] == 0x80 && src[pos + 2] == 0x80
    }) {
        3
    } else {
        0
    }
}

/// One of the six bracket characters.
pub open spec fn is_bracket(b: u8) -> bool {
    b == PAREN_OPEN || b == PAREN_CLOSE || b == CURLY_OPEN || b == CURLY_CLOSE || b == BRACKET_OPEN
        || b == BRACKET_CLOSE
}

/// A space, a tab or a form feed: what a run of `Spaces` is made of.
pub open spec fn is_blank(b: u8) -> bool {
    b == SPACE || b == TAB || b == FORM_FEED
}

/// No identifier goes on at `pos`: the text ends there, or white space, a
/// bracket, a quote or a semicolon stands there.
pub open spec fn ends_identifier(src: Seq<u8>, pos: int) -> bool {
    ||| !(0 <= pos < src.len())
    ||| space_len(src, pos) > 0
    ||| is_bracket(src[pos])
    ||| src[pos] == QUOTE
    ||| src[pos] == SEMICOLON
}

/// The first position from `pos` on at which no identifier goes on.
pub open spec fn identifier_end(src: Seq<u8>, pos: int) -> int
    decreases src.len() - pos,
{
    if ends_identifier(src, pos) {
        pos
    } else {
        identifier_end(src, pos + 1)
    }
}

/// The first position from `pos` on that holds no space, tab or form feed.
pub open spec fn blank_end(src: Seq<u8>, pos: int) -> int
    decreases src.len() - pos,
{
    if 0 <= pos < src.len() && is_blank(src[pos]) {
        blank_end(src, pos + 1)
    } else {
        pos
    }
}

/// The end of a comment whose text goes on at `pos`: the first `n` or
/// backslash from there on, or the end of the text. A line break does not
/// end a comment.
pub open spec fn comment_end(src: Seq<u8>, pos: int) -> int
    decreases src.len() - pos,
{
    if 0 <= pos < src.len() && src[pos] != LETTER_N && src[pos] != BACKSLASH {
        comment_end(src, pos + 1)
    } else {
        pos
    }
}

/// Where a string whose body goes on at `pos` ends, and whether it is closed
/// there. A quote closes it; a backslash must be followed by a quote, and the
/// two are part of the body. Where the text ends first, or another character
/// follows a backslash, the string is not closed: it ends with the text, or
/// behind that backslash.
pub open spec fn string_end(src: Seq<u8>, pos: int) -> (int, bool)
    decreases src.len() - pos,
{
    if !(0 <= pos < src.len()) {
        (pos, false)
    } else if src[pos] == QUOTE {
        (pos + 1, true)
    } else if src[pos] == BACKSLASH {
        if pos + 1 < src.len() && src[pos + 1] == QUOTE {
            string_end(src, pos + 2)
        } else {
            (pos + 1, false)
        }
    } else {
        string_end(src, pos + 1)
    }
}

/// The token that starts at `pos` and the position at which it ends.
///
/// * A bracket is a token of its own.
/// * `;` starts a comment.
/// * `"` starts a string, whose text is what stands between the quotes. A
///   string that is not closed is an error token.
/// * A run of spaces, tabs and form feeds, possibly empty, that a line feed
///   or a carriage return and a line feed follows, is a `Newline` up to and
///   with the line feed. Any other such run is `Spaces`.
/// * Any other white-space character is an error token.
/// * Everything else starts an identifier, which ends where
///   `ends_identifier` says.
pub open spec fn token_at(src: Seq<u8>, pos: int) -> (TokenView, int)
    recommends
        0 <= pos < src.len(),
{
    let b = src[pos];
    if b == PAREN_OPEN {
        (TokenView::ParenOpen, pos + 1)
    } else if b == PAREN_CLOSE {
        (TokenView::ParenClose, pos + 1)
    } else if b == CURLY_OPEN {
        (TokenView::CurlyOpen, pos + 1)
    } else if b == CURLY_CLOSE {
        (TokenView::CurlyClose, pos + 1)
    } else if b == BRACKET_OPEN {
        (TokenView::BracketOpen, pos + 1)
    } else if b == BRACKET_CLOSE {
        (TokenView::BracketClose, pos + 1)
    } else if b == SEMICOLON {
        (TokenView::Comment, comment_end(src, pos + 1))
    } else if b == QUOTE {
        let (end, closed) = string_end(src, pos + 1);
        if closed {
            (TokenView::String(text_between(src, pos + 1, end - 1)), end)
        } else {
            (TokenView::Error(invalid_token()), end)
        }
    } else if space_len(src, pos) > 0 {
        let run = blank_end(src, pos);
        if run < src.len() && src[run] == LINE_FEED {
            (TokenView::Newline, run + 1)
        } else if run + 1 < src.len() && src[run] == CARRIAGE_RETURN && src[run + 1] == LINE_FEED {
            (TokenView::Newline, run + 2)
        } else if run > pos {
            (TokenView::Spaces(text_between(src, pos, run)), run)
        } else {
            (TokenView::Error(invalid_token()), pos + space_len(src, pos))
        }
    } else {
        (TokenView::Identifier(text_between(src, pos, identifier_end(src, pos))), identifier_end(src, pos))
    }
}

/// The tokens of the text from `pos` on, each with the bytes it covers.
pub open spec fn scan(src: Seq<u8>, pos: int) -> Seq<Lexeme>
    decreases src.len() - pos,
{
    if 0 <= pos < src.len() {
        let (token, end) = token_at(src, pos);
        if pos < end <= src.len() {
            seq![(token, Range { start: pos as usize, end: end as usize })] + scan(src, end)
        } else {
            Seq::empty()
        }
    } else {
        Seq::empty()
    }
}

/// The bytes of the character that starts with `b`.
spec fn char_len(b: u8) -> int {
    if b <= 0x7f {
        1
    } else if 0xc0 <= b <= 0xdf {
        2
    } else if 0xe0 <= b <= 0xef {
        3
    } else {
        4
    }
}

proof fn lemma_next_boundary(src: Seq<u8>, i: int)
    requires
        valid_utf8(src),
        0 <= i < src.len(),
        is_char_boundary(src, i),
    ensures
        i + char_len(src[i]) <= src.len(),
        is_char_boundary(src, i + char_len(src[i])),
    decreases src.len(),
{
    reveal_with_fuel(is_char_boundary, 2);
    let first = length_of_first_scalar(src);
    let rest = pop_first_scalar(src);
    if i == 0 {
    } else {
        assert(is_char_boundary(rest, i - first));
        assert(i - first < rest.len());
        lemma_next_boundary(rest, i - first);
        assert(rest[i - first] == src[i]);
    }
}

proof fn lemma_boundary_at(src: Seq<u8>, i: int)
    requires
        valid_utf8(src),
        0 <= i <= src.len(),
        i < src.len() ==> !is_continuation_byte(src[i]),
    ensures
        is_char_boundary(src, i),
{
    if i < src.len() {
        is_char_boundary_iff_not_is_continuation_byte(src, i);
    } else {
        is_char_boundary_start_end_of_seq(src);
    }
}

proof fn lemma_blank_run_boundary(src: Seq<u8>, from: int, to: int)
    requires
        valid_utf8(src),
        0 <= from <= to <= src.len(),
        is_char_boundary(src, from),
        forall|i: int| from <= i < to ==> is_blank(#[trigger] src[i]),
    ensures
        is_char_boundary(src, to),
    decreases to - from,
{
    if from < to {
        lemma_next_boundary(src, from);
        lemma_blank_run_boundary(src, from + 1, to);
    }
}

/// The part of `s` from byte `from` up to byte `to`.
fn slice<'a>(s: &'a str, from: usize, to: usize) -> (text: &'a str)
    requires
        from <= to <= encode_utf8(s@).len(),
        is_char_boundary(encode_utf8(s@), from as int),
        is_char_boundary(encode_utf8(s@), to as int),
    ensures
        text@ == text_between(encode_utf8(s@), from as int, to as int),
{
    let ghost src = encode_utf8(s@);
    proof {
        encode_utf8_valid_utf8(s@);
    }
    let (head, _) = s.split_at(to);
    proof {
        encode_utf8_valid_utf8(head@);
        assert(encode_utf8(head@) =~= src.subrange(0, to as int));
        if from < to {
            is_char_boundary_iff_not_is_continuation_byte(src, from as int);
        }
        lemma_boundary_at(encode_utf8(head@), from as int);
    }
    let (_, text) = head.split_at(from);
    proof {
        assert(encode_utf8(text@) =~= src.subrange(from as int, to as int));
        encode_utf8_decode_utf8(text@);
    }
    text
}

/// The width of the white-space character at `pos`, 0 if there is none.
fn space_width(bytes: &[u8], pos: usize) -> (w: usize)
    requires
        pos < bytes@.len(),
    ensures
        w == space_len(bytes@, pos as int),
{
    let n = bytes.len();
    let b = bytes[pos];
    if (0x09 <= b && b <= 0x0d) || b == 0x20 {
        1
    } else if b == 0xc2 && n - pos > 1 && (bytes[pos + 1] == 0x85 || bytes[pos + 1] == 0xa0) {
        2
    } else if n - pos > 2 {
        let c = bytes[pos + 1];
        let d = bytes[pos + 2];
        if (b == 0xe1 && c == 0x9a && d == 0x80) || (b == 0xe2 && c == 0x80 && ((0x80 <= d && d
            <= 0x8a) || d == 0xa8 || d == 0xa9 || d == 0xaf)) || (b == 0xe2 && c == 0x81 && d
            == 0x9f) || (b == 0xe3 && c == 0x80 && d == 0x80) {
            3
        } else {
            0
        }
    } else {
        0
    }
}

fn at_identifier_end(bytes: &[u8], pos: usize) -> (r: bool)
    requires
        pos <= bytes@.len(),
    ensures
        r == ends_identifier(bytes@, pos as int),
{
    if pos >= bytes.len() {
        return true;
    }
    let b = bytes[pos];
    space_width(bytes, pos) > 0 || b == PAREN_OPEN || b == PAREN_CLOSE || b == CURLY_OPEN || b
        == CURLY_CLOSE || b == BRACKET_OPEN || b == BRACKET_CLOSE || b == QUOTE || b == SEMICOLON
}

fn find_identifier_end(bytes: &[u8], pos: usize) -> (end: usize)
    requires
        pos <= bytes@.len(),
    ensures
        end == identifier_end(bytes@, pos as int),
        pos <= end <= bytes@.len(),
        end < bytes@.len() ==> !is_continuation_byte(bytes@[end as int]),
        !ends_identifier(bytes@, pos as int) ==> pos < end,
{
    let n = bytes.len();
    let mut end = pos;
    while !at_identifier_end(bytes, end)
        invariant
            n == bytes@.len(),
            pos <= end <= bytes@.len(),
            identifier_end(bytes@, pos as int) == identifier_end(bytes@, end as int),
        decreases bytes@.len() - end,
    {
        end = end + 1;
    }
    end
}

fn find_blank_end(bytes: &[u8], pos: usize) -> (end: usize)
    requires
        pos <= bytes@.len(),
    ensures
        end == blank_end(bytes@, pos as int),
        pos <= end <= bytes@.len(),
        forall|i: int| pos <= i < end ==> is_blank(#[trigger] bytes@[i]),
{
    let mut end = pos;
    while end < bytes.len() && (bytes[end] == SPACE || bytes[end] == TAB || bytes[end] == FORM_FEED)
        invariant
            pos <= end <= bytes@.len(),
            blank_end(bytes@, pos as int) == blank_end(bytes@, end as int),
            forall|i: int| pos <= i < end ==> is_blank(#[trigger] bytes@[i]),
        decreases bytes@.len() - end,
    {
        end = end + 1;
    }
    end
}

fn find_comment_end(bytes: &[u8], pos: usize) -> (end: usize)
    requires
        pos <= bytes@.len(),
    ensures
        end == comment_end(bytes@, pos as int),
        pos <= end <= bytes@.len(),
        end < bytes@.len() ==> !is_continuation_byte(bytes@[end as int]),
{
    let mut end = pos;
    while end < bytes.len() && bytes[end] != LETTER_N && bytes[end] != BACKSLASH
        invariant
            pos <= end <= bytes@.len(),
            comment_end(bytes@, pos as int) == comment_end(bytes@, end as int),
        decreases bytes@.len() - end,
    {
        end = end + 1;
    }
    end
}

fn find_string_end(bytes: &[u8], pos: usize) -> (r: (usize, bool))
    requires
        pos <= bytes@.len(),
    ensures
        (r.0 as int, r.1) == string_end(bytes@, pos as int),
        pos <= r.0 <= bytes@.len(),
        r.1 ==> pos < r.0 && bytes@[r.0 - 1] == QUOTE,
        !r.1 && r.0 < bytes@.len() ==> pos < r.0 && bytes@[r.0 - 1] == BACKSLASH,
{
    let n = bytes.len();
    let mut at = pos;
    loop
        invariant
            n == bytes@.len(),
            pos <= at <= n,
            string_end(bytes@, pos as int) == string_end(bytes@, at as int),
        decreases n - at,
    {
        if at >= n {
            return (at, false);
        }
        let b = bytes[at];
        if b == QUOTE {
            return (at + 1, true);
        } else if b == BACKSLASH {
            if n - at > 1 && bytes[at + 1] == QUOTE {
                at = at + 2;
            } else {
                return (at + 1, false);
            }
        } else {
            at = at + 1;
        }
    }
}

/// Scans the token that starts at `pos`.
fn next_token<'a>(s: &'a str, bytes: &[u8], pos: usize) -> (r: (Token<'a>, usize))
    requires
        bytes@ == encode_utf8(s@),
        pos < bytes@.len(),
        is_char_boundary(bytes@, pos as int),
    ensures
        (r.0@, r.1 as int) == token_at(bytes@, pos as int),
        pos < r.1 <= bytes@.len(),
        is_char_boundary(bytes@, r.1 as int),
{
    let ghost src = bytes@;
    proof {
        encode_utf8_valid_utf8(s@);
        lemma_next_boundary(src, pos as int);
        is_char_boundary_iff_not_is_continuation_byte(src, pos as int);
    }
    let n = bytes.len();
    let b = bytes[pos];
    if b == PAREN_OPEN {
        (Token::ParenOpen, pos + 1)
    } else if b == PAREN_CLOSE {
        (Token::ParenClose, pos + 1)
    } else if b == CURLY_OPEN {
        (Token::CurlyOpen, pos + 1)
    } else if b == CURLY_CLOSE {
        (Token::CurlyClose, pos + 1)
    } else if b == BRACKET_OPEN {
        (Token::BracketOpen, pos + 1)
    } else if b == BRACKET_CLOSE {
        (Token::BracketClose, pos + 1)
    } else if b == SEMICOLON {
        let end = find_comment_end(bytes, pos + 1);
        proof {
            lemma_boundary_at(src, end as int);
        }
        (Token::Comment, end)
    } else if b == QUOTE {
        let (end, closed) = find_string_end(bytes, pos + 1);
        proof {
            if end < n {
                lemma_boundary_at(src, end - 1);
                lemma_next_boundary(src, end - 1);
            } else {
                lemma_boundary_at(src, end as int);
            }
        }
        if closed {
            proof {
                lemma_boundary_at(src, end - 1);
            }
            (Token::String(slice(s, pos + 1, end - 1)), end)
        } else {
            (Token::Error("Invalid token"), end)
        }
    } else {
        let w = space_width(bytes, pos);
        if w > 0 {
            let run = find_blank_end(bytes, pos);
            proof {
                lemma_blank_run_boundary(src, pos as int, run as int);
            }
            if run < n && bytes[run] == LINE_FEED {
                proof {
                    lemma_next_boundary(src, run as int);
                }
                (Token::Newline, run + 1)
            } else if n - run > 1 && bytes[run] == CARRIAGE_RETURN && bytes[run + 1] == LINE_FEED {
                proof {
                    lemma_next_boundary(src, run as int);
                    lemma_next_boundary(src, run + 1);
                }
                (Token::Newline, run + 2)
            } else if run > pos {
                (Token::Spaces(slice(s, pos, run)), run)
            } else {
                (Token::Error("Invalid token"), pos + w)
            }
        } else {
            let end = find_identifier_end(bytes, pos);
            proof {
                lemma_boundary_at(src, end as int);
            }
            (Token::Identifier(slice(s, pos, end)), end)
        }
    }
}

/// Scans `s` into tokens, each with the range of bytes that it covers.
///
/// The tokens follow each other without a gap from the first byte to the
/// last. Text that starts no token becomes an error token with the reason
/// `Invalid token`, and the scan goes on behind it.
pub fn tokenise(s: &str) -> (out: Vec<(Token<'_>, Range<usize>)>)
    ensures
        lexemes(out@) == scan(encode_utf8(s@), 0),
{
    let bytes = s.as_bytes();
    let ghost src = bytes@;
    let n = bytes.len();
    let mut out: Vec<(Token<'_>, Range<usize>)> = Vec::new();
    let mut pos: usize = 0;
    proof {
        encode_utf8_valid_utf8(s@);
        assert(lexemes(out@) + scan(src, 0) =~= scan(src, 0));
    }
    while pos < n
        invariant
            src == bytes@,
            src == encode_utf8(s@),
            n == src.len(),
            valid_utf8(src),
            pos <= n,
            is_char_boundary(src, pos as int),
            scan(src, 0) == lexemes(out@) + scan(src, pos as int),
        decreases n - pos,
    {
        let ghost before = lexemes(out@);
        let (token, end) = next_token(s, bytes, pos);
        out.push((token, Range { start: pos, end }));
        proof {
            let item = (token@, Range { start: pos, end });
            assert(lexemes(out@) =~= before + seq![item]);
            assert(before + (seq![item] + scan(src, end as int)) =~= lexemes(out@) + scan(
                src,
                end as int,
            ));
        }
        pos = end;
    }
    proof {
        assert(lexemes(out@) + scan(src, pos as int) =~= lexemes(out@));
    }
    out
}

} // verus!
