//! What holds of every scanned token stream.

use crate::indent_laws::{raw, well_spanned};
use crate::lexer::{blank_end, comment_end, identifier_end, scan, string_end, token_at, Lexeme};
use vstd::prelude::*;

verus! {

/// The tokens follow each other without a gap from `from` to `to`, and none
/// is empty.
pub open spec fn covers(s: Seq<Lexeme>, from: int, to: int) -> bool {
    &&& s.len() == 0 ==> from == to
    &&& s.len() > 0 ==> s[0].1.start == from && s.last().1.end == to
    &&& forall|i: int| 0 <= i < s.len() ==> (#[trigger] s[i]).1.start < s[i].1.end
    &&& forall|i: int| 0 <= i < s.len() - 1 ==> (#[trigger] s[i]).1.end == s[i + 1].1.start
}

proof fn lemma_identifier_end(src: Seq<u8>, pos: int)
    requires
        0 <= pos <= src.len(),
    ensures
        pos <= identifier_end(src, pos) <= src.len(),
    decreases src.len() - pos,
{
    if pos < src.len() {
        lemma_identifier_end(src, pos + 1);
    }
}

proof fn lemma_blank_end(src: Seq<u8>, pos: int)
    requires
        0 <= pos <= src.len(),
    ensures
        pos <= blank_end(src, pos) <= src.len(),
    decreases src.len() - pos,
{
    if pos < src.len() {
        lemma_blank_end(src, pos + 1);
    }
}

proof fn lemma_comment_end(src: Seq<u8>, pos: int)
    requires
        0 <= pos <= src.len(),
    ensures
        pos <= comment_end(src, pos) <= src.len(),
    decreases src.len() - pos,
{
    if pos < src.len() {
        lemma_comment_end(src, pos + 1);
    }
}

proof fn lemma_string_end(src: Seq<u8>, pos: int)
    requires
        0 <= pos <= src.len(),
    ensures
        pos <= string_end(src, pos).0 <= src.len(),
        string_end(src, pos).1 ==> pos < string_end(src, pos).0,
    decreases src.len() - pos,
{
    if pos < src.len() {
        lemma_string_end(src, pos + 1);
        if pos + 2 <= src.len() {
            lemma_string_end(src, pos + 2);
        }
    }
}

/// Every token takes at least one byte and ends within the text. No token
/// is an `Indent` or a `Dedent`.
pub proof fn lemma_token_at(src: Seq<u8>, pos: int)
    requires
        0 <= pos < src.len(),
    ensures
        pos < token_at(src, pos).1 <= src.len(),
        !(token_at(src, pos).0 is Indent),
        !(token_at(src, pos).0 is Dedent),
{
    lemma_comment_end(src, pos + 1);
    lemma_string_end(src, pos + 1);
    lemma_blank_end(src, pos);
    lemma_identifier_end(src, pos + 1);
}

/// The scanned tokens cover the text from `pos` to its end without a gap,
/// and a scanner makes no `Indent` and no `Dedent`.
pub proof fn lemma_scan_covers(src: Seq<u8>, pos: int)
    requires
        0 <= pos <= src.len() <= usize::MAX,
    ensures
        covers(scan(src, pos), pos, src.len() as int),
        raw(scan(src, pos)),
    decreases src.len() - pos,
{
    if pos < src.len() {
        lemma_token_at(src, pos);
        let (token, end) = token_at(src, pos);
        lemma_scan_covers(src, end);
        let rest = scan(src, end);
        let all = scan(src, pos);
        assert(all.len() == rest.len() + 1);
        assert forall|i: int| 0 <= i < all.len() implies (#[trigger] all[i]).1.start < all[i].1.end
            && !(all[i].0 is Indent) && !(all[i].0 is Dedent) by {
            if i > 0 {
                assert(all[i] == rest[i - 1]);
            }
        }
        assert forall|i: int| 0 <= i < all.len() - 1 implies (#[trigger] all[i]).1.end == all[i
            + 1].1.start by {
            assert(all[i + 1] == rest[i]);
            if i > 0 {
                assert(all[i] == rest[i - 1]);
            }
        }
        if rest.len() > 0 {
            assert(all.last() == rest.last());
        }
    }
}

proof fn lemma_covers_forward(s: Seq<Lexeme>, from: int, to: int, i: int, j: int)
    requires
        covers(s, from, to),
        0 <= i <= j < s.len(),
    ensures
        s[i].1.start <= s[j].1.start,
        s[i].1.end <= s[j].1.end,
    decreases j - i,
{
    if i < j {
        lemma_covers_forward(s, from, to, i, j - 1);
        assert(s[j - 1].1.end == s[j].1.start);
        assert(s[j].1.start < s[j].1.end);
        assert(s[j - 1].1.start < s[j - 1].1.end);
    }
}

proof fn lemma_covers_ordered(s: Seq<Lexeme>, from: int, to: int, i: int, j: int)
    requires
        covers(s, from, to),
        0 <= i <= j < s.len(),
    ensures
        from <= s[i].1.start <= s[j].1.start,
        s[i].1.end <= s[j].1.end <= to,
{
    lemma_covers_forward(s, from, to, i, j);
    lemma_covers_forward(s, from, to, 0, i);
    lemma_covers_forward(s, from, to, j, s.len() - 1);
}

/// Tokens that cover a text without a gap have spans that do not run
/// backwards and stay within the text.
pub proof fn lemma_covers_well_spanned(s: Seq<Lexeme>, len: nat)
    requires
        covers(s, 0, len as int),
    ensures
        well_spanned(s, len),
{
    assert forall|i: int, j: int| 0 <= i <= j < s.len() implies (#[trigger] s[i]).1.start <= (
    #[trigger] s[j]).1.start && s[i].1.end <= s[j].1.end && s[j].1.end <= len by {
        lemma_covers_ordered(s, 0, len as int, i, j);
    }
    assert forall|i: int| 0 <= i < s.len() implies (#[trigger] s[i]).1.start <= s[i].1.end
        <= len by {
        lemma_covers_ordered(s, 0, len as int, i, i);
    }
}

} // verus!
