//! What holds from the text to the tree: the laws of the scanner, the
//! normaliser and the grammar, put together.

use crate::grammar_laws::{
    atoms_tokens, content, is_layout, lemma_parse_keeps_tokens, lemma_reads,
    lemma_spans_in_tree_order, no_error_between,
};
use crate::indent_laws::{
    bracket_depth, dedents_in, indents_in, lemma_content_passes, lemma_dedents_follow_indents,
    lemma_no_indentation_inside_brackets, lemma_no_spaces_no_comments,
    lemma_normalize_well_spanned, passes, passing, well_spanned,
};
use crate::lexer::{scan, Lexeme};
use crate::lexer_laws::{lemma_covers_well_spanned, lemma_scan_covers};
use crate::parser::{logical_tokens, parse_text};
use crate::value::{atoms_spans, spans_ordered};
use vstd::prelude::*;

verus! {

/// The spans of the logical tokens of a text do not run backwards and stay
/// within the text.
pub proof fn lemma_text_well_spanned(src: Seq<u8>)
    requires
        src.len() <= usize::MAX,
    ensures
        well_spanned(scan(src, 0), src.len()),
        well_spanned(logical_tokens(src), src.len()),
{
    lemma_scan_covers(src, 0);
    lemma_covers_well_spanned(scan(src, 0), src.len());
    lemma_normalize_well_spanned(scan(src, 0), src.len());
}

/// Spans of a parsed text: taken in the order of the tree, the spans of
/// its atoms do not run backwards, and each lies within the text.
pub proof fn lemma_text_spans_in_tree_order(src: Seq<u8>)
    requires
        src.len() <= usize::MAX,
        parse_text(src) is Ok,
    ensures
        spans_ordered(atoms_spans(parse_text(src)->Ok_0.0), src.len()),
{
    lemma_text_well_spanned(src);
    lemma_spans_in_tree_order(logical_tokens(src), 0, src.len());
}

/// In the logical tokens of a text no prefix holds more `Dedent`s than
/// `Indent`s, and every `Indent` and `Dedent` stands outside all brackets.
pub proof fn lemma_text_indentation(src: Seq<u8>, i: int)
    requires
        src.len() <= usize::MAX,
        0 <= i < logical_tokens(src).len(),
    ensures
        dedents_in(logical_tokens(src).take(i + 1)) <= indents_in(logical_tokens(src).take(i + 1)),
        logical_tokens(src)[i].0 is Indent || logical_tokens(src)[i].0 is Dedent ==> bracket_depth(
            logical_tokens(src).take(i),
        ) == 0,
{
    lemma_scan_covers(src, 0);
    lemma_dedents_follow_indents(scan(src, 0), i + 1);
    if logical_tokens(src)[i].0 is Indent || logical_tokens(src)[i].0 is Dedent {
        lemma_no_indentation_inside_brackets(scan(src, 0), i);
    }
}

/// A text parses only if none of its logical tokens is an error token:
/// neither an unscannable piece of text nor an invalid indentation goes
/// unnoticed.
pub proof fn lemma_parsed_text_has_no_error(src: Seq<u8>)
    requires
        parse_text(src) is Ok,
    ensures
        no_error_between(logical_tokens(src), 0, logical_tokens(src).len() as int),
{
    lemma_reads(logical_tokens(src), 0);
}

proof fn lemma_content_is_passing(s: Seq<Lexeme>)
    requires
        forall|i: int|
            0 <= i < s.len() ==> !((#[trigger] s[i]).0 is Error) && !(s[i].0 is Spaces) && !(
            s[i].0 is Comment),
    ensures
        content(s) == passing(s),
    decreases s.len(),
{
    if s.len() > 0 {
        assert forall|i: int| 0 <= i < s.drop_last().len() implies !((
        #[trigger] s.drop_last()[i]).0 is Error) && !(s.drop_last()[i].0 is Spaces) && !(
        s.drop_last()[i].0 is Comment) by {
            assert(s.drop_last()[i] == s[i]);
        }
        lemma_content_is_passing(s.drop_last());
        assert(is_layout(s.last().0) <==> !passes(s.last().0));
    }
}

/// The tree holds the text. The atoms of a parsed text stand for exactly
/// the scanned tokens other than white space, line breaks and comments, in
/// the order of the text: from the scanner through the normaliser to the
/// tree no identifier, string or bracket is lost, added or moved.
pub proof fn lemma_tree_holds_the_text(src: Seq<u8>)
    requires
        parse_text(src) is Ok,
    ensures
        atoms_tokens(parse_text(src)->Ok_0.0) == passing(scan(src, 0)),
{
    let logical = logical_tokens(src);
    lemma_parse_keeps_tokens(logical, 0);
    assert(logical.subrange(0, logical.len() as int) =~= logical);
    lemma_reads(logical, 0);
    assert forall|i: int| 0 <= i < logical.len() implies !((#[trigger] logical[i]).0 is Error)
        && !(logical[i].0 is Spaces) && !(logical[i].0 is Comment) by {
        lemma_no_spaces_no_comments(scan(src, 0), i);
    }
    lemma_content_is_passing(logical);
    lemma_content_passes(scan(src, 0));
}

} // verus!
