//! What holds of every logical token stream that the normaliser puts out.

use crate::indent::{
    increasing, indentation_tokens, invalid_indentation, levels_above,
    lemma_levels_above_bound, measured_levels, normalize, open_levels, run, step, top,
    Layout, LineState,
};
use crate::lexer::{blank, closes, opens, Lexeme, TokenView};
use crate::value::not_after;
use std::ops::Range;
use vstd::prelude::*;

verus! {

/// A scanned token stream holds no `Indent` and no `Dedent`: only the
/// normaliser makes them.
pub open spec fn raw(tokens: Seq<Lexeme>) -> bool {
    forall|i: int|
        0 <= i < tokens.len() ==> !((#[trigger] tokens[i]).0 is Indent) && !(tokens[i].0 is Dedent)
}

/// The number of `Indent` tokens in `s`.
pub open spec fn indents_in(s: Seq<Lexeme>) -> nat
    decreases s.len(),
{
    if s.len() == 0 {
        0
    } else {
        indents_in(s.drop_last()) + if s.last().0 is Indent {
            1nat
        } else {
            0nat
        }
    }
}

/// The number of `Dedent` tokens in `s`.
pub open spec fn dedents_in(s: Seq<Lexeme>) -> nat
    decreases s.len(),
{
    if s.len() == 0 {
        0
    } else {
        dedents_in(s.drop_last()) + if s.last().0 is Dedent {
            1nat
        } else {
            0nat
        }
    }
}

/// The number of explicit bracket pairs that are open after `s`. A closing
/// bracket with nothing open is left to the parser and counts for nothing.
pub open spec fn bracket_depth(s: Seq<Lexeme>) -> nat
    decreases s.len(),
{
    if s.len() == 0 {
        0
    } else {
        let before = bracket_depth(s.drop_last());
        if opens(s.last().0) {
            before + 1
        } else if closes(s.last().0) && before > 0 {
            (before - 1) as nat
        } else {
            before
        }
    }
}

/// No token of `s` reports an invalid indentation.
pub open spec fn well_indented(s: Seq<Lexeme>) -> bool {
    forall|i: int|
        0 <= i < s.len() ==> (#[trigger] s[i]).0 != TokenView::Error(invalid_indentation())
}

/// Spans do not run backwards: each starts and ends no earlier than the one
/// before it, and none ends before it starts or after `len`.
pub open spec fn well_spanned(s: Seq<Lexeme>, len: nat) -> bool {
    &&& forall|i: int| 0 <= i < s.len() ==> (#[trigger] s[i]).1.start <= s[i].1.end <= len
    &&& forall|i: int, j: int|
        0 <= i <= j < s.len() ==> (#[trigger] s[i]).1.start <= (#[trigger] s[j]).1.start
            && s[i].1.end <= s[j].1.end
}

proof fn lemma_counts_concat(a: Seq<Lexeme>, b: Seq<Lexeme>)
    ensures
        indents_in(a + b) == indents_in(a) + indents_in(b),
        dedents_in(a + b) == dedents_in(a) + dedents_in(b),
    decreases b.len(),
{
    if b.len() == 0 {
        assert(a + b =~= a);
    } else {
        assert((a + b).drop_last() =~= a + b.drop_last());
        lemma_counts_concat(a, b.drop_last());
    }
}

proof fn lemma_counts_take(s: Seq<Lexeme>, k: int)
    requires
        0 <= k <= s.len(),
    ensures
        indents_in(s.take(k)) <= indents_in(s),
        dedents_in(s.take(k)) <= dedents_in(s),
{
    assert(s =~= s.take(k) + s.skip(k));
    lemma_counts_concat(s.take(k), s.skip(k));
}

proof fn lemma_depth_concat_plain(a: Seq<Lexeme>, b: Seq<Lexeme>)
    requires
        forall|i: int| 0 <= i < b.len() ==> !opens((#[trigger] b[i]).0) && !closes(b[i].0),
    ensures
        bracket_depth(a + b) == bracket_depth(a),
    decreases b.len(),
{
    if b.len() == 0 {
        assert(a + b =~= a);
    } else {
        assert((a + b).drop_last() =~= a + b.drop_last());
        lemma_depth_concat_plain(a, b.drop_last());
    }
}

proof fn lemma_dedent_run(n: nat, at: Range<usize>)
    ensures
        indents_in(Seq::new(n, |i: int| (TokenView::Dedent, at))) == 0,
        dedents_in(Seq::new(n, |i: int| (TokenView::Dedent, at))) == n,
    decreases n,
{
    let run = Seq::new(n, |i: int| (TokenView::Dedent, at));
    if n > 0 {
        assert(run.drop_last() =~= Seq::new((n - 1) as nat, |i: int| (TokenView::Dedent, at)));
        lemma_dedent_run((n - 1) as nat, at);
    }
}

/// The levels counted by `levels_above` are exactly those above `width`,
/// when the levels increase.
pub proof fn lemma_levels_above(levels: Seq<nat>, width: nat)
    requires
        increasing(levels),
    ensures
        levels_above(levels, width) <= levels.len(),
        forall|i: int|
            0 <= i < levels.len() ==> (#[trigger] levels[i] > width <==> i >= levels.len()
                - levels_above(levels, width)),
    decreases levels.len(),
{
    if levels.len() > 0 && levels.last() > width {
        let rest = levels.drop_last();
        lemma_levels_above(rest, width);
        assert forall|i: int| 0 <= i < levels.len() implies (#[trigger] levels[i] > width <==> i
            >= levels.len() - levels_above(levels, width)) by {
            if i < rest.len() {
                assert(rest[i] == levels[i]);
            }
        }
    } else {
        assert forall|i: int| 0 <= i < levels.len() implies !(#[trigger] levels[i] > width) by {
            if i < levels.len() - 1 {
                assert(levels[i] < levels[levels.len() - 1]);
            }
        }
    }
}

/// Measuring a line keeps the levels positive and strictly increasing.
pub proof fn lemma_measured_levels_increasing(levels: Seq<nat>, width: nat)
    requires
        increasing(levels),
    ensures
        increasing(measured_levels(levels, width)),
{
    lemma_levels_above_bound(levels, width);
}

/// A line that is not deeper than the innermost level sits on an open level
/// exactly when its width is 0 or one of the levels. At every other width
/// the normaliser puts out an error token and no `Dedent`: it never settles
/// for the nearest level.
pub proof fn lemma_dedent_mismatch(levels: Seq<nat>, width: nat, at: Range<usize>)
    requires
        increasing(levels),
        width <= top(levels),
    ensures
        (width == 0 || levels.contains(width)) ==> indentation_tokens(levels, width, at)
            == Seq::new(levels_above(levels, width), |i: int| (TokenView::Dedent, at)),
        !(width == 0 || levels.contains(width)) ==> indentation_tokens(levels, width, at)
            == seq![(TokenView::Error(invalid_indentation()), at)],
{
    lemma_levels_above(levels, width);
    let kept = measured_levels(levels, width);
    if width == 0 || levels.contains(width) {
        if kept.len() > 0 {
            if width == 0 {
                assert(levels[kept.len() - 1] > width);
            } else {
                let i = choose|i: int| 0 <= i < levels.len() && levels[i] == width;
                assert(i < kept.len());
                assert(kept[i] == width);
                if i < kept.len() - 1 {
                    assert(levels[i] < levels[kept.len() - 1]);
                }
            }
        } else if width > 0 {
            let i = choose|i: int| 0 <= i < levels.len() && levels[i] == width;
            assert(levels[i] > width);
        }
    } else {
        if kept.len() > 0 && top(kept) == width {
            assert(levels[kept.len() - 1] == width);
        }
    }
}

/// What the tokens of one measurement hold.
proof fn lemma_indentation_tokens(levels: Seq<nat>, width: nat, at: Range<usize>)
    ensures
        forall|i: int|
            0 <= i < indentation_tokens(levels, width, at).len() ==> {
                let t = #[trigger] indentation_tokens(levels, width, at)[i];
                &&& t.1 == at
                &&& !opens(t.0)
                &&& !closes(t.0)
                &&& (t.0 is Indent || t.0 is Dedent || t.0 == TokenView::Error(
                    invalid_indentation(),
                ))
            },
        dedents_in(indentation_tokens(levels, width, at)) <= levels.len(),
        indents_in(indentation_tokens(levels, width, at)) + levels.len() >= dedents_in(
            indentation_tokens(levels, width, at),
        ) + measured_levels(levels, width).len(),
        well_indented(indentation_tokens(levels, width, at)) ==> indents_in(
            indentation_tokens(levels, width, at),
        ) + levels.len() == dedents_in(indentation_tokens(levels, width, at)) + measured_levels(
            levels,
            width,
        ).len(),
{
    let tokens = indentation_tokens(levels, width, at);
    lemma_levels_above_bound(levels, width);
    reveal_with_fuel(indents_in, 2);
    reveal_with_fuel(dedents_in, 2);
    if width > top(levels) {
        assert(tokens.drop_last() =~= Seq::<Lexeme>::empty());
    } else if top(measured_levels(levels, width)) == width {
        lemma_dedent_run(levels_above(levels, width), at);
    } else {
        assert(tokens.drop_last() =~= Seq::<Lexeme>::empty());
        assert(tokens[0].0 == TokenView::Error(invalid_indentation()));
    }
}

/// The nesting depth that a state of the normaliser stands for.
pub open spec fn suppression(line: LineState) -> nat {
    match line {
        LineState::Suppressed(depth) => depth,
        _ => 0,
    }
}

/// What holds of the state and the output after every prefix of a scanned
/// token stream.
pub open spec fn consistent(l: Layout, out: Seq<Lexeme>) -> bool {
    &&& increasing(l.indents)
    &&& l.line matches LineState::Suppressed(depth) ==> depth >= 1
    &&& bracket_depth(out) == suppression(l.line)
    &&& indents_in(out) >= dedents_in(out) + l.indents.len()
}

proof fn lemma_push_is_concat(out: Seq<Lexeme>, t: Lexeme)
    ensures
        out + seq![t] == out.push(t),
        out.push(t).drop_last() == out,
        out.push(t).last() == t,
{
    assert(out + seq![t] =~= out.push(t));
    assert(out.push(t).drop_last() =~= out);
}

/// The tokens put out for one token of a scanned stream: `Indent` and
/// `Dedent` come only at the start of a line, before the content, and no more
/// `Dedent`s than there are open levels.
proof fn lemma_step_emitted(l: Layout, tok: TokenView, span: Range<usize>)
    requires
        !(tok is Indent),
        !(tok is Dedent),
    ensures
        dedents_in(step(l, tok, span).1) <= l.indents.len(),
        indents_in(step(l, tok, span).1) + l.indents.len() >= dedents_in(step(l, tok, span).1)
            + step(l, tok, span).0.indents.len(),
        well_indented(step(l, tok, span).1) ==> indents_in(step(l, tok, span).1)
            + l.indents.len() == dedents_in(step(l, tok, span).1) + step(
            l,
            tok,
            span,
        ).0.indents.len(),
        forall|i: int|
            0 <= i < step(l, tok, span).1.len() && ((#[trigger] step(l, tok, span).1[i]).0 is Indent
                || step(l, tok, span).1[i].0 is Dedent) ==> {
                &&& suppression(l.line) == 0
                &&& forall|j: int|
                    0 <= j < i ==> !opens((#[trigger] step(l, tok, span).1[j]).0) && !closes(
                        step(l, tok, span).1[j].0,
                    )
            },
{
    reveal_with_fuel(indents_in, 2);
    reveal_with_fuel(dedents_in, 2);
    let e = step(l, tok, span).1;
    if e.len() == 0 {
    } else if e =~= seq![(tok, span)] {
        assert(e.drop_last() =~= Seq::<Lexeme>::empty());
    } else {
        let (w, at) = match l.pending {
            Some(p) => p,
            None => (0nat, span),
        };
        let tokens = indentation_tokens(l.indents, w, at);
        assert(e == tokens.push((tok, span)));
        lemma_indentation_tokens(l.indents, w, at);
        lemma_push_is_concat(tokens, (tok, span));
        assert forall|i: int| 0 <= i < tokens.len() implies (#[trigger] tokens[i]).0
            != TokenView::Error(invalid_indentation()) || !well_indented(e) by {
            assert(e[i] == tokens[i]);
        }
        assert forall|i: int|
            0 <= i < e.len() && ((#[trigger] e[i]).0 is Indent || e[i].0 is Dedent) implies {
            &&& suppression(l.line) == 0
            &&& forall|j: int| 0 <= j < i ==> !opens((#[trigger] e[j]).0) && !closes(e[j].0)
        } by {
            assert(i < tokens.len());
            assert forall|j: int| 0 <= j < i implies !opens((#[trigger] e[j]).0) && !closes(
                e[j].0,
            ) by {
                assert(e[j] == tokens[j]);
            }
        }
    }
}

proof fn lemma_step_consistent(l: Layout, out: Seq<Lexeme>, tok: TokenView, span: Range<usize>)
    requires
        !(tok is Indent),
        !(tok is Dedent),
        consistent(l, out),
    ensures
        consistent(step(l, tok, span).0, out + step(l, tok, span).1),
{
    let e = step(l, tok, span).1;
    lemma_counts_concat(out, e);
    lemma_step_emitted(l, tok, span);
    lemma_push_is_concat(out, (tok, span));
    if e.len() == 0 {
        assert(out + e =~= out);
    } else if e =~= seq![(tok, span)] {
    } else {
        let (w, at) = match l.pending {
            Some(p) => p,
            None => (0nat, span),
        };
        let tokens = indentation_tokens(l.indents, w, at);
        lemma_indentation_tokens(l.indents, w, at);
        lemma_measured_levels_increasing(l.indents, w);
        lemma_depth_concat_plain(out, tokens);
        lemma_push_is_concat(out + tokens, (tok, span));
        assert(out + e =~= (out + tokens).push((tok, span)));
    }
}

/// After every scanned token stream the normaliser's state and output agree:
/// the levels increase, the nesting depth of the output is the depth of
/// suppression, and there are at least as many `Indent`s as `Dedent`s and
/// open levels together.
pub proof fn lemma_run_consistent(tokens: Seq<Lexeme>)
    requires
        raw(tokens),
    ensures
        consistent(run(tokens).0, run(tokens).1),
    decreases tokens.len(),
{
    if tokens.len() > 0 {
        let rest = tokens.drop_last();
        lemma_run_consistent(rest);
        lemma_step_consistent(run(rest).0, run(rest).1, tokens.last().0, tokens.last().1);
    }
}

/// Balanced indentation: where no invalid indentation was reported, the
/// `Indent`s of the output are as many as its `Dedent`s and the levels left
/// open at the end of the input together.
pub proof fn lemma_balanced_indentation(tokens: Seq<Lexeme>)
    requires
        raw(tokens),
        well_indented(normalize(tokens)),
    ensures
        indents_in(normalize(tokens)) == dedents_in(normalize(tokens)) + open_levels(tokens).len(),
    decreases tokens.len(),
{
    if tokens.len() > 0 {
        let rest = tokens.drop_last();
        let (l, out) = run(rest);
        let e = step(l, tokens.last().0, tokens.last().1).1;
        assert forall|i: int| 0 <= i < out.len() implies (#[trigger] out[i]).0
            != TokenView::Error(invalid_indentation()) by {
            assert((out + e)[i] == out[i]);
        }
        assert forall|i: int| 0 <= i < e.len() implies (#[trigger] e[i]).0 != TokenView::Error(
            invalid_indentation(),
        ) by {
            assert((out + e)[out.len() + i] == e[i]);
        }
        lemma_balanced_indentation(rest);
        lemma_step_emitted(l, tokens.last().0, tokens.last().1);
        lemma_counts_concat(out, e);
    }
}

/// Where no invalid indentation was reported and at most one level is open
/// at the end of the input, the `Indent`s and `Dedent`s of the output are
/// balanced but for that one level.
pub proof fn lemma_at_most_one_unmatched_indent(tokens: Seq<Lexeme>)
    requires
        raw(tokens),
        well_indented(normalize(tokens)),
        open_levels(tokens).len() <= 1,
    ensures
        indents_in(normalize(tokens)) == dedents_in(normalize(tokens)) || indents_in(
            normalize(tokens),
        ) == dedents_in(normalize(tokens)) + 1,
{
    lemma_balanced_indentation(tokens);
}

/// With or without invalid indentation, the output never holds fewer
/// `Indent`s than `Dedent`s and open levels together.
pub proof fn lemma_indents_cover_levels(tokens: Seq<Lexeme>)
    requires
        raw(tokens),
    ensures
        indents_in(normalize(tokens)) >= dedents_in(normalize(tokens)) + open_levels(tokens).len(),
{
    lemma_run_consistent(tokens);
}

/// No prefix of the output closes more levels than it has opened.
pub proof fn lemma_dedents_follow_indents(tokens: Seq<Lexeme>, k: int)
    requires
        raw(tokens),
        0 <= k <= normalize(tokens).len(),
    ensures
        dedents_in(normalize(tokens).take(k)) <= indents_in(normalize(tokens).take(k)),
    decreases tokens.len(),
{
    if tokens.len() > 0 {
        let rest = tokens.drop_last();
        let (l, out) = run(rest);
        let e = step(l, tokens.last().0, tokens.last().1).1;
        if k <= out.len() {
            assert((out + e).take(k) =~= out.take(k));
            lemma_dedents_follow_indents(rest, k);
        } else {
            let j = k - out.len();
            assert((out + e).take(k) =~= out + e.take(j));
            lemma_counts_concat(out, e.take(j));
            lemma_counts_take(e, j);
            lemma_step_emitted(l, tokens.last().0, tokens.last().1);
            lemma_run_consistent(rest);
        }
    } else {
        assert(normalize(tokens).take(k) =~= Seq::<Lexeme>::empty());
    }
}

/// Suppression: every `Indent` and every `Dedent` of the output stands
/// where no explicit bracket pair is open.
pub proof fn lemma_no_indentation_inside_brackets(tokens: Seq<Lexeme>, i: int)
    requires
        raw(tokens),
        0 <= i < normalize(tokens).len(),
        normalize(tokens)[i].0 is Indent || normalize(tokens)[i].0 is Dedent,
    ensures
        bracket_depth(normalize(tokens).take(i)) == 0,
    decreases tokens.len(),
{
    if tokens.len() > 0 {
        let rest = tokens.drop_last();
        let (l, out) = run(rest);
        let e = step(l, tokens.last().0, tokens.last().1).1;
        if i < out.len() {
            assert((out + e).take(i) =~= out.take(i));
            lemma_no_indentation_inside_brackets(rest, i);
        } else {
            let j = i - out.len();
            assert((out + e)[i] == e[j]);
            assert((out + e).take(i) =~= out + e.take(j));
            lemma_step_emitted(l, tokens.last().0, tokens.last().1);
            lemma_run_consistent(rest);
            assert forall|m: int| 0 <= m < e.take(j).len() implies !opens(
                (#[trigger] e.take(j)[m]).0,
            ) && !closes(e.take(j)[m].0) by {
                assert(e.take(j)[m] == e[m]);
            }
            lemma_depth_concat_plain(out, e.take(j));
        }
    }
}

/// An `Indent` or a `Dedent` is never the last token of the output: the
/// content of the line that was measured follows it.
pub proof fn lemma_indentation_precedes_content(tokens: Seq<Lexeme>, i: int)
    requires
        raw(tokens),
        0 <= i < normalize(tokens).len(),
        normalize(tokens)[i].0 is Indent || normalize(tokens)[i].0 is Dedent,
    ensures
        i + 1 < normalize(tokens).len(),
    decreases tokens.len(),
{
    if tokens.len() > 0 {
        let rest = tokens.drop_last();
        let (l, out) = run(rest);
        let e = step(l, tokens.last().0, tokens.last().1).1;
        if i < out.len() {
            assert((out + e)[i] == out[i]);
            lemma_indentation_precedes_content(rest, i);
        } else {
            let j = i - out.len();
            assert((out + e)[i] == e[j]);
            assert(e.last() == tokens.last());
        }
    }
}

/// The open levels are positive and strictly increasing after every scanned
/// token stream.
pub proof fn lemma_open_levels_increasing(tokens: Seq<Lexeme>)
    requires
        raw(tokens),
    ensures
        increasing(open_levels(tokens)),
{
    lemma_run_consistent(tokens);
}

/// Every span of `s` starts and ends no later than `bound`.
pub open spec fn spans_not_after(s: Seq<Lexeme>, bound: Range<usize>) -> bool {
    forall|i: int| 0 <= i < s.len() ==> not_after((#[trigger] s[i]).1, bound)
}

spec fn span_consistent(tokens: Seq<Lexeme>, l: Layout, out: Seq<Lexeme>, len: nat) -> bool {
    &&& well_spanned(out, len)
    &&& tokens.len() > 0 ==> spans_not_after(out, tokens.last().1)
    &&& tokens.len() == 0 ==> out.len() == 0
    &&& l.pending matches Some(p) ==> {
        &&& l.line is StartOfInput || l.line is StartOfLine
        &&& p.1.start <= p.1.end <= len
        &&& spans_not_after(out, p.1)
        &&& tokens.len() > 0
        &&& not_after(p.1, tokens.last().1)
    }
}

proof fn lemma_spans_push(s: Seq<Lexeme>, x: Lexeme, len: nat)
    requires
        well_spanned(s, len),
        spans_not_after(s, x.1),
        x.1.start <= x.1.end <= len,
    ensures
        well_spanned(s.push(x), len),
        spans_not_after(s.push(x), x.1),
{
    let t = s.push(x);
    assert forall|i: int, j: int| 0 <= i <= j < t.len() implies (#[trigger] t[i]).1.start <= (
    #[trigger] t[j]).1.start && t[i].1.end <= t[j].1.end by {
        if j < s.len() {
            assert(t[i] == s[i] && t[j] == s[j]);
        } else if i < s.len() {
            assert(t[i] == s[i]);
        }
    }
}

proof fn lemma_spans_concat_same(s: Seq<Lexeme>, extra: Seq<Lexeme>, at: Range<usize>, len: nat)
    requires
        well_spanned(s, len),
        spans_not_after(s, at),
        at.start <= at.end <= len,
        forall|i: int| 0 <= i < extra.len() ==> (#[trigger] extra[i]).1 == at,
    ensures
        well_spanned(s + extra, len),
        spans_not_after(s + extra, at),
    decreases extra.len(),
{
    if extra.len() == 0 {
        assert(s + extra =~= s);
    } else {
        lemma_spans_concat_same(s, extra.drop_last(), at, len);
        assert(s + extra =~= (s + extra.drop_last()).push(extra.last()));
        lemma_spans_push(s + extra.drop_last(), extra.last(), len);
    }
}

proof fn lemma_run_span_consistent(tokens: Seq<Lexeme>, len: nat)
    requires
        well_spanned(tokens, len),
    ensures
        span_consistent(tokens, run(tokens).0, run(tokens).1, len),
    decreases tokens.len(),
{
    if tokens.len() > 0 {
        let rest = tokens.drop_last();
        let t = tokens.last();
        assert forall|i: int| 0 <= i < rest.len() implies (#[trigger] rest[i]).1.start
            <= rest[i].1.end <= len by {
            assert(rest[i] == tokens[i]);
        }
        assert forall|i: int, j: int| 0 <= i <= j < rest.len() implies (#[trigger] rest[i]).1.start
            <= (#[trigger] rest[j]).1.start && rest[i].1.end <= rest[j].1.end by {
            assert(rest[i] == tokens[i] && rest[j] == tokens[j]);
        }
        lemma_run_span_consistent(rest, len);
        let (l, out) = run(rest);
        let (after, e) = step(l, t.0, t.1);
        assert(t == tokens[tokens.len() - 1]);
        if rest.len() > 0 {
            assert(rest.last() == tokens[tokens.len() - 2]);
            assert(not_after(rest.last().1, t.1));
        }
        assert(spans_not_after(out, t.1));
        if e.len() == 0 {
            assert(out + e =~= out);
        } else if e =~= seq![t] {
            lemma_push_is_concat(out, t);
            lemma_spans_push(out, t, len);
        } else {
            let (w, at) = match l.pending {
                Some(p) => p,
                None => (0nat, t.1),
            };
            let tokens_i = indentation_tokens(l.indents, w, at);
            lemma_indentation_tokens(l.indents, w, at);
            lemma_spans_concat_same(out, tokens_i, at, len);
            assert(out + e =~= (out + tokens_i).push(t));
            assert forall|i: int| 0 <= i < (out + tokens_i).len() implies not_after(
                (#[trigger] (out + tokens_i)[i]).1,
                t.1,
            ) by {
                assert(not_after((out + tokens_i)[i].1, at));
            }
            lemma_spans_push(out + tokens_i, t, len);
        }
    }
}

/// Spans keep their order: where the spans of the scanned tokens do not run
/// backwards and stay within `len`, the same holds of the logical tokens.
pub proof fn lemma_normalize_well_spanned(tokens: Seq<Lexeme>, len: nat)
    requires
        well_spanned(tokens, len),
    ensures
        well_spanned(normalize(tokens), len),
{
    lemma_run_span_consistent(tokens, len);
}

/// A token that the normaliser neither makes nor drops: an identifier, a
/// string, a bracket or an error token of the scanner.
pub open spec fn passes(t: TokenView) -> bool {
    &&& !blank(t)
    &&& !(t is Indent)
    &&& !(t is Dedent)
    &&& t != TokenView::Error(invalid_indentation())
}

/// The tokens of `s` that pass the normaliser, in their order.
pub open spec fn passing(s: Seq<Lexeme>) -> Seq<Lexeme>
    decreases s.len(),
{
    if s.len() == 0 {
        Seq::empty()
    } else if passes(s.last().0) {
        passing(s.drop_last()).push(s.last())
    } else {
        passing(s.drop_last())
    }
}

proof fn lemma_passing_concat(x: Seq<Lexeme>, y: Seq<Lexeme>)
    ensures
        passing(x + y) == passing(x) + passing(y),
    decreases y.len(),
{
    if y.len() == 0 {
        assert(x + y =~= x);
        assert(passing(x) + passing(y) =~= passing(x));
    } else {
        assert((x + y).drop_last() =~= x + y.drop_last());
        lemma_passing_concat(x, y.drop_last());
        assert(passing(x + y) =~= passing(x) + passing(y));
    }
}

proof fn lemma_passing_none(s: Seq<Lexeme>)
    requires
        forall|i: int| 0 <= i < s.len() ==> !passes((#[trigger] s[i]).0),
    ensures
        passing(s) == Seq::<Lexeme>::empty(),
    decreases s.len(),
{
    if s.len() > 0 {
        assert forall|i: int| 0 <= i < s.drop_last().len() implies !passes(
            (#[trigger] s.drop_last()[i]).0,
        ) by {
            assert(s.drop_last()[i] == s[i]);
        }
        lemma_passing_none(s.drop_last());
    }
}

/// Content passes unchanged: identifiers, strings, brackets and the error
/// tokens of the scanner come out as they went in, each with its span, none
/// lost, none added and none out of order. All that the normaliser adds is
/// `Indent`, `Dedent` and the error token for an invalid indentation; all
/// that it drops is white space, comments and line breaks.
pub proof fn lemma_content_passes(tokens: Seq<Lexeme>)
    ensures
        passing(normalize(tokens)) == passing(tokens),
    decreases tokens.len(),
{
    if tokens.len() > 0 {
        let rest = tokens.drop_last();
        let t = tokens.last();
        lemma_content_passes(rest);
        let (l, out) = run(rest);
        let e = step(l, t.0, t.1).1;
        lemma_passing_concat(out, e);
        reveal_with_fuel(passing, 2);
        if e.len() == 0 {
        } else if e =~= seq![t] {
            assert(e.drop_last() =~= Seq::<Lexeme>::empty());
        } else {
            let (w, at) = match l.pending {
                Some(p) => p,
                None => (0nat, t.1),
            };
            let made = indentation_tokens(l.indents, w, at);
            lemma_indentation_tokens(l.indents, w, at);
            lemma_passing_none(made);
            assert(e =~= made + seq![t]);
            lemma_passing_concat(made, seq![t]);
            assert(seq![t].drop_last() =~= Seq::<Lexeme>::empty());
        }
    }
}

/// The output holds no white space and no comment.
pub proof fn lemma_no_spaces_no_comments(tokens: Seq<Lexeme>, i: int)
    requires
        0 <= i < normalize(tokens).len(),
    ensures
        !(normalize(tokens)[i].0 is Spaces),
        !(normalize(tokens)[i].0 is Comment),
    decreases tokens.len(),
{
    if tokens.len() > 0 {
        let rest = tokens.drop_last();
        let (l, out) = run(rest);
        let e = step(l, tokens.last().0, tokens.last().1).1;
        if i < out.len() {
            assert((out + e)[i] == out[i]);
            lemma_no_spaces_no_comments(rest, i);
        } else {
            let j = i - out.len();
            assert((out + e)[i] == e[j]);
            if e =~= seq![tokens.last()] {
            } else {
                let (w, at) = match l.pending {
                    Some(p) => p,
                    None => (0nat, tokens.last().1),
                };
                lemma_indentation_tokens(l.indents, w, at);
                if j < indentation_tokens(l.indents, w, at).len() {
                    assert(e[j] == indentation_tokens(l.indents, w, at)[j]);
                }
            }
        }
    }
}

} // verus!
