//! What holds of every parse, proved of the grammar.

use crate::grammar::{
    atom_at, atoms_from, close_line, expect_at, group_at, indent_at, line_group_at,
    line_groups_from, newline_at, starts_atom, toplevel_at, Failure, ParseErrorView, Parsed,
};
use crate::lexer::{opens, Lexeme, TokenView};
use crate::indent_laws::well_spanned;
use crate::value::{
    atom_spans, atoms_spans, group_spans, not_after, spans_ordered, AtomView, GroupType, GroupView,
};
use std::ops::Range;
use vstd::prelude::*;

verus! {

/// No error token stands at the positions from `from` up to `to`.
pub open spec fn no_error_between(t: Seq<Lexeme>, from: int, to: int) -> bool {
    forall|i: int| from <= i < to ==> !((#[trigger] t[i]).0 is Error)
}

/// What a grammar function read to come to `r` from `pos`: it went forward
/// and stayed within the stream, it read no error token, and where it
/// stopped at one, the failure is the invalid input that the token reports.
pub open spec fn reads<A>(t: Seq<Lexeme>, pos: int, r: Parsed<A>) -> bool {
    match r {
        Ok((_, next)) => pos <= next <= t.len() && no_error_between(t, pos, next),
        Err((e, at)) => {
            &&& pos <= at <= t.len()
            &&& no_error_between(t, pos, at)
            &&& at < t.len() && t[at].0 is Error ==> e == ParseErrorView::InvalidInput {
                reason: t[at].0->Error_0,
                span: t[at].1,
            }
        },
    }
}

proof fn lemma_expect_reads(t: Seq<Lexeme>, pos: int, expected: TokenView)
    requires
        0 <= pos <= t.len(),
        !(expected is Error),
    ensures
        reads(t, pos, expect_at(t, pos, expected)),
{
}

proof fn lemma_atoms_read(t: Seq<Lexeme>, pos: int)
    requires
        0 <= pos <= t.len(),
    ensures
        reads(t, pos, atoms_from(t, pos)),
        atoms_from(t, pos) matches Ok((atoms, next)) ==> (starts_atom(t, pos) ==> pos < next
            && atoms.len() > 0) && (!starts_atom(t, pos) ==> pos == next && atoms.len() == 0),
    decreases t.len() - pos, 2nat,
{
    if starts_atom(t, pos) {
        lemma_atom_reads(t, pos);
        match atom_at(t, pos) {
            Err(e) => {},
            Ok((first, next)) => {
                lemma_atoms_read(t, next);
            },
        }
    }
}

proof fn lemma_atom_reads(t: Seq<Lexeme>, pos: int)
    requires
        starts_atom(t, pos),
    ensures
        reads(t, pos, atom_at(t, pos)),
        atom_at(t, pos) matches Ok((_, next)) ==> pos < next,
    decreases t.len() - pos, 1nat,
{
    match t[pos].0 {
        TokenView::Identifier(text) => {
            if pos + 1 < t.len() && opens(t[pos + 1].0) && t[pos + 1].1.start == t[pos].1.end {
                lemma_group_reads(t, pos + 1);
            }
        },
        TokenView::String(text) => {},
        _ => {
            lemma_group_reads(t, pos);
        },
    }
}

proof fn lemma_group_reads(t: Seq<Lexeme>, pos: int)
    requires
        0 <= pos < t.len(),
        opens(t[pos].0),
    ensures
        reads(t, pos, group_at(t, pos)),
        group_at(t, pos) matches Ok((_, next)) ==> pos < next,
    decreases t.len() - pos, 0nat,
{
    lemma_atoms_read(t, pos + 1);
    match atoms_from(t, pos + 1) {
        Err(e) => {},
        Ok((children, close)) => {
            lemma_expect_reads(t, close, crate::grammar::closer(t[pos].0));
        },
    }
}

proof fn lemma_line_group_reads(t: Seq<Lexeme>, pos: int)
    requires
        0 <= pos <= t.len(),
    ensures
        reads(t, pos, line_group_at(t, pos)),
        line_group_at(t, pos) matches Ok((_, next)) ==> (starts_atom(t, pos) ==> pos < next),
    decreases t.len() - pos, 3nat,
{
    lemma_atoms_read(t, pos);
    match atoms_from(t, pos) {
        Err(e) => {},
        Ok((line, after)) => {
            if newline_at(t, after) && indent_at(t, after + 1) {
                lemma_line_groups_read(t, after + 2);
            }
        },
    }
}

proof fn lemma_line_groups_read(t: Seq<Lexeme>, pos: int)
    requires
        0 <= pos <= t.len(),
    ensures
        reads(t, pos, line_groups_from(t, pos)),
        line_groups_from(t, pos) matches Ok((groups, next)) ==> (starts_atom(t, pos) ==> pos < next
            && groups.len() > 0) && (!starts_atom(t, pos) ==> pos == next && groups.len() == 0),
    decreases t.len() - pos, 4nat,
{
    if starts_atom(t, pos) {
        lemma_line_group_reads(t, pos);
        match line_group_at(t, pos) {
            Err(e) => {},
            Ok((first, next)) => {
                lemma_line_groups_read(t, next);
            },
        }
    }
}

/// Every grammar function goes forward, stays within the stream and reads
/// no error token; an atom and a bracketed group take at least one token.
pub proof fn lemma_reads(t: Seq<Lexeme>, pos: int)
    requires
        0 <= pos <= t.len(),
    ensures
        reads(t, pos, atoms_from(t, pos)),
        reads(t, pos, line_group_at(t, pos)),
        reads(t, pos, line_groups_from(t, pos)),
        reads(t, pos, toplevel_at(t, pos)),
        starts_atom(t, pos) ==> reads(t, pos, atom_at(t, pos)),
        starts_atom(t, pos) ==> (atom_at(t, pos) matches Ok((_, next)) ==> pos < next),
        starts_atom(t, pos) ==> (line_group_at(t, pos) matches Ok((_, next)) ==> pos < next),
        pos < t.len() && opens(t[pos].0) ==> reads(t, pos, group_at(t, pos)),
{
    lemma_atoms_read(t, pos);
    lemma_line_group_reads(t, pos);
    lemma_line_groups_read(t, pos);
    if starts_atom(t, pos) {
        lemma_atom_reads(t, pos);
    }
    if pos < t.len() && opens(t[pos].0) {
        lemma_group_reads(t, pos);
    }
    let start = if indent_at(t, pos) {
        pos + 1
    } else {
        pos
    };
    lemma_line_groups_read(t, start);
}

/// A parse of the whole input succeeds only where it has read every token,
/// and none of them is an error token.
pub proof fn lemma_success_reads_everything(t: Seq<Lexeme>, pos: int)
    requires
        0 <= pos <= t.len(),
        toplevel_at(t, pos) is Ok,
    ensures
        toplevel_at(t, pos)->Ok_0.1 == t.len(),
        no_error_between(t, pos, t.len() as int),
{
    lemma_reads(t, pos);
}

/// An error token is a hard failure: with one at `at`, the parse fails at it
/// or before it, and where it fails at it, the failure is the invalid input
/// that the token reports.
pub proof fn lemma_error_token_is_rejected(t: Seq<Lexeme>, pos: int, at: int)
    requires
        0 <= pos <= at < t.len(),
        t[at].0 is Error,
    ensures
        toplevel_at(t, pos) is Err,
        toplevel_at(t, pos)->Err_0.1 <= at,
        toplevel_at(t, pos)->Err_0.1 == at ==> toplevel_at(t, pos)->Err_0.0
            == (ParseErrorView::InvalidInput { reason: t[at].0->Error_0, span: t[at].1 }),
{
    lemma_reads(t, pos);
    match toplevel_at(t, pos) {
        Ok((_, end)) => {
            assert(!(t[at].0 is Error));
        },
        Err((e, stop)) => {
            if stop > at {
                assert(!(t[at].0 is Error));
            }
        },
    }
}

/// Adjacency decides between a neoteric expression and two siblings. Where
/// an opening bracket follows an identifier, the two make one neoteric atom
/// if the bracket starts at the byte at which the identifier ends; with any
/// gap the identifier stands alone and the group is the atom after it. The
/// tokens are the same in both cases: only the spans differ.
pub proof fn lemma_adjacency_decides(t: Seq<Lexeme>, pos: int)
    requires
        0 <= pos,
        pos + 1 < t.len(),
        t[pos].0 is Identifier,
        opens(t[pos + 1].0),
    ensures
        t[pos + 1].1.start == t[pos].1.end ==> atom_at(t, pos) == match group_at(t, pos + 1) {
            Ok((rhs, next)) => Ok::<(AtomView, int), Failure>(
                (
                    AtomView::Neoteric {
                        lhs: Box::new(AtomView::Identifier(t[pos].0->Identifier_0, t[pos].1)),
                        rhs,
                    },
                    next,
                ),
            ),
            Err(e) => Err::<(AtomView, int), Failure>(e),
        },
        t[pos + 1].1.start != t[pos].1.end ==> atom_at(t, pos) == Ok::<(AtomView, int), Failure>(
            (AtomView::Identifier(t[pos].0->Identifier_0, t[pos].1), pos + 1),
        ),
        t[pos + 1].1.start != t[pos].1.end ==> (atoms_from(t, pos) matches Ok((atoms, _))
            ==> atoms.len() >= 2 && atoms[0] == AtomView::Identifier(
            t[pos].0->Identifier_0,
            t[pos].1,
        ) && atoms[1] is Group),
        t[pos + 1].1.start == t[pos].1.end ==> (atoms_from(t, pos) matches Ok((atoms, _))
            ==> atoms.len() >= 1 && atoms[0] is Neoteric),
{
    lemma_reads(t, pos);
    lemma_reads(t, pos + 1);
    if t[pos + 1].1.start != t[pos].1.end {
        assert(starts_atom(t, pos + 1));
        match atoms_from(t, pos) {
            Ok((atoms, _)) => {
                let rest = atoms_from(t, pos + 1)->Ok_0.0;
                assert(atoms == seq![AtomView::Identifier(t[pos].0->Identifier_0, t[pos].1)] + rest);
                assert(rest.len() >= 1);
                assert(atoms[1] == rest[0]);
                let (first, next) = atom_at(t, pos + 1)->Ok_0;
                if next < t.len() {
                    lemma_reads(t, next);
                }
                assert(rest[0] == first);
            },
            Err(_) => {},
        }
    } else {
        match atoms_from(t, pos) {
            Ok((atoms, _)) => {
                let (first, next) = atom_at(t, pos)->Ok_0;
                assert(atoms[0] == first);
            },
            Err(_) => {},
        }
    }
}

/// Singleton collapse. A line of one atom that no indented block follows is
/// that atom, not a group around it. A line of two or more atoms is an
/// indentation group, and so is a line of at least one atom with an indented
/// block below it (an `Indent` with a token behind it), whatever the block
/// holds.
pub proof fn lemma_singleton_collapse(t: Seq<Lexeme>, pos: int)
    requires
        0 <= pos <= t.len(),
        atoms_from(t, pos) is Ok,
    ensures
        ({
            let (line, after) = atoms_from(t, pos)->Ok_0;
            let block = newline_at(t, after) && indent_at(t, after + 1);
            &&& line.len() == 1 && !block ==> line_group_at(t, pos) == Ok::<(AtomView, int), Failure>(
                (
                    line[0],
                    if newline_at(t, after) {
                        after + 1
                    } else {
                        after
                    },
                ),
            )
            &&& line.len() >= 2 || (line.len() >= 1 && block && after + 2 < t.len()) ==> (
            line_group_at(t, pos) matches Ok((group, _)) ==> group matches AtomView::Group(g)
                && g.group_type == GroupType::Indentation && g.children.len() >= line.len()
                && g.children.take(line.len() as int) == line)
        }),
{
    lemma_reads(t, pos);
    let (line, after) = atoms_from(t, pos)->Ok_0;
    if newline_at(t, after) && indent_at(t, after + 1) {
        lemma_reads(t, after + 2);
        match line_groups_from(t, after + 2) {
            Ok((block, end)) => {
                assert((line + block).take(line.len() as int) =~= line);
            },
            Err(_) => {},
        }
    } else {
        assert(line.take(line.len() as int) =~= line);
    }
}

/// The spans are in order and lie between `lo` and `hi`.
spec fn within(spans: Seq<Range<usize>>, lo: Range<usize>, hi: Range<usize>, len: nat) -> bool {
    &&& spans_ordered(spans, len)
    &&& forall|i: int|
        0 <= i < spans.len() ==> not_after(lo, #[trigger] spans[i]) && not_after(spans[i], hi)
}

/// The span of the token at `next`, or of the last token behind the stream.
spec fn upper(t: Seq<Lexeme>, next: int) -> Range<usize> {
    if next < t.len() {
        t[next].1
    } else {
        t[t.len() - 1].1
    }
}

proof fn lemma_within_concat(
    a: Seq<Range<usize>>,
    b: Seq<Range<usize>>,
    lo: Range<usize>,
    mid: Range<usize>,
    from: Range<usize>,
    hi: Range<usize>,
    len: nat,
)
    requires
        within(a, lo, mid, len),
        within(b, from, hi, len),
        not_after(mid, from),
        not_after(lo, from),
        not_after(mid, hi),
    ensures
        within(a + b, lo, hi, len),
{
    let all = a + b;
    assert forall|i: int, j: int| 0 <= i <= j < all.len() implies (#[trigger] all[i]).start <= (
    #[trigger] all[j]).start && all[i].end <= all[j].end by {
        if j < a.len() {
            assert(all[i] == a[i] && all[j] == a[j]);
        } else if i < a.len() {
            assert(all[i] == a[i] && all[j] == b[j - a.len()]);
            assert(not_after(a[i], mid) && not_after(from, b[j - a.len()]));
        } else {
            assert(all[i] == b[i - a.len()] && all[j] == b[j - a.len()]);
        }
    }
    assert forall|i: int| 0 <= i < all.len() implies (#[trigger] all[i]).start <= all[i].end <= len
        && not_after(lo, all[i]) && not_after(all[i], hi) by {
        if i < a.len() {
            assert(all[i] == a[i]);
        } else {
            assert(all[i] == b[i - a.len()]);
        }
    }
}

proof fn lemma_within_single(s: Range<usize>, lo: Range<usize>, hi: Range<usize>, len: nat)
    requires
        s.start <= s.end <= len,
        not_after(lo, s),
        not_after(s, hi),
    ensures
        within(seq![s], lo, hi, len),
{
}

proof fn lemma_within_widen(
    a: Seq<Range<usize>>,
    lo: Range<usize>,
    hi: Range<usize>,
    lower: Range<usize>,
    higher: Range<usize>,
    len: nat,
)
    requires
        within(a, lo, hi, len),
        not_after(lower, lo),
        not_after(hi, higher),
    ensures
        within(a, lower, higher, len),
{
}

/// The spans of a concatenation are the spans of its parts, one after the
/// other.
pub proof fn lemma_atoms_spans_concat(x: Seq<AtomView>, y: Seq<AtomView>)
    ensures
        atoms_spans(x + y) == atoms_spans(x) + atoms_spans(y),
    decreases y.len(),
{
    if y.len() == 0 {
        assert(x + y =~= x);
        assert(atoms_spans(x) + atoms_spans(y) =~= atoms_spans(x));
    } else {
        assert((x + y).drop_last() =~= x + y.drop_last());
        assert((x + y).last() == y.last());
        lemma_atoms_spans_concat(x, y.drop_last());
        assert(atoms_spans(x + y) =~= atoms_spans(x) + atoms_spans(y));
    }
}

proof fn lemma_atoms_spans_single(a: AtomView)
    ensures
        atoms_spans(seq![a]) == atom_spans(a),
{
    assert(seq![a].drop_last() =~= Seq::<AtomView>::empty());
    assert(atoms_spans(Seq::<AtomView>::empty()) =~= Seq::<Range<usize>>::empty());
    assert(atoms_spans(seq![a]) =~= atom_spans(a));
}

proof fn lemma_token_spans(t: Seq<Lexeme>, len: nat, i: int, j: int)
    requires
        well_spanned(t, len),
        0 <= i <= j < t.len(),
    ensures
        not_after(t[i].1, t[j].1),
        t[i].1.start <= t[i].1.end <= len,
        t[j].1.start <= t[j].1.end <= len,
{
}

proof fn lemma_atoms_in_order(t: Seq<Lexeme>, pos: int, len: nat)
    requires
        well_spanned(t, len),
        0 <= pos <= t.len(),
    ensures
        atoms_from(t, pos) matches Ok((atoms, next)) ==> {
            ||| atoms.len() == 0 && next == pos
            ||| pos < next <= t.len() && within(
                atoms_spans(atoms),
                t[pos].1,
                t[next - 1].1,
                len,
            )
        },
    decreases t.len() - pos, 2nat,
{
    if starts_atom(t, pos) {
        lemma_atom_in_order(t, pos, len);
        match atom_at(t, pos) {
            Err(e) => {},
            Ok((first, next)) => {
                lemma_atoms_in_order(t, next, len);
                match atoms_from(t, next) {
                    Err(e) => {},
                    Ok((rest, end)) => {
                        lemma_atoms_spans_concat(seq![first], rest);
                        lemma_atoms_spans_single(first);
                        if rest.len() == 0 {
                            assert(atoms_spans(rest) =~= Seq::<Range<usize>>::empty());
                            assert(atom_spans(first) + atoms_spans(rest) =~= atom_spans(first));
                        } else {
                            lemma_token_spans(t, len, pos, next - 1);
                            lemma_token_spans(t, len, next - 1, next);
                            lemma_token_spans(t, len, next, end - 1);
                            lemma_token_spans(t, len, pos, next);
                            lemma_token_spans(t, len, next - 1, end - 1);
                            lemma_within_concat(
                                atom_spans(first),
                                atoms_spans(rest),
                                t[pos].1,
                                t[next - 1].1,
                                t[next].1,
                                t[end - 1].1,
                                len,
                            );
                        }
                    },
                }
            },
        }
    }
}

proof fn lemma_atom_in_order(t: Seq<Lexeme>, pos: int, len: nat)
    requires
        well_spanned(t, len),
        starts_atom(t, pos),
    ensures
        atom_at(t, pos) matches Ok((atom, next)) ==> pos < next <= t.len() && within(
            atom_spans(atom),
            t[pos].1,
            t[next - 1].1,
            len,
        ),
    decreases t.len() - pos, 1nat,
{
    lemma_token_spans(t, len, pos, pos);
    match t[pos].0 {
        TokenView::Identifier(text) => {
            let head = AtomView::Identifier(text, t[pos].1);
            lemma_within_single(t[pos].1, t[pos].1, t[pos].1, len);
            if pos + 1 < t.len() && opens(t[pos + 1].0) && t[pos + 1].1.start == t[pos].1.end {
                lemma_group_in_order(t, pos + 1, len);
                match group_at(t, pos + 1) {
                    Err(e) => {},
                    Ok((rhs, next)) => {
                        lemma_token_spans(t, len, pos, pos + 1);
                        lemma_token_spans(t, len, pos, next - 1);
                        lemma_within_concat(
                            atom_spans(head),
                            group_spans(rhs),
                            t[pos].1,
                            t[pos].1,
                            t[pos + 1].1,
                            t[next - 1].1,
                            len,
                        );
                    },
                }
            }
        },
        TokenView::String(text) => {
            lemma_within_single(t[pos].1, t[pos].1, t[pos].1, len);
        },
        _ => {
            lemma_group_in_order(t, pos, len);
        },
    }
}

proof fn lemma_group_in_order(t: Seq<Lexeme>, pos: int, len: nat)
    requires
        well_spanned(t, len),
        0 <= pos < t.len(),
        opens(t[pos].0),
    ensures
        group_at(t, pos) matches Ok((group, next)) ==> pos < next <= t.len() && within(
            group_spans(group),
            t[pos].1,
            t[next - 1].1,
            len,
        ),
    decreases t.len() - pos, 0nat,
{
    lemma_atoms_in_order(t, pos + 1, len);
    match atoms_from(t, pos + 1) {
        Err(e) => {},
        Ok((children, close)) => {
            match expect_at(t, close, crate::grammar::closer(t[pos].0)) {
                Err(e) => {},
                Ok((end, next)) => {
                    lemma_token_spans(t, len, pos, pos);
                    lemma_token_spans(t, len, pos, close);
                    lemma_within_single(t[pos].1, t[pos].1, t[pos].1, len);
                    lemma_within_single(t[close].1, t[close].1, t[close].1, len);
                    let opened = seq![t[pos].1] + atoms_spans(children);
                    if children.len() == 0 {
                        assert(atoms_spans(children) =~= Seq::<Range<usize>>::empty());
                        assert(opened =~= seq![t[pos].1]);
                        lemma_within_concat(
                            opened,
                            seq![t[close].1],
                            t[pos].1,
                            t[pos].1,
                            t[close].1,
                            t[close].1,
                            len,
                        );
                    } else {
                        lemma_token_spans(t, len, pos, pos + 1);
                        lemma_token_spans(t, len, pos, close - 1);
                        lemma_token_spans(t, len, close - 1, close);
                        lemma_within_concat(
                            seq![t[pos].1],
                            atoms_spans(children),
                            t[pos].1,
                            t[pos].1,
                            t[pos + 1].1,
                            t[close - 1].1,
                            len,
                        );
                        lemma_within_concat(
                            opened,
                            seq![t[close].1],
                            t[pos].1,
                            t[close - 1].1,
                            t[close].1,
                            t[close].1,
                            len,
                        );
                    }
                },
            }
        },
    }
}

proof fn lemma_close_line_in_order(
    t: Seq<Lexeme>,
    pos: int,
    children: Seq<AtomView>,
    end: int,
    len: nat,
)
    requires
        well_spanned(t, len),
        starts_atom(t, pos),
        pos < end <= t.len(),
        within(atoms_spans(children), t[pos].1, t[end - 1].1, len),
    ensures
        close_line(t, pos, children, end) matches Ok((atom, next)) && next == end && within(
            atom_spans(atom),
            t[pos].1,
            t[end - 1].1,
            len,
        ),
{
    if children.len() == 1 {
        assert(children =~= seq![children[0]]);
        lemma_atoms_spans_single(children[0]);
    } else {
        lemma_token_spans(t, len, pos, end - 1);
        lemma_within_single(t[pos].1, t[pos].1, t[pos].1, len);
        lemma_within_single(t[end - 1].1, t[end - 1].1, t[end - 1].1, len);
        lemma_within_concat(
            seq![t[pos].1],
            atoms_spans(children),
            t[pos].1,
            t[pos].1,
            t[pos].1,
            t[end - 1].1,
            len,
        );
        lemma_within_concat(
            seq![t[pos].1] + atoms_spans(children),
            seq![t[end - 1].1],
            t[pos].1,
            t[end - 1].1,
            t[end - 1].1,
            t[end - 1].1,
            len,
        );
        let group = GroupView {
            group_type: GroupType::Indentation,
            start: t[pos].1,
            children,
            end: t[end - 1].1,
        };
        assert(group_spans(group) == seq![t[pos].1] + atoms_spans(children) + seq![t[end - 1].1]);
        assert(atom_spans(AtomView::Group(group)) == group_spans(group));
    }
}

proof fn lemma_line_group_in_order(t: Seq<Lexeme>, pos: int, len: nat)
    requires
        well_spanned(t, len),
        starts_atom(t, pos),
    ensures
        line_group_at(t, pos) matches Ok((atom, next)) ==> pos < next <= t.len() && within(
            atom_spans(atom),
            t[pos].1,
            upper(t, next),
            len,
        ),
    decreases t.len() - pos, 3nat,
{
    lemma_atoms_in_order(t, pos, len);
    lemma_atoms_read(t, pos);
    match atoms_from(t, pos) {
        Err(e) => {},
        Ok((line, after)) => {
            lemma_token_spans(t, len, pos, after - 1);
            if newline_at(t, after) {
                lemma_token_spans(t, len, after - 1, after);
                if indent_at(t, after + 1) {
                    lemma_line_groups_in_order(t, after + 2, len);
                    lemma_line_groups_read(t, after + 2);
                    match line_groups_from(t, after + 2) {
                        Err(e) => {},
                        Ok((block, end)) => {
                            lemma_atoms_spans_concat(line, block);
                            lemma_token_spans(t, len, after - 1, end - 1);
                            lemma_token_spans(t, len, pos, end - 1);
                            if block.len() == 0 {
                                assert(line + block =~= line);
                                lemma_within_widen(
                                    atoms_spans(line),
                                    t[pos].1,
                                    t[after - 1].1,
                                    t[pos].1,
                                    t[end - 1].1,
                                    len,
                                );
                            } else {
                                lemma_token_spans(t, len, after - 1, after + 2);
                                lemma_token_spans(t, len, pos, after + 2);
                                if end < t.len() {
                                    lemma_token_spans(t, len, after - 1, end);
                                    lemma_token_spans(t, len, end - 1, end);
                                }
                                lemma_within_concat(
                                    atoms_spans(line),
                                    atoms_spans(block),
                                    t[pos].1,
                                    t[after - 1].1,
                                    t[after + 2].1,
                                    upper(t, end),
                                    len,
                                );
                            }
                            if end < t.len() {
                                lemma_token_spans(t, len, pos, end);
                                lemma_token_spans(t, len, end - 1, end);
                                lemma_token_spans(t, len, end, t.len() - 1);
                                if end + 1 < t.len() {
                                    lemma_token_spans(t, len, end, end + 1);
                                }
                                lemma_within_widen(
                                    atoms_spans(line + block),
                                    t[pos].1,
                                    if block.len() == 0 {
                                        t[end - 1].1
                                    } else {
                                        upper(t, end)
                                    },
                                    t[pos].1,
                                    t[end].1,
                                    len,
                                );
                                lemma_within_single(t[pos].1, t[pos].1, t[pos].1, len);
                                lemma_within_single(t[end].1, t[end].1, t[end].1, len);
                                lemma_within_concat(
                                    seq![t[pos].1],
                                    atoms_spans(line + block),
                                    t[pos].1,
                                    t[pos].1,
                                    t[pos].1,
                                    t[end].1,
                                    len,
                                );
                                lemma_within_concat(
                                    seq![t[pos].1] + atoms_spans(line + block),
                                    seq![t[end].1],
                                    t[pos].1,
                                    t[end].1,
                                    t[end].1,
                                    t[end].1,
                                    len,
                                );
                                let next = if t[end].0 is Dedent {
                                    end + 1
                                } else {
                                    end
                                };
                                let group = GroupView {
                                    group_type: GroupType::Indentation,
                                    start: t[pos].1,
                                    children: line + block,
                                    end: t[end].1,
                                };
                                assert(group_spans(group) == seq![t[pos].1] + atoms_spans(
                                    line + block,
                                ) + seq![t[end].1]);
                                assert(atom_spans(AtomView::Group(group)) == group_spans(group));
                                lemma_within_widen(
                                    seq![t[pos].1] + atoms_spans(line + block) + seq![t[end].1],
                                    t[pos].1,
                                    t[end].1,
                                    t[pos].1,
                                    upper(t, next),
                                    len,
                                );
                            } else {
                                lemma_close_line_in_order(t, pos, line + block, end, len);
                            }
                        },
                    }
                } else {
                    lemma_within_widen(
                        atoms_spans(line),
                        t[pos].1,
                        t[after - 1].1,
                        t[pos].1,
                        t[after].1,
                        len,
                    );
                    lemma_close_line_in_order(t, pos, line, after + 1, len);
                    if after + 1 < t.len() {
                        lemma_token_spans(t, len, after, after + 1);
                    }
                    lemma_within_widen(
                        atom_spans(close_line(t, pos, line, after + 1)->Ok_0.0),
                        t[pos].1,
                        t[after].1,
                        t[pos].1,
                        upper(t, after + 1),
                        len,
                    );
                }
            } else {
                lemma_close_line_in_order(t, pos, line, after, len);
                if after < t.len() {
                    lemma_token_spans(t, len, after - 1, after);
                }
                lemma_within_widen(
                    atom_spans(close_line(t, pos, line, after)->Ok_0.0),
                    t[pos].1,
                    t[after - 1].1,
                    t[pos].1,
                    upper(t, after),
                    len,
                );
            }
        },
    }
}

proof fn lemma_line_groups_in_order(t: Seq<Lexeme>, pos: int, len: nat)
    requires
        well_spanned(t, len),
        0 <= pos <= t.len(),
    ensures
        line_groups_from(t, pos) matches Ok((groups, next)) ==> {
            ||| groups.len() == 0 && next == pos
            ||| pos < next <= t.len() && within(atoms_spans(groups), t[pos].1, upper(t, next), len)
        },
    decreases t.len() - pos, 4nat,
{
    if starts_atom(t, pos) {
        lemma_line_group_in_order(t, pos, len);
        match line_group_at(t, pos) {
            Err(e) => {},
            Ok((first, next)) => {
                lemma_line_groups_in_order(t, next, len);
                lemma_line_groups_read(t, next);
                match line_groups_from(t, next) {
                    Err(e) => {},
                    Ok((rest, end)) => {
                        lemma_atoms_spans_concat(seq![first], rest);
                        lemma_atoms_spans_single(first);
                        if rest.len() == 0 {
                            assert(atoms_spans(rest) =~= Seq::<Range<usize>>::empty());
                            assert(atom_spans(first) + atoms_spans(rest) =~= atom_spans(first));
                        } else {
                            lemma_token_spans(t, len, pos, next);
                            lemma_token_spans(t, len, next, t.len() - 1);
                            if end < t.len() {
                                lemma_token_spans(t, len, next, end);
                            }
                            lemma_within_concat(
                                atom_spans(first),
                                atoms_spans(rest),
                                t[pos].1,
                                t[next].1,
                                t[next].1,
                                upper(t, end),
                                len,
                            );
                        }
                    },
                }
            },
        }
    }
}

/// Spans in tree order. Where the spans of the logical tokens do not run
/// backwards and stay within `len`, the spans of the atoms of a successful
/// parse, taken in the order of the tree, do not run backwards either, and
/// each lies within `len`.
pub proof fn lemma_spans_in_tree_order(t: Seq<Lexeme>, pos: int, len: nat)
    requires
        well_spanned(t, len),
        0 <= pos <= t.len(),
        toplevel_at(t, pos) is Ok,
    ensures
        spans_ordered(atoms_spans(toplevel_at(t, pos)->Ok_0.0), len),
{
    let start = if indent_at(t, pos) {
        pos + 1
    } else {
        pos
    };
    lemma_line_groups_in_order(t, start, len);
    let groups = line_groups_from(t, start)->Ok_0.0;
    if groups.len() == 0 {
        assert(atoms_spans(groups) =~= Seq::<Range<usize>>::empty());
    }
}

/// The same of a single atom and of a single line group that starts with an
/// atom.
pub proof fn lemma_atom_spans_in_order(t: Seq<Lexeme>, pos: int, len: nat)
    requires
        well_spanned(t, len),
        starts_atom(t, pos),
    ensures
        atom_at(t, pos) matches Ok((atom, _)) ==> spans_ordered(atom_spans(atom), len),
        line_group_at(t, pos) matches Ok((atom, _)) ==> spans_ordered(atom_spans(atom), len),
{
    lemma_atom_in_order(t, pos, len);
    lemma_line_group_in_order(t, pos, len);
}

/// `Newline`, `Indent` and `Dedent`: the tokens that shape the tree and
/// leave no atom in it.
pub open spec fn is_layout(t: TokenView) -> bool {
    t is Newline || t is Indent || t is Dedent
}

/// The tokens of `s` that are no layout tokens, in their order.
pub open spec fn content(s: Seq<Lexeme>) -> Seq<Lexeme>
    decreases s.len(),
{
    if s.len() == 0 {
        Seq::empty()
    } else if is_layout(s.last().0) {
        content(s.drop_last())
    } else {
        content(s.drop_last()).push(s.last())
    }
}

/// The bracket that opens a group of the given kind.
pub open spec fn opener_of(kind: GroupType) -> TokenView {
    match kind {
        GroupType::Curly => TokenView::CurlyOpen,
        GroupType::Bracket => TokenView::BracketOpen,
        _ => TokenView::ParenOpen,
    }
}

/// The bracket that closes a group of the given kind.
pub open spec fn closer_of(kind: GroupType) -> TokenView {
    match kind {
        GroupType::Curly => TokenView::CurlyClose,
        GroupType::Bracket => TokenView::BracketClose,
        _ => TokenView::ParenClose,
    }
}

/// The tokens that an atom stands for, in the order of the tree.
pub open spec fn atom_tokens(a: AtomView) -> Seq<Lexeme>
    decreases a,
{
    match a {
        AtomView::Identifier(text, span) => seq![(TokenView::Identifier(text), span)],
        AtomView::String(text, span) => seq![(TokenView::String(text), span)],
        AtomView::Group(g) => group_tokens(g),
        AtomView::Neoteric { lhs, rhs } => atom_tokens(*lhs) + group_tokens(rhs),
    }
}

/// The tokens that a group stands for: those of its children, between its
/// two brackets unless indentation made it.
pub open spec fn group_tokens(g: GroupView) -> Seq<Lexeme>
    decreases g,
{
    if g.group_type == GroupType::Indentation {
        atoms_tokens(g.children)
    } else {
        seq![(opener_of(g.group_type), g.start)] + atoms_tokens(g.children) + seq![
            (closer_of(g.group_type), g.end),
        ]
    }
}

/// The tokens that a sequence of atoms stands for.
pub open spec fn atoms_tokens(atoms: Seq<AtomView>) -> Seq<Lexeme>
    decreases atoms,
{
    if atoms.len() == 0 {
        Seq::empty()
    } else {
        atoms_tokens(atoms.drop_last()) + atom_tokens(atoms.last())
    }
}

proof fn lemma_content_concat(x: Seq<Lexeme>, y: Seq<Lexeme>)
    ensures
        content(x + y) == content(x) + content(y),
    decreases y.len(),
{
    if y.len() == 0 {
        assert(x + y =~= x);
        assert(content(x) + content(y) =~= content(x));
    } else {
        assert((x + y).drop_last() =~= x + y.drop_last());
        lemma_content_concat(x, y.drop_last());
        assert(content(x + y) =~= content(x) + content(y));
    }
}

proof fn lemma_content_split(t: Seq<Lexeme>, from: int, mid: int, to: int)
    requires
        0 <= from <= mid <= to <= t.len(),
    ensures
        content(t.subrange(from, to)) == content(t.subrange(from, mid)) + content(
            t.subrange(mid, to),
        ),
{
    assert(t.subrange(from, to) =~= t.subrange(from, mid) + t.subrange(mid, to));
    lemma_content_concat(t.subrange(from, mid), t.subrange(mid, to));
}

proof fn lemma_content_one(t: Seq<Lexeme>, at: int)
    requires
        0 <= at < t.len(),
    ensures
        content(t.subrange(at, at + 1)) == if is_layout(t[at].0) {
            Seq::<Lexeme>::empty()
        } else {
            seq![t[at]]
        },
        content(t.subrange(at, at)) == Seq::<Lexeme>::empty(),
{
    let one = t.subrange(at, at + 1);
    assert(one.drop_last() =~= Seq::<Lexeme>::empty());
    assert(content(Seq::<Lexeme>::empty()) =~= Seq::<Lexeme>::empty());
    assert(one.last() == t[at]);
    assert(content(one) =~= if is_layout(t[at].0) {
        Seq::<Lexeme>::empty()
    } else {
        seq![t[at]]
    });
    assert(t.subrange(at, at) =~= Seq::<Lexeme>::empty());
}

proof fn lemma_atoms_tokens_concat(x: Seq<AtomView>, y: Seq<AtomView>)
    ensures
        atoms_tokens(x + y) == atoms_tokens(x) + atoms_tokens(y),
    decreases y.len(),
{
    if y.len() == 0 {
        assert(x + y =~= x);
        assert(atoms_tokens(x) + atoms_tokens(y) =~= atoms_tokens(x));
    } else {
        assert((x + y).drop_last() =~= x + y.drop_last());
        assert((x + y).last() == y.last());
        lemma_atoms_tokens_concat(x, y.drop_last());
        assert(atoms_tokens(x + y) =~= atoms_tokens(x) + atoms_tokens(y));
    }
}

proof fn lemma_atoms_tokens_single(a: AtomView)
    ensures
        atoms_tokens(seq![a]) == atom_tokens(a),
{
    assert(seq![a].drop_last() =~= Seq::<AtomView>::empty());
    assert(atoms_tokens(Seq::<AtomView>::empty()) =~= Seq::<Lexeme>::empty());
    assert(atoms_tokens(seq![a]) =~= atom_tokens(a));
}

proof fn lemma_atoms_keep_tokens(t: Seq<Lexeme>, pos: int)
    requires
        0 <= pos <= t.len(),
    ensures
        atoms_from(t, pos) matches Ok((atoms, next)) ==> pos <= next <= t.len() && atoms_tokens(
            atoms,
        ) == content(t.subrange(pos, next)),
    decreases t.len() - pos, 2nat,
{
    lemma_atoms_read(t, pos);
    if starts_atom(t, pos) {
        lemma_atom_keeps_tokens(t, pos);
        lemma_atom_reads(t, pos);
        match atom_at(t, pos) {
            Err(e) => {},
            Ok((first, next)) => {
                lemma_atoms_keep_tokens(t, next);
                lemma_atoms_read(t, next);
                match atoms_from(t, next) {
                    Err(e) => {},
                    Ok((rest, end)) => {
                        lemma_atoms_tokens_concat(seq![first], rest);
                        lemma_atoms_tokens_single(first);
                        lemma_content_split(t, pos, next, end);
                    },
                }
            },
        }
    } else {
        assert(t.subrange(pos, pos) =~= Seq::<Lexeme>::empty());
    }
}

proof fn lemma_atom_keeps_tokens(t: Seq<Lexeme>, pos: int)
    requires
        starts_atom(t, pos),
    ensures
        atom_at(t, pos) matches Ok((atom, next)) ==> pos < next <= t.len() && atom_tokens(atom)
            == content(t.subrange(pos, next)),
    decreases t.len() - pos, 1nat,
{
    lemma_atom_reads(t, pos);
    lemma_content_one(t, pos);
    match t[pos].0 {
        TokenView::Identifier(text) => {
            let head = AtomView::Identifier(text, t[pos].1);
            assert(atom_tokens(head) == seq![t[pos]]);
            if pos + 1 < t.len() && opens(t[pos + 1].0) && t[pos + 1].1.start == t[pos].1.end {
                lemma_group_keeps_tokens(t, pos + 1);
                lemma_group_reads(t, pos + 1);
                match group_at(t, pos + 1) {
                    Err(e) => {},
                    Ok((rhs, next)) => {
                        lemma_content_split(t, pos, pos + 1, next);
                        assert(atom_tokens(AtomView::Neoteric { lhs: Box::new(head), rhs })
                            == atom_tokens(head) + group_tokens(rhs));
                    },
                }
            }
        },
        TokenView::String(text) => {
            assert(atom_tokens(AtomView::String(text, t[pos].1)) == seq![t[pos]]);
        },
        _ => {
            lemma_group_keeps_tokens(t, pos);
        },
    }
}

proof fn lemma_group_keeps_tokens(t: Seq<Lexeme>, pos: int)
    requires
        0 <= pos < t.len(),
        opens(t[pos].0),
    ensures
        group_at(t, pos) matches Ok((group, next)) ==> pos < next <= t.len() && group_tokens(group)
            == content(t.subrange(pos, next)),
    decreases t.len() - pos, 0nat,
{
    lemma_atoms_keep_tokens(t, pos + 1);
    lemma_atoms_read(t, pos + 1);
    match atoms_from(t, pos + 1) {
        Err(e) => {},
        Ok((children, close)) => {
            match expect_at(t, close, crate::grammar::closer(t[pos].0)) {
                Err(e) => {},
                Ok((end, next)) => {
                    lemma_content_one(t, pos);
                    lemma_content_one(t, close);
                    lemma_content_split(t, pos, pos + 1, next);
                    lemma_content_split(t, pos + 1, close, next);
                    assert(seq![t[pos]] + atoms_tokens(children) + seq![t[close]] =~= seq![t[pos]]
                        + (atoms_tokens(children) + seq![t[close]]));
                },
            }
        },
    }
}

proof fn lemma_close_line_keeps_tokens(t: Seq<Lexeme>, pos: int, children: Seq<AtomView>, end: int)
    ensures
        close_line(t, pos, children, end) matches Ok((atom, next)) && next == end && atom_tokens(
            atom,
        ) == atoms_tokens(children),
{
    if children.len() == 1 {
        assert(children =~= seq![children[0]]);
        lemma_atoms_tokens_single(children[0]);
    } else {
        let group = close_line(t, pos, children, end)->Ok_0.0->Group_0;
        assert(group_tokens(group) == atoms_tokens(children));
        assert(atom_tokens(AtomView::Group(group)) == group_tokens(group));
    }
}

proof fn lemma_line_group_keeps_tokens(t: Seq<Lexeme>, pos: int)
    requires
        0 <= pos <= t.len(),
    ensures
        line_group_at(t, pos) matches Ok((atom, next)) ==> pos <= next <= t.len() && atom_tokens(
            atom,
        ) == content(t.subrange(pos, next)),
    decreases t.len() - pos, 3nat,
{
    lemma_atoms_keep_tokens(t, pos);
    lemma_atoms_read(t, pos);
    match atoms_from(t, pos) {
        Err(e) => {},
        Ok((line, after)) => {
            if newline_at(t, after) {
                lemma_content_one(t, after);
                lemma_content_split(t, pos, after, after + 1);
                assert(content(t.subrange(pos, after + 1)) =~= content(t.subrange(pos, after)));
                if indent_at(t, after + 1) {
                    lemma_line_groups_keep_tokens(t, after + 2);
                    lemma_line_groups_read(t, after + 2);
                    match line_groups_from(t, after + 2) {
                        Err(e) => {},
                        Ok((block, end)) => {
                            lemma_content_one(t, after + 1);
                            lemma_content_split(t, pos, after + 1, after + 2);
                            lemma_content_split(t, pos, after + 2, end);
                            lemma_atoms_tokens_concat(line, block);
                            assert(content(t.subrange(pos, end)) =~= atoms_tokens(line + block));
                            if end < t.len() {
                                let group = GroupView {
                                    group_type: GroupType::Indentation,
                                    start: crate::grammar::start_span(t, pos),
                                    children: line + block,
                                    end: t[end].1,
                                };
                                assert(group_tokens(group) == atoms_tokens(line + block));
                                assert(atom_tokens(AtomView::Group(group)) == group_tokens(group));
                                if t[end].0 is Dedent {
                                    lemma_content_one(t, end);
                                    lemma_content_split(t, pos, end, end + 1);
                                    assert(content(t.subrange(pos, end + 1)) =~= content(
                                        t.subrange(pos, end),
                                    ));
                                }
                            } else {
                                lemma_close_line_keeps_tokens(t, pos, line + block, end);
                            }
                        },
                    }
                } else {
                    lemma_close_line_keeps_tokens(t, pos, line, after + 1);
                }
            } else {
                lemma_close_line_keeps_tokens(t, pos, line, after);
            }
        },
    }
}

proof fn lemma_line_groups_keep_tokens(t: Seq<Lexeme>, pos: int)
    requires
        0 <= pos <= t.len(),
    ensures
        line_groups_from(t, pos) matches Ok((groups, next)) ==> pos <= next <= t.len()
            && atoms_tokens(groups) == content(t.subrange(pos, next)),
    decreases t.len() - pos, 4nat,
{
    lemma_line_groups_read(t, pos);
    if starts_atom(t, pos) {
        lemma_line_group_keeps_tokens(t, pos);
        lemma_line_group_reads(t, pos);
        match line_group_at(t, pos) {
            Err(e) => {},
            Ok((first, next)) => {
                lemma_line_groups_keep_tokens(t, next);
                lemma_line_groups_read(t, next);
                match line_groups_from(t, next) {
                    Err(e) => {},
                    Ok((rest, end)) => {
                        lemma_atoms_tokens_concat(seq![first], rest);
                        lemma_atoms_tokens_single(first);
                        lemma_content_split(t, pos, next, end);
                    },
                }
            },
        }
    } else {
        assert(t.subrange(pos, pos) =~= Seq::<Lexeme>::empty());
    }
}

/// Nothing is lost and nothing is made up. The atoms of a successful parse
/// stand for exactly the tokens from `pos` on that are no layout tokens, in
/// the same order: every identifier and string is one atom, every bracket
/// pair one group, and indentation only adds groups around them.
pub proof fn lemma_parse_keeps_tokens(t: Seq<Lexeme>, pos: int)
    requires
        0 <= pos <= t.len(),
        toplevel_at(t, pos) is Ok,
    ensures
        atoms_tokens(toplevel_at(t, pos)->Ok_0.0) == content(t.subrange(pos, t.len() as int)),
{
    lemma_reads(t, pos);
    let start = if indent_at(t, pos) {
        pos + 1
    } else {
        pos
    };
    lemma_line_groups_keep_tokens(t, start);
    lemma_line_groups_read(t, start);
    let (groups, after) = line_groups_from(t, start)->Ok_0;
    let end = toplevel_at(t, pos)->Ok_0.1;
    if indent_at(t, pos) {
        lemma_content_one(t, pos);
        lemma_content_split(t, pos, pos + 1, after);
        assert(content(t.subrange(pos, after)) =~= content(t.subrange(start, after)));
    }
    if end > after {
        lemma_content_one(t, after);
        lemma_content_split(t, pos, after, end);
        assert(content(t.subrange(pos, end)) =~= content(t.subrange(pos, after)));
    }
}

/// The same of a single atom, a single line group and a run of atoms.
pub proof fn lemma_atom_keeps_its_tokens(t: Seq<Lexeme>, pos: int)
    requires
        0 <= pos <= t.len(),
    ensures
        starts_atom(t, pos) ==> (atom_at(t, pos) matches Ok((atom, next)) ==> atom_tokens(atom)
            == content(t.subrange(pos, next))),
        atoms_from(t, pos) matches Ok((atoms, next)) ==> atoms_tokens(atoms) == content(
            t.subrange(pos, next),
        ),
        line_group_at(t, pos) matches Ok((atom, next)) ==> atom_tokens(atom) == content(
            t.subrange(pos, next),
        ),
{
    if starts_atom(t, pos) {
        lemma_atom_keeps_tokens(t, pos);
    }
    lemma_atoms_keep_tokens(t, pos);
    lemma_line_group_keeps_tokens(t, pos);
}

} // verus!
