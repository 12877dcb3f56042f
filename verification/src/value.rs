//! The atom tree and its mathematical model.

use std::ops::Range;
use vstd::prelude::*;

verus! {

/// A value together with the byte range of the source text it came from.
#[derive(Debug, PartialEq, Eq)]
pub struct Spanned<T>(pub T, pub Range<usize>);

impl<T> std::ops::Deref for Spanned<T> {
    type Target = T;

    fn deref(&self) -> (r: &T)
        ensures
            *r == self.0,
    {
        &self.0
    }
}

impl<T> std::ops::DerefMut for Spanned<T> {
    fn deref_mut(&mut self) -> (r: &mut T)
        ensures
            *r == old(self).0,
            final(self).0 == *final(r),
            final(self).1 == old(self).1,
    {
        &mut self.0
    }
}

/// The delimiters that produced a group.
#[derive(Debug, Clone, Copy, PartialEq, Eq)]
pub enum GroupType {
    /// Synthesised from an indented block.
    Indentation,
    Parenthesis,
    Curly,
    Bracket,
}

/// An ordered sequence of atoms with the spans of its two delimiters.
#[derive(Debug, PartialEq, Eq)]
pub struct Group<'src> {
    pub group_type: GroupType,
    pub start_delim: Spanned<()>,
    pub children: Vec<Atom<'src>>,
    pub end_delim: Spanned<()>,
}

/// A node of the atom tree.
#[derive(Debug, PartialEq, Eq)]
pub enum Atom<'src> {
    /// Any run of characters that is not a string, a bracket or white space.
    Identifier(Spanned<&'src str>),
    /// The text between two `"` characters, escapes left as written.
    String(Spanned<&'src str>),
    Group(Group<'src>),
    /// An identifier directly followed by a bracketed group, as in `f(x)`.
    Neoteric { lhs: Box<Atom<'src>>, rhs: Group<'src> },
}

/// Model of a [`Group`]: its children as a mathematical sequence.
pub struct GroupView {
    pub group_type: GroupType,
    pub start: Range<usize>,
    pub children: Seq<AtomView>,
    pub end: Range<usize>,
}

/// Model of an [`Atom`]: texts as character sequences, children as sequences.
pub enum AtomView {
    Identifier(Seq<char>, Range<usize>),
    String(Seq<char>, Range<usize>),
    Group(GroupView),
    Neoteric { lhs: Box<AtomView>, rhs: GroupView },
}

impl<'src> Group<'src> {
    /// The model of this group.
    pub open spec fn model(&self) -> GroupView
        decreases self,
    {
        GroupView {
            group_type: self.group_type,
            start: self.start_delim.1,
            children: Seq::new(
                self.children.len() as nat,
                |i: int|
                    if 0 <= i < self.children.len() {
                        self.children[i].model()
                    } else {
                        arbitrary()
                    },
            ),
            end: self.end_delim.1,
        }
    }
}

impl<'src> Atom<'src> {
    /// The model of this atom.
    pub open spec fn model(&self) -> AtomView
        decreases self,
    {
        match self {
            Atom::Identifier(s) => AtomView::Identifier(s.0@, s.1),
            Atom::String(s) => AtomView::String(s.0@, s.1),
            Atom::Group(g) => AtomView::Group(g.model()),
            Atom::Neoteric { lhs, rhs } => AtomView::Neoteric {
                lhs: Box::new(lhs.model()),
                rhs: rhs.model(),
            },
        }
    }
}

impl<'src> View for Group<'src> {
    type V = GroupView;

    open spec fn view(&self) -> GroupView {
        self.model()
    }
}

impl<'src> View for Atom<'src> {
    type V = AtomView;

    open spec fn view(&self) -> AtomView {
        self.model()
    }
}

/// The spans of an atom in the order of the tree: its own for an identifier
/// or a string, those of head and group for a neoteric expression.
pub open spec fn atom_spans(a: AtomView) -> Seq<Range<usize>>
    decreases a,
{
    match a {
        AtomView::Identifier(_, span) => seq![span],
        AtomView::String(_, span) => seq![span],
        AtomView::Group(g) => group_spans(g),
        AtomView::Neoteric { lhs, rhs } => atom_spans(*lhs) + group_spans(rhs),
    }
}

/// The spans of a group in the order of the tree: the opening delimiter, the
/// children from first to last, the closing delimiter.
pub open spec fn group_spans(g: GroupView) -> Seq<Range<usize>>
    decreases g,
{
    seq![g.start] + atoms_spans(g.children) + seq![g.end]
}

/// The spans of a sequence of atoms, from first to last.
pub open spec fn atoms_spans(atoms: Seq<AtomView>) -> Seq<Range<usize>>
    decreases atoms,
{
    if atoms.len() == 0 {
        Seq::empty()
    } else {
        atoms_spans(atoms.drop_last()) + atom_spans(atoms.last())
    }
}

/// The spans do not run backwards: each starts and ends no earlier than the
/// one before it, and none ends before it starts or after `len`.
pub open spec fn spans_ordered(spans: Seq<Range<usize>>, len: nat) -> bool {
    &&& forall|i: int| 0 <= i < spans.len() ==> (#[trigger] spans[i]).start <= spans[i].end <= len
    &&& forall|i: int, j: int|
        0 <= i <= j < spans.len() ==> (#[trigger] spans[i]).start <= (#[trigger] spans[j]).start
            && spans[i].end <= spans[j].end
}

/// `a` starts and ends no later than `b`.
pub open spec fn not_after(a: Range<usize>, b: Range<usize>) -> bool {
    a.start <= b.start && a.end <= b.end
}

} // verus!
