//! The compiled pattern tree and its mathematical model.
use vstd::prelude::*;

verus! {

/// The mathematical model of a compiled pattern: the same tree, with
/// sequences in place of vectors and mathematical integers for counts.
pub ghost enum Ast {
    Literal(char),
    AnyChar,
    Digit,
    Word,
    CharacterClass { members: Seq<char>, negated: bool },
    Sequence(Seq<Ast>),
    Repeated { min: nat, max: Option<nat>, inner: Box<Ast> },
    Alternation(Seq<Ast>),
    CaptureGroup { index: nat, inner: Box<Ast> },
    Backreference(nat),
    StartAnchor,
    EndAnchor,
}

/// The shape invariants of a compiled tree: a class has at least one member,
/// a bounded repetition's minimum does not exceed its maximum, and capture
/// and backreference indices are 1-based.
pub open spec fn well_formed(a: Ast) -> bool
    decreases a,
{
    match a {
        Ast::CharacterClass { members, negated } => members.len() > 0,
        Ast::Sequence(cs) => forall|i: int| 0 <= i < cs.len() ==> well_formed(#[trigger] cs[i]),
        Ast::Alternation(cs) => forall|i: int| 0 <= i < cs.len() ==> well_formed(#[trigger] cs[i]),
        Ast::Repeated { min, max, inner } => (max is Some ==> min <= max->0) && well_formed(*inner),
        Ast::CaptureGroup { index, inner } => index >= 1 && well_formed(*inner),
        Ast::Backreference(n) => n >= 1,
        _ => true,
    }
}

/// A compiled pattern: one node per syntactic construct.
#[derive(Debug, PartialEq, Eq)]
pub enum Pattern {
    /// Exactly the given character.
    Literal(char),
    /// Any single character (`.`).
    AnyChar,
    /// One ASCII decimal digit (`\d`).
    Digit,
    /// One ASCII letter, digit or underscore (`\w`).
    Word,
    /// One character whose membership in `members` differs from `negated`.
    CharacterClass { members: Vec<char>, negated: bool },
    /// All children, one after the other.
    Sequence(Vec<Pattern>),
    /// `inner` repeated at least `min` times, and at most `max` times when bounded.
    Repeated { min: usize, max: Option<usize>, inner: Box<Pattern> },
    /// Exactly one of the branches.
    Alternation(Vec<Pattern>),
    /// `inner`, recording what it consumed under the 1-based `index`.
    CaptureGroup { index: usize, inner: Box<Pattern> },
    /// The text most recently recorded by the capture group with this index.
    Backreference(usize),
    /// Zero-width: the absolute start of the input.
    StartAnchor,
    /// Zero-width: the absolute end of the input.
    EndAnchor,
}

/// The models of a sequence of patterns, one for each.
pub open spec fn views(s: Seq<Pattern>) -> Seq<Ast>
    decreases s,
{
    Seq::new(s.len(), |i: int| if 0 <= i < s.len() { s[i].model() } else { Ast::AnyChar })
}

impl Pattern {
    /// The model of this tree.
    pub open spec fn model(&self) -> Ast
        decreases self,
    {
        match self {
            Pattern::Literal(c) => Ast::Literal(*c),
            Pattern::AnyChar => Ast::AnyChar,
            Pattern::Digit => Ast::Digit,
            Pattern::Word => Ast::Word,
            Pattern::CharacterClass { members, negated } => Ast::CharacterClass {
                members: members@,
                negated: *negated,
            },
            Pattern::Sequence(v) => Ast::Sequence(views(v@)),
            Pattern::Repeated { min, max, inner } => Ast::Repeated {
                min: *min as nat,
                max: match max {
                    Some(m) => Some(*m as nat),
                    None => None,
                },
                inner: Box::new(inner.model()),
            },
            Pattern::Alternation(v) => Ast::Alternation(views(v@)),
            Pattern::CaptureGroup { index, inner } => Ast::CaptureGroup {
                index: *index as nat,
                inner: Box::new(inner.model()),
            },
            Pattern::Backreference(n) => Ast::Backreference(*n as nat),
            Pattern::StartAnchor => Ast::StartAnchor,
            Pattern::EndAnchor => Ast::EndAnchor,
        }
    }
}

/// A node is an anchor exactly when its model is that anchor.
pub(crate) proof fn lemma_anchor_model(p: Pattern)
    ensures
        (p@ is StartAnchor) == (p is StartAnchor),
        (p@ is EndAnchor) == (p is EndAnchor),
{
}

impl View for Pattern {
    type V = Ast;

    open spec fn view(&self) -> Ast {
        self.model()
    }
}

} // verus!
