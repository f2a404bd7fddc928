//! The pattern compiler: a single left-to-right scan over the pattern text
//! that keeps, for each open group, the nodes parsed so far at its level.
use vstd::prelude::*;
use crate::pattern::{Ast, Pattern, views, lemma_anchor_model, well_formed};
use crate::text::{chars_of, is_digit};

verus! {

/// Why a pattern text does not compile.
#[derive(Clone, Copy, PartialEq, Eq, Structural, Debug)]
pub enum SyntaxError {
    /// The pattern ends right after a `\`.
    UnterminatedEscape,
    /// A `[` has no closing `]`.
    UnterminatedClass,
    /// A `(` has no matching `)`.
    UnterminatedGroup,
    /// A `)` has no `(` to close.
    UnbalancedParens,
    /// A `+`, `*` or `?` has no node before it to repeat.
    DanglingQuantifier,
    /// A `\N` names a group that has not been opened before it.
    InvalidBackreference,
}

/// The model of one nesting level during the scan: the capture index of the
/// group (0 at the top level), its finished alternatives, and the nodes of
/// the alternative being read.
pub ghost struct Level {
    pub index: nat,
    pub alts: Seq<Ast>,
    pub items: Seq<Ast>,
}

/// The node for a list of siblings: the only one when there is one, their
/// sequence otherwise.
pub open spec fn seq_node(items: Seq<Ast>) -> Ast {
    if items.len() == 1 {
        items[0]
    } else {
        Ast::Sequence(items)
    }
}

/// The capture group that a finished level stands for: its alternatives, as
/// an alternation when there are several.
pub open spec fn group_node(l: Level) -> Ast {
    let alts = l.alts.push(seq_node(l.items));
    Ast::CaptureGroup {
        index: l.index,
        inner: Box::new(
            if alts.len() == 1 {
                alts[0]
            } else {
                Ast::Alternation(alts)
            },
        ),
    }
}

/// The stack with `node` appended to the innermost level.
pub open spec fn with_item(st: Seq<Level>, node: Ast) -> Seq<Level> {
    let top = st.last();
    st.drop_last().push(Level { index: top.index, alts: top.alts, items: top.items.push(node) })
}

/// The stack after a quantifier: the innermost level's last node wrapped in a
/// repetition; an error when there is no node, or only an anchor, to wrap.
pub open spec fn quantified(st: Seq<Level>, min: nat, max: Option<nat>) -> Result<
    Seq<Level>,
    SyntaxError,
> {
    let top = st.last();
    if top.items.len() == 0 || top.items.last() is StartAnchor {
        Err(SyntaxError::DanglingQuantifier)
    } else {
        let node = Ast::Repeated { min, max, inner: Box::new(top.items.last()) };
        Ok(
            st.drop_last().push(
                Level { index: top.index, alts: top.alts, items: top.items.drop_last().push(node) },
            ),
        )
    }
}

/// The stack after a `|` inside a group: the alternative read so far is finished.
pub open spec fn barred(st: Seq<Level>) -> Seq<Level> {
    let top = st.last();
    st.drop_last().push(
        Level { index: top.index, alts: top.alts.push(seq_node(top.items)), items: seq![] },
    )
}

/// The stack after a `)`: the innermost group becomes a node of its parent.
pub open spec fn closed(st: Seq<Level>) -> Seq<Level> {
    with_item(st.drop_last(), group_node(st.last()))
}

/// The members of a character class read from position `j` on, after `acc`,
/// and the position just past its closing `]`. A `]` right after the opening
/// `[` or `[^` is a member; `\c` stands for the member `c`.
pub open spec fn class_scan(s: Seq<char>, j: int, first: bool, acc: Seq<char>) -> Result<
    (Seq<char>, int),
    SyntaxError,
>
    decreases s.len() - j,
{
    if j >= s.len() {
        Err(SyntaxError::UnterminatedClass)
    } else if s[j] == ']' && !first {
        Ok((acc, j + 1))
    } else if s[j] == '\\' {
        if j + 1 >= s.len() {
            Err(SyntaxError::UnterminatedEscape)
        } else {
            class_scan(s, j + 2, false, acc.push(s[j + 1]))
        }
    } else {
        class_scan(s, j + 1, false, acc.push(s[j]))
    }
}

/// The value of a decimal digit.
pub open spec fn digit_value(c: char) -> nat {
    (c as u32 - '0' as u32) as nat
}

/// The node for the escape `\e`, with `g` the next unused capture index.
pub open spec fn escape_node(e: char, g: nat) -> Result<Ast, SyntaxError> {
    if e == 'd' {
        Ok(Ast::Digit)
    } else if e == 'w' {
        Ok(Ast::Word)
    } else if is_digit(e) {
        if 1 <= digit_value(e) < g {
            Ok(Ast::Backreference(digit_value(e)))
        } else {
            Err(SyntaxError::InvalidBackreference)
        }
    } else {
        Ok(Ast::Literal(e))
    }
}

/// One step of the scan at position `i`, with `st` the open levels and `g`
/// the next unused capture index: the new levels, the position after the
/// construct read, and the new next index.
pub open spec fn parse_step(s: Seq<char>, i: int, st: Seq<Level>, g: nat) -> Result<
    (Seq<Level>, int, nat),
    SyntaxError,
> {
    let ch = s[i];
    if ch == '\\' {
        if i + 1 >= s.len() {
            Err(SyntaxError::UnterminatedEscape)
        } else {
            match escape_node(s[i + 1], g) {
                Ok(node) => Ok((with_item(st, node), i + 2, g)),
                Err(e) => Err(e),
            }
        }
    } else if ch == '[' {
        let negated = i + 1 < s.len() && s[i + 1] == '^';
        match class_scan(s, if negated { i + 2 } else { i + 1 }, true, seq![]) {
            Ok((members, end)) => Ok(
                (with_item(st, Ast::CharacterClass { members, negated }), end, g),
            ),
            Err(e) => Err(e),
        }
    } else if ch == '(' {
        Ok((st.push(Level { index: g, alts: seq![], items: seq![] }), i + 1, g + 1))
    } else if ch == ')' {
        if st.len() <= 1 {
            Err(SyntaxError::UnbalancedParens)
        } else {
            Ok((closed(st), i + 1, g))
        }
    } else if ch == '|' && st.len() > 1 {
        Ok((barred(st), i + 1, g))
    } else if ch == '+' || ch == '*' || ch == '?' {
        let q = if ch == '+' {
            quantified(st, 1, None)
        } else if ch == '*' {
            quantified(st, 0, None)
        } else {
            quantified(st, 0, Some(1))
        };
        match q {
            Ok(st2) => Ok((st2, i + 1, g)),
            Err(e) => Err(e),
        }
    } else {
        let node = if ch == '.' {
            Ast::AnyChar
        } else if ch == '^' && i == 0 {
            Ast::StartAnchor
        } else if ch == '$' && i == s.len() - 1 && st.len() == 1 {
            Ast::EndAnchor
        } else {
            Ast::Literal(ch)
        };
        Ok((with_item(st, node), i + 1, g))
    }
}

/// The end of the scan: the top level's siblings, unless a group is still open.
pub open spec fn finish(st: Seq<Level>) -> Result<Ast, SyntaxError> {
    if st.len() != 1 {
        Err(SyntaxError::UnterminatedGroup)
    } else {
        Ok(seq_node(st[0].items))
    }
}

/// The scan from position `i` on.
pub open spec fn scan(s: Seq<char>, i: int, st: Seq<Level>, g: nat) -> Result<Ast, SyntaxError>
    decreases s.len() - i,
    via scan_decreases
{
    if i >= s.len() {
        finish(st)
    } else {
        match parse_step(s, i, st, g) {
            Ok((st2, j, g2)) => scan(s, j, st2, g2),
            Err(e) => Err(e),
        }
    }
}

proof fn lemma_class_scan_advances(s: Seq<char>, j: int, first: bool, acc: Seq<char>)
    ensures
        class_scan(s, j, first, acc) is Ok ==> j < class_scan(s, j, first, acc)->Ok_0.1 <= s.len(),
    decreases s.len() - j,
{
    if j < s.len() && !(s[j] == ']' && !first) {
        if s[j] == '\\' {
            if j + 1 < s.len() {
                lemma_class_scan_advances(s, j + 2, false, acc.push(s[j + 1]));
            }
        } else {
            lemma_class_scan_advances(s, j + 1, false, acc.push(s[j]));
        }
    }
}

#[via_fn]
proof fn scan_decreases(s: Seq<char>, i: int, st: Seq<Level>, g: nat) {
    if i < s.len() {
        let negated = i + 1 < s.len() && s[i + 1] == '^';
        lemma_class_scan_advances(s, if negated { i + 2 } else { i + 1 }, true, seq![]);
    }
}

/// Every node held by the open levels is well formed, and every level but the
/// top one belongs to a group with a 1-based index.
pub open spec fn levels_well_formed(st: Seq<Level>) -> bool {
    &&& forall|k: int, i: int|
        0 <= k < st.len() && 0 <= i < st[k].items.len() ==> well_formed(#[trigger] st[k].items[i])
    &&& forall|k: int, i: int|
        0 <= k < st.len() && 0 <= i < st[k].alts.len() ==> well_formed(#[trigger] st[k].alts[i])
    &&& forall|k: int| 1 <= k < st.len() ==> #[trigger] st[k].index >= 1
}

proof fn lemma_class_nonempty(s: Seq<char>, j: int, first: bool, acc: Seq<char>)
    requires
        first || acc.len() > 0,
    ensures
        class_scan(s, j, first, acc) is Ok ==> class_scan(s, j, first, acc)->Ok_0.0.len() > 0,
    decreases s.len() - j,
{
    if j < s.len() && !(s[j] == ']' && !first) {
        if s[j] == '\\' {
            if j + 1 < s.len() {
                lemma_class_nonempty(s, j + 2, false, acc.push(s[j + 1]));
            }
        } else {
            lemma_class_nonempty(s, j + 1, false, acc.push(s[j]));
        }
    }
}

proof fn lemma_seq_node_well_formed(items: Seq<Ast>)
    requires
        forall|i: int| 0 <= i < items.len() ==> well_formed(#[trigger] items[i]),
    ensures
        well_formed(seq_node(items)),
{
}

proof fn lemma_with_item_well_formed(st: Seq<Level>, node: Ast)
    requires
        st.len() >= 1,
        levels_well_formed(st),
        well_formed(node),
    ensures
        levels_well_formed(with_item(st, node)),
{
    let st2 = with_item(st, node);
    assert forall|k: int, i: int| 0 <= k < st2.len() && 0 <= i < st2[k].items.len() implies well_formed(
        #[trigger] st2[k].items[i],
    ) by {
        if k < st.len() - 1 {
            assert(st2[k] == st[k]);
        } else if i < st.last().items.len() {
            assert(st2[k].items[i] == st[k].items[i]);
        }
    }
    assert forall|k: int, i: int| 0 <= k < st2.len() && 0 <= i < st2[k].alts.len() implies well_formed(
        #[trigger] st2[k].alts[i],
    ) by {
        if k < st.len() - 1 {
            assert(st2[k] == st[k]);
        }
    }
    assert forall|k: int| 1 <= k < st2.len() implies #[trigger] st2[k].index >= 1 by {
        if k < st.len() - 1 {
            assert(st2[k] == st[k]);
        }
    }
}

proof fn lemma_literal_well_formed(c: char)
    ensures
        well_formed(Ast::Literal(c)),
{
}

proof fn lemma_parse_step_well_formed(s: Seq<char>, i: int, st: Seq<Level>, g: nat)
    requires
        0 <= i < s.len(),
        st.len() >= 1,
        g >= 1,
        levels_well_formed(st),
    ensures
        parse_step(s, i, st, g) is Ok ==> ({
            let (st2, j, g2) = parse_step(s, i, st, g)->Ok_0;
            st2.len() >= 1 && g2 >= 1 && levels_well_formed(st2)
        }),
{
    let ch = s[i];
    let top = st.last();
    if ch == '\\' {
        if i + 1 < s.len() {
            if let Ok(node) = escape_node(s[i + 1], g) {
                lemma_with_item_well_formed(st, node);
            }
        }
    } else if ch == '[' {
        let negated = i + 1 < s.len() && s[i + 1] == '^';
        lemma_class_nonempty(s, if negated { i + 2 } else { i + 1 }, true, seq![]);
        if let Ok((members, end)) = class_scan(s, if negated { i + 2 } else { i + 1 }, true, seq![]) {
            lemma_with_item_well_formed(st, Ast::CharacterClass { members, negated });
        }
    } else if ch == '(' {
        let st2 = st.push(Level { index: g, alts: seq![], items: seq![] });
        assert forall|k: int, j: int| 0 <= k < st2.len() && 0 <= j < st2[k].items.len() implies well_formed(
            #[trigger] st2[k].items[j],
        ) by {
            assert(st2[k] == st[k]);
        }
        assert forall|k: int, j: int| 0 <= k < st2.len() && 0 <= j < st2[k].alts.len() implies well_formed(
            #[trigger] st2[k].alts[j],
        ) by {
            assert(st2[k] == st[k]);
        }
        assert forall|k: int| 1 <= k < st2.len() implies #[trigger] st2[k].index >= 1 by {
            if k < st.len() {
                assert(st2[k] == st[k]);
            }
        }
    } else if ch == ')' {
        if st.len() > 1 {
            let rest = st.drop_last();
            assert(levels_well_formed(rest)) by {
                assert forall|k: int, j: int| 0 <= k < rest.len() && 0 <= j < rest[k].items.len() implies well_formed(
                    #[trigger] rest[k].items[j],
                ) by {
                    assert(rest[k] == st[k]);
                }
                assert forall|k: int, j: int| 0 <= k < rest.len() && 0 <= j < rest[k].alts.len() implies well_formed(
                    #[trigger] rest[k].alts[j],
                ) by {
                    assert(rest[k] == st[k]);
                }
                assert forall|k: int| 1 <= k < rest.len() implies #[trigger] rest[k].index >= 1 by {
                    assert(rest[k] == st[k]);
                }
            }
            let last = st.len() - 1;
            assert(top.index >= 1) by {
                assert(st[last].index >= 1);
            }
            assert forall|j: int| 0 <= j < top.items.len() implies well_formed(#[trigger] top.items[j]) by {
                assert(well_formed(st[last].items[j]));
            }
            lemma_seq_node_well_formed(top.items);
            let alts = top.alts.push(seq_node(top.items));
            assert forall|j: int| 0 <= j < alts.len() implies well_formed(#[trigger] alts[j]) by {
                if j < top.alts.len() {
                    assert(well_formed(st[last].alts[j]));
                }
            }
            let inner = if alts.len() == 1 {
                alts[0]
            } else {
                Ast::Alternation(alts)
            };
            assert(well_formed(inner));
            assert(group_node(top) == Ast::CaptureGroup { index: top.index, inner: Box::new(inner) });
            lemma_with_item_well_formed(rest, group_node(top));
        }
    } else if ch == '|' && st.len() > 1 {
        let st2 = barred(st);
        let last = st.len() - 1;
        assert forall|j: int| 0 <= j < top.items.len() implies well_formed(#[trigger] top.items[j]) by {
            assert(well_formed(st[last].items[j]));
        }
        lemma_seq_node_well_formed(top.items);
        assert forall|k: int, j: int| 0 <= k < st2.len() && 0 <= j < st2[k].alts.len() implies well_formed(
            #[trigger] st2[k].alts[j],
        ) by {
            if k < last {
                assert(st2[k] == st[k]);
            } else if j < top.alts.len() {
                assert(well_formed(st[last].alts[j]));
            }
        }
        assert forall|k: int, j: int| 0 <= k < st2.len() && 0 <= j < st2[k].items.len() implies well_formed(
            #[trigger] st2[k].items[j],
        ) by {
            assert(st2[k] == st[k]);
        }
        assert forall|k: int| 1 <= k < st2.len() implies #[trigger] st2[k].index >= 1 by {
            if k < last {
                assert(st2[k] == st[k]);
            } else {
                assert(st[last].index >= 1);
            }
        }
    } else if ch == '+' || ch == '*' || ch == '?' {
        if top.items.len() > 0 {
            let last = st.len() - 1;
            let n = top.items.len() - 1;
            assert(well_formed(st[last].items[n]));
            let items2 = top.items.drop_last();
            let rest = st.drop_last().push(
                Level { index: top.index, alts: top.alts, items: items2 },
            );
            assert(levels_well_formed(rest)) by {
                assert forall|k: int, j: int| 0 <= k < rest.len() && 0 <= j < rest[k].items.len() implies well_formed(
                    #[trigger] rest[k].items[j],
                ) by {
                    if k < last {
                        assert(rest[k] == st[k]);
                    } else {
                        assert(rest[k].items[j] == st[last].items[j]);
                    }
                }
                assert forall|k: int, j: int| 0 <= k < rest.len() && 0 <= j < rest[k].alts.len() implies well_formed(
                    #[trigger] rest[k].alts[j],
                ) by {
                    if k < last {
                        assert(rest[k] == st[k]);
                    } else {
                        assert(rest[k].alts[j] == st[last].alts[j]);
                    }
                }
                assert forall|k: int| 1 <= k < rest.len() implies #[trigger] rest[k].index >= 1 by {
                    if k < last {
                        assert(rest[k] == st[k]);
                    } else {
                        assert(st[last].index >= 1);
                    }
                }
            }
            let inner = top.items.last();
            lemma_with_item_well_formed(rest, Ast::Repeated { min: 1, max: None, inner: Box::new(inner) });
            lemma_with_item_well_formed(rest, Ast::Repeated { min: 0, max: None, inner: Box::new(inner) });
            lemma_with_item_well_formed(rest, Ast::Repeated { min: 0, max: Some(1), inner: Box::new(inner) });
            assert(rest.drop_last() =~= st.drop_last());
        }
    } else {
        if ch == '.' {
            lemma_with_item_well_formed(st, Ast::AnyChar);
        } else if ch == '^' && i == 0 {
            lemma_with_item_well_formed(st, Ast::StartAnchor);
        } else if ch == '$' && i == s.len() - 1 && st.len() == 1 {
            lemma_with_item_well_formed(st, Ast::EndAnchor);
        } else {
            lemma_literal_well_formed(ch);
            lemma_with_item_well_formed(st, Ast::Literal(ch));
        }
    }
}

proof fn lemma_scan_well_formed(s: Seq<char>, i: int, st: Seq<Level>, g: nat)
    requires
        0 <= i,
        st.len() >= 1,
        g >= 1,
        levels_well_formed(st),
    ensures
        scan(s, i, st, g) is Ok ==> well_formed(scan(s, i, st, g)->Ok_0),
    decreases s.len() - i,
{
    if i >= s.len() {
        if st.len() == 1 {
            assert forall|j: int| 0 <= j < st[0].items.len() implies well_formed(#[trigger] st[0].items[j]) by {
            }
            lemma_seq_node_well_formed(st[0].items);
        }
    } else {
        lemma_parse_step_well_formed(s, i, st, g);
        let negated = i + 1 < s.len() && s[i + 1] == '^';
        lemma_class_scan_advances(s, if negated { i + 2 } else { i + 1 }, true, seq![]);
        if let Ok((st2, j, g2)) = parse_step(s, i, st, g) {
            lemma_scan_well_formed(s, j, st2, g2);
        }
    }
}

/// Every tree that a pattern text compiles to is well formed.
pub proof fn lemma_compiled_well_formed(s: Seq<char>)
    ensures
        parse(s) is Ok ==> well_formed(parse(s)->Ok_0),
{
    let root = Level { index: 0, alts: seq![], items: seq![] };
    lemma_scan_well_formed(s, 0, seq![root], 1);
}

/// The tree that a pattern text compiles to, or the error it fails with.
pub open spec fn parse(s: Seq<char>) -> Result<Ast, SyntaxError> {
    scan(s, 0, seq![Level { index: 0, alts: seq![], items: seq![] }], 1)
}

/// One open nesting level during compilation.
struct Frame {
    index: usize,
    alts: Vec<Pattern>,
    items: Vec<Pattern>,
}

impl View for Frame {
    type V = Level;

    closed spec fn view(&self) -> Level {
        Level { index: self.index as nat, alts: views(self.alts@), items: views(self.items@) }
    }
}

/// The models of a stack of frames.
spec fn levels(v: Seq<Frame>) -> Seq<Level> {
    v.map_values(|f: Frame| f@)
}

proof fn lemma_views_push(v: Seq<Pattern>, p: Pattern)
    ensures
        views(v.push(p)) == views(v).push(p@),
{
    assert(views(v.push(p)) =~= views(v).push(p@));
}

proof fn lemma_views_drop_last(v: Seq<Pattern>)
    requires
        v.len() > 0,
    ensures
        views(v.drop_last()) == views(v).drop_last(),
        views(v).last() == v.last()@,
{
    assert(views(v.drop_last()) =~= views(v).drop_last());
}

proof fn lemma_levels_push(v: Seq<Frame>, f: Frame)
    ensures
        levels(v.push(f)) == levels(v).push(f@),
{
    assert(levels(v.push(f)) =~= levels(v).push(f@));
}

proof fn lemma_levels_drop_last(v: Seq<Frame>)
    requires
        v.len() > 0,
    ensures
        levels(v.drop_last()) == levels(v).drop_last(),
        levels(v).last() == v.last()@,
{
    assert(levels(v.drop_last()) =~= levels(v).drop_last());
}

/// The node for a list of siblings.
fn seq_pattern(items: Vec<Pattern>) -> (r: Pattern)
    ensures
        r@ == seq_node(views(items@)),
{
    let mut items = items;
    if items.len() == 1 {
        let r = items.pop().unwrap();
        proof {
            assert(views(items@.push(r))[0] == r@);
        }
        r
    } else {
        Pattern::Sequence(items)
    }
}

/// Appends `node` to the innermost level.
fn add_item(stack: &mut Vec<Frame>, node: Pattern)
    requires
        old(stack)@.len() >= 1,
    ensures
        levels(final(stack)@) == with_item(levels(old(stack)@), node@),
        final(stack)@.len() == old(stack)@.len(),
{
    let ghost before = stack@;
    let mut top = stack.pop().unwrap();
    proof {
        lemma_levels_drop_last(before);
        lemma_views_push(top.items@, node);
    }
    top.items.push(node);
    proof {
        lemma_levels_push(stack@, top);
    }
    stack.push(top);
}

/// Wraps the innermost level's last node in a repetition.
fn quantify(stack: &mut Vec<Frame>, min: usize, max: Option<usize>) -> (r: Result<(), SyntaxError>)
    requires
        old(stack)@.len() >= 1,
    ensures
        match r {
            Ok(()) => quantified(
                levels(old(stack)@),
                min as nat,
                match max {
                    Some(m) => Some(m as nat),
                    None => None,
                },
            ) == Ok::<Seq<Level>, SyntaxError>(levels(final(stack)@)),
            Err(e) => quantified(
                levels(old(stack)@),
                min as nat,
                match max {
                    Some(m) => Some(m as nat),
                    None => None,
                },
            ) == Err::<Seq<Level>, SyntaxError>(e),
        },
        final(stack)@.len() == old(stack)@.len(),
{
    let ghost before = stack@;
    let mut top = stack.pop().unwrap();
    proof {
        lemma_levels_drop_last(before);
    }
    let n = top.items.len();
    if n == 0 {
        stack.push(top);
        return Err(SyntaxError::DanglingQuantifier);
    }
    let ghost orig = top.items@;
    let last = top.items.pop().unwrap();
    proof {
        lemma_views_drop_last(orig);
        lemma_anchor_model(last);
    }
    if matches!(last, Pattern::StartAnchor) {
        top.items.push(last);
        stack.push(top);
        return Err(SyntaxError::DanglingQuantifier);
    }
    let node = Pattern::Repeated { min, max, inner: Box::new(last) };
    assert(node@ == Ast::Repeated {
        min: min as nat,
        max: match max {
            Some(m) => Some(m as nat),
            None => None,
        },
        inner: Box::new(last@),
    });
    proof {
        lemma_views_push(top.items@, node);
    }
    top.items.push(node);
    proof {
        lemma_levels_push(stack@, top);
    }
    stack.push(top);
    Ok(())
}

/// Finishes the alternative being read at the innermost level.
fn next_alternative(stack: &mut Vec<Frame>)
    requires
        old(stack)@.len() >= 1,
    ensures
        levels(final(stack)@) == barred(levels(old(stack)@)),
        final(stack)@.len() == old(stack)@.len(),
{
    let ghost before = stack@;
    let top = stack.pop().unwrap();
    proof {
        lemma_levels_drop_last(before);
    }
    let Frame { index, alts, items } = top;
    let node = seq_pattern(items);
    let mut alts = alts;
    proof {
        lemma_views_push(alts@, node);
    }
    alts.push(node);
    let f = Frame { index, alts, items: Vec::new() };
    proof {
        assert(views(f.items@) =~= seq![]);
        lemma_levels_push(stack@, f);
    }
    stack.push(f);
}

/// Closes the innermost group, which becomes a node of its parent level.
fn close_group(stack: &mut Vec<Frame>)
    requires
        old(stack)@.len() >= 2,
    ensures
        levels(final(stack)@) == closed(levels(old(stack)@)),
        final(stack)@.len() == old(stack)@.len() - 1,
{
    let ghost before = stack@;
    let top = stack.pop().unwrap();
    proof {
        lemma_levels_drop_last(before);
    }
    let Frame { index, alts, items } = top;
    let node = seq_pattern(items);
    let mut alts = alts;
    proof {
        lemma_views_push(alts@, node);
    }
    alts.push(node);
    let ghost all = views(alts@);
    let inner = if alts.len() == 1 {
        let a = alts.pop().unwrap();
        proof {
            assert(views(alts@.push(a))[0] == a@);
        }
        a
    } else {
        Pattern::Alternation(alts)
    };
    assert(inner@ == (if all.len() == 1 {
        all[0]
    } else {
        Ast::Alternation(all)
    }));
    add_item(stack, Pattern::CaptureGroup { index, inner: Box::new(inner) });
}

/// Reads the members of a character class from `start` on, up to and past
/// its closing `]`.
fn scan_class(s: &Vec<char>, start: usize) -> (r: Result<(Vec<char>, usize), SyntaxError>)
    requires
        start <= s@.len(),
    ensures
        match r {
            Ok((members, end)) => class_scan(s@, start as int, true, seq![]) == Ok::<
                (Seq<char>, int),
                SyntaxError,
            >((members@, end as int)),
            Err(e) => class_scan(s@, start as int, true, seq![]) == Err::<
                (Seq<char>, int),
                SyntaxError,
            >(e),
        },
{
    let mut members: Vec<char> = Vec::new();
    let mut j: usize = start;
    let mut first = true;
    while j < s.len()
        invariant
            j <= s@.len(),
            class_scan(s@, j as int, first, members@) == class_scan(
                s@,
                start as int,
                true,
                seq![],
            ),
        decreases s@.len() - j,
    {
        let c = s[j];
        if c == ']' && !first {
            return Ok((members, j + 1));
        }
        if c == '\\' {
            if j + 1 >= s.len() {
                return Err(SyntaxError::UnterminatedEscape);
            }
            members.push(s[j + 1]);
            j += 2;
        } else {
            members.push(c);
            j += 1;
        }
        first = false;
    }
    Err(SyntaxError::UnterminatedClass)
}

/// The node for the escape `\e`, with `g` the next unused capture index.
fn escape_pattern(e: char, g: usize) -> (r: Result<Pattern, SyntaxError>)
    ensures
        match r {
            Ok(p) => escape_node(e, g as nat) == Ok::<Ast, SyntaxError>(p@),
            Err(err) => escape_node(e, g as nat) == Err::<Ast, SyntaxError>(err),
        },
{
    if e == 'd' {
        Ok(Pattern::Digit)
    } else if e == 'w' {
        Ok(Pattern::Word)
    } else if '0' <= e && e <= '9' {
        let v = (e as u32 - '0' as u32) as usize;
        if 1 <= v && v < g {
            Ok(Pattern::Backreference(v))
        } else {
            Err(SyntaxError::InvalidBackreference)
        }
    } else {
        Ok(Pattern::Literal(e))
    }
}

/// The node for a character with no special meaning at its place, but for
/// `.`, and for `^` at the very start and `$` at the very end of the pattern.
fn plain_pattern(ch: char, first: bool, last: bool) -> (r: Pattern)
    ensures
        r@ == (if ch == '.' {
            Ast::AnyChar
        } else if ch == '^' && first {
            Ast::StartAnchor
        } else if ch == '$' && last {
            Ast::EndAnchor
        } else {
            Ast::Literal(ch)
        }),
{
    if ch == '.' {
        Pattern::AnyChar
    } else if ch == '^' && first {
        Pattern::StartAnchor
    } else if ch == '$' && last {
        Pattern::EndAnchor
    } else {
        Pattern::Literal(ch)
    }
}

/// Compiles a pattern text into its tree, or reports the first syntax error.
pub fn compile(pattern: &str) -> (r: Result<Pattern, SyntaxError>)
    ensures
        match r {
            Ok(p) => parse(pattern@) == Ok::<Ast, SyntaxError>(p@) && well_formed(p@),
            Err(e) => parse(pattern@) == Err::<Ast, SyntaxError>(e),
        },
{
    proof {
        lemma_compiled_well_formed(pattern@);
    }
    let s = chars_of(pattern);
    let n = s.len();
    let mut stack: Vec<Frame> = Vec::new();
    let root = Frame { index: 0, alts: Vec::new(), items: Vec::new() };
    proof {
        assert(views(root.alts@) =~= seq![]);
        assert(views(root.items@) =~= seq![]);
        lemma_levels_push(stack@, root);
        assert(stack@.push(root) =~= seq![root]);
        assert(levels(seq![]) =~= seq![]);
    }
    stack.push(root);
    let mut i: usize = 0;
    let mut g: usize = 1;
    while i < n
        invariant
            s@ == pattern@,
            n == s@.len(),
            i <= n,
            stack@.len() >= 1,
            1 <= g <= i + 1,
            scan(s@, i as int, levels(stack@), g as nat) == parse(pattern@),
        decreases n - i,
    {
        let ghost st0 = levels(stack@);
        let ghost i0 = i as int;
        let ghost g0 = g as nat;
        let ch = s[i];
        if ch == '\\' {
            if i + 1 >= n {
                return Err(SyntaxError::UnterminatedEscape);
            }
            let node = match escape_pattern(s[i + 1], g) {
                Ok(node) => node,
                Err(e) => {
                    return Err(e);
                },
            };
            add_item(&mut stack, node);
            i += 2;
        } else if ch == '[' {
            let negated = i + 1 < n && s[i + 1] == '^';
            let start = if negated {
                i + 2
            } else {
                i + 1
            };
            proof {
                lemma_class_scan_advances(s@, start as int, true, seq![]);
            }
            match scan_class(&s, start) {
                Ok((members, end)) => {
                    add_item(&mut stack, Pattern::CharacterClass { members, negated });
                    i = end;
                },
                Err(e) => {
                    return Err(e);
                },
            }
        } else if ch == '(' {
            if i + 1 >= n {
                assert(scan(
                    s@,
                    i0 + 1,
                    st0.push(Level { index: g0, alts: seq![], items: seq![] }),
                    g0 + 1,
                ) == Err::<Ast, SyntaxError>(SyntaxError::UnterminatedGroup));
                return Err(SyntaxError::UnterminatedGroup);
            }
            let f = Frame { index: g, alts: Vec::new(), items: Vec::new() };
            proof {
                assert(views(f.alts@) =~= seq![]);
                assert(views(f.items@) =~= seq![]);
                lemma_levels_push(stack@, f);
            }
            stack.push(f);
            g += 1;
            i += 1;
        } else if ch == ')' {
            if stack.len() <= 1 {
                return Err(SyntaxError::UnbalancedParens);
            }
            close_group(&mut stack);
            i += 1;
        } else if ch == '|' && stack.len() > 1 {
            next_alternative(&mut stack);
            i += 1;
        } else if ch == '+' || ch == '*' || ch == '?' {
            let q = if ch == '+' {
                quantify(&mut stack, 1, None)
            } else if ch == '*' {
                quantify(&mut stack, 0, None)
            } else {
                quantify(&mut stack, 0, Some(1))
            };
            if let Err(e) = q {
                return Err(e);
            }
            i += 1;
        } else {
            let node = plain_pattern(ch, i == 0, i == n - 1 && stack.len() == 1);
            add_item(&mut stack, node);
            i += 1;
        }
    }
    if stack.len() != 1 {
        return Err(SyntaxError::UnterminatedGroup);
    }
    let ghost st = stack@;
    let top = stack.pop().unwrap();
    proof {
        lemma_levels_drop_last(st);
    }
    Ok(seq_pattern(top.items))
}

} // verus!
