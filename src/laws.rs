//! Properties of compiling and matching that hold for all inputs.
use vstd::prelude::*;
use crate::pattern::Ast;
use crate::compiler::parse;
use crate::matcher::{
    Cand, advance, backref_step, is_single, lookup, matches_text, matches_at, progressed, record,
    repeat, repeat_fuel, starts_anchored, step, step_all, thread, union,
};

verus! {

/// Matching is a function of the pattern's model and the input alone: equal
/// trees on equal inputs give equal answers.
pub proof fn lemma_match_deterministic(p1: Ast, p2: Ast, s1: Seq<char>, s2: Seq<char>)
    requires
        p1 == p2,
        s1 == s2,
    ensures
        matches_text(p1, s1) == matches_text(p2, s2),
{
}

/// Compiling is a function of the pattern text alone: the same text always
/// gives structurally equal trees, or the same error.
pub proof fn lemma_compile_deterministic(s1: Seq<char>, s2: Seq<char>)
    requires
        s1 == s2,
    ensures
        parse(s1) == parse(s2),
{
}

/// The empty pattern compiles to the empty sequence, which matches every
/// input at offset 0.
pub proof fn lemma_empty_pattern_matches(t: Seq<char>)
    ensures
        parse(seq![]) == Ok::<Ast, crate::compiler::SyntaxError>(Ast::Sequence(seq![])),
        matches_at(Ast::Sequence(seq![]), t, 0),
        matches_text(Ast::Sequence(seq![]), t),
{
    let p = Ast::Sequence(seq![]);
    let c: Cand = (0, seq![]);
    assert(thread(p, 0, t, seq![c]) == seq![c]);
    assert(step(p, t, c) == seq![c]);
    assert(matches_at(p, t, 0));
}

proof fn lemma_repeat_keeps_earlier(
    p: Ast,
    t: Seq<char>,
    frontier: Seq<Cand>,
    count: nat,
    acc: Seq<Cand>,
    fuel: nat,
)
    ensures
        repeat(p, t, frontier, count, acc, fuel).len() >= acc.len(),
    decreases fuel,
{
    if let Ast::Repeated { min, max, inner } = p {
        let acc2 = if count >= min {
            acc + frontier
        } else {
            acc
        };
        if !(frontier.len() == 0 || fuel == 0 || (max is Some && count >= max->0)) {
            lemma_repeat_keeps_earlier(
                p,
                t,
                advance(*inner, t, frontier, count >= min),
                count + 1,
                acc2,
                (fuel - 1) as nat,
            );
        }
    }
}

/// A repetition that may repeat zero times matches every input, the empty
/// one included.
pub proof fn lemma_optional_repetition_matches(max: Option<nat>, inner: Ast, t: Seq<char>)
    ensures
        matches_text(Ast::Repeated { min: 0, max, inner: Box::new(inner) }, t),
{
    let p = Ast::Repeated { min: 0, max, inner: Box::new(inner) };
    let c: Cand = (0, seq![]);
    let fuel = repeat_fuel(t, c, 0);
    let acc2 = seq![] + seq![c];
    assert(step(p, t, c) == repeat(p, t, seq![c], 0, seq![], fuel));
    assert(acc2.len() == 1);
    if !(max is Some && 0 >= max->0) {
        lemma_repeat_keeps_earlier(
            p,
            t,
            advance(inner, t, seq![c], true),
            1,
            acc2,
            (fuel - 1) as nat,
        );
    }
    assert(repeat(p, t, seq![c], 0, seq![], fuel).len() >= 1);
    assert(step(p, t, c).len() > 0);
    assert(matches_at(p, t, 0));
}

proof fn lemma_step_all_source(p: Ast, t: Seq<char>, cs: Seq<Cand>)
    requires
        step_all(p, t, cs).len() > 0,
    ensures
        exists|k: int| 0 <= k < cs.len() && #[trigger] step(p, t, cs[k]).len() > 0,
    decreases cs.len(),
{
    if step(p, t, cs.last()).len() > 0 {
        assert(step(p, t, cs[cs.len() - 1]).len() > 0);
    } else {
        lemma_step_all_source(p, t, cs.drop_last());
        let k = choose|k: int| 0 <= k < cs.drop_last().len() && #[trigger] step(
            p,
            t,
            cs.drop_last()[k],
        ).len() > 0;
        assert(step(p, t, cs[k]).len() > 0);
    }
}

proof fn lemma_single_needs_input(p: Ast, c: Cand)
    requires
        is_single(p),
    ensures
        step(p, seq![], c).len() == 0,
{
}

proof fn lemma_thread_blocked(p: Ast, m: int, k: int, cs: Seq<Cand>)
    requires
        p is Sequence,
        0 <= m < k <= p->Sequence_0.len(),
        is_single(p->Sequence_0[m]),
    ensures
        thread(p, k, seq![], cs).len() == 0,
    decreases k,
{
    let children = p->Sequence_0;
    let prev = thread(p, k - 1, seq![], cs);
    if k - 1 > m {
        lemma_thread_blocked(p, m, k - 1, cs);
    }
    if step_all(children[k - 1], seq![], prev).len() > 0 {
        lemma_step_all_source(children[k - 1], seq![], prev);
        if k - 1 == m {
            let j = choose|j: int| 0 <= j < prev.len() && #[trigger] step(
                children[k - 1],
                seq![],
                prev[j],
            ).len() > 0;
            lemma_single_needs_input(children[m], prev[j]);
        }
    }
}

/// The empty input is matched by no pattern that must consume a character:
/// neither by a single-character node, nor by a sequence with one among its
/// elements.
pub proof fn lemma_empty_input_needs_zero_width(p: Ast)
    requires
        is_single(p) || (p is Sequence && exists|m: int|
            0 <= m < p->Sequence_0.len() && is_single(#[trigger] p->Sequence_0[m])),
    ensures
        !matches_text(p, seq![]),
{
    let t: Seq<char> = seq![];
    let c: Cand = (0, seq![]);
    if is_single(p) {
        lemma_single_needs_input(p, c);
    } else {
        let m = choose|m: int| 0 <= m < p->Sequence_0.len() && is_single(#[trigger] p->Sequence_0[m]);
        lemma_thread_blocked(p, m, p->Sequence_0.len() as int, seq![c]);
    }
    assert(step(p, t, c).len() == 0);
    assert(!matches_at(p, t, 0));
    assert forall|i: usize| i <= t.len() implies !#[trigger] matches_at(p, t, i) by {
        assert(i == 0);
    }
}

/// Every candidate of `cs` is at a position from `lo` to `hi`.
pub open spec fn within(cs: Seq<Cand>, lo: int, hi: int) -> bool {
    forall|k: int| 0 <= k < cs.len() ==> lo <= #[trigger] cs[k].0 <= hi
}

proof fn lemma_within_concat(a: Seq<Cand>, b: Seq<Cand>, lo: int, hi: int)
    requires
        within(a, lo, hi),
        within(b, lo, hi),
    ensures
        within(a + b, lo, hi),
{
    assert forall|k: int| 0 <= k < (a + b).len() implies lo <= #[trigger] (a + b)[k].0 <= hi by {
        if k >= a.len() {
            assert((a + b)[k] == b[k - a.len()]);
        }
    }
}

proof fn lemma_progressed_within(os: Seq<Cand>, from: usize, lo: int, hi: int)
    requires
        within(os, lo, hi),
    ensures
        within(progressed(os, from), from + 1, hi),
        within(progressed(os, from), lo, hi),
    decreases os.len(),
{
    if os.len() > 0 {
        lemma_progressed_within(os.drop_last(), from, lo, hi);
        assert(within(os.drop_last(), lo, hi));
    }
}

/// From a candidate inside the text, a node reaches only positions from that
/// candidate's position to the end of the text: matching never moves
/// backwards, nor past the end of the input.
pub proof fn lemma_step_within(p: Ast, t: Seq<char>, c: Cand)
    requires
        t.len() <= usize::MAX,
        c.0 <= t.len(),
    ensures
        within(step(p, t, c), c.0 as int, t.len() as int),
    decreases p, 3int, 0int,
{
    match p {
        Ast::Sequence(children) => {
            assert(within(seq![c], c.0 as int, t.len() as int));
            lemma_thread_within(p, children.len() as int, t, seq![c], c.0 as int);
        },
        Ast::Repeated { min, max, inner } => {
            lemma_repeat_within(p, t, seq![c], 0, seq![], repeat_fuel(t, c, min), c.0 as int);
        },
        Ast::Alternation(branches) => {
            lemma_union_within(p, branches.len() as int, t, c);
        },
        Ast::CaptureGroup { index, inner } => {
            lemma_step_within(*inner, t, c);
            let os = step(*inner, t, c);
            assert forall|k: int| 0 <= k < record(os, index, c.0).len() implies c.0 <= #[trigger] record(
                os,
                index,
                c.0,
            )[k].0 <= t.len() by {
                assert(record(os, index, c.0)[k].0 == os[k].0);
            }
        },
        Ast::Backreference(index) => {
            if let Some(cap) = lookup(c.1, index) {
                let os = backref_step(t, c, cap);
                if os.len() > 0 {
                    assert(os[0].0 == c.0 + (cap.end - cap.start));
                }
            }
        },
        _ => {
        },
    }
}

proof fn lemma_step_all_within(p: Ast, t: Seq<char>, cs: Seq<Cand>, lo: int)
    requires
        t.len() <= usize::MAX,
        0 <= lo,
        within(cs, lo, t.len() as int),
    ensures
        within(step_all(p, t, cs), lo, t.len() as int),
    decreases p, 4int, cs.len(),
{
    if cs.len() > 0 {
        lemma_step_all_within(p, t, cs.drop_last(), lo);
        lemma_step_within(p, t, cs.last());
        lemma_within_concat(step_all(p, t, cs.drop_last()), step(p, t, cs.last()), lo, t.len() as int);
    }
}

proof fn lemma_thread_within(p: Ast, k: int, t: Seq<char>, cs: Seq<Cand>, lo: int)
    requires
        t.len() <= usize::MAX,
        0 <= lo,
        within(cs, lo, t.len() as int),
    ensures
        within(thread(p, k, t, cs), lo, t.len() as int),
    decreases p, 2int, k,
{
    if k > 0 {
        if let Ast::Sequence(children) = p {
            if k <= children.len() {
                lemma_thread_within(p, k - 1, t, cs, lo);
                lemma_step_all_within(children[k - 1], t, thread(p, k - 1, t, cs), lo);
            }
        }
    }
}

proof fn lemma_union_within(p: Ast, k: int, t: Seq<char>, c: Cand)
    requires
        t.len() <= usize::MAX,
        c.0 <= t.len(),
    ensures
        within(union(p, k, t, c), c.0 as int, t.len() as int),
    decreases p, 2int, k,
{
    if k > 0 {
        if let Ast::Alternation(branches) = p {
            if k <= branches.len() {
                lemma_union_within(p, k - 1, t, c);
                lemma_step_within(branches[k - 1], t, c);
                lemma_within_concat(
                    union(p, k - 1, t, c),
                    step(branches[k - 1], t, c),
                    c.0 as int,
                    t.len() as int,
                );
            }
        }
    }
}

proof fn lemma_advance_within(p: Ast, t: Seq<char>, cs: Seq<Cand>, strict: bool, lo: int)
    requires
        t.len() <= usize::MAX,
        0 <= lo,
        within(cs, lo, t.len() as int),
    ensures
        within(advance(p, t, cs, strict), lo, t.len() as int),
        strict ==> within(advance(p, t, cs, strict), lo + 1, t.len() as int),
    decreases p, 4int, cs.len(),
{
    if cs.len() > 0 {
        let last = cs.last();
        let os = step(p, t, last);
        lemma_advance_within(p, t, cs.drop_last(), strict, lo);
        lemma_step_within(p, t, last);
        lemma_progressed_within(os, last.0, last.0 as int, t.len() as int);
        let tail = if strict {
            progressed(os, last.0)
        } else {
            os
        };
        assert(within(tail, lo, t.len() as int));
        lemma_within_concat(advance(p, t, cs.drop_last(), strict), tail, lo, t.len() as int);
        if strict {
            lemma_within_concat(advance(p, t, cs.drop_last(), strict), tail, lo + 1, t.len() as int);
        }
    }
}

proof fn lemma_repeat_within(
    p: Ast,
    t: Seq<char>,
    frontier: Seq<Cand>,
    count: nat,
    acc: Seq<Cand>,
    fuel: nat,
    lo: int,
)
    requires
        t.len() <= usize::MAX,
        0 <= lo,
        within(frontier, lo, t.len() as int),
        within(acc, lo, t.len() as int),
    ensures
        within(repeat(p, t, frontier, count, acc, fuel), lo, t.len() as int),
    decreases p, 2int, fuel,
{
    if let Ast::Repeated { min, max, inner } = p {
        lemma_within_concat(acc, frontier, lo, t.len() as int);
        let acc2 = if count >= min {
            acc + frontier
        } else {
            acc
        };
        if !(frontier.len() == 0 || fuel == 0 || (max is Some && count >= max->0)) {
            lemma_advance_within(*inner, t, frontier, count >= min, lo);
            lemma_repeat_within(
                p,
                t,
                advance(*inner, t, frontier, count >= min),
                count + 1,
                acc2,
                (fuel - 1) as nat,
                lo,
            );
        }
    }
}

proof fn lemma_repeat_more_fuel(
    p: Ast,
    t: Seq<char>,
    start: int,
    frontier: Seq<Cand>,
    count: nat,
    acc: Seq<Cand>,
    fuel: nat,
    extra: nat,
)
    requires
        t.len() <= usize::MAX,
        p is Repeated,
        0 <= start <= t.len(),
        count + fuel == t.len() - start + p->min + 1,
        within(frontier, start, t.len() as int),
        count >= p->min ==> within(frontier, start + count - p->min, t.len() as int),
    ensures
        repeat(p, t, frontier, count, acc, fuel + extra) == repeat(
            p,
            t,
            frontier,
            count,
            acc,
            fuel,
        ),
    decreases fuel,
{
    if let Ast::Repeated { min, max, inner } = p {
        if fuel == 0 && frontier.len() > 0 {
            assert(start + count - min > t.len());
            assert(frontier[0].0 <= t.len());
        }
        let acc2 = if count >= min {
            acc + frontier
        } else {
            acc
        };
        if !(frontier.len() == 0 || fuel == 0 || (max is Some && count >= max->0)) {
            let next = advance(*inner, t, frontier, count >= min);
            if count >= min {
                lemma_advance_within(*inner, t, frontier, true, start + count - min);
                lemma_advance_within(*inner, t, frontier, true, start);
            } else {
                lemma_advance_within(*inner, t, frontier, false, start);
            }
            lemma_repeat_more_fuel(p, t, start, next, count + 1, acc2, (fuel - 1) as nat, extra);
            assert((fuel + extra - 1) as nat == (fuel - 1) as nat + extra);
        }
    }
}

/// The bound on the rounds of a repetition never cuts it short: with any
/// larger bound the outcome is the same, so a repetition runs until its
/// frontier is empty or it reaches its maximum.
pub proof fn lemma_repeat_bound_suffices(p: Ast, t: Seq<char>, c: Cand, extra: nat)
    requires
        t.len() <= usize::MAX,
        p is Repeated,
        c.0 <= t.len(),
    ensures
        repeat(p, t, seq![c], 0, seq![], repeat_fuel(t, c, p->min) + extra) == step(p, t, c),
{
    lemma_repeat_more_fuel(p, t, c.0 as int, seq![c], 0, seq![], repeat_fuel(t, c, p->min), extra);
}

proof fn lemma_thread_prefix(p: Ast, j: int, k: int, t: Seq<char>, cs: Seq<Cand>)
    requires
        p is Sequence,
        0 <= j <= k <= p->Sequence_0.len(),
        thread(p, k, t, cs).len() > 0,
    ensures
        thread(p, j, t, cs).len() > 0,
    decreases k,
{
    if j < k {
        let prev = thread(p, k - 1, t, cs);
        if prev.len() == 0 {
            assert(step_all(p->Sequence_0[k - 1], t, prev) == Seq::<Cand>::empty());
        }
        lemma_thread_prefix(p, j, k - 1, t, cs);
    }
}

/// The empty input is matched by a sequence only when every element of it
/// accepts zero width: each element reaches some candidate from a candidate
/// at position 0.
pub proof fn lemma_empty_input_sequence(children: Seq<Ast>, m: int)
    requires
        matches_text(Ast::Sequence(children), seq![]),
        0 <= m < children.len(),
    ensures
        exists|c: Cand| c.0 == 0 && #[trigger] step(children[m], seq![], c).len() > 0,
{
    let p = Ast::Sequence(children);
    let t: Seq<char> = seq![];
    let c0: Cand = (0, seq![]);
    if !starts_anchored(p) {
        let i = choose|i: usize| i <= t.len() && #[trigger] matches_at(p, t, i);
        assert(i == 0);
    }
    assert(matches_at(p, t, 0));
    assert(step(p, t, c0).len() > 0);
    lemma_thread_prefix(p, m + 1, children.len() as int, t, seq![c0]);
    let prev = thread(p, m, t, seq![c0]);
    assert(within(seq![c0], 0, 0));
    lemma_thread_within(p, m, t, seq![c0], 0);
    lemma_step_all_source(children[m], t, prev);
    let k = choose|k: int| 0 <= k < prev.len() && #[trigger] step(children[m], t, prev[k]).len() > 0;
    assert(prev[k].0 == 0);
}

} // verus!
