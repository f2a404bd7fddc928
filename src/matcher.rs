//! The backtracking matcher. A candidate is a position in the input together
//! with the captures recorded on the path that reached it; each node maps one
//! candidate to the list of all candidates it can reach.
use vstd::prelude::*;
use crate::pattern::{Ast, Pattern, views, lemma_anchor_model};
use crate::text::{char_is_digit, char_is_word, chars_of, is_digit, is_word};

verus! {

/// One recorded capture: group `index` consumed `text[start..end]`.
#[derive(Clone, Copy, PartialEq, Eq, Structural, Debug)]
pub struct Capture {
    pub index: usize,
    pub start: usize,
    pub end: usize,
}

/// A way of having matched so far: the position reached in the input, and the
/// captures recorded on the way there, oldest first.
pub struct Candidate {
    pub pos: usize,
    pub caps: Vec<Capture>,
}

/// The model of a candidate: its position and its capture log.
pub type Cand = (usize, Seq<Capture>);

impl View for Candidate {
    type V = Cand;

    open spec fn view(&self) -> Cand {
        (self.pos, self.caps@)
    }
}

/// The models of a list of candidates.
pub open spec fn cands(v: Seq<Candidate>) -> Seq<Cand> {
    v.map_values(|c: Candidate| c@)
}

/// Whether a node that consumes exactly one character accepts `c`.
pub open spec fn accepts(p: Ast, c: char) -> bool {
    match p {
        Ast::Literal(l) => c == l,
        Ast::AnyChar => true,
        Ast::Digit => is_digit(c),
        Ast::Word => is_word(c),
        Ast::CharacterClass { members, negated } => members.contains(c) != negated,
        _ => false,
    }
}

/// A node that consumes exactly one character.
pub open spec fn is_single(p: Ast) -> bool {
    p is Literal || p is AnyChar || p is Digit || p is Word || p is CharacterClass
}

/// The most recent capture recorded for group `index`, if any.
pub open spec fn lookup(caps: Seq<Capture>, index: nat) -> Option<Capture>
    decreases caps.len(),
{
    if caps.len() == 0 {
        None
    } else if caps.last().index == index {
        Some(caps.last())
    } else {
        lookup(caps.drop_last(), index)
    }
}

/// The candidates reached by one backreference to `cap` from `c`: the input at
/// `c`'s position must start with the captured text.
pub open spec fn backref_step(t: Seq<char>, c: Cand, cap: Capture) -> Seq<Cand> {
    let n = cap.end - cap.start;
    if cap.start <= cap.end <= t.len() && c.0 + n <= t.len() && t.subrange(
        c.0 as int,
        c.0 + n,
    ) == t.subrange(cap.start as int, cap.end as int) {
        seq![((c.0 + n) as usize, c.1)]
    } else {
        seq![]
    }
}

/// Each candidate of `os`, with a capture of group `index` from `start` to it appended.
pub open spec fn record(os: Seq<Cand>, index: nat, start: usize) -> Seq<Cand> {
    os.map_values(
        |o: Cand| (o.0, o.1.push(Capture { index: index as usize, start: start, end: o.0 })),
    )
}

/// All candidates that node `p` reaches from `c` in text `t`, in order.
pub open spec fn step(p: Ast, t: Seq<char>, c: Cand) -> Seq<Cand>
    decreases p, 3int, 0int,
{
    match p {
        Ast::Sequence(children) => thread(p, children.len() as int, t, seq![c]),
        Ast::Repeated { min, max, inner } => repeat(
            p,
            t,
            seq![c],
            0,
            seq![],
            repeat_fuel(t, c, min),
        ),
        Ast::Alternation(branches) => union(p, branches.len() as int, t, c),
        Ast::CaptureGroup { index, inner } => record(step(*inner, t, c), index, c.0),
        Ast::Backreference(index) => match lookup(c.1, index) {
            Some(cap) => backref_step(t, c, cap),
            None => seq![],
        },
        Ast::StartAnchor => if c.0 == 0 {
            seq![c]
        } else {
            seq![]
        },
        Ast::EndAnchor => if c.0 == t.len() {
            seq![c]
        } else {
            seq![]
        },
        _ => if c.0 < t.len() && accepts(p, t[c.0 as int]) {
            seq![((c.0 + 1) as usize, c.1)]
        } else {
            seq![]
        },
    }
}

/// The candidates that node `p` reaches from each of `cs`, concatenated.
pub open spec fn step_all(p: Ast, t: Seq<char>, cs: Seq<Cand>) -> Seq<Cand>
    decreases p, 4int, cs.len(),
{
    if cs.len() == 0 {
        seq![]
    } else {
        step_all(p, t, cs.drop_last()) + step(p, t, cs.last())
    }
}

/// The candidates reached from `cs` through the first `k` children of the
/// sequence `p`, one child after the other.
pub open spec fn thread(p: Ast, k: int, t: Seq<char>, cs: Seq<Cand>) -> Seq<Cand>
    decreases p, 2int, k,
{
    if k <= 0 {
        cs
    } else {
        match p {
            Ast::Sequence(children) => if k <= children.len() {
                step_all(children[k - 1], t, thread(p, k - 1, t, cs))
            } else {
                seq![]
            },
            _ => seq![],
        }
    }
}

/// The candidates reached from `c` through each of the first `k` branches of
/// the alternation `p`, concatenated.
pub open spec fn union(p: Ast, k: int, t: Seq<char>, c: Cand) -> Seq<Cand>
    decreases p, 2int, k,
{
    if k <= 0 {
        seq![]
    } else {
        match p {
            Ast::Alternation(branches) => if k <= branches.len() {
                union(p, k - 1, t, c) + step(branches[k - 1], t, c)
            } else {
                seq![]
            },
            _ => seq![],
        }
    }
}

/// The candidates of `os` that moved past position `from`.
pub open spec fn progressed(os: Seq<Cand>, from: usize) -> Seq<Cand>
    decreases os.len(),
{
    if os.len() == 0 {
        seq![]
    } else if os.last().0 > from {
        progressed(os.drop_last(), from).push(os.last())
    } else {
        progressed(os.drop_last(), from)
    }
}

/// One more repetition of `p` from each candidate of `cs`; when `strict`, only
/// the repetitions that consume at least one character are kept.
pub open spec fn advance(p: Ast, t: Seq<char>, cs: Seq<Cand>, strict: bool) -> Seq<Cand>
    decreases p, 4int, cs.len(),
{
    if cs.len() == 0 {
        seq![]
    } else {
        let os = step(p, t, cs.last());
        advance(p, t, cs.drop_last(), strict) + if strict {
            progressed(os, cs.last().0)
        } else {
            os
        }
    }
}

/// A bound on the rounds of a repetition that starts at `c`: past the first
/// `min` rounds every kept repetition consumes a character, so the frontier is
/// empty before the input runs out.
pub open spec fn repeat_fuel(t: Seq<char>, c: Cand, min: nat) -> nat {
    (if c.0 <= t.len() {
        t.len() - c.0
    } else {
        0
    }) as nat + min + 1
}

/// The rounds of the repetition `p` from round `count` on: `frontier` holds
/// the candidates after `count` repetitions and `acc` the admissible ones of
/// earlier rounds. A round adds the frontier to the result once `count`
/// reaches `min`, and stops at `max` or when the frontier is empty.
pub open spec fn repeat(
    p: Ast,
    t: Seq<char>,
    frontier: Seq<Cand>,
    count: nat,
    acc: Seq<Cand>,
    fuel: nat,
) -> Seq<Cand>
    decreases p, 2int, fuel,
{
    match p {
        Ast::Repeated { min, max, inner } => {
            let acc2 = if count >= min {
                acc + frontier
            } else {
                acc
            };
            if frontier.len() == 0 || fuel == 0 || (max is Some && count >= max->0) {
                acc2
            } else {
                repeat(
                    p,
                    t,
                    advance(*inner, t, frontier, count >= min),
                    count + 1,
                    acc2,
                    (fuel - 1) as nat,
                )
            }
        },
        _ => acc,
    }
}

/// The pattern's first element is a start anchor.
pub open spec fn starts_anchored(p: Ast) -> bool {
    match p {
        Ast::StartAnchor => true,
        Ast::Sequence(children) => children.len() > 0 && children[0] is StartAnchor,
        _ => false,
    }
}

/// The pattern's last element is an end anchor.
pub open spec fn ends_anchored(p: Ast) -> bool {
    match p {
        Ast::EndAnchor => true,
        Ast::Sequence(children) => children.len() > 0 && children.last() is EndAnchor,
        _ => false,
    }
}

/// Whether the outcomes `os` of an attempt count as a match: one that reaches
/// the end of the input when the pattern ends with an end anchor, any one
/// otherwise.
pub open spec fn qualifies(p: Ast, t: Seq<char>, os: Seq<Cand>) -> bool {
    if ends_anchored(p) {
        exists|k: int| 0 <= k < os.len() && os[k].0 == t.len()
    } else {
        os.len() > 0
    }
}

/// An attempt at offset `i`, with no captures yet, succeeds.
pub open spec fn matches_at(p: Ast, t: Seq<char>, i: usize) -> bool {
    qualifies(p, t, step(p, t, (i, seq![])))
}

/// The pattern matches the text: at offset 0 when it starts with a start
/// anchor, at some offset from 0 to the text's length otherwise.
pub open spec fn matches_text(p: Ast, t: Seq<char>) -> bool {
    if starts_anchored(p) {
        matches_at(p, t, 0)
    } else {
        exists|i: usize| i <= t.len() && #[trigger] matches_at(p, t, i)
    }
}


proof fn lemma_cands_append(a: Seq<Candidate>, b: Seq<Candidate>)
    ensures
        cands(a + b) == cands(a) + cands(b),
{
    assert(cands(a + b) =~= cands(a) + cands(b));
}

proof fn lemma_cands_push(a: Seq<Candidate>, c: Candidate)
    ensures
        cands(a.push(c)) == cands(a).push(c@),
{
    assert(cands(a.push(c)) =~= cands(a).push(c@));
}

/// A copy of a capture log.
fn copy_caps(caps: &Vec<Capture>) -> (r: Vec<Capture>)
    ensures
        r@ == caps@,
{
    let mut r: Vec<Capture> = Vec::new();
    let mut k: usize = 0;
    while k < caps.len()
        invariant
            k <= caps.len(),
            r@ == caps@.take(k as int),
        decreases caps.len() - k,
    {
        r.push(caps[k]);
        k += 1;
        assert(r@ =~= caps@.take(k as int));
    }
    assert(caps@.take(k as int) =~= caps@);
    r
}

/// The candidate at `pos` with a copy of `caps`.
fn candidate_at(pos: usize, caps: &Vec<Capture>) -> (r: Candidate)
    ensures
        r@ == (pos, caps@),
{
    Candidate { pos, caps: copy_caps(caps) }
}

/// Whether `c` occurs in `members`.
fn contains_char(members: &Vec<char>, c: char) -> (r: bool)
    ensures
        r == members@.contains(c),
{
    let mut k: usize = 0;
    while k < members.len()
        invariant
            k <= members.len(),
            forall|j: int| 0 <= j < k ==> members@[j] != c,
        decreases members.len() - k,
    {
        if members[k] == c {
            return true;
        }
        k += 1;
    }
    false
}

/// Whether the single-character node `p` accepts `c`.
fn accepts_char(p: &Pattern, c: char) -> (r: bool)
    requires
        is_single(p@),
    ensures
        r == accepts(p@, c),
{
    match p {
        Pattern::Literal(l) => c == *l,
        Pattern::AnyChar => true,
        Pattern::Digit => char_is_digit(c),
        Pattern::Word => char_is_word(c),
        Pattern::CharacterClass { members, negated } => contains_char(members, c) != *negated,
        _ => false,
    }
}

/// The most recent capture of group `index` in `caps`.
fn find_capture(caps: &Vec<Capture>, index: usize) -> (r: Option<Capture>)
    ensures
        r == lookup(caps@, index as nat),
{
    let mut k: usize = caps.len();
    assert(caps@.take(k as int) =~= caps@);
    while k > 0
        invariant
            k <= caps.len(),
            lookup(caps@, index as nat) == lookup(caps@.take(k as int), index as nat),
        decreases k,
    {
        assert(caps@.take(k as int).drop_last() =~= caps@.take(k - 1));
        if caps[k - 1].index == index {
            return Some(caps[k - 1]);
        }
        k -= 1;
    }
    None
}

/// The candidates reached from `c` by one backreference to `cap`.
fn backref_at(t: &Vec<char>, c: &Candidate, cap: Capture) -> (r: Vec<Candidate>)
    ensures
        cands(r@) == backref_step(t@, c@, cap),
{
    if !(cap.start <= cap.end && cap.end <= t.len() && c.pos <= t.len()) {
        assert(cands(Seq::empty()) =~= seq![]);
        return Vec::new();
    }
    let n: usize = cap.end - cap.start;
    if n > t.len() - c.pos {
        assert(cands(Seq::empty()) =~= seq![]);
        return Vec::new();
    }
    let mut k: usize = 0;
    while k < n
        invariant
            k <= n,
            n == cap.end - cap.start,
            cap.end <= t.len(),
            c.pos + n <= t.len(),
            t@.subrange(c.pos as int, c.pos + k) =~= t@.subrange(
                cap.start as int,
                cap.start + k,
            ),
        decreases n - k,
    {
        if t[c.pos + k] != t[cap.start + k] {
            assert(t@.subrange(c.pos as int, c.pos + n)[k as int] != t@.subrange(
                cap.start as int,
                cap.end as int,
            )[k as int]);
            assert(cands(Seq::empty()) =~= seq![]);
            return Vec::new();
        }
        assert(t@.subrange(c.pos as int, c.pos + k + 1) =~= t@.subrange(c.pos as int, c.pos + k).push(
            t@[c.pos + k],
        ));
        assert(t@.subrange(cap.start as int, cap.start + k + 1) =~= t@.subrange(
            cap.start as int,
            cap.start + k,
        ).push(t@[cap.start + k]));
        k += 1;
    }
    assert(t@.subrange(c.pos as int, c.pos + n) =~= t@.subrange(
        cap.start as int,
        cap.end as int,
    ));
    let r = vec![candidate_at(c.pos + n, &c.caps)];
    assert(cands(r@) =~= seq![((c.pos + n) as usize, c.caps@)]);
    r
}

/// The candidates of `os` that moved past position `from`.
fn keep_progressed(os: &Vec<Candidate>, from: usize) -> (r: Vec<Candidate>)
    ensures
        cands(r@) == progressed(cands(os@), from),
{
    let mut out: Vec<Candidate> = Vec::new();
    let mut k: usize = 0;
    assert(cands(out@) =~= seq![]);
    while k < os.len()
        invariant
            k <= os.len(),
            cands(out@) == progressed(cands(os@).take(k as int), from),
        decreases os.len() - k,
    {
        assert(cands(os@).take(k + 1).drop_last() =~= cands(os@).take(k as int));
        if os[k].pos > from {
            let o = candidate_at(os[k].pos, &os[k].caps);
            proof {
                lemma_cands_push(out@, o);
            }
            out.push(o);
        }
        k += 1;
    }
    assert(cands(os@).take(os.len() as int) =~= cands(os@));
    out
}

/// All candidates that `p` reaches from `c`, in order.
#[verifier::loop_isolation(false)]
fn match_at(p: &Pattern, t: &Vec<char>, c: &Candidate) -> (r: Vec<Candidate>)
    ensures
        cands(r@) == step(p@, t@, c@),
    decreases p, 1int,
{
    let none: Vec<Candidate> = Vec::new();
    assert(cands(none@) =~= seq![]);
    match p {
        Pattern::Literal(_)
        | Pattern::AnyChar
        | Pattern::Digit
        | Pattern::Word
        | Pattern::CharacterClass { .. } => {
            if c.pos < t.len() && accepts_char(p, t[c.pos]) {
                let r = vec![candidate_at(c.pos + 1, &c.caps)];
                assert(cands(r@) =~= seq![((c.pos + 1) as usize, c.caps@)]);
                r
            } else {
                none
            }
        },
        Pattern::Sequence(children) => {
            let mut cur: Vec<Candidate> = vec![candidate_at(c.pos, &c.caps)];
            assert(cands(cur@) =~= seq![c@]);
            let mut k: usize = 0;
            while k < children.len()
                invariant
                    k <= children.len(),
                    p@ == Ast::Sequence(views(children@)),
                    cands(cur@) == thread(p@, k as int, t@, seq![c@]),
                decreases children.len() - k,
            {
                cur = match_all(&children[k], t, &cur);
                k += 1;
            }
            cur
        },
        Pattern::Repeated { min, max, inner } => {
            let room: usize = if c.pos <= t.len() {
                t.len() - c.pos
            } else {
                0
            };
            let mut fuel: u128 = room as u128 + *min as u128 + 1;
            let ghost fuel0 = fuel;
            let mut count: u128 = 0;
            let mut frontier: Vec<Candidate> = vec![candidate_at(c.pos, &c.caps)];
            let mut acc: Vec<Candidate> = Vec::new();
            assert(cands(frontier@) =~= seq![c@]);
            assert(cands(acc@) =~= seq![]);
            loop
                invariant
                    fuel + count == fuel0,
                    fuel0 == repeat_fuel(t@, c@, *min as nat),
                    p@ == (Ast::Repeated {
                        min: *min as nat,
                        max: match max {
                            Some(m) => Some(*m as nat),
                            None => None,
                        },
                        inner: Box::new(inner.model()),
                    }),
                    repeat(p@, t@, cands(frontier@), count as nat, cands(acc@), fuel as nat) == step(
                        p@,
                        t@,
                        c@,
                    ),
                decreases fuel,
            {
                let admissible = count >= *min as u128;
                let at_max = match max {
                    Some(m) => count >= *m as u128,
                    None => false,
                };
                if frontier.len() == 0 || fuel == 0 || at_max {
                    if admissible {
                        proof {
                            lemma_cands_append(acc@, frontier@);
                        }
                        acc.append(&mut frontier);
                    }
                    return acc;
                }
                let next = advance_all(inner, t, &frontier, admissible);
                if admissible {
                    proof {
                        lemma_cands_append(acc@, frontier@);
                    }
                    acc.append(&mut frontier);
                }
                frontier = next;
                count += 1;
                fuel -= 1;
            }
        },
        Pattern::Alternation(branches) => {
            let mut out: Vec<Candidate> = Vec::new();
            assert(cands(out@) =~= seq![]);
            let mut k: usize = 0;
            while k < branches.len()
                invariant
                    k <= branches.len(),
                    p@ == Ast::Alternation(views(branches@)),
                    cands(out@) == union(p@, k as int, t@, c@),
                decreases branches.len() - k,
            {
                let mut r = match_at(&branches[k], t, c);
                proof {
                    lemma_cands_append(out@, r@);
                }
                out.append(&mut r);
                k += 1;
            }
            out
        },
        Pattern::CaptureGroup { index, inner } => {
            let os = match_at(inner, t, c);
            let mut out: Vec<Candidate> = Vec::new();
            let mut k: usize = 0;
            assert(cands(out@) =~= record(cands(os@).take(0), *index as nat, c.pos));
            while k < os.len()
                invariant
                    k <= os.len(),
                    cands(out@) == record(cands(os@).take(k as int), *index as nat, c.pos),
                decreases os.len() - k,
            {
                let mut caps = copy_caps(&os[k].caps);
                caps.push(Capture { index: *index, start: c.pos, end: os[k].pos });
                let o = Candidate { pos: os[k].pos, caps };
                proof {
                    lemma_cands_push(out@, o);
                    assert(record(cands(os@).take(k + 1), *index as nat, c.pos) =~= record(
                        cands(os@).take(k as int),
                        *index as nat,
                        c.pos,
                    ).push(o@));
                }
                out.push(o);
                k += 1;
            }
            assert(cands(os@).take(os.len() as int) =~= cands(os@));
            out
        },
        Pattern::Backreference(index) => match find_capture(&c.caps, *index) {
            Some(cap) => backref_at(t, c, cap),
            None => none,
        },
        Pattern::StartAnchor => {
            if c.pos == 0 {
                let r = vec![candidate_at(c.pos, &c.caps)];
                assert(cands(r@) =~= seq![c@]);
                r
            } else {
                none
            }
        },
        Pattern::EndAnchor => {
            if c.pos == t.len() {
                let r = vec![candidate_at(c.pos, &c.caps)];
                assert(cands(r@) =~= seq![c@]);
                r
            } else {
                none
            }
        },
    }
}

/// The candidates that `p` reaches from each of `cs`, concatenated.
fn match_all(p: &Pattern, t: &Vec<char>, cs: &Vec<Candidate>) -> (r: Vec<Candidate>)
    ensures
        cands(r@) == step_all(p@, t@, cands(cs@)),
    decreases p, 2int,
{
    let mut out: Vec<Candidate> = Vec::new();
    let mut k: usize = 0;
    assert(cands(out@) =~= seq![]);
    while k < cs.len()
        invariant
            k <= cs.len(),
            cands(out@) == step_all(p@, t@, cands(cs@).take(k as int)),
        decreases cs.len() - k,
    {
        let mut r = match_at(p, t, &cs[k]);
        proof {
            lemma_cands_append(out@, r@);
            assert(cands(cs@).take(k + 1).drop_last() =~= cands(cs@).take(k as int));
        }
        out.append(&mut r);
        k += 1;
    }
    assert(cands(cs@).take(cs.len() as int) =~= cands(cs@));
    out
}

/// One more repetition of `p` from each of `cs`, keeping only those that
/// consume a character when `strict`.
fn advance_all(p: &Pattern, t: &Vec<char>, cs: &Vec<Candidate>, strict: bool) -> (r: Vec<
    Candidate,
>)
    ensures
        cands(r@) == advance(p@, t@, cands(cs@), strict),
    decreases p, 2int,
{
    let mut out: Vec<Candidate> = Vec::new();
    let mut k: usize = 0;
    assert(cands(out@) =~= seq![]);
    while k < cs.len()
        invariant
            k <= cs.len(),
            cands(out@) == advance(p@, t@, cands(cs@).take(k as int), strict),
        decreases cs.len() - k,
    {
        let os = match_at(p, t, &cs[k]);
        let mut r = if strict {
            keep_progressed(&os, cs[k].pos)
        } else {
            os
        };
        proof {
            lemma_cands_append(out@, r@);
            assert(cands(cs@).take(k + 1).drop_last() =~= cands(cs@).take(k as int));
        }
        out.append(&mut r);
        k += 1;
    }
    assert(cands(cs@).take(cs.len() as int) =~= cands(cs@));
    out
}

/// Whether the pattern's first element is a start anchor.
fn begins_with_start(p: &Pattern) -> (r: bool)
    ensures
        r == starts_anchored(p@),
{
    match p {
        Pattern::StartAnchor => true,
        Pattern::Sequence(children) => {
            assert(p@ == Ast::Sequence(views(children@)));
            if children.len() == 0 {
                return false;
            }
            proof {
                lemma_anchor_model(children@[0]);
                assert(views(children@)[0] == children@[0]@);
            }
            matches!(children[0], Pattern::StartAnchor)
        },
        _ => false,
    }
}

/// Whether the pattern's last element is an end anchor.
fn finishes_with_end(p: &Pattern) -> (r: bool)
    ensures
        r == ends_anchored(p@),
{
    match p {
        Pattern::EndAnchor => true,
        Pattern::Sequence(children) => {
            assert(p@ == Ast::Sequence(views(children@)));
            if children.len() == 0 {
                return false;
            }
            proof {
                lemma_anchor_model(children@.last());
                assert(views(children@).last() == children@.last()@);
            }
            matches!(children[children.len() - 1], Pattern::EndAnchor)
        },
        _ => false,
    }
}

/// Whether an attempt of `p` at offset `i` succeeds.
fn attempt(p: &Pattern, t: &Vec<char>, i: usize) -> (r: bool)
    ensures
        r == matches_at(p@, t@, i),
{
    let start = Candidate { pos: i, caps: Vec::new() };
    assert(start@ == (i, Seq::<Capture>::empty()));
    let os = match_at(p, t, &start);
    assert(start@ == (i, Seq::<Capture>::empty()));
    if finishes_with_end(p) {
        let mut k: usize = 0;
        while k < os.len()
            invariant
                k <= os.len(),
                ends_anchored(p@),
                cands(os@) == step(p@, t@, (i, Seq::empty())),
                forall|j: int| 0 <= j < k ==> (#[trigger] cands(os@)[j]).0 != t@.len(),
            decreases os.len() - k,
        {
            if os[k].pos == t.len() {
                assert(cands(os@)[k as int].0 == t@.len());
                return true;
            }
            k += 1;
        }
        false
    } else {
        os.len() > 0
    }
}

/// Whether the pattern matches the input: anywhere in it, or at its start
/// when the pattern begins with a start anchor.
pub fn is_match(tree: &Pattern, input: &str) -> (r: bool)
    ensures
        r == matches_text(tree@, input@),
{
    let t = chars_of(input);
    if begins_with_start(tree) {
        return attempt(tree, &t, 0);
    }
    let mut i: usize = 0;
    loop
        invariant
            i <= t.len(),
            t@ == input@,
            !starts_anchored(tree@),
            forall|j: usize| j < i ==> !#[trigger] matches_at(tree@, t@, j),
        decreases t.len() - i,
    {
        if attempt(tree, &t, i) {
            assert(matches_at(tree@, input@, i));
            return true;
        }
        if i == t.len() {
            assert forall|j: usize| j <= t.len() implies !#[trigger] matches_at(tree@, t@, j) by {
                if j < i {
                }
            }
            return false;
        }
        i += 1;
    }
}

} // verus!
