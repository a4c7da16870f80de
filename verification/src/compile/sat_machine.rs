//! The search for a model, step by step: what a solver does next is a function of
//! where it stands.

use crate::compile::sat_logic;
use crate::compile::sat_order;
use crate::compile::sat_order::Waiting;
use crate::compile::sat_solver;
use vstd::prelude::*;

verus! {

/// Where a search stands.
#[verifier::ext_equal]
pub struct State {
    pub vars: nat,
    pub clauses: Seq<Seq<i32>>,
    pub learnt: Seq<bool>,
    pub scores: Seq<u64>,
    pub watches: Seq<Seq<usize>>,
    pub assign: Seq<Option<bool>>,
    pub level: Seq<usize>,
    pub reason: Seq<Option<usize>>,
    pub trail: Seq<i32>,
    pub lim: Seq<usize>,
    pub head: nat,
    pub phase: Seq<bool>,
    pub order: Waiting,
}

/// A clause with two of its literals exchanged.
pub open spec fn swapped(clause: Seq<i32>, i: int, j: int) -> Seq<i32> {
    clause.update(i, clause[j]).update(j, clause[i])
}

/// Makes a literal true that is not assigned.
pub open spec fn assigned(s: State, literal: i32, reason: Option<usize>) -> State {
    let v = sat_logic::var_of(literal);
    State {
        trail: s.trail.push(literal),
        assign: s.assign.update(v, Some(literal > 0)),
        level: s.level.update(v, s.lim.len() as usize),
        reason: s.reason.update(v, reason),
        ..s
    }
}

/// The first literal of a clause, from one on, that is not false; the length of the
/// clause if there is none.
pub open spec fn spare(assign: Seq<Option<bool>>, clause: Seq<i32>, from: int) -> int
    decreases clause.len() - from,
{
    if from >= clause.len() {
        clause.len() as int
    } else if sat_solver::is_false(assign, clause[from]) {
        spare(assign, clause, from + 1)
    } else {
        from
    }
}

/// A clause that watches a literal which went false moves to the list of another.
pub open spec fn moved(watches: Seq<Seq<usize>>, slot: int, p: int, target: int) -> Seq<
    Seq<usize>,
> {
    let c = watches[slot][p];
    let left = watches.update(slot, watches[slot].remove(p));
    left.update(target, left[target].push(c))
}

/// The clause at one place of the list of a literal that went false, and what
/// becomes of it: where the search then stands, the next place in the list, and the
/// clause if all of it is false.
#[verifier::opaque]
pub open spec fn visited(s: State, gone: i32, p: int) -> (State, int, Option<usize>) {
    let slot = sat_solver::slot_of(gone);
    let c = s.watches[slot][p] as int;
    let clause = if s.clauses[c][0] == gone {
        swapped(s.clauses[c], 0, 1)
    } else {
        s.clauses[c]
    };
    let turned = State { clauses: s.clauses.update(c, clause), ..s };
    let position = spare(s.assign, clause, 2);
    if sat_solver::is_true(s.assign, clause[0]) {
        (turned, p + 1, None)
    } else if position < clause.len() {
        let other = State {
            clauses: s.clauses.update(c, swapped(clause, 1, position)),
            watches: moved(s.watches, slot, p, sat_solver::slot_of(clause[position])),
            ..s
        };
        (other, p, None)
    } else if sat_solver::is_false(s.assign, clause[0]) {
        (State { head: s.trail.len(), ..turned }, p, Some(c as usize))
    } else {
        (assigned(turned, clause[0], Some(c as usize)), p + 1, None)
    }
}

/// All clauses of the list of a literal that went false, from one place on.
#[verifier::opaque]
pub open spec fn walked(s: State, gone: i32, p: int) -> (State, Option<usize>)
    decreases s.watches[sat_solver::slot_of(gone)].len() - p,
{
    let slot = sat_solver::slot_of(gone);
    if p >= s.watches[slot].len() {
        (s, None)
    } else {
        let (next, q, clash) = visited(s, gone, p);
        if clash is Some {
            (next, clash)
        } else if 0 <= next.watches[slot].len() - q < s.watches[slot].len() - p {
            walked(next, gone, q)
        } else {
            (next, None)
        }
    }
}

/// Everything that follows one clause at a time, or a clause that has gone false.
#[verifier::opaque]
pub open spec fn propagated(s: State) -> (State, Option<usize>)
    decreases s.vars - s.head,
{
    if s.head >= s.trail.len() || s.head >= s.vars {
        (s, None)
    } else {
        let (next, clash) = walked(s, (-s.trail[s.head as int]) as i32, 0);
        if clash is Some {
            (next, clash)
        } else if next.vars == s.vars {
            propagated(State { head: s.head + 1, ..next })
        } else {
            (next, None)
        }
    }
}

pub(crate) proof fn lemma_spare(assign: Seq<Option<bool>>, clause: Seq<i32>, from: int, found: int)
    requires
        from <= found <= clause.len(),
        forall|j: int| from <= j < found ==> sat_solver::is_false(assign, #[trigger] clause[j]),
        found < clause.len() ==> !sat_solver::is_false(assign, clause[found]),
    ensures
        spare(assign, clause, from) == found,
    decreases found - from,
{
    if from < found {
        assert(sat_solver::is_false(assign, clause[from]));
        lemma_spare(assign, clause, from + 1, found);
    }
}

pub(crate) proof fn lemma_walk_ends(s: State, gone: i32, p: int)
    requires
        p >= s.watches[sat_solver::slot_of(gone)].len(),
    ensures
        walked(s, gone, p) == (s, None::<usize>),
{
    reveal(walked);
}

pub(crate) proof fn lemma_walk_goes_on(s: State, gone: i32, p: int, next: State, q: int)
    requires
        p < s.watches[sat_solver::slot_of(gone)].len(),
        visited(s, gone, p) == (next, q, None::<usize>),
        0 <= next.watches[sat_solver::slot_of(gone)].len() - q < s.watches[sat_solver::slot_of(
            gone,
        )].len() - p,
    ensures
        walked(s, gone, p) == walked(next, gone, q),
{
    reveal(walked);
}

pub(crate) proof fn lemma_walk_clashes(s: State, gone: i32, p: int, next: State, q: int, c: usize)
    requires
        p < s.watches[sat_solver::slot_of(gone)].len(),
        visited(s, gone, p) == (next, q, Some(c)),
    ensures
        walked(s, gone, p) == (next, Some(c)),
{
    reveal(walked);
}

pub(crate) proof fn lemma_propagated_all(s: State)
    requires
        s.head >= s.trail.len(),
    ensures
        propagated(s) == (s, None::<usize>),
{
    reveal(propagated);
}

pub(crate) proof fn lemma_propagated_one(s: State, next: State)
    requires
        s.head < s.trail.len() <= s.vars,
        walked(s, (-s.trail[s.head as int]) as i32, 0) == (next, None::<usize>),
        next.vars == s.vars,
    ensures
        propagated(s) == propagated(State { head: s.head + 1, ..next }),
{
    reveal(propagated);
}

pub(crate) proof fn lemma_propagated_clash(s: State, next: State, c: usize)
    requires
        s.head < s.trail.len() <= s.vars,
        walked(s, (-s.trail[s.head as int]) as i32, 0) == (next, Some(c)),
    ensures
        propagated(s) == (next, Some(c)),
{
    reveal(propagated);
}

/// What an analysis has marked so far.
#[verifier::ext_equal]
pub struct Marks {
    pub order: Waiting,
    pub seen: Seq<bool>,
    pub lesson: Seq<i32>,
    pub count: int,
}

/// Marks the variable of one false literal: those of the current level are counted,
/// the others go into the lesson.
pub open spec fn noted(s: State, m: Marks, literal: i32) -> Marks {
    let v = sat_logic::var_of(literal);
    if m.seen[v] || s.level[v] == 0 {
        m
    } else {
        let raised = Marks { seen: m.seen.update(v, true), order: m.order.raised(v), ..m };
        if s.level[v] >= s.lim.len() {
            Marks { count: m.count + 1, ..raised }
        } else {
            Marks { lesson: m.lesson.push(literal), ..raised }
        }
    }
}

/// Marks the variables of a clause, from one place on.
#[verifier::opaque]
pub open spec fn noted_from(s: State, m: Marks, clause: Seq<i32>, p: int) -> Marks
    decreases clause.len() - p,
{
    if p >= clause.len() {
        m
    } else {
        noted_from(s, noted(s, m, clause[p]), clause, p + 1)
    }
}

/// The place behind the last marked literal of the trail below one place.
pub open spec fn last_seen(trail: Seq<i32>, seen: Seq<bool>, below: int) -> int
    decreases below,
{
    if below <= 0 {
        0
    } else if seen[sat_logic::var_of(trail[below - 1])] {
        below
    } else {
        last_seen(trail, seen, below - 1)
    }
}

/// No more conflicts than this are counted for a clause: in double precision, one more
/// makes no difference.
pub const SCORE_LIMIT: u64 = 0x20_0000_0000_0000;

/// One more conflict counted for a clause.
pub open spec fn scored(scores: Seq<u64>, c: int) -> Seq<u64> {
    scores.update(
        c,
        if scores[c] < SCORE_LIMIT {
            (scores[c] + 1) as u64
        } else {
            scores[c]
        },
    )
}

/// Traces a conflict back along the trail, from one clause on, to the one literal of
/// the current level it passes through: what is marked then, the clauses' scores, and
/// that literal.
#[verifier::opaque]
pub open spec fn traced(
    s: State,
    m: Marks,
    scores: Seq<u64>,
    c: int,
    start: int,
    below: int,
) -> (Marks, Seq<u64>, i32)
    decreases below,
{
    let marks = noted_from(s, m, s.clauses[c], start);
    let counted = scored(scores, c);
    let at = last_seen(s.trail, marks.seen, below) - 1;
    let chosen = s.trail[at];
    let v = sat_logic::var_of(chosen);
    let left = Marks { seen: marks.seen.update(v, false), count: marks.count - 1, ..marks };
    if left.count == 0 || !(0 <= at < below) {
        (left, counted, chosen)
    } else {
        traced(s, left, counted, s.reason[v]->0 as int, 1, at)
    }
}

/// A literal may go: what forced it false is marked, or holds on the ground.
pub open spec fn droppable(s: State, seen: Seq<bool>, v: int) -> bool {
    &&& s.reason[v] is Some
    &&& forall|j: int|
        1 <= j < s.clauses[s.reason[v]->0 as int].len() ==> {
            let next = sat_logic::var_of(#[trigger] s.clauses[s.reason[v]->0 as int][j]);
            seen[next] || s.level[next] == 0
        }
}

/// The first literals of a lesson without those that may go.
pub open spec fn cut(s: State, seen: Seq<bool>, chosen: i32, lesson: Seq<i32>, upto: int) -> Seq<
    i32,
>
    decreases upto,
{
    if upto <= 1 {
        seq![(-chosen) as i32]
    } else {
        let rest = cut(s, seen, chosen, lesson, upto - 1);
        if droppable(s, seen, sat_logic::var_of(lesson[upto - 1])) {
            rest
        } else {
            rest.push(lesson[upto - 1])
        }
    }
}

/// The first of the literals of the deepest level, the one in front left out.
pub open spec fn deepest(level: Seq<usize>, clause: Seq<i32>, upto: int) -> int
    decreases upto,
{
    if upto <= 2 {
        1
    } else {
        let best = deepest(level, clause, upto - 1);
        if level[sat_logic::var_of(clause[upto - 1])] > level[sat_logic::var_of(clause[best])] {
            upto - 1
        } else {
            best
        }
    }
}

/// Nothing marked yet.
pub open spec fn unmarked(s: State) -> Marks {
    Marks {
        order: s.order,
        seen: Seq::new(s.vars, |v: int| false),
        lesson: seq![0i32],
        count: 0,
    }
}

/// What a conflict teaches, and the level to go back to.
#[verifier::opaque]
pub open spec fn studied(s: State, c: int) -> (State, Seq<i32>, usize) {
    let (m, scores, chosen) = traced(s, unmarked(s), s.scores, c, 0, s.trail.len() as int);
    let kept = cut(s, m.seen, chosen, m.lesson, m.lesson.len() as int);
    let next = State { scores: scores, order: m.order, ..s };
    if kept.len() == 1 {
        (next, kept, 0)
    } else {
        let best = deepest(s.level, kept, kept.len() as int);
        (next, swapped(kept, 1, best), s.level[sat_logic::var_of(kept[best])])
    }
}

pub(crate) proof fn lemma_noted_step(s: State, m: Marks, clause: Seq<i32>, p: int)
    ensures
        p >= clause.len() ==> noted_from(s, m, clause, p) == m,
        p < clause.len() ==> noted_from(s, m, clause, p) == noted_from(
            s,
            noted(s, m, clause[p]),
            clause,
            p + 1,
        ),
{
    reveal(noted_from);
}

pub(crate) proof fn lemma_last_seen(trail: Seq<i32>, seen: Seq<bool>, below: int, at: int)
    requires
        0 <= at <= below,
        at > 0 ==> seen[sat_logic::var_of(trail[at - 1])],
        forall|i: int| at <= i < below ==> !seen[sat_logic::var_of(#[trigger] trail[i])],
    ensures
        last_seen(trail, seen, below) == at,
    decreases below - at,
{
    if at < below {
        assert(!seen[sat_logic::var_of(trail[below - 1])]);
        lemma_last_seen(trail, seen, below - 1, at);
    }
}

pub(crate) proof fn lemma_traced_step(
    s: State,
    m: Marks,
    scores: Seq<u64>,
    c: int,
    start: int,
    below: int,
    marks: Marks,
    at: int,
)
    requires
        marks == noted_from(s, m, s.clauses[c], start),
        0 <= at < below,
        last_seen(s.trail, marks.seen, below) == at + 1,
    ensures
        ({
            let v = sat_logic::var_of(s.trail[at]);
            let left = Marks {
                seen: marks.seen.update(v, false),
                count: marks.count - 1,
                ..marks
            };
            traced(s, m, scores, c, start, below) == if left.count == 0 {
                (left, scored(scores, c), s.trail[at])
            } else {
                traced(s, left, scored(scores, c), s.reason[v]->0 as int, 1, at)
            }
        }),
{
    reveal(traced);
}

pub(crate) proof fn lemma_noted_same(s: State, other: State, m: Marks, clause: Seq<i32>, p: int)
    requires
        s.level == other.level,
        s.lim == other.lim,
    ensures
        noted_from(s, m, clause, p) == noted_from(other, m, clause, p),
    decreases clause.len() - p,
{
    reveal(noted_from);
    if p < clause.len() {
        lemma_noted_same(s, other, noted(s, m, clause[p]), clause, p + 1);
    }
}

pub(crate) proof fn lemma_cut_same(
    s: State,
    other: State,
    seen: Seq<bool>,
    chosen: i32,
    lesson: Seq<i32>,
    upto: int,
)
    requires
        s.level == other.level,
        s.reason == other.reason,
        s.clauses == other.clauses,
    ensures
        cut(s, seen, chosen, lesson, upto) == cut(other, seen, chosen, lesson, upto),
    decreases upto,
{
    if upto > 1 {
        lemma_cut_same(s, other, seen, chosen, lesson, upto - 1);
        let v = sat_logic::var_of(lesson[upto - 1]);
        assert(droppable(s, seen, v) == droppable(other, seen, v));
    }
}

/// Takes the last literal off the trail; its variable waits again.
pub open spec fn popped(s: State) -> State {
    let literal = s.trail.last();
    let v = sat_logic::var_of(literal);
    State {
        trail: s.trail.drop_last(),
        phase: s.phase.update(v, literal > 0),
        assign: s.assign.update(v, None),
        reason: s.reason.update(v, None),
        order: s.order.with(v),
        ..s
    }
}

/// Takes literals off the trail until it is as short as it should be.
#[verifier::opaque]
pub open spec fn undone(s: State, length: int) -> State
    decreases s.trail.len(),
{
    if s.trail.len() <= length || s.trail.len() == 0 {
        s
    } else {
        undone(popped(s), length)
    }
}

/// Goes back to a level.
#[verifier::opaque]
pub open spec fn cancelled(s: State, level: int) -> State {
    if s.lim.len() <= level {
        State { head: s.trail.len(), ..s }
    } else {
        let left = undone(s, s.lim[level] as int);
        State { lim: s.lim.take(level), head: left.trail.len(), ..left }
    }
}

/// A clause listed under its first two literals.
pub open spec fn filed(watches: Seq<Seq<usize>>, c: usize, clause: Seq<i32>) -> Seq<Seq<usize>> {
    let first = sat_solver::slot_of(clause[0]);
    let second = sat_solver::slot_of(clause[1]);
    let once = watches.update(first, watches[first].push(c));
    once.update(second, once[second].push(c))
}

/// One clause more.
#[verifier::opaque]
pub open spec fn attached(s: State, clause: Seq<i32>, learnt: bool) -> State {
    State {
        clauses: s.clauses.push(clause),
        learnt: s.learnt.push(learnt),
        scores: s.scores.push(0),
        watches: filed(s.watches, s.clauses.len() as usize, clause),
        ..s
    }
}

pub(crate) proof fn lemma_undone_step(s: State, length: int)
    ensures
        s.trail.len() <= length ==> undone(s, length) == s,
        s.trail.len() > length && s.trail.len() > 0 ==> undone(s, length) == undone(
            popped(s),
            length,
        ),
{
    reveal(undone);
}

/// Whether a clause may be forgotten: it was learnt, is longer than two literals, and
/// is nobody's reason.
pub open spec fn removable(s: State, c: int) -> bool {
    &&& s.learnt[c]
    &&& s.clauses[c].len() > 2
    &&& s.reason[sat_logic::var_of(s.clauses[c][0])] != Some(c as usize)
}

/// How many of the first clauses may be forgotten.
pub open spec fn removable_count(s: State, upto: int) -> nat
    decreases upto,
{
    if upto <= 0 {
        0
    } else {
        removable_count(s, upto - 1) + if removable(s, upto - 1) {
            1nat
        } else {
            0nat
        }
    }
}

/// Whether a clause is forgotten before another: the less active first, and between
/// equals the older.
pub open spec fn staler(s: State, c: int, d: int) -> bool {
    s.scores[c] < s.scores[d] || (s.scores[c] == s.scores[d] && c < d)
}

/// The clauses that stay when half of those that may be forgotten are, the stalest
/// first.
pub open spec fn spares(s: State, origins: Seq<int>) -> bool {
    &&& forall|c: int, d: int|
        0 <= c < d < origins.len() ==> #[trigger] origins[c] < #[trigger] origins[d]
    &&& forall|c: int|
        0 <= c < origins.len() ==> 0 <= #[trigger] origins[c] < s.clauses.len()
    &&& origins.len() + removable_count(s, s.clauses.len() as int) / 2 == s.clauses.len()
    &&& forall|c: int|
        0 <= c < s.clauses.len() && !#[trigger] origins.contains(c) ==> removable(s, c)
    &&& forall|c: int, d: int|
        0 <= c < s.clauses.len() && 0 <= d < s.clauses.len() && !#[trigger] origins.contains(c)
            && #[trigger] origins.contains(d) && removable(s, d) ==> staler(s, c, d)
}

/// The first clauses listed under their first two literals.
pub open spec fn listing(clauses: Seq<Seq<i32>>, slots: nat, upto: int) -> Seq<Seq<usize>>
    decreases upto,
{
    if upto <= 0 {
        Seq::new(slots, |slot: int| Seq::<usize>::empty())
    } else {
        filed(
            listing(clauses, slots, upto - 1),
            (upto - 1) as usize,
            clauses[upto - 1],
        )
    }
}

/// A reason under its new number, if it is still there.
pub open spec fn renamed(reason: Option<usize>, origins: Seq<int>) -> Option<usize> {
    match reason {
        Some(r) => if origins.contains(r as int) {
            Some(origins.index_of(r as int) as usize)
        } else {
            None
        },
        None => None,
    }
}

/// What is left of the clauses when only some stay.
pub open spec fn thinned(s: State, origins: Seq<int>) -> State {
    let clauses = Seq::new(origins.len(), |c: int| s.clauses[origins[c]]);
    State {
        clauses: clauses,
        learnt: Seq::new(origins.len(), |c: int| s.learnt[origins[c]]),
        scores: Seq::new(origins.len(), |c: int| s.scores[origins[c]]),
        watches: listing(clauses, s.watches.len(), clauses.len() as int),
        reason: Seq::new(s.reason.len(), |v: int| renamed(s.reason[v], origins)),
        ..s
    }
}

/// Forgets the stalest half of the clauses that may be forgotten; where that is none,
/// nothing changes.
#[verifier::opaque]
pub open spec fn forgotten(s: State) -> State {
    if removable_count(s, s.clauses.len() as int) < 2 {
        s
    } else {
        thinned(s, choose|origins: Seq<int>| spares(s, origins))
    }
}

/// The variable is not assigned and waits, and none such is tried before it.
pub open spec fn is_next(s: State, v: int) -> bool {
    &&& 0 <= v < s.order.waits.len()
    &&& s.order.waits[v]
    &&& s.assign[v] is None
    &&& forall|u: int|
        0 <= u < s.order.waits.len() && u != v && s.assign[u] is None
            && #[trigger] s.order.waits[u] ==> sat_order::outranks_in(s.order.activity, v, u)
}

/// The next variable to decide, in the way it was last assigned. It waits no longer,
/// nor do those that come before it.
#[verifier::opaque]
pub open spec fn picked(s: State) -> (State, Option<i32>) {
    if exists|v: int| is_next(s, v) {
        let v = choose|v: int| is_next(s, v);
        let waits = Seq::new(
            s.order.waits.len(),
            |u: int|
                s.order.waits[u] && u != v && !sat_order::outranks_in(s.order.activity, u, v),
        );
        (
            State { order: Waiting { waits: waits, ..s.order }, ..s },
            Some(
                if s.phase[v] {
                    (v + 1) as i32
                } else {
                    (-(v + 1)) as i32
                },
            ),
        )
    } else {
        let waits = Seq::new(s.order.waits.len(), |u: int| false);
        (State { order: Waiting { waits: waits, ..s.order }, ..s }, None)
    }
}

/// Learns from a conflict: goes back as far as the lesson allows and assigns what it
/// forces.
#[verifier::opaque]
pub open spec fn learned(s: State, c: int) -> State {
    let (after, lesson, back) = studied(s, c);
    let left = cancelled(after, back as int);
    if lesson.len() == 1 {
        assigned(left, lesson[0], None)
    } else {
        assigned(attached(left, lesson, true), lesson[0], Some(left.clauses.len() as usize))
    }
}

/// There is but one next variable.
pub proof fn lemma_next_is(s: State, v: int)
    requires
        is_next(s, v),
    ensures
        (choose|u: int| is_next(s, u)) == v,
{
    let other = choose|u: int| is_next(s, u);
    assert(is_next(s, other));
    if other != v {
        assert(s.order.waits[other] && s.order.waits[v]);
        assert(sat_order::outranks_in(s.order.activity, v, other));
        assert(sat_order::outranks_in(s.order.activity, other, v));
    }
}

proof fn lemma_spared_within(s: State, one: Seq<int>, other: Seq<int>, c: int)
    requires
        spares(s, one),
        spares(s, other),
        one.contains(c),
    ensures
        other.contains(c),
{
    if !other.contains(c) {
        let k = choose|k: int| 0 <= k < one.len() && one[k] == c;
        assert(0 <= one[k] < s.clauses.len());
        assert(exists|d: int| other.contains(d) && !one.contains(d)) by {
            if forall|d: int| other.contains(d) ==> one.contains(d) {
                assert(one.no_duplicates());
                assert(other.no_duplicates());
                one.unique_seq_to_set();
                other.unique_seq_to_set();
                vstd::seq_lib::seq_to_set_is_finite(one);
                vstd::seq_lib::seq_to_set_is_finite(other);
                let rest = one.to_set().remove(c);
                assert(other.to_set().subset_of(rest));
                vstd::set_lib::lemma_len_subset(other.to_set(), rest);
            }
        }
        let d = choose|d: int| other.contains(d) && !one.contains(d);
        let j = choose|j: int| 0 <= j < other.len() && other[j] == d;
        assert(0 <= other[j] < s.clauses.len());
        assert(removable(s, c) && removable(s, d));
        assert(staler(s, c, d));
        assert(staler(s, d, c));
    }
}

proof fn lemma_spared_at(s: State, one: Seq<int>, other: Seq<int>, i: int)
    requires
        spares(s, one),
        spares(s, other),
        0 <= i < one.len(),
        forall|j: int| 0 <= j < i ==> one[j] == other[j],
    ensures
        one[i] >= other[i],
{
    lemma_spared_within(s, one, other, one[i]);
    let k = choose|k: int| 0 <= k < other.len() && other[k] == one[i];
    if k < i {
        assert(one[k] == other[k]);
        assert(one[k] < one[i]);
    } else if k > i {
        assert(other[i] < other[k]);
    }
}

proof fn lemma_spared_alike(s: State, one: Seq<int>, other: Seq<int>, i: int)
    requires
        spares(s, one),
        spares(s, other),
        i <= one.len(),
    ensures
        forall|j: int| 0 <= j < i ==> one[j] == other[j],
    decreases i,
{
    if i > 0 {
        lemma_spared_alike(s, one, other, i - 1);
        lemma_spared_at(s, one, other, i - 1);
        lemma_spared_at(s, other, one, i - 1);
    }
}

/// What stays is settled by what there is.
pub proof fn lemma_forgotten_is(s: State, origins: Seq<int>)
    requires
        spares(s, origins),
        removable_count(s, s.clauses.len() as int) >= 2,
    ensures
        forgotten(s) == thinned(s, origins),
{
    let other = choose|other: Seq<int>| spares(s, other);
    lemma_spared_alike(s, origins, other, origins.len() as int);
    assert(origins =~= other);
    reveal(forgotten);
}

/// The literals among the first of a clause that are not false, each once.
pub open spec fn undecided(assign: Seq<Option<bool>>, clause: Seq<i32>, upto: int) -> Seq<i32>
    decreases upto,
{
    if upto <= 0 {
        Seq::empty()
    } else {
        let rest = undecided(assign, clause, upto - 1);
        let literal = clause[upto - 1];
        if sat_solver::is_false(assign, literal) || rest.contains(literal) {
            rest
        } else {
            rest.push(literal)
        }
    }
}

/// A clause of the formula taken in; `false` when that refutes the formula outright.
#[verifier::opaque]
pub open spec fn added(s: State, clause: Seq<i32>) -> (State, bool) {
    let literals = undecided(s.assign, clause, clause.len() as int);
    if exists|k: int| 0 <= k < clause.len() && sat_solver::is_true(s.assign, #[trigger] clause[k]) {
        (s, true)
    } else if literals.len() == 0 {
        (s, false)
    } else if literals.len() == 1 {
        let (next, clash) = propagated(assigned(s, literals[0], None));
        (next, clash is None)
    } else {
        (attached(s, literals, false), true)
    }
}

/// A search over variables that nothing constrains yet.
#[verifier::opaque]
pub open spec fn fresh(vars: nat) -> State {
    State {
        vars: vars,
        clauses: Seq::empty(),
        learnt: Seq::empty(),
        scores: Seq::empty(),
        watches: Seq::new(2 * vars, |slot: int| Seq::<usize>::empty()),
        assign: Seq::new(vars, |v: int| None::<bool>),
        level: Seq::new(vars, |v: int| 0usize),
        reason: Seq::new(vars, |v: int| None::<usize>),
        trail: Seq::empty(),
        lim: Seq::empty(),
        head: 0,
        phase: Seq::new(vars, |v: int| false),
        order: Waiting {
            waits: Seq::new(vars, |v: int| false),
            activity: Seq::new(vars, |v: int| 0u64),
            bump: sat_order::FIRST_BUMP,
        },
    }
}

/// A search under way: where it stands, how many conflicts it has met, how often it
/// has started over, how many conflicts ago it last did, and how many learnt clauses
/// it keeps.
pub struct Run {
    pub state: State,
    pub conflicts: nat,
    pub restarts: nat,
    pub since: nat,
    pub room: usize,
}

/// What a step of a search leads to.
pub enum Step {
    On(Run),
    Model(Seq<bool>),
    Refuted,
}

/// How a search ends.
pub enum Verdict {
    Sat(Seq<bool>),
    Unsat,
    Unknown,
}

/// A search that begins: every variable that is not assigned waits.
#[verifier::opaque]
pub open spec fn begun(s: State) -> Run {
    let waits = Seq::new(
        s.order.waits.len(),
        |v: int| s.order.waits[v] || s.assign[v] is None,
    );
    Run {
        state: State { order: Waiting { waits: waits, ..s.order }, ..s },
        conflicts: 0,
        restarts: 0,
        since: 0,
        room: if s.clauses.len() / 3 > 64 {
            (s.clauses.len() / 3) as usize
        } else {
            64
        },
    }
}

/// Half as much room again.
pub open spec fn roomier(room: usize) -> usize {
    if room + room / 2 <= usize::MAX {
        (room + room / 2) as usize
    } else {
        usize::MAX
    }
}

/// Opens a level with a decision.
pub open spec fn deciding(s: State, literal: i32) -> State {
    assigned(State { lim: s.lim.push(s.trail.len() as usize), ..s }, literal, None)
}

/// What a search does next: it follows what is forced, then learns from a conflict,
/// starts over, decides a variable, or is done.
#[verifier::opaque]
pub open spec fn stepped(r: Run) -> Step {
    let (s, clash) = propagated(r.state);
    if clash is Some {
        if s.lim.len() == 0 {
            Step::Refuted
        } else {
            let after = learned(s, clash->0 as int);
            Step::On(
                Run {
                    state: State { order: after.order.decayed(), ..after },
                    conflicts: r.conflicts + 1,
                    since: r.since + 1,
                    ..r
                },
            )
        }
    } else if r.since / 100 >= sat_solver::luby_number(r.restarts + 1) {
        let left = cancelled(s, 0);
        let full = left.learnt.filter(|is: bool| is).len() > r.room;
        Step::On(
            Run {
                state: if full {
                    forgotten(left)
                } else {
                    left
                },
                restarts: r.restarts + 1,
                since: 0,
                room: if full {
                    roomier(r.room)
                } else {
                    r.room
                },
                ..r
            },
        )
    } else {
        let (next, literal) = picked(s);
        match literal {
            None => Step::Model(Seq::new(next.assign.len(), |v: int| next.assign[v]->0)),
            Some(decision) => Step::On(Run { state: deciding(next, decision), ..r }),
        }
    }
}

/// Where a search is after a number of steps.
#[verifier::opaque]
pub open spec fn reached(r: Run, steps: nat) -> Step
    decreases steps,
{
    if steps == 0 {
        Step::On(r)
    } else {
        match reached(r, (steps - 1) as nat) {
            Step::On(at) => stepped(at),
            end => end,
        }
    }
}

/// A search goes on while it has met no conflict, or fewer than its budget.
pub open spec fn within(step: Step, budget: nat) -> bool {
    step matches Step::On(r) && (r.conflicts == 0 || r.conflicts < budget)
}

/// A search ends with a verdict after a number of steps, and not before.
pub open spec fn ends_after(r: Run, budget: nat, steps: nat, verdict: Verdict) -> bool {
    &&& forall|k: nat| k < steps ==> within(#[trigger] reached(r, k), budget)
    &&& match verdict {
        Verdict::Sat(model) => reached(r, steps) == Step::Model(model),
        Verdict::Unsat => reached(r, steps) is Refuted,
        Verdict::Unknown => reached(r, steps) is On && !within(reached(r, steps), budget),
    }
}

/// A search that gives up once it has met the conflicts of its budget ends with a
/// verdict.
pub open spec fn ends(r: Run, budget: nat, verdict: Verdict) -> bool {
    exists|steps: nat| ends_after(r, budget, steps, verdict)
}

/// A search goes on for a number of steps.
#[verifier::opaque]
pub open spec fn goes_on(r: Run, budget: nat, steps: nat, at: Run) -> bool {
    &&& forall|k: nat| k <= steps ==> within(#[trigger] reached(r, k), budget)
    &&& reached(r, steps) == Step::On(at)
}

pub(crate) proof fn lemma_run_begins(r: Run, budget: nat)
    requires
        r.conflicts == 0,
    ensures
        goes_on(r, budget, 0, r),
{
    reveal(goes_on);
    reveal(reached);
}

pub(crate) proof fn lemma_run_goes_on(r: Run, budget: nat, steps: nat, at: Run, next: Run)
    requires
        goes_on(r, budget, steps, at),
        stepped(at) == Step::On(next),
        next.conflicts == 0 || next.conflicts < budget,
    ensures
        goes_on(r, budget, steps + 1, next),
{
    reveal(goes_on);
    assert(reached(r, steps + 1) == Step::On(next)) by {
        reveal(reached);
    }
    assert forall|k: nat| k <= steps + 1 implies within(#[trigger] reached(r, k), budget) by {
        if k <= steps {
            assert(within(reached(r, k), budget));
        }
    }
}

pub(crate) proof fn lemma_run_ends(r: Run, budget: nat, steps: nat, at: Run, verdict: Verdict)
    requires
        goes_on(r, budget, steps, at),
        match verdict {
            Verdict::Sat(model) => stepped(at) == Step::Model(model),
            Verdict::Unsat => stepped(at) is Refuted,
            Verdict::Unknown => stepped(at) is On && !within(stepped(at), budget),
        },
    ensures
        ends(r, budget, verdict),
{
    reveal(goes_on);
    assert(reached(r, steps + 1) == stepped(at)) by {
        reveal(reached);
    }
    assert forall|k: nat| k < steps + 1 implies within(#[trigger] reached(r, k), budget) by {
        assert(within(reached(r, k), budget));
    }
    assert(ends_after(r, budget, steps + 1, verdict));
}

/// A search has one verdict under a budget.
pub proof fn lemma_one_verdict(r: Run, budget: nat, one: Verdict, other: Verdict)
    requires
        ends(r, budget, one),
        ends(r, budget, other),
    ensures
        one == other,
{
    let a = choose|steps: nat| ends_after(r, budget, steps, one);
    let b = choose|steps: nat| ends_after(r, budget, steps, other);
    assert(ends_after(r, budget, a, one) && ends_after(r, budget, b, other));
    if a < b {
        assert(within(reached(r, a), budget));
    } else if b < a {
        assert(within(reached(r, b), budget));
    }
}

/// A search that decides keeps its verdict under every larger budget.
pub proof fn lemma_verdict_stays(r: Run, budget: nat, larger: nat, verdict: Verdict)
    requires
        ends(r, budget, verdict),
        verdict !is Unknown,
        budget <= larger,
    ensures
        ends(r, larger, verdict),
{
    let steps = choose|steps: nat| ends_after(r, budget, steps, verdict);
    assert(ends_after(r, budget, steps, verdict));
    assert forall|k: nat| k < steps implies within(#[trigger] reached(r, k), larger) by {
        assert(within(reached(r, k), budget));
    }
    assert(ends_after(r, larger, steps, verdict));
}

/// A search with the clauses of a formula taken in, one after the other; `false` when
/// one of them refutes the formula outright.
pub open spec fn loaded(vars: nat, formula: Seq<Seq<i32>>) -> (State, bool)
    decreases formula.len(),
{
    if formula.len() == 0 {
        (fresh(vars), true)
    } else {
        let (s, standing) = loaded(vars, formula.drop_last());
        if standing {
            added(s, formula.last())
        } else {
            (s, false)
        }
    }
}

/// The verdict on a formula under a budget.
pub open spec fn judged(vars: nat, formula: Seq<Seq<i32>>, budget: nat, verdict: Verdict) -> bool {
    let (s, standing) = loaded(vars, formula);
    if standing {
        ends(begun(s), budget, verdict)
    } else {
        verdict is Unsat
    }
}

/// A formula has one verdict under a budget.
pub proof fn lemma_judged_once(
    vars: nat,
    formula: Seq<Seq<i32>>,
    budget: nat,
    one: Verdict,
    other: Verdict,
)
    requires
        judged(vars, formula, budget, one),
        judged(vars, formula, budget, other),
    ensures
        one == other,
{
    let (s, standing) = loaded(vars, formula);
    if standing {
        lemma_one_verdict(begun(s), budget, one, other);
    }
}

/// A formula that is decided under a budget is decided in the same way under every
/// larger one, the model included.
pub proof fn lemma_judged_for_good(
    vars: nat,
    formula: Seq<Seq<i32>>,
    budget: nat,
    larger: nat,
    verdict: Verdict,
)
    requires
        judged(vars, formula, budget, verdict),
        verdict !is Unknown,
        budget <= larger,
    ensures
        judged(vars, formula, larger, verdict),
{
    let (s, standing) = loaded(vars, formula);
    if standing {
        lemma_verdict_stays(begun(s), budget, larger, verdict);
    }
}

} // verus!
