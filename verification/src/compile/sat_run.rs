//! What a search for a model went through: its conflicts, one after the other.

use crate::compile::sat_logic;
use crate::compile::sat_solver;
use vstd::prelude::*;

verus! {

/// A conflict that a search meets, and what it learns from it.
///
/// `held` are the clauses stored at the time, `trail` what was assigned, in order,
/// and `lim` where on it the decisions stand. The clause numbered `clash` has gone
/// false. The search learns `lesson`, and goes back to the start of the level after
/// `back`. It had started over `restarts` times, and met `since` conflicts since.
#[verifier::ext_equal]
pub struct Conflict {
    pub held: Seq<Seq<i32>>,
    pub trail: Seq<i32>,
    pub lim: Seq<usize>,
    pub clash: int,
    pub lesson: Seq<i32>,
    pub back: int,
    pub restarts: nat,
    pub since: nat,
}

/// A trail makes a literal false.
pub open spec fn gone(trail: Seq<i32>, literal: i32) -> bool {
    trail.contains((-literal) as i32)
}

/// A trail says nothing of a literal.
pub open spec fn undecided(trail: Seq<i32>, literal: i32) -> bool {
    !trail.contains(literal) && !gone(trail, literal)
}

/// The entry of a trail is the one literal of the clause that the entries before
/// it leave.
pub open spec fn forces(clause: Seq<i32>, trail: Seq<i32>, at: int) -> bool {
    &&& clause.contains(trail[at])
    &&& forall|j: int|
        0 <= j < clause.len() && clause[j] != trail[at] ==> gone(
            trail.take(at),
            #[trigger] clause[j],
        )
}

/// A clause forces the entry of a trail.
pub open spec fn forced(held: Seq<Seq<i32>>, trail: Seq<i32>, at: int) -> bool {
    exists|c: int| 0 <= c < held.len() && forces(#[trigger] held[c], trail, at)
}

/// The entry of a trail was decided.
pub open spec fn decided(lim: Seq<usize>, at: int) -> bool {
    exists|k: int| 0 <= k < lim.len() && #[trigger] lim[k] == at
}

/// The trail makes the clause true, or leaves two of its literals open: the clause
/// forces nothing more.
pub open spec fn at_rest(clause: Seq<i32>, trail: Seq<i32>) -> bool {
    ||| exists|j: int| 0 <= j < clause.len() && trail.contains(#[trigger] clause[j])
    ||| exists|i: int, j: int|
        0 <= i < j < clause.len() && #[trigger] clause[i] != #[trigger] clause[j] && undecided(
            trail,
            clause[i],
        ) && undecided(trail, clause[j])
}

/// No clause forces anything more: all that follows one clause at a time is on the
/// trail.
pub open spec fn propagated(held: Seq<Seq<i32>>, trail: Seq<i32>) -> bool {
    forall|c: int| 0 <= c < held.len() ==> at_rest(#[trigger] held[c], trail)
}

/// The literals of a trail, as clauses.
pub open spec fn units(trail: Seq<i32>) -> Seq<Seq<i32>> {
    Seq::new(trail.len(), |i: int| seq![trail[i]])
}

/// The conflict is one of a search for a model of `formula`.
///
/// What is on the trail before the first decision follows from the formula, and
/// every other entry is a decision or forced by a clause. Decisions are made only
/// where nothing more is forced. The lesson follows from what is held; all of it is
/// false, its first literal alone since the last decision, and the others already
/// at the level that the search goes back to: there it forces its first literal,
/// which nothing forced before.
pub open spec fn is_conflict(formula: Seq<Seq<i32>>, vars: nat, met: Conflict) -> bool {
    &&& 0 <= met.back < met.lim.len()
    &&& forall|k: int| 0 <= k < met.lim.len() ==> #[trigger] met.lim[k] < met.trail.len()
    &&& forall|i: int|
        0 <= i < met.lim[0] ==> sat_logic::entails(formula, vars, seq![#[trigger] met.trail[i]])
    &&& forall|i: int|
        met.lim[0] <= i < met.trail.len() ==> decided(met.lim, i) || #[trigger] forced(
            met.held,
            met.trail,
            i,
        )
    &&& forall|k: int|
        0 <= k < met.lim.len() ==> propagated(met.held, met.trail.take(#[trigger] met.lim[k] as int))
    &&& 0 <= met.clash < met.held.len()
    &&& forall|j: int|
        0 <= j < met.held[met.clash].len() ==> gone(met.trail, #[trigger] met.held[met.clash][j])
    &&& met.lesson.len() > 0
    &&& sat_logic::entails(
        met.held + units(met.trail.take(met.lim[0] as int)),
        vars,
        met.lesson,
    )
    &&& gone(met.trail, met.lesson[0])
    &&& undecided(met.trail.take(met.lim.last() as int), met.lesson[0])
    &&& forall|j: int|
        1 <= j < met.lesson.len() ==> gone(
            met.trail.take(met.lim[met.back] as int),
            #[trigger] met.lesson[j],
        )
}

/// The clause is made of literals of a clause of the formula.
pub open spec fn made_of(formula: Seq<Seq<i32>>, clause: Seq<i32>) -> bool {
    exists|f: int|
        0 <= f < formula.len() && sat_logic::literals_within(clause, #[trigger] formula[f])
}

/// The clause is made of literals of a clause of the formula, or is the lesson of
/// one of the first `count` conflicts.
pub open spec fn has_source(
    formula: Seq<Seq<i32>>,
    run: Seq<Conflict>,
    count: int,
    clause: Seq<i32>,
) -> bool {
    ||| made_of(formula, clause)
    ||| exists|j: int|
        0 <= j < count && sat_logic::same_literals((#[trigger] run[j]).lesson, clause)
}

/// A search goes on from a conflict: it still holds every clause, and the lesson,
/// and its trail begins with what was left of the old one and what the lesson
/// forces.
pub open spec fn goes_on(
    met: Conflict,
    held: Seq<Seq<i32>>,
    trail: Seq<i32>,
    lim: Seq<usize>,
) -> bool {
    &&& met.trail.take(met.lim[met.back] as int).push(met.lesson[0]).is_prefix_of(trail)
    &&& met.lim.take(met.back).is_prefix_of(lim)
    &&& met.held.len() <= held.len()
    &&& forall|c: int|
        0 <= c < met.held.len() ==> sat_logic::same_literals(met.held[c], #[trigger] held[c])
    &&& met.lesson.len() >= 2 ==> met.held.len() < held.len() && sat_logic::same_literals(
        met.lesson,
        held[met.held.len() as int],
    )
}

/// A search may start over after a conflict: it met a hundred conflicts, as many
/// times as the Luby sequence has it.
pub open spec fn is_due(met: Conflict) -> bool {
    (met.since + 1) / 100 >= sat_solver::luby_number(met.restarts + 1)
}

/// The conflict after the `k`-th is met going on from it, or after starting over.
pub open spec fn follows(run: Seq<Conflict>, k: int) -> bool {
    let met = run[k];
    let next = run[k + 1];
    ||| next.restarts == met.restarts && next.since == met.since + 1 && goes_on(
        met,
        next.held,
        next.trail,
        next.lim,
    )
    ||| next.restarts == met.restarts + 1 && next.since == 0 && is_due(met)
}

/// The conflicts are those of one search for a model of `formula`, from its start
/// on: each is met going on from the one before, or after starting over when that
/// is due, and what is held comes from the formula and from earlier lessons.
pub open spec fn conflict_run(formula: Seq<Seq<i32>>, vars: nat, run: Seq<Conflict>) -> bool {
    &&& run.len() > 0 ==> run[0].restarts == 0 && run[0].since == 0
    &&& forall|k: int| 0 <= k < run.len() ==> is_conflict(formula, vars, #[trigger] run[k])
    &&& forall|k: int, c: int|
        0 <= k < run.len() && 0 <= c < run[k].held.len() ==> has_source(
            formula,
            run,
            k,
            #[trigger] run[k].held[c],
        )
    &&& forall|k: int| 0 <= k < run.len() - 1 ==> #[trigger] follows(run, k)
}

/// Where a search stands after the conflicts of `run`: with `held`, `trail` and
/// `lim`, `restarts` times started over, and `since` conflicts since.
pub open spec fn stands(
    formula: Seq<Seq<i32>>,
    vars: nat,
    run: Seq<Conflict>,
    held: Seq<Seq<i32>>,
    trail: Seq<i32>,
    lim: Seq<usize>,
    restarts: nat,
    since: nat,
) -> bool {
    &&& conflict_run(formula, vars, run)
    &&& forall|c: int|
        0 <= c < held.len() ==> has_source(formula, run, run.len() as int, #[trigger] held[c])
    &&& run.len() == 0 ==> restarts == 0 && since == 0
    &&& run.len() > 0 ==> {
        ||| restarts == run.last().restarts && since == run.last().since + 1 && goes_on(
            run.last(),
            held,
            trail,
            lim,
        )
        ||| restarts == run.last().restarts + 1 && since == 0 && is_due(run.last())
    }
}

pub(crate) proof fn lemma_same_literals_chain(one: Seq<i32>, two: Seq<i32>, three: Seq<i32>)
    requires
        sat_logic::same_literals(one, two),
        sat_logic::same_literals(two, three),
    ensures
        sat_logic::same_literals(one, three),
{
    assert forall|i: int| 0 <= i < one.len() implies three.contains(#[trigger] one[i]) by {
        assert(two.contains(one[i]));
        let j = choose|j: int| 0 <= j < two.len() && two[j] == one[i];
        assert(three.contains(two[j]));
    }
    assert forall|i: int| 0 <= i < three.len() implies one.contains(#[trigger] three[i]) by {
        assert(two.contains(three[i]));
        let j = choose|j: int| 0 <= j < two.len() && two[j] == three[i];
        assert(one.contains(two[j]));
    }
}

/// A clause keeps its source under another order of its literals.
pub proof fn lemma_source_reordered(
    formula: Seq<Seq<i32>>,
    run: Seq<Conflict>,
    count: int,
    clause: Seq<i32>,
    other: Seq<i32>,
)
    requires
        has_source(formula, run, count, clause),
        sat_logic::same_literals(clause, other),
    ensures
        has_source(formula, run, count, other),
{
    if made_of(formula, clause) {
        let f = choose|f: int|
            0 <= f < formula.len() && sat_logic::literals_within(clause, #[trigger] formula[f]);
        assert forall|i: int| 0 <= i < other.len() implies formula[f].contains(
            #[trigger] other[i],
        ) by {
            assert(clause.contains(other[i]));
            let j = choose|j: int| 0 <= j < clause.len() && clause[j] == other[i];
            assert(formula[f].contains(clause[j]));
        }
        assert(sat_logic::literals_within(other, formula[f]));
    } else {
        let j = choose|j: int|
            0 <= j < count && sat_logic::same_literals((#[trigger] run[j]).lesson, clause);
        lemma_same_literals_chain(run[j].lesson, clause, other);
        assert(sat_logic::same_literals(run[j].lesson, other));
    }
}

/// A search that has assigned more, and reordered what it holds, stands where it
/// stood.
pub proof fn lemma_still_stands(
    formula: Seq<Seq<i32>>,
    vars: nat,
    run: Seq<Conflict>,
    held: Seq<Seq<i32>>,
    trail: Seq<i32>,
    lim: Seq<usize>,
    restarts: nat,
    since: nat,
    later_held: Seq<Seq<i32>>,
    later_trail: Seq<i32>,
    later_lim: Seq<usize>,
)
    requires
        stands(formula, vars, run, held, trail, lim, restarts, since),
        held.len() == later_held.len(),
        forall|c: int|
            0 <= c < held.len() ==> sat_logic::same_literals(held[c], #[trigger] later_held[c]),
        trail.is_prefix_of(later_trail),
        lim.is_prefix_of(later_lim),
    ensures
        stands(formula, vars, run, later_held, later_trail, later_lim, restarts, since),
{
    assert forall|c: int| 0 <= c < later_held.len() implies has_source(
        formula,
        run,
        run.len() as int,
        #[trigger] later_held[c],
    ) by {
        assert(has_source(formula, run, run.len() as int, held[c]));
        lemma_source_reordered(formula, run, run.len() as int, held[c], later_held[c]);
    }
    if run.len() > 0 && goes_on(run.last(), held, trail, lim) {
        let met = run.last();
        let left = met.trail.take(met.lim[met.back] as int).push(met.lesson[0]);
        assert(left =~= later_trail.subrange(0, left.len() as int)) by {
            assert(left =~= trail.subrange(0, left.len() as int));
            assert(trail =~= later_trail.subrange(0, trail.len() as int));
            assert forall|i: int| 0 <= i < left.len() implies left[i] == later_trail[i] by {
                assert(left[i] == trail.subrange(0, left.len() as int)[i]);
                assert(trail[i] == later_trail.subrange(0, trail.len() as int)[i]);
            }
        }
        let levels = met.lim.take(met.back);
        assert(levels =~= later_lim.subrange(0, levels.len() as int)) by {
            assert(levels =~= lim.subrange(0, levels.len() as int));
            assert(lim =~= later_lim.subrange(0, lim.len() as int));
            assert forall|i: int| 0 <= i < levels.len() implies levels[i] == later_lim[i] by {
                assert(levels[i] == lim.subrange(0, levels.len() as int)[i]);
                assert(lim[i] == later_lim.subrange(0, lim.len() as int)[i]);
            }
        }
        assert forall|c: int| 0 <= c < met.held.len() implies sat_logic::same_literals(
            met.held[c],
            #[trigger] later_held[c],
        ) by {
            lemma_same_literals_chain(met.held[c], held[c], later_held[c]);
        }
        if met.lesson.len() >= 2 {
            let c = met.held.len() as int;
            lemma_same_literals_chain(met.lesson, held[c], later_held[c]);
        }
        assert(goes_on(met, later_held, later_trail, later_lim));
    }
}

/// A conflict that a search meets where it stands goes on its run, and the search
/// then stands after it.
pub proof fn lemma_meets(
    formula: Seq<Seq<i32>>,
    vars: nat,
    run: Seq<Conflict>,
    met: Conflict,
    held: Seq<Seq<i32>>,
    trail: Seq<i32>,
    lim: Seq<usize>,
)
    requires
        stands(formula, vars, run, met.held, met.trail, met.lim, met.restarts, met.since),
        is_conflict(formula, vars, met),
        trail == met.trail.take(met.lim[met.back] as int).push(met.lesson[0]),
        lim == met.lim.take(met.back),
        held == (if met.lesson.len() >= 2 {
            met.held.push(met.lesson)
        } else {
            met.held
        }),
    ensures
        stands(
            formula,
            vars,
            run.push(met),
            held,
            trail,
            lim,
            met.restarts,
            met.since + 1,
        ),
{
    let longer = run.push(met);
    let count = run.len() as int;
    assert forall|k: int, c: int| 0 <= k < longer.len() && 0 <= c < longer[k].held.len() implies has_source(
        formula,
        longer,
        k,
        #[trigger] longer[k].held[c],
    ) by {
        let clause = longer[k].held[c];
        if k < count {
            assert(has_source(formula, run, k, run[k].held[c]));
        } else {
            assert(has_source(formula, run, count, met.held[c]));
        }
        lemma_source_kept(formula, run, met, k, clause);
    }
    assert forall|k: int| 0 <= k < longer.len() - 1 implies #[trigger] follows(longer, k) by {
        if k < count - 1 {
            assert(follows(run, k));
        } else {
            assert(longer[k] == run.last());
            assert(longer[k + 1] == met);
        }
    }
    assert forall|k: int| 0 <= k < longer.len() implies is_conflict(
        formula,
        vars,
        #[trigger] longer[k],
    ) by {
        if k < count {
            assert(is_conflict(formula, vars, run[k]));
        }
    }
    assert(conflict_run(formula, vars, longer));
    assert forall|c: int| 0 <= c < held.len() implies has_source(
        formula,
        longer,
        count + 1,
        #[trigger] held[c],
    ) by {
        if c < met.held.len() {
            assert(has_source(formula, run, count, met.held[c]));
            lemma_source_kept(formula, run, met, count, held[c]);
            if exists|j: int|
                0 <= j < count && sat_logic::same_literals((#[trigger] longer[j]).lesson, held[c]) {
                let j = choose|j: int|
                    0 <= j < count && sat_logic::same_literals(
                        (#[trigger] longer[j]).lesson,
                        held[c],
                    );
                assert(0 <= j < count + 1);
            }
        } else {
            lemma_same_literals_itself(met.lesson);
            assert(sat_logic::same_literals(longer[count].lesson, held[c]));
        }
    }
    assert(longer.last() == met);
    assert(goes_on(met, held, trail, lim)) by {
        assert(trail =~= trail.subrange(0, trail.len() as int));
        assert(lim =~= lim.subrange(0, lim.len() as int));
        assert forall|c: int| 0 <= c < met.held.len() implies sat_logic::same_literals(
            met.held[c],
            #[trigger] held[c],
        ) by {
            lemma_same_literals_itself(met.held[c]);
        }
        lemma_same_literals_itself(met.lesson);
    }
}

proof fn lemma_source_kept(
    formula: Seq<Seq<i32>>,
    run: Seq<Conflict>,
    met: Conflict,
    count: int,
    clause: Seq<i32>,
)
    requires
        0 <= count <= run.len(),
        has_source(formula, run, count, clause),
    ensures
        has_source(formula, run.push(met), count, clause),
{
    if exists|j: int|
        0 <= j < count && sat_logic::same_literals((#[trigger] run[j]).lesson, clause) {
        let j = choose|j: int|
            0 <= j < count && sat_logic::same_literals((#[trigger] run[j]).lesson, clause);
        assert(run.push(met)[j] == run[j]);
    }
}

pub(crate) proof fn lemma_same_literals_itself(clause: Seq<i32>)
    ensures
        sat_logic::same_literals(clause, clause),
{
    assert forall|i: int| 0 <= i < clause.len() implies clause.contains(#[trigger] clause[i]) by {}
}

/// A search that is due starts over with some of what it held.
pub proof fn lemma_starts_over(
    formula: Seq<Seq<i32>>,
    vars: nat,
    run: Seq<Conflict>,
    held: Seq<Seq<i32>>,
    trail: Seq<i32>,
    lim: Seq<usize>,
    restarts: nat,
    since: nat,
    later_held: Seq<Seq<i32>>,
    later_trail: Seq<i32>,
    later_lim: Seq<usize>,
)
    requires
        stands(formula, vars, run, held, trail, lim, restarts, since),
        since > 0,
        since / 100 >= sat_solver::luby_number(restarts + 1),
        forall|c: int| 0 <= c < later_held.len() ==> held.contains(#[trigger] later_held[c]),
    ensures
        stands(
            formula,
            vars,
            run,
            later_held,
            later_trail,
            later_lim,
            restarts + 1,
            0,
        ),
{
    assert forall|c: int| 0 <= c < later_held.len() implies has_source(
        formula,
        run,
        run.len() as int,
        #[trigger] later_held[c],
    ) by {
        assert(held.contains(later_held[c]));
        let d = choose|d: int| 0 <= d < held.len() && held[d] == later_held[c];
        assert(has_source(formula, run, run.len() as int, held[d]));
    }
}

} // verus!
