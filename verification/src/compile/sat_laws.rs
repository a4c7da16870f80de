//! How the search for a model goes: which variable it tries next, which level it goes back
//! to and when it starts over; and how formulas are written down.

use crate::compile::double;
use crate::compile::sat_logic;
use crate::compile::sat_machine;
use crate::compile::sat_machine::{Run, State};
use crate::compile::sat_order;
use crate::compile::sat_order::Waiting;
use crate::compile::sat_solver;
use crate::compile::satcnf;
use crate::compile::satcnf::CnfView;
use crate::text;
use vstd::arithmetic::power2;
use vstd::prelude::*;

verus! {

/// The clauses of some groups are those whose group is one of them, in order.
pub proof fn lemma_clauses_of_groups(clauses: Seq<(Seq<i32>, usize)>, enabled: Set<usize>)
    ensures
        satcnf::selected(clauses, enabled) == clauses.filter(
            |clause: (Seq<i32>, usize)| enabled.contains(clause.1),
        ).map_values(|clause: (Seq<i32>, usize)| clause.0),
    decreases clauses.len(),
{
    let pred = |clause: (Seq<i32>, usize)| enabled.contains(clause.1);
    let inside = |clause: (Seq<i32>, usize)| clause.0;
    if clauses.len() == 0 {
        clauses.lemma_filter_len(pred);
        assert(satcnf::selected(clauses, enabled) =~= clauses.filter(pred).map_values(inside));
    } else {
        let before = clauses.drop_last();
        lemma_clauses_of_groups(before, enabled);
        assert(clauses =~= before.push(clauses.last()));
        before.lemma_filter_push(clauses.last(), pred);
        assert(satcnf::selected(clauses, enabled) =~= clauses.filter(pred).map_values(inside));
    }
}

/// A literal holds in a model exactly if its variable has the sign of the literal there;
/// variables are counted from one.
pub proof fn lemma_when_literals_hold(model: Seq<bool>, variable: i32)
    requires
        0 < variable <= model.len(),
    ensures
        sat_logic::lit_holds(model, variable) == model[variable - 1],
        sat_logic::lit_holds(model, (-variable) as i32) == !model[variable - 1],
{
}

/// A formula file has a line for the counts and a line for each clause.
pub proof fn lemma_lines_of_a_formula_file(clauses: Seq<(Seq<i32>, usize)>)
    ensures
        satcnf::dimacs_lines(clauses).filter(|c: char| c == '\n').len() == clauses.len(),
        clauses.len() > 0 ==> satcnf::dimacs_lines(clauses).last() == '\n',
    decreases clauses.len(),
{
    let ends = |c: char| c == '\n';
    reveal_strlit("0\n");
    if clauses.len() == 0 {
        satcnf::dimacs_lines(clauses).lemma_filter_len(ends);
    } else {
        let before = satcnf::dimacs_lines(clauses.drop_last());
        let literals = satcnf::dimacs_literals(clauses.last().0);
        lemma_lines_of_a_formula_file(clauses.drop_last());
        lemma_literals_stay_on_a_line(clauses.last().0);
        let body = before + literals;
        lemma_lines_add(before, literals);
        assert(satcnf::dimacs_lines(clauses) =~= body.push('0').push('\n'));
        body.lemma_filter_push('0', ends);
        body.push('0').lemma_filter_push('\n', ends);
    }
}

proof fn lemma_lines_add(one: Seq<char>, two: Seq<char>)
    ensures
        (one + two).filter(|c: char| c == '\n').len() == one.filter(|c: char| c == '\n').len()
            + two.filter(|c: char| c == '\n').len(),
    decreases two.len(),
{
    let ends = |c: char| c == '\n';
    if two.len() == 0 {
        two.lemma_filter_len(ends);
        assert(one + two =~= one);
    } else {
        let rest = two.drop_last();
        lemma_lines_add(one, rest);
        assert(one + two =~= (one + rest).push(two.last()));
        assert(two =~= rest.push(two.last()));
        (one + rest).lemma_filter_push(two.last(), ends);
        rest.lemma_filter_push(two.last(), ends);
    }
}

proof fn lemma_no_line_ends(written: Seq<char>)
    requires
        forall|i: int| 0 <= i < written.len() ==> #[trigger] written[i] != '\n',
    ensures
        written.filter(|c: char| c == '\n').len() == 0,
    decreases written.len(),
{
    let ends = |c: char| c == '\n';
    if written.len() == 0 {
        written.lemma_filter_len(ends);
    } else {
        let rest = written.drop_last();
        assert(written =~= rest.push(written.last()));
        assert(written[written.len() - 1] != '\n');
        assert forall|i: int| 0 <= i < rest.len() implies #[trigger] rest[i] != '\n' by {
            assert(rest[i] == written[i]);
        }
        lemma_no_line_ends(rest);
        rest.lemma_filter_push(written.last(), ends);
    }
}

proof fn lemma_literals_stay_on_a_line(clause: Seq<i32>)
    ensures
        satcnf::dimacs_literals(clause).filter(|c: char| c == '\n').len() == 0,
    decreases clause.len(),
{
    let ends = |c: char| c == '\n';
    reveal_strlit(" ");
    if clause.len() == 0 {
        satcnf::dimacs_literals(clause).lemma_filter_len(ends);
    } else {
        lemma_literals_stay_on_a_line(clause.drop_last());
        let n = clause.last() as int;
        let number = text::signed_decimal(n);
        text::lemma_decimal_value((if n < 0 {
            -n
        } else {
            n
        }) as nat);
        assert forall|i: int| 0 <= i < number.len() implies #[trigger] number[i] != '\n' by {
            if n < 0 {
                if i > 0 {
                    assert(text::is_digit(text::decimal((-n) as nat)[i - 1]));
                }
            } else {
                assert(text::is_digit(text::decimal(n as nat)[i]));
            }
        }
        lemma_no_line_ends(number);
        let before = satcnf::dimacs_literals(clause.drop_last());
        lemma_lines_add(before, number);
        assert(satcnf::dimacs_literals(clause) =~= (before + number).push(' '));
        (before + number).lemma_filter_push(' ', ends);
    }
}

/// The place that is found behind the first literal of a lesson is that of a literal of
/// the deepest level there, and the first such.
pub proof fn lemma_the_deepest_literal(level: Seq<usize>, clause: Seq<i32>, upto: int)
    requires
        2 <= upto <= clause.len(),
    ensures
        ({
            let best = sat_machine::deepest(level, clause, upto);
            let depth = |k: int| level[sat_logic::var_of(clause[k])];
            &&& 1 <= best < upto
            &&& forall|k: int| 1 <= k < upto ==> #[trigger] depth(k) <= depth(best)
            &&& forall|k: int| 1 <= k < best ==> #[trigger] depth(k) < depth(best)
        }),
    decreases upto,
{
    if upto > 2 {
        lemma_the_deepest_literal(level, clause, upto - 1);
        let before = sat_machine::deepest(level, clause, upto - 1);
        let best = sat_machine::deepest(level, clause, upto);
        let depth = |k: int| level[sat_logic::var_of(clause[k])];
        assert(depth(upto - 1) == level[sat_logic::var_of(clause[upto - 1])]);
        assert(depth(before) == level[sat_logic::var_of(clause[before])]);
        assert forall|k: int| 1 <= k < upto implies #[trigger] depth(k) <= depth(best) by {}
        assert forall|k: int| 1 <= k < best implies #[trigger] depth(k) < depth(best) by {}
    }
}

/// What is kept of a lesson: the complement of the literal that the conflict passes
/// through, and then the literals that may not go, in order.
pub proof fn lemma_what_is_kept_of_a_lesson(
    s: State,
    seen: Seq<bool>,
    chosen: i32,
    lesson: Seq<i32>,
    upto: int,
)
    requires
        1 <= upto <= lesson.len(),
    ensures
        sat_machine::cut(s, seen, chosen, lesson, upto) == seq![(-chosen) as i32]
            + lesson.subrange(1, upto).filter(
            |literal: i32| !sat_machine::droppable(s, seen, sat_logic::var_of(literal)),
        ),
    decreases upto,
{
    let pred = |literal: i32| !sat_machine::droppable(s, seen, sat_logic::var_of(literal));
    let kept = sat_machine::cut(s, seen, chosen, lesson, upto);
    if upto == 1 {
        lesson.subrange(1, 1).lemma_filter_len(pred);
        assert(kept =~= seq![(-chosen) as i32] + lesson.subrange(1, upto).filter(pred));
    } else {
        lemma_what_is_kept_of_a_lesson(s, seen, chosen, lesson, upto - 1);
        let last = lesson[upto - 1];
        assert(lesson.subrange(1, upto) =~= lesson.subrange(1, upto - 1).push(last));
        lesson.subrange(1, upto - 1).lemma_filter_push(last, pred);
        assert(kept =~= seq![(-chosen) as i32] + lesson.subrange(1, upto).filter(pred));
    }
}

/// A variable is tried before another if it is more active, or as active and lower in
/// number; of any two, one is tried before the other.
pub proof fn lemma_which_variable_is_tried_first(activity: Seq<u64>, left: int, right: int)
    ensures
        activity[left] > activity[right] ==> sat_order::outranks_in(activity, left, right),
        activity[left] == activity[right] ==> (sat_order::outranks_in(activity, left, right)
            <==> left < right),
        left != right ==> (sat_order::outranks_in(activity, left, right) <==> !(
        sat_order::outranks_in(activity, right, left))),
{
}

/// A search decides a variable that waits and is not assigned, and none such is more
/// active; it decides it the way it was last assigned. It decides none exactly if there is
/// none.
pub proof fn lemma_what_a_search_decides(s: State, literal: i32)
    requires
        s.order.waits.len() <= i32::MAX,
    ensures
        sat_machine::picked(s).1 == Some(literal) ==> {
            let v = sat_logic::var_of(literal);
            &&& 0 <= v < s.order.waits.len()
            &&& s.order.waits[v]
            &&& s.assign[v] is None
            &&& literal > 0 <==> s.phase[v]
            &&& forall|u: int|
                0 <= u < s.order.waits.len() && #[trigger] s.order.waits[u] && s.assign[u] is None
                    ==> s.order.activity[u] <= s.order.activity[v]
        },
        sat_machine::picked(s).1 is Some ==> exists|u: int|
            0 <= u < s.order.waits.len() && #[trigger] s.order.waits[u] && s.assign[u] is None,
        (exists|v: int| #[trigger] sat_machine::is_next(s, v)) ==> sat_machine::picked(
            s,
        ).1 is Some,
{
    reveal(sat_machine::picked);
    if exists|v: int| #[trigger] sat_machine::is_next(s, v) {
        let v = choose|v: int| #[trigger] sat_machine::is_next(s, v);
        assert(sat_machine::is_next(s, v));
        assert(s.order.waits[v]);
    }
}

/// What is taken off the trail is remembered: its variable is free again, waits again, and
/// is next decided as it was.
pub proof fn lemma_what_is_taken_back(s: State)
    requires
        s.trail.len() > 0,
        0 <= sat_logic::var_of(s.trail.last()) < s.assign.len(),
        s.assign.len() == s.phase.len(),
        s.assign.len() == s.order.waits.len(),
    ensures
        ({
            let literal = s.trail.last();
            let v = sat_logic::var_of(literal);
            let after = sat_machine::popped(s);
            &&& after.trail.len() == s.trail.len() - 1
            &&& after.assign[v] is None
            &&& after.phase[v] == (literal > 0)
            &&& after.order.waits[v]
            &&& forall|u: int|
                0 <= u < s.assign.len() && u != v ==> #[trigger] after.assign[u] == s.assign[u]
                    && after.phase[u] == s.phase[u]
        }),
{
}

/// The Luby sequence: the value at every power of two less one is half that power, and the
/// values between repeat those from the start.
pub proof fn lemma_the_luby_sequence(k: nat, x: nat)
    requires
        k >= 1,
    ensures
        sat_solver::luby_number((power2::pow2(k) - 1) as nat) == power2::pow2((k - 1) as nat),
        power2::pow2((k - 1) as nat) <= x < power2::pow2(k) - 1 ==> sat_solver::luby_number(x)
            == sat_solver::luby_number((x - power2::pow2((k - 1) as nat) + 1) as nat),
{
    power2::lemma2_to64();
    let half = power2::pow2((k - 1) as nat);
    power2::lemma_pow2_unfold(k);
    power2::lemma_pow2_pos((k - 1) as nat);
    lemma_top((k - 1) as nat, (power2::pow2(k) - 1) as nat);
    if half <= x < power2::pow2(k) - 1 {
        lemma_top((k - 1) as nat, x);
        if k == 1 {
            assert(half == 1);
        } else {
            power2::lemma_pow2_unfold((k - 1) as nat);
            power2::lemma_pow2_pos((k - 2) as nat);
        }
    }
}

proof fn lemma_top(k: nat, x: nat)
    requires
        power2::pow2(k) <= x < 2 * power2::pow2(k),
    ensures
        sat_solver::top_power(x) == power2::pow2(k),
    decreases k,
{
    power2::lemma2_to64();
    if k > 0 {
        power2::lemma_pow2_unfold(k);
        power2::lemma_pow2_pos((k - 1) as nat);
        lemma_top((k - 1) as nat, x / 2);
    }
}

/// A search begins with every free variable waiting, no conflict met, and room for a third
/// of the clauses but for sixty-four at least; room grows by half.
pub proof fn lemma_how_a_search_begins(s: State, v: int)
    requires
        0 <= v < s.order.waits.len(),
        s.clauses.len() <= usize::MAX,
    ensures
        ({
            let run = sat_machine::begun(s);
            &&& s.assign[v] is None ==> run.state.order.waits[v]
            &&& run.conflicts == 0 && run.restarts == 0 && run.since == 0
            &&& run.room >= 64
            &&& 3 * run.room >= s.clauses.len() - 2
            &&& run.room > 64 ==> 3 * run.room <= s.clauses.len()
        }),
        forall|room: usize|
            room <= usize::MAX / 2 ==> 3 * room - 1 <= 2 * #[trigger] sat_machine::roomier(room)
                <= 3 * room,
{
    reveal(sat_machine::begun);
}

/// A number is a multiple of the smallest one: zero none of it, the next number always
/// more, and one its proper share.
pub proof fn lemma_numbers_stand_in_order(bits: u64)
    requires
        bits < double::INFINITY - 1,
    ensures
        double::units(0) == 0,
        double::units(1) == 1,
        double::units(bits) < double::units((bits + 1) as u64),
        double::units(sat_order::FIRST_BUMP) == power2::pow2(double::ONE_IS as nat),
{
    power2::lemma2_to64();
    power2::lemma2_to64_rest();
    let next = (bits + 1) as u64;
    let e = double::exponent(bits);
    let f = double::exponent(next);
    power2::lemma_pow2_pos(e);
    if f == e {
        assert(double::digits(next) == double::digits(bits) + 1);
        assert(double::units(next) == double::digits(bits) * power2::pow2(e) + power2::pow2(e))
            by (nonlinear_arith)
            requires
                double::units(next) == (double::digits(bits) + 1) * power2::pow2(e),
        ;
    } else {
        assert(f == e + 1);
        power2::lemma_pow2_unfold(f);
        let m = double::digits(bits);
        let n = double::digits(next);
        assert(n == double::BINADE);
        assert(m == 2 * double::BINADE - 1);
        assert(n * (2 * power2::pow2(e)) > m * power2::pow2(e)) by (nonlinear_arith)
            requires
                2 * n == m + 1,
                power2::pow2(e) > 0,
        ;
    }
    assert(double::exponent(0) == 0 && double::exponent(1) == 0);
    assert(double::digits(0) == 0 && double::digits(1) == 1);
    assert(power2::pow2(0) == 1);
    assert(double::units(0) == 0 * power2::pow2(0));
    assert(double::units(1) == 1 * power2::pow2(0));
    power2::lemma_pow2_adds(52, 1022);
    assert(double::exponent(sat_order::FIRST_BUMP) == 1022);
    assert(double::digits(sat_order::FIRST_BUMP) == double::BINADE);
}

/// The clause holds a variable and its negation.
pub open spec fn holds_both(literals: Seq<i32>) -> bool {
    exists|literal: i32| #[trigger]
        literals.contains(literal) && literals.contains((-literal) as i32)
}

/// A clause is left out exactly if it holds a variable and its negation; any other is one
/// clause more, in the group that is named.
pub proof fn lemma_which_clauses_are_left_out(cnf: CnfView, literals: Seq<i32>, group: usize)
    requires
        forall|i: int| 0 <= i < literals.len() ==> #[trigger] literals[i] > i32::MIN,
    ensures
        holds_both(literals) ==> cnf.with(literals, group) == cnf,
        !holds_both(literals) ==> {
            let more = cnf.with(literals, group);
            &&& more.clauses.len() == cnf.clauses.len() + 1
            &&& more.clauses.last().1 == group
            &&& forall|literal: i32| #[trigger]
                more.clauses.last().0.contains(literal) <==> literals.contains(literal)
            &&& more.vars == cnf.vars
            &&& more.groups == cnf.groups
        },
{
    satcnf::lemma_canonical(literals);
    if holds_both(literals) {
        let literal = choose|literal: i32| #[trigger]
            literals.contains(literal) && literals.contains((-literal) as i32);
        let i = choose|i: int| 0 <= i < literals.len() && literals[i] == literal;
        let j = choose|j: int| 0 <= j < literals.len() && literals[j] == (-literal) as i32;
        assert(literals[j] == -literals[i]);
        assert(satcnf::tautology(literals));
    }
    if satcnf::tautology(literals) {
        let (i, j) = choose|i: int, j: int|
            0 <= i < literals.len() && 0 <= j < literals.len() && #[trigger] literals[i]
                == -#[trigger] literals[j];
        assert(literals.contains(literals[j]));
        assert(literals.contains(literals[i]));
        assert((-literals[j]) as i32 == literals[i]);
    }
}

/// The literals of a clause that are taken in are those that are not false, each once.
pub proof fn lemma_which_literals_are_taken_in(
    assign: Seq<Option<bool>>,
    clause: Seq<i32>,
    upto: int,
)
    requires
        0 <= upto <= clause.len(),
    ensures
        sat_machine::undecided(assign, clause, upto).no_duplicates(),
        forall|literal: i32| #[trigger]
            sat_machine::undecided(assign, clause, upto).contains(literal) <==> clause.take(
                upto,
            ).contains(literal) && !sat_solver::is_false(assign, literal),
    decreases upto,
{
    let all = sat_machine::undecided(assign, clause, upto);
    if upto > 0 {
        lemma_which_literals_are_taken_in(assign, clause, upto - 1);
        let before = sat_machine::undecided(assign, clause, upto - 1);
        let last = clause[upto - 1];
        assert(clause.take(upto) =~= clause.take(upto - 1).push(last));
        assert forall|literal: i32| #[trigger] all.contains(literal) <==> clause.take(
            upto,
        ).contains(literal) && !sat_solver::is_false(assign, literal) by {
            if clause.take(upto).contains(literal) {
                let taken = clause.take(upto);
                let i = choose|i: int| 0 <= i < taken.len() && taken[i] == literal;
                if i < upto - 1 {
                    assert(clause.take(upto - 1)[i] == literal);
                }
            }
            if clause.take(upto - 1).contains(literal) {
                let fewer = clause.take(upto - 1);
                let i = choose|i: int| 0 <= i < fewer.len() && fewer[i] == literal;
                assert(clause.take(upto)[i] == literal);
            }
            if all.contains(literal) {
                let i = choose|i: int| 0 <= i < all.len() && all[i] == literal;
                if i < before.len() {
                    assert(before[i] == literal);
                    assert(before.contains(literal));
                } else {
                    assert(literal == last);
                    assert(clause.take(upto)[upto - 1] == last);
                }
            }
            if before.contains(literal) {
                let i = choose|i: int| 0 <= i < before.len() && before[i] == literal;
                assert(all[i] == literal);
            }
            if literal == last && !sat_solver::is_false(assign, last) && !before.contains(last) {
                assert(all[before.len() as int] == last);
            }
        }
    }
}

/// A search that meets no conflict starts over exactly once it has met a hundred conflicts
/// for each step of the Luby sequence since it last did, and else decides or is done; one
/// that meets a conflict counts it.
pub proof fn lemma_when_a_search_starts_over(r: Run)
    ensures
        ({
            let (s, clash) = sat_machine::propagated(r.state);
            let due = r.since >= 100 * sat_solver::luby_number(r.restarts + 1);
            match sat_machine::stepped(r) {
                sat_machine::Step::On(next) => {
                    &&& clash is Some ==> next.conflicts == r.conflicts + 1 && next.since == r.since
                        + 1 && next.restarts == r.restarts && s.lim.len() > 0
                    &&& clash is None && due ==> next.restarts == r.restarts + 1 && next.since == 0
                        && next.conflicts == r.conflicts
                    &&& clash is None && !due ==> next.restarts == r.restarts && next.since
                        == r.since && next.conflicts == r.conflicts
                        && next.state.lim.len() == s.lim.len() + 1
                },
                sat_machine::Step::Model(_) => clash is None && !due,
                sat_machine::Step::Refuted => clash is Some && s.lim.len() == 0,
            }
        }),
{
    reveal(sat_machine::stepped);
    reveal(sat_machine::picked);
}

/// Raising a variable makes it no less active and leaves the others as they are, unless all
/// are scaled down together; it never changes which variables wait.
pub proof fn lemma_what_raising_does(waiting: Waiting, variable: int, other: int)
    requires
        0 <= variable < waiting.activity.len(),
        0 <= other < waiting.activity.len(),
        other != variable,
        waiting.activity[variable] <= double::INFINITY,
        waiting.bump <= double::INFINITY,
    ensures
        ({
            let after = waiting.raised(variable);
            let grown = double::sum_of(waiting.activity[variable], waiting.bump);
            &&& after.waits == waiting.waits
            &&& grown >= waiting.activity[variable]
            &&& grown <= sat_order::ACTIVITY_LIMIT ==> after.activity[variable] == grown
                && after.activity[other] == waiting.activity[other] && after.bump == waiting.bump
            &&& grown > sat_order::ACTIVITY_LIMIT ==> after.activity[other] == double::product_of(
                waiting.activity[other],
                sat_order::ACTIVITY_SCALE,
            ) && after.activity[variable] == double::product_of(grown, sat_order::ACTIVITY_SCALE)
                && after.bump == double::product_of(waiting.bump, sat_order::ACTIVITY_SCALE)
            &&& waiting.decayed().activity == waiting.activity
            &&& waiting.decayed().waits == waiting.waits
        }),
{
    double::lemma_sum_grows(waiting.activity[variable], waiting.bump);
}

} // verus!
