//! A complete decision procedure for propositional formulas: conflict-driven
//! clause learning over two watched literals.

use crate::compile::sat_logic;
use crate::compile::sat_machine;
use crate::compile::sat_machine::Marks;
use crate::compile::sat_machine::Run;
use crate::compile::sat_machine::State;
use crate::compile::sat_machine::Verdict;
use crate::compile::sat_order;
use crate::compile::sat_order::VarOrder;
use crate::compile::sat_order::Waiting;
use crate::compile::sat_run;
use crate::compile::satcnf::Outcome;
use vstd::arithmetic::power2;
use vstd::prelude::*;

verus! {

/// What an assignment says of a literal.
pub open spec fn val(assign: Seq<Option<bool>>, literal: i32) -> Option<bool> {
    match assign[sat_logic::var_of(literal)] {
        Some(b) => Some(b == (literal > 0)),
        None => None,
    }
}

pub open spec fn is_true(assign: Seq<Option<bool>>, literal: i32) -> bool {
    val(assign, literal) == Some(true)
}

pub open spec fn is_false(assign: Seq<Option<bool>>, literal: i32) -> bool {
    val(assign, literal) == Some(false)
}

/// The trail lists every assigned variable once, and `when` says where.
pub open spec fn trail_ok(
    vars: nat,
    assign: Seq<Option<bool>>,
    trail: Seq<i32>,
    when: Seq<int>,
) -> bool {
    &&& assign.len() == vars
    &&& when.len() == vars
    &&& forall|i: int|
        0 <= i < trail.len() ==> sat_logic::lit_ok(#[trigger] trail[i], vars) && is_true(
            assign,
            trail[i],
        ) && when[sat_logic::var_of(trail[i])] == i
    &&& forall|v: int|
        0 <= v < vars && #[trigger] assign[v] is Some ==> 0 <= when[v] < trail.len()
            && sat_logic::var_of(trail[when[v]]) == v
}

/// How much of the trail was forced before any decision.
pub open spec fn ground(trail: Seq<i32>, lim: Seq<usize>) -> int {
    if lim.len() == 0 {
        trail.len() as int
    } else {
        lim[0] as int
    }
}

/// `lim` cuts the trail into decision levels, and `level` records them.
pub open spec fn levels_ok(trail: Seq<i32>, lim: Seq<usize>, level: Seq<usize>) -> bool {
    &&& forall|k: int| 0 <= k < lim.len() ==> #[trigger] lim[k] <= trail.len()
    &&& forall|k: int, l: int| 0 <= k < l < lim.len() ==> #[trigger] lim[k] <= #[trigger] lim[l]
    &&& forall|i: int|
        0 <= i < trail.len() ==> level[sat_logic::var_of(#[trigger] trail[i])] <= lim.len()
    &&& forall|i: int, k: int|
        #![trigger trail[i], lim[k]]
        0 <= i < trail.len() && 0 <= k < lim.len() ==> (lim[k] <= i
            <==> level[sat_logic::var_of(trail[i])] > k)
}

/// Clause `r` forced `literal`, the `at`-th on the trail: it stands first, and
/// the rest of the clause was false by then.
pub open spec fn reason_ok(
    clauses: Seq<Vec<i32>>,
    assign: Seq<Option<bool>>,
    when: Seq<int>,
    r: int,
    literal: i32,
    at: int,
) -> bool {
    &&& 0 <= r < clauses.len()
    &&& clauses[r]@[0] == literal
    &&& forall|j: int|
        1 <= j < clauses[r]@.len() ==> is_false(assign, #[trigger] clauses[r]@[j])
            && when[sat_logic::var_of(clauses[r]@[j])] < at
}

/// Past the ground level, whatever has no reason is a decision.
pub open spec fn reasons_ok(
    clauses: Seq<Vec<i32>>,
    assign: Seq<Option<bool>>,
    trail: Seq<i32>,
    lim: Seq<usize>,
    reason: Seq<Option<usize>>,
    when: Seq<int>,
) -> bool {
    forall|i: int|
        #![trigger trail[i]]
        ground(trail, lim) <= i < trail.len() ==> match reason[sat_logic::var_of(trail[i])] {
            Some(r) => reason_ok(clauses, assign, when, r as int, trail[i], i),
            None => exists|k: int| 0 <= k < lim.len() && #[trigger] lim[k] == i,
        }
}

pub open spec fn clauses_ok(clauses: Seq<Vec<i32>>, vars: nat) -> bool {
    forall|c: int|
        0 <= c < clauses.len() ==> (#[trigger] clauses[c])@.len() >= 2 && sat_logic::clause_ok(
            clauses[c]@,
            vars,
        ) && clauses[c]@.no_duplicates()
}

/// The watch list a literal has.
pub open spec fn slot_of(literal: i32) -> int {
    2 * sat_logic::var_of(literal) + if literal < 0 {
        1int
    } else {
        0int
    }
}

/// Whether clause `c` watches the literal of `slot`.
pub open spec fn watched_at(clauses: Seq<Vec<i32>>, c: int, slot: int) -> bool {
    slot == slot_of(clauses[c]@[0]) || slot == slot_of(clauses[c]@[1])
}

/// Each of the first `upto` clauses stands once in the lists of its first two
/// literals, and in no other list.
pub open spec fn watches_ok(
    clauses: Seq<Vec<i32>>,
    watches: Seq<Vec<usize>>,
    vars: nat,
    upto: int,
) -> bool {
    &&& watches.len() == 2 * vars
    &&& upto <= clauses.len()
    &&& forall|s: int, p: int|
        #![trigger watches[s]@[p]]
        0 <= s < watches.len() && 0 <= p < watches[s]@.len() ==> watches[s]@[p] < upto
            && watched_at(clauses, watches[s]@[p] as int, s)
    &&& forall|s: int| 0 <= s < watches.len() ==> (#[trigger] watches[s])@.no_duplicates()
    &&& forall|c: int|
        0 <= c < upto ==> listed(watches, slot_of((#[trigger] clauses[c])@[0]), c) && listed(
            watches,
            slot_of(clauses[c]@[1]),
            c,
        )
}

/// Whether clause `c` stands in the list of `slot`.
pub open spec fn listed(watches: Seq<Vec<usize>>, slot: int, c: int) -> bool {
    exists|p: int| 0 <= p < watches[slot]@.len() && #[trigger] watches[slot]@[p] == c
}

/// If `watch` went false before trail position `head`, then `other` is true
/// and has been since no later level.
pub open spec fn watch_settled(
    assign: Seq<Option<bool>>,
    level: Seq<usize>,
    when: Seq<int>,
    head: int,
    watch: i32,
    other: i32,
) -> bool {
    is_false(assign, watch) && when[sat_logic::var_of(watch)] < head ==> is_true(assign, other)
        && level[sat_logic::var_of(other)] <= level[sat_logic::var_of(watch)]
}

pub open spec fn clause_settled(
    clause: Seq<i32>,
    assign: Seq<Option<bool>>,
    level: Seq<usize>,
    when: Seq<int>,
    head: int,
) -> bool {
    watch_settled(assign, level, when, head, clause[0], clause[1]) && watch_settled(
        assign,
        level,
        when,
        head,
        clause[1],
        clause[0],
    )
}

/// Every clause has dealt with what the first `head` trail entries falsified.
pub open spec fn settled(
    clauses: Seq<Vec<i32>>,
    assign: Seq<Option<bool>>,
    level: Seq<usize>,
    when: Seq<int>,
    head: int,
) -> bool {
    forall|c: int|
        0 <= c < clauses.len() ==> clause_settled(
            (#[trigger] clauses[c])@,
            assign,
            level,
            when,
            head,
        )
}

/// Everything stored follows from the formula.
pub open spec fn sound(
    formula: Seq<Seq<i32>>,
    vars: nat,
    clauses: Seq<Vec<i32>>,
    trail: Seq<i32>,
    lim: Seq<usize>,
) -> bool {
    &&& forall|c: int|
        0 <= c < clauses.len() ==> sat_logic::entails(formula, vars, (#[trigger] clauses[c])@)
    &&& forall|i: int|
        0 <= i < ground(trail, lim) && i < trail.len() ==> sat_logic::entails(
            formula,
            vars,
            seq![#[trigger] trail[i]],
        )
}

/// A stored clause made of literals of `clause` alone, and not a learnt one.
pub open spec fn kept_in(clause: Seq<i32>, clauses: Seq<Vec<i32>>, learnt: Seq<bool>) -> bool {
    exists|c: int|
        0 <= c < clauses.len() && !learnt[c] && sat_logic::literals_within(
            (#[trigger] clauses[c])@,
            clause,
        )
}

/// A ground literal makes `clause` true.
pub open spec fn ground_true(clause: Seq<i32>, trail: Seq<i32>, lim: Seq<usize>) -> bool {
    exists|i: int|
        0 <= i < ground(trail, lim) && i < trail.len() && clause.contains(#[trigger] trail[i])
}

/// Nothing of the formula is lost: satisfying what is stored satisfies it.
pub open spec fn covering(
    formula: Seq<Seq<i32>>,
    clauses: Seq<Vec<i32>>,
    learnt: Seq<bool>,
    trail: Seq<i32>,
    lim: Seq<usize>,
) -> bool {
    forall|f: int|
        0 <= f < formula.len() ==> kept_in(#[trigger] formula[f], clauses, learnt) || ground_true(
            formula[f],
            trail,
            lim,
        )
}

/// The solver's state.
///
/// `formula` is what has been added so far, `covered` as much of it as has been
/// stored, and `when` the place of each assigned variable on the trail.
pub struct Solver {
    pub vars: usize,
    pub clauses: Vec<Vec<i32>>,
    pub learnt: Vec<bool>,
    pub clause_activity: Vec<u64>,
    pub watches: Vec<Vec<usize>>,
    pub assign: Vec<Option<bool>>,
    pub level: Vec<usize>,
    pub reason: Vec<Option<usize>>,
    pub trail: Vec<i32>,
    pub trail_lim: Vec<usize>,
    pub head: usize,
    pub order: VarOrder,
    pub phase: Vec<bool>,
    /// Marks of the conflict analysis, kept across conflicts and cleared by
    /// the entries it touched.
    pub seen: Vec<bool>,
    pub seen_touched: Vec<usize>,
    pub conflicts: u64,
    pub formula: Ghost<Seq<Seq<i32>>>,
    pub covered: Ghost<Seq<Seq<i32>>>,
    pub when: Ghost<Seq<int>>,
}

impl Solver {
    pub open spec fn shaped(&self) -> bool {
        &&& self.vars <= i32::MAX
        &&& self.learnt@.len() == self.clauses@.len()
        &&& self.clause_activity@.len() == self.clauses@.len()
        &&& self.level@.len() == self.vars
        &&& self.reason@.len() == self.vars
        &&& self.phase@.len() == self.vars
        &&& self.seen@.len() == self.vars
        &&& self.head <= self.trail@.len()
        &&& self.order.wf(self.vars as nat)
        &&& forall|v: int|
            0 <= v < self.vars && #[trigger] self.seen@[v] ==> self.seen_touched@.contains(
                v as usize,
            )
        &&& forall|i: int|
            0 <= i < self.seen_touched@.len() ==> #[trigger] self.seen_touched@[i] < self.vars
    }

    /// Everything that holds between any two steps of the search.
    pub open spec fn consistent(&self) -> bool {
        &&& self.shaped()
        &&& trail_ok(self.vars as nat, self.assign@, self.trail@, self.when@)
        &&& levels_ok(self.trail@, self.trail_lim@, self.level@)
        &&& reasons_ok(
            self.clauses@,
            self.assign@,
            self.trail@,
            self.trail_lim@,
            self.reason@,
            self.when@,
        )
        &&& clauses_ok(self.clauses@, self.vars as nat)
        &&& watches_ok(
            self.clauses@,
            self.watches@,
            self.vars as nat,
            self.clauses@.len() as int,
        )
        &&& sound(self.formula@, self.vars as nat, self.clauses@, self.trail@, self.trail_lim@)
        &&& covering(self.covered@, self.clauses@, self.learnt@, self.trail@, self.trail_lim@)
    }

    /// Every clause has dealt with the trail up to `head`.
    pub open spec fn settled_to(&self, head: int) -> bool {
        settled(self.clauses@, self.assign@, self.level@, self.when@, head)
    }

    /// What is still to propagate was assigned at the current level.
    pub open spec fn pending_current(&self) -> bool {
        forall|i: int|
            self.head <= i < self.trail@.len() ==> self.level@[sat_logic::var_of(
                #[trigger] self.trail@[i],
            )] == self.trail_lim@.len()
    }

    /// Every unassigned variable waits to be decided.
    pub open spec fn all_waiting(&self) -> bool {
        forall|v: int|
            0 <= v < self.vars && #[trigger] self.assign@[v] is None ==> self.order.holds(v)
    }

    pub fn new(vars: usize) -> (solver: Solver)
        requires
            vars <= i32::MAX,
            2 * vars <= usize::MAX,
        ensures
            solver.consistent(),
            solver.vars == vars,
            solver.formula@ == Seq::<Seq<i32>>::empty(),
            solver.covered@ == Seq::<Seq<i32>>::empty(),
            solver.trail@.len() == 0,
            solver.trail_lim@.len() == 0,
            solver.clauses@.len() == 0,
            solver.settled_to(0),
            solver.head == 0,
            solver.conflicts == 0,
            from_formula(solver.clauses@, solver.formula@),
            state_of(solver) == sat_machine::fresh(vars as nat),
    {
        proof {
            reveal(from_formula);
        }
        let mut watches: Vec<Vec<usize>> = Vec::new();
        let mut slot: usize = 0;
        while slot < 2 * vars
            invariant
                2 * vars <= usize::MAX,
                slot <= 2 * vars,
                watches@.len() == slot,
                forall|s: int| 0 <= s < slot ==> (#[trigger] watches@[s])@.len() == 0,
            decreases 2 * vars - slot,
        {
            watches.push(Vec::new());
            slot = slot + 1;
        }
        let solver: Solver = Solver {
            vars,
            clauses: Vec::new(),
            learnt: Vec::new(),
            clause_activity: Vec::new(),
            watches,
            assign: vec![None; vars],
            level: vec![0usize; vars],
            reason: vec![None; vars],
            trail: Vec::new(),
            trail_lim: Vec::new(),
            head: 0,
            order: VarOrder::new(vars),
            phase: vec![false; vars],
            seen: vec![false; vars],
            seen_touched: Vec::new(),
            conflicts: 0,
            formula: Ghost(Seq::empty()),
            covered: Ghost(Seq::empty()),
            when: Ghost(Seq::new(vars as nat, |v: int| 0int)),
        };
        proof {
            let fresh = sat_machine::fresh(vars as nat);
            reveal(state_of);
            reveal(sat_machine::fresh);
            assert(held(solver) =~= fresh.clauses);
            assert(lists(solver.watches@) =~~= fresh.watches);
            assert(solver.assign@ =~= fresh.assign);
            assert(solver.level@ =~= fresh.level);
            assert(solver.reason@ =~= fresh.reason);
            assert(solver.phase@ =~= fresh.phase);
            assert(solver.order@ =~= fresh.order);
        }
        solver
    }

    fn value(&self, literal: i32) -> (found: Option<bool>)
        requires
            sat_logic::lit_ok(literal, self.assign@.len()),
            self.assign@.len() <= i32::MAX,
        ensures
            found == val(self.assign@, literal),
    {
        match self.assign[variable_of(literal)] {
            Some(b) => Some(b == (literal > 0)),
            None => None,
        }
    }

    fn decision_level(&self) -> (level: usize)
        ensures
            level == self.trail_lim@.len(),
    {
        self.trail_lim.len()
    }

    /// Makes `literal` true, unless it already is; `false` if it is false.
    ///
    /// `reason` is the clause that forces it, or nothing for a decision and
    /// for what holds without one.
    fn enqueue(&mut self, literal: i32, reason: Option<usize>) -> (done: bool)
        requires
            old(self).consistent(),
            sat_logic::lit_ok(literal, old(self).vars as nat),
            old(self).trail_lim@.len() == 0 ==> sat_logic::entails(
                old(self).formula@,
                old(self).vars as nat,
                seq![literal],
            ),
            old(self).trail_lim@.len() > 0 && val(old(self).assign@, literal) is None
                ==> match reason {
                Some(r) => reason_ok(
                    old(self).clauses@,
                    old(self).assign@,
                    old(self).when@,
                    r as int,
                    literal,
                    old(self).trail@.len() as int,
                ),
                None => old(self).trail_lim@.last() == old(self).trail@.len(),
            },
        ensures
            final(self).consistent(),
            done == !is_false(old(self).assign@, literal),
            val(old(self).assign@, literal) is Some ==> *final(self) == *old(self),
            val(old(self).assign@, literal) is None ==> {
                &&& final(self).trail@ == old(self).trail@.push(literal)
                &&& final(self).assign@ == old(self).assign@.update(
                    sat_logic::var_of(literal),
                    Some(literal > 0),
                )
                &&& final(self).level@ == old(self).level@.update(
                    sat_logic::var_of(literal),
                    old(self).trail_lim.len(),
                )
                &&& final(self).when@ == old(self).when@.update(
                    sat_logic::var_of(literal),
                    old(self).trail@.len() as int,
                )
                &&& final(self).reason@ == old(self).reason@.update(
                    sat_logic::var_of(literal),
                    reason,
                )
            },
            final(self).same_store(old(self)),
            final(self).clauses == old(self).clauses,
            final(self).watches == old(self).watches,
            final(self).head == old(self).head,
            final(self).phase == old(self).phase,
    {
        match self.value(literal) {
            None => {
                let variable: usize = variable_of(literal);
                let ghost before = *self;
                self.assign[variable] = Some(literal > 0);
                self.level[variable] = self.trail_lim.len();
                self.reason[variable] = reason;
                self.trail.push(literal);
                proof {
                    self.when@ = self.when@.update(
                        variable as int,
                        before.trail@.len() as int,
                    );
                    lemma_enqueued(before, *self, literal, reason);
                }
                true
            },
            Some(b) => b,
        }
    }

    /// What no step of the search but learning and forgetting touches.
    pub open spec fn same_store(&self, other: &Solver) -> bool {
        &&& self.vars == other.vars
        &&& self.learnt == other.learnt
        &&& self.clause_activity == other.clause_activity
        &&& self.trail_lim == other.trail_lim
        &&& self.order == other.order
        &&& self.seen == other.seen
        &&& self.seen_touched == other.seen_touched
        &&& self.conflicts == other.conflicts
        &&& self.formula == other.formula
        &&& self.covered == other.covered
    }
}

/// The variable a literal speaks of, counted from 0.
fn variable_of(literal: i32) -> (variable: usize)
    requires
        literal != 0,
        literal > i32::MIN,
    ensures
        variable == sat_logic::var_of(literal),
{
    if literal < 0 {
        (-literal) as usize - 1
    } else {
        literal as usize - 1
    }
}

/// The watch list a literal has.
fn index_of(literal: i32) -> (slot: usize)
    requires
        literal != 0,
        literal > i32::MIN,
        2 * sat_logic::var_of(literal) + 1 <= usize::MAX,
    ensures
        slot == slot_of(literal),
{
    let twice: usize = 2 * variable_of(literal);
    if literal < 0 {
        twice + 1
    } else {
        twice
    }
}

/// Pushing an unassigned literal on the trail keeps the state consistent.
proof fn lemma_enqueued(before: Solver, after: Solver, literal: i32, reason: Option<usize>)
    requires
        before.consistent(),
        sat_logic::lit_ok(literal, before.vars as nat),
        val(before.assign@, literal) is None,
        before.trail_lim@.len() == 0 ==> sat_logic::entails(
            before.formula@,
            before.vars as nat,
            seq![literal],
        ),
        before.trail_lim@.len() > 0 ==> match reason {
            Some(r) => reason_ok(
                before.clauses@,
                before.assign@,
                before.when@,
                r as int,
                literal,
                before.trail@.len() as int,
            ),
            None => before.trail_lim@.last() == before.trail@.len(),
        },
        after.same_store(&before),
        after.clauses == before.clauses,
        after.watches == before.watches,
        after.head == before.head,
        after.phase == before.phase,
        after.trail@ == before.trail@.push(literal),
        after.assign@ == before.assign@.update(sat_logic::var_of(literal), Some(literal > 0)),
        after.level@ == before.level@.update(
            sat_logic::var_of(literal),
            before.trail_lim.len(),
        ),
        after.reason@ == before.reason@.update(sat_logic::var_of(literal), reason),
        after.when@ == before.when@.update(
            sat_logic::var_of(literal),
            before.trail@.len() as int,
        ),
    ensures
        after.consistent(),
{
    let v = sat_logic::var_of(literal);
    let n = before.vars as nat;
    assert forall|i: int| 0 <= i < after.trail@.len() implies sat_logic::lit_ok(
        #[trigger] after.trail@[i],
        n,
    ) && is_true(after.assign@, after.trail@[i]) && after.when@[sat_logic::var_of(
        after.trail@[i],
    )] == i by {
        if i < before.trail@.len() {
            assert(after.trail@[i] == before.trail@[i]);
        }
    }
    assert forall|u: int| 0 <= u < n && #[trigger] after.assign@[u] is Some implies 0
        <= after.when@[u] < after.trail@.len() && sat_logic::var_of(after.trail@[after.when@[u]])
        == u by {
        if u != v {
            assert(before.assign@[u] is Some);
        }
    }
    assert(trail_ok(n, after.assign@, after.trail@, after.when@));
    assert forall|i: int, k: int|
        #![trigger after.trail@[i], after.trail_lim@[k]]
        0 <= i < after.trail@.len() && 0 <= k < after.trail_lim@.len() implies (
    after.trail_lim@[k] <= i <==> after.level@[sat_logic::var_of(after.trail@[i])] > k) by {
        if i < before.trail@.len() {
            assert(after.trail@[i] == before.trail@[i]);
            assert(sat_logic::var_of(before.trail@[i]) != v);
        } else {
            assert(before.trail_lim@[k] <= before.trail@.len());
        }
    }
    assert forall|i: int| 0 <= i < after.trail@.len() implies after.level@[sat_logic::var_of(
        #[trigger] after.trail@[i],
    )] <= after.trail_lim@.len() by {
        if i < before.trail@.len() {
            assert(after.trail@[i] == before.trail@[i]);
        }
    }
    assert(levels_ok(after.trail@, after.trail_lim@, after.level@));
    assert forall|i: int|
        #![trigger after.trail@[i]]
        ground(after.trail@, after.trail_lim@) <= i
            < after.trail@.len() implies match after.reason@[sat_logic::var_of(after.trail@[i])] {
        Some(r) => reason_ok(
            after.clauses@,
            after.assign@,
            after.when@,
            r as int,
            after.trail@[i],
            i,
        ),
        None => exists|k: int|
            0 <= k < after.trail_lim@.len() && #[trigger] after.trail_lim@[k] == i,
    } by {
        if i < before.trail@.len() {
            assert(after.trail@[i] == before.trail@[i]);
            assert(sat_logic::var_of(before.trail@[i]) != v);
            match before.reason@[sat_logic::var_of(before.trail@[i])] {
                Some(r) => {
                    assert forall|j: int| 1 <= j < after.clauses@[r as int]@.len() implies is_false(
                        after.assign@,
                        #[trigger] after.clauses@[r as int]@[j],
                    ) && after.when@[sat_logic::var_of(after.clauses@[r as int]@[j])] < i by {
                        assert(is_false(before.assign@, before.clauses@[r as int]@[j]));
                    }
                },
                None => {},
            }
        } else {
            match reason {
                Some(r) => {
                    assert forall|j: int| 1 <= j < after.clauses@[r as int]@.len() implies is_false(
                        after.assign@,
                        #[trigger] after.clauses@[r as int]@[j],
                    ) && after.when@[sat_logic::var_of(after.clauses@[r as int]@[j])] < i by {
                        assert(is_false(before.assign@, before.clauses@[r as int]@[j]));
                    }
                },
                None => {
                    let k = after.trail_lim@.len() - 1;
                    assert(after.trail_lim@[k] == i);
                },
            }
        }
    }
    assert forall|i: int|
        0 <= i < ground(after.trail@, after.trail_lim@) && i
            < after.trail@.len() implies sat_logic::entails(
        after.formula@,
        n,
        seq![#[trigger] after.trail@[i]],
    ) by {
        if i < before.trail@.len() {
            assert(after.trail@[i] == before.trail@[i]);
        } else if after.trail_lim@.len() > 0 {
            assert(after.trail_lim@[0] <= before.trail@.len());
        }
    }
    assert(sound(after.formula@, n, after.clauses@, after.trail@, after.trail_lim@));
    assert forall|f: int| 0 <= f < after.covered@.len() implies kept_in(
        #[trigger] after.covered@[f],
        after.clauses@,
        after.learnt@,
    ) || ground_true(after.covered@[f], after.trail@, after.trail_lim@) by {
        if ground_true(before.covered@[f], before.trail@, before.trail_lim@) {
            let i = choose|i: int|
                0 <= i < ground(before.trail@, before.trail_lim@) && i < before.trail@.len()
                    && before.covered@[f].contains(#[trigger] before.trail@[i]);
            assert(after.trail@[i] == before.trail@[i]);
        }
    }
}

proof fn lemma_slots_differ(left: i32, right: i32)
    requires
        left != 0,
        right != 0,
        slot_of(left) == slot_of(right),
    ensures
        left == right,
{
}

/// No more literals can be assigned than there are variables.
proof fn lemma_trail_fits(vars: nat, assign: Seq<Option<bool>>, trail: Seq<i32>, when: Seq<int>)
    requires
        trail_ok(vars, assign, trail, when),
    ensures
        trail.len() <= vars,
{
    let named = trail.map_values(|l: i32| sat_logic::var_of(l));
    assert(named.no_duplicates()) by {
        assert forall|i: int, j: int|
            0 <= i < named.len() && 0 <= j < named.len() && i != j implies named[i]
            != named[j] by {
            assert(when[sat_logic::var_of(trail[i])] == i);
            assert(when[sat_logic::var_of(trail[j])] == j);
        }
    }
    named.unique_seq_to_set();
    let bound = vstd::set_lib::set_int_range(0, vars as int);
    vstd::set_lib::lemma_int_range(0, vars as int);
    assert(named.to_set().subset_of(bound)) by {
        assert forall|v: int| named.to_set().contains(v) implies bound.contains(v) by {
            let i = choose|i: int| 0 <= i < named.len() && named[i] == v;
            assert(sat_logic::lit_ok(trail[i], vars));
        }
    }
    vstd::set_lib::lemma_len_subset(named.to_set(), bound);
}

/// Permuting the literals of one clause keeps the state consistent but for
/// the watch lists, as long as a clause that is somebody's reason keeps its
/// first literal.
proof fn lemma_permuted(before: Solver, after: Solver, c: int)
    requires
        before.consistent(),
        after.same_store(&before),
        after.assign == before.assign,
        after.level == before.level,
        after.reason == before.reason,
        after.trail == before.trail,
        after.when == before.when,
        after.head == before.head,
        after.phase == before.phase,
        after.clauses@.len() == before.clauses@.len(),
        0 <= c < before.clauses@.len(),
        forall|d: int|
            0 <= d < before.clauses@.len() && d != c ==> #[trigger] after.clauses@[d]
                == before.clauses@[d],
        sat_logic::same_literals(before.clauses@[c]@, after.clauses@[c]@),
        after.clauses@[c]@.no_duplicates(),
        after.clauses@[c]@[0] == before.clauses@[c]@[0] || is_false(
            before.assign@,
            before.clauses@[c]@[0],
        ),
    ensures
        after.shaped(),
        trail_ok(after.vars as nat, after.assign@, after.trail@, after.when@),
        levels_ok(after.trail@, after.trail_lim@, after.level@),
        reasons_ok(
            after.clauses@,
            after.assign@,
            after.trail@,
            after.trail_lim@,
            after.reason@,
            after.when@,
        ),
        clauses_ok(after.clauses@, after.vars as nat),
        sound(after.formula@, after.vars as nat, after.clauses@, after.trail@, after.trail_lim@),
        covering(after.covered@, after.clauses@, after.learnt@, after.trail@, after.trail_lim@),
{
    let n = before.vars as nat;
    let was = before.clauses@[c]@;
    let now = after.clauses@[c]@;
    assert(clauses_ok(after.clauses@, n)) by {
        assert forall|d: int| 0 <= d < after.clauses@.len() implies (
        #[trigger] after.clauses@[d])@.len() >= 2 && sat_logic::clause_ok(after.clauses@[d]@, n)
            && after.clauses@[d]@.no_duplicates() by {
            assert(before.clauses@[d]@.len() >= 2);
            if d == c {
                assert forall|i: int| 0 <= i < now.len() implies sat_logic::lit_ok(
                    #[trigger] now[i],
                    n,
                ) by {
                    assert(was.contains(now[i]));
                    let j = choose|j: int| 0 <= j < was.len() && was[j] == now[i];
                    assert(sat_logic::lit_ok(was[j], n));
                }
            }
        }
    }
    assert forall|i: int|
        #![trigger after.trail@[i]]
        ground(after.trail@, after.trail_lim@) <= i
            < after.trail@.len() implies match after.reason@[sat_logic::var_of(after.trail@[i])] {
        Some(r) => reason_ok(
            after.clauses@,
            after.assign@,
            after.when@,
            r as int,
            after.trail@[i],
            i,
        ),
        None => exists|k: int|
            0 <= k < after.trail_lim@.len() && #[trigger] after.trail_lim@[k] == i,
    } by {
        assert(before.trail@[i] == after.trail@[i]);
        match before.reason@[sat_logic::var_of(before.trail@[i])] {
            Some(r) => {
                if r == c {
                    assert(was[0] == before.trail@[i]);
                    assert(is_true(before.assign@, was[0]));
                    assert forall|j: int| 1 <= j < now.len() implies is_false(
                        after.assign@,
                        #[trigger] now[j],
                    ) && after.when@[sat_logic::var_of(now[j])] < i by {
                        assert(was.contains(now[j]));
                        let k = choose|k: int| 0 <= k < was.len() && was[k] == now[j];
                        if k == 0 {
                            assert(now[0] == now[j]);
                        }
                    }
                }
            },
            None => {},
        }
    }
    assert forall|d: int| 0 <= d < after.clauses@.len() implies sat_logic::entails(
        after.formula@,
        n,
        (#[trigger] after.clauses@[d])@,
    ) by {
        assert(sat_logic::entails(before.formula@, n, before.clauses@[d]@));
        if d == c {
            assert forall|m: Seq<bool>|
                m.len() == n && #[trigger] sat_logic::formula_holds(
                    m,
                    before.formula@,
                ) implies sat_logic::clause_holds(m, now) by {
                sat_logic::lemma_within_holds(m, was, now);
            }
        }
    }
    assert forall|f: int| 0 <= f < after.covered@.len() implies kept_in(
        #[trigger] after.covered@[f],
        after.clauses@,
        after.learnt@,
    ) || ground_true(after.covered@[f], after.trail@, after.trail_lim@) by {
        if kept_in(before.covered@[f], before.clauses@, before.learnt@) {
            let d = choose|d: int|
                0 <= d < before.clauses@.len() && !before.learnt@[d] && sat_logic::literals_within(
                    (#[trigger] before.clauses@[d])@,
                    before.covered@[f],
                );
            if d == c {
                assert forall|i: int| 0 <= i < now.len() implies before.covered@[f].contains(
                    #[trigger] now[i],
                ) by {
                    assert(was.contains(now[i]));
                    let j = choose|j: int| 0 <= j < was.len() && was[j] == now[i];
                    assert(before.covered@[f].contains(was[j]));
                }
            }
            assert(sat_logic::literals_within(after.clauses@[d]@, after.covered@[f]));
        }
    }
}

/// A clause false everywhere but in its first literal, on the ground, forces
/// that literal.
proof fn lemma_unit_entailed(solver: Solver, c: int)
    requires
        solver.consistent(),
        solver.trail_lim@.len() == 0,
        0 <= c < solver.clauses@.len(),
        forall|j: int|
            1 <= j < solver.clauses@[c]@.len() ==> is_false(
                solver.assign@,
                #[trigger] solver.clauses@[c]@[j],
            ),
    ensures
        sat_logic::entails(
            solver.formula@,
            solver.vars as nat,
            seq![solver.clauses@[c]@[0]],
        ),
{
    let n = solver.vars as nat;
    let clause = solver.clauses@[c]@;
    assert forall|m: Seq<bool>|
        m.len() == n && #[trigger] sat_logic::formula_holds(
            m,
            solver.formula@,
        ) implies sat_logic::clause_holds(m, seq![clause[0]]) by {
        assert(sat_logic::entails(solver.formula@, n, clause));
        assert(sat_logic::clause_holds(m, clause));
        let i = choose|i: int| 0 <= i < clause.len() && sat_logic::lit_holds(m, #[trigger] clause[i]);
        if i > 0 {
            lemma_ground_agrees(solver, m, clause[i]);
        }
        assert(sat_logic::lit_holds(m, seq![clause[0]][0]));
    }
}

/// On the ground, a model of the formula makes no false literal true.
proof fn lemma_ground_agrees(solver: Solver, m: Seq<bool>, literal: i32)
    requires
        solver.consistent(),
        sat_logic::lit_ok(literal, solver.vars as nat),
        is_false(solver.assign@, literal),
        solver.when@[sat_logic::var_of(literal)] < ground(solver.trail@, solver.trail_lim@),
        m.len() == solver.vars,
        sat_logic::formula_holds(m, solver.formula@),
    ensures
        !sat_logic::lit_holds(m, literal),
{
    let v = sat_logic::var_of(literal);
    assert(solver.assign@[v] is Some);
    let i = solver.when@[v];
    let t = solver.trail@[i];
    assert(sat_logic::entails(solver.formula@, solver.vars as nat, seq![t]));
    assert(sat_logic::clause_holds(m, seq![t]));
    assert(sat_logic::lit_holds(m, t));
    assert(is_true(solver.assign@, t));
}

/// An assignment that grows at the end of the trail leaves settled clauses
/// settled.
proof fn lemma_settled_grows(before: Solver, after: Solver, literal: i32, head: int, clause: Seq<i32>)
    requires
        before.consistent(),
        val(before.assign@, literal) is None,
        sat_logic::lit_ok(literal, before.vars as nat),
        after.assign@ == before.assign@.update(sat_logic::var_of(literal), Some(literal > 0)),
        after.level@ == before.level@.update(
            sat_logic::var_of(literal),
            before.trail_lim.len(),
        ),
        after.when@ == before.when@.update(
            sat_logic::var_of(literal),
            before.trail@.len() as int,
        ),
        head <= before.trail@.len(),
        clause.len() >= 2,
        sat_logic::clause_ok(clause, before.vars as nat),
        clause_settled(clause, before.assign@, before.level@, before.when@, head),
    ensures
        clause_settled(clause, after.assign@, after.level@, after.when@, head),
{
    assert(sat_logic::lit_ok(clause[0], before.vars as nat));
    assert(sat_logic::lit_ok(clause[1], before.vars as nat));
}

/// The lists of watches.
pub open spec fn lists(watches: Seq<Vec<usize>>) -> Seq<Seq<usize>> {
    Seq::new(watches.len(), |s: int| watches[s]@)
}

/// Where the search of a solver stands.
#[verifier::opaque]
pub open spec fn state_of(solver: Solver) -> State {
    State {
        vars: solver.vars as nat,
        clauses: held(solver),
        learnt: solver.learnt@,
        scores: solver.clause_activity@,
        watches: lists(solver.watches@),
        assign: solver.assign@,
        level: solver.level@,
        reason: solver.reason@,
        trail: solver.trail@,
        lim: solver.trail_lim@,
        head: solver.head as nat,
        phase: solver.phase@,
        order: solver.order@,
    }
}

/// A clause that watches a literal which went false shows the other one first.
spec fn turned_to(before: Solver, after: Solver, c: int, gone: i32) -> bool {
    &&& 0 <= c < before.clauses@.len()
    &&& after.same_store(&before)
    &&& after.assign == before.assign
    &&& after.level == before.level
    &&& after.reason == before.reason
    &&& after.trail == before.trail
    &&& after.head == before.head
    &&& after.phase == before.phase
    &&& after.watches == before.watches
    &&& after.clauses@.len() == before.clauses@.len()
    &&& forall|d: int|
        0 <= d < before.clauses@.len() && d != c ==> #[trigger] after.clauses@[d]
            == before.clauses@[d]
    &&& after.clauses@[c]@ == (if before.clauses@[c]@[0] == gone {
        sat_machine::swapped(before.clauses@[c]@, 0, 1)
    } else {
        before.clauses@[c]@
    })
}

proof fn lemma_turned(before: Solver, after: Solver, c: int, gone: i32)
    requires
        turned_to(before, after, c, gone),
    ensures
        state_of(after) == (State {
            clauses: state_of(before).clauses.update(c, after.clauses@[c]@),
            ..state_of(before)
        }),
{
    reveal(state_of);
    assert(held(after) =~= held(before).update(c, after.clauses@[c]@));
}

/// A visit to a clause that is true.
proof fn lemma_visit_true(start: Solver, ready: Solver, gone: i32, p: int)
    requires
        0 <= slot_of(gone) < start.watches@.len(),
        0 <= p < start.watches@[slot_of(gone)]@.len(),
        turned_to(start, ready, start.watches@[slot_of(gone)]@[p] as int, gone),
        is_true(start.assign@, ready.clauses@[start.watches@[slot_of(gone)]@[p] as int]@[0]),
    ensures
        sat_machine::visited(state_of(start), gone, p) == (state_of(ready), p + 1, None::<usize>),
{
    let c = start.watches@[slot_of(gone)]@[p] as int;
    lemma_turned(start, ready, c, gone);
    reveal(state_of);
    reveal(sat_machine::visited);
    assert(lists(start.watches@)[slot_of(gone)][p] == c);
    assert(held(start)[c] == start.clauses@[c]@);
}

/// A visit to a clause that finds another literal to watch.
proof fn lemma_visit_moves(
    start: Solver,
    ready: Solver,
    after: Solver,
    gone: i32,
    p: int,
    position: int,
)
    requires
        0 <= slot_of(gone) < start.watches@.len(),
        0 <= p < start.watches@[slot_of(gone)]@.len(),
        turned_to(start, ready, start.watches@[slot_of(gone)]@[p] as int, gone),
        ({
            let c = start.watches@[slot_of(gone)]@[p] as int;
            let clause = ready.clauses@[c]@;
            &&& clause.len() >= 2
            &&& !is_true(start.assign@, clause[0])
            &&& 2 <= position < clause.len()
            &&& forall|j: int|
                2 <= j < position ==> is_false(start.assign@, #[trigger] clause[j])
            &&& !is_false(start.assign@, clause[position])
            &&& after.same_store(&ready)
            &&& after.assign == ready.assign
            &&& after.level == ready.level
            &&& after.reason == ready.reason
            &&& after.trail == ready.trail
            &&& after.head == ready.head
            &&& after.phase == ready.phase
            &&& after.clauses@.len() == ready.clauses@.len()
            &&& forall|d: int|
                0 <= d < ready.clauses@.len() && d != c ==> #[trigger] after.clauses@[d]
                    == ready.clauses@[d]
            &&& after.clauses@[c]@ == clause.update(1, clause[position]).update(
                position,
                clause[1],
            )
            &&& lists(after.watches@) == sat_machine::moved(
                lists(ready.watches@),
                slot_of(gone),
                p,
                slot_of(clause[position]),
            )
        }),
    ensures
        sat_machine::visited(state_of(start), gone, p) == (state_of(after), p, None::<usize>),
{
    let c = start.watches@[slot_of(gone)]@[p] as int;
    let clause = ready.clauses@[c]@;
    lemma_turned(start, ready, c, gone);
    sat_machine::lemma_spare(start.assign@, clause, 2, position);
    reveal(state_of);
    reveal(sat_machine::visited);
    assert(lists(start.watches@)[slot_of(gone)][p] == c);
    assert(held(start)[c] == start.clauses@[c]@);
    assert(held(after) =~= held(start).update(c, sat_machine::swapped(clause, 1, position)));
}

/// A visit to a clause all of whose literals but the first are false.
proof fn lemma_visit_forces(start: Solver, ready: Solver, after: Solver, gone: i32, p: int)
    requires
        0 <= slot_of(gone) < start.watches@.len(),
        0 <= p < start.watches@[slot_of(gone)]@.len(),
        turned_to(start, ready, start.watches@[slot_of(gone)]@[p] as int, gone),
        ({
            let c = start.watches@[slot_of(gone)]@[p] as int;
            let clause = ready.clauses@[c]@;
            &&& clause.len() >= 2
            &&& val(start.assign@, clause[0]) is None
            &&& forall|j: int|
                2 <= j < clause.len() ==> is_false(start.assign@, #[trigger] clause[j])
            &&& after.same_store(&ready)
            &&& after.clauses == ready.clauses
            &&& after.watches == ready.watches
            &&& after.head == ready.head
            &&& after.phase == ready.phase
            &&& state_of(after) == sat_machine::assigned(
                state_of(ready),
                clause[0],
                Some(c as usize),
            )
        }),
    ensures
        sat_machine::visited(state_of(start), gone, p) == (state_of(after), p + 1, None::<usize>),
{
    let c = start.watches@[slot_of(gone)]@[p] as int;
    let clause = ready.clauses@[c]@;
    lemma_turned(start, ready, c, gone);
    sat_machine::lemma_spare(start.assign@, clause, 2, clause.len() as int);
    reveal(state_of);
    reveal(sat_machine::visited);
    assert(lists(start.watches@)[slot_of(gone)][p] == c);
    assert(held(start)[c] == start.clauses@[c]@);
}

/// A visit to a clause that has gone false.
proof fn lemma_visit_clashes(start: Solver, ready: Solver, after: Solver, gone: i32, p: int)
    requires
        0 <= slot_of(gone) < start.watches@.len(),
        0 <= p < start.watches@[slot_of(gone)]@.len(),
        turned_to(start, ready, start.watches@[slot_of(gone)]@[p] as int, gone),
        ({
            let c = start.watches@[slot_of(gone)]@[p] as int;
            let clause = ready.clauses@[c]@;
            &&& clause.len() >= 2
            &&& is_false(start.assign@, clause[0])
            &&& forall|j: int|
                2 <= j < clause.len() ==> is_false(start.assign@, #[trigger] clause[j])
            &&& after == (Solver { head: after.head, ..ready })
            &&& after.head == ready.trail@.len()
        }),
    ensures
        sat_machine::visited(state_of(start), gone, p) == (
            state_of(after),
            p,
            Some(start.watches@[slot_of(gone)]@[p]),
        ),
{
    let c = start.watches@[slot_of(gone)]@[p] as int;
    let clause = ready.clauses@[c]@;
    lemma_turned(start, ready, c, gone);
    sat_machine::lemma_spare(start.assign@, clause, 2, clause.len() as int);
    reveal(state_of);
    reveal(sat_machine::visited);
    assert(lists(start.watches@)[slot_of(gone)][p] == c);
    assert(held(start)[c] == start.clauses@[c]@);
    assert(held(after) =~= held(ready));
}

proof fn lemma_walk_onward(before: Solver, after: Solver, gone: i32, p: int, q: int)
    requires
        0 <= slot_of(gone) < before.watches@.len(),
        after.watches@.len() == before.watches@.len(),
        0 <= p < before.watches@[slot_of(gone)]@.len(),
        sat_machine::visited(state_of(before), gone, p) == (state_of(after), q, None::<usize>),
        0 <= after.watches@[slot_of(gone)]@.len() - q < before.watches@[slot_of(gone)]@.len() - p,
    ensures
        sat_machine::walked(state_of(before), gone, p) == sat_machine::walked(
            state_of(after),
            gone,
            q,
        ),
{
    assert(state_of(before).watches[slot_of(gone)].len()
        == before.watches@[slot_of(gone)]@.len() && state_of(after).watches[slot_of(gone)].len()
        == after.watches@[slot_of(gone)]@.len()) by {
        reveal(state_of);
    }
    sat_machine::lemma_walk_goes_on(state_of(before), gone, p, state_of(after), q);
}

proof fn lemma_clash_found(
    top: Solver,
    before: Solver,
    after: Solver,
    gone: i32,
    p: int,
    c: usize,
)
    requires
        0 <= slot_of(gone) < before.watches@.len(),
        0 <= p < before.watches@[slot_of(gone)]@.len(),
        sat_machine::visited(state_of(before), gone, p) == (state_of(after), p, Some(c)),
        sat_machine::walked(state_of(before), gone, p) == sat_machine::walked(
            state_of(top),
            gone,
            0,
        ),
        top.head < top.trail@.len() <= top.vars,
        gone == -top.trail@[top.head as int],
    ensures
        sat_machine::propagated(state_of(top)) == (state_of(after), Some(c)),
{
    assert(state_of(before).watches[slot_of(gone)].len()
        == before.watches@[slot_of(gone)]@.len()) by {
        reveal(state_of);
    }
    sat_machine::lemma_walk_clashes(state_of(before), gone, p, state_of(after), p, c);
    assert(state_of(top).head == top.head && state_of(top).trail == top.trail@ && state_of(
        top,
    ).vars == top.vars) by {
        reveal(state_of);
    }
    sat_machine::lemma_propagated_clash(state_of(top), state_of(after), c);
}

proof fn lemma_walk_done(top: Solver, done: Solver, after: Solver, gone: i32, p: int)
    requires
        0 <= slot_of(gone) < done.watches@.len(),
        p >= done.watches@[slot_of(gone)]@.len(),
        sat_machine::walked(state_of(done), gone, p) == sat_machine::walked(
            state_of(top),
            gone,
            0,
        ),
        top.head < top.trail@.len() <= top.vars,
        gone == -top.trail@[top.head as int],
        done.vars == top.vars,
        after == (Solver { head: after.head, ..done }),
        after.head == top.head + 1,
    ensures
        sat_machine::propagated(state_of(top)) == sat_machine::propagated(state_of(after)),
{
    assert(state_of(done).watches[slot_of(gone)].len() == done.watches@[slot_of(gone)]@.len()
        && state_of(done).vars == done.vars) by {
        reveal(state_of);
    }
    sat_machine::lemma_walk_ends(state_of(done), gone, p);
    assert(state_of(top).head == top.head && state_of(top).trail == top.trail@ && state_of(
        top,
    ).vars == top.vars) by {
        reveal(state_of);
    }
    sat_machine::lemma_propagated_one(state_of(top), state_of(done));
    assert(state_of(after) == (State { head: (top.head + 1) as nat, ..state_of(done) })) by {
        reveal(state_of);
        assert(held(after) =~= held(done));
    }
}

proof fn lemma_all_propagated(solver: Solver)
    requires
        solver.head >= solver.trail@.len(),
    ensures
        sat_machine::propagated(state_of(solver)) == (state_of(solver), None::<usize>),
{
    assert(state_of(solver).head == solver.head && state_of(solver).trail == solver.trail@) by {
        reveal(state_of);
    }
    sat_machine::lemma_propagated_all(state_of(solver));
}

/// Assigning a literal, as a step.
proof fn lemma_assigned(before: Solver, after: Solver, literal: i32, reason: Option<usize>)
    requires
        after.same_store(&before),
        after.clauses == before.clauses,
        after.watches == before.watches,
        after.head == before.head,
        after.phase == before.phase,
        after.trail@ == before.trail@.push(literal),
        after.assign@ == before.assign@.update(sat_logic::var_of(literal), Some(literal > 0)),
        after.level@ == before.level@.update(
            sat_logic::var_of(literal),
            before.trail_lim.len(),
        ),
        after.reason@ == before.reason@.update(sat_logic::var_of(literal), reason),
    ensures
        state_of(after) == sat_machine::assigned(state_of(before), literal, reason),
{
    reveal(state_of);
    assert(held(after) =~= held(before));
    assert(before.trail_lim@.len() as usize == before.trail_lim.len());
}

/// A clause that holds already adds nothing.
proof fn lemma_added_holds(before: Solver, clause: Seq<i32>)
    requires
        exists|k: int| 0 <= k < clause.len() && is_true(before.assign@, #[trigger] clause[k]),
    ensures
        sat_machine::added(state_of(before), clause) == (state_of(before), true),
{
    assert(state_of(before).assign == before.assign@) by {
        reveal(state_of);
    }
    reveal(sat_machine::added);
}

/// A clause that does not hold yet adds what is left of it.
proof fn lemma_added(before: Solver, clause: Seq<i32>)
    requires
        forall|k: int| 0 <= k < clause.len() ==> !is_true(before.assign@, #[trigger] clause[k]),
    ensures
        ({
            let s = state_of(before);
            let literals = sat_machine::undecided(before.assign@, clause, clause.len() as int);
            sat_machine::added(s, clause) == if literals.len() == 0 {
                (s, false)
            } else if literals.len() == 1 {
                let (next, clash) = sat_machine::propagated(
                    sat_machine::assigned(s, literals[0], None),
                );
                (next, clash is None)
            } else {
                (sat_machine::attached(s, literals, false), true)
            }
        }),
{
    assert(state_of(before).assign == before.assign@) by {
        reveal(state_of);
    }
    reveal(sat_machine::added);
}

/// A search under way.
spec fn run_of(solver: Solver, restarts: int, since: int, room: usize) -> Run {
    Run {
        state: state_of(solver),
        conflicts: solver.conflicts as nat,
        restarts: restarts as nat,
        since: since as nat,
        room: room,
    }
}

/// What an outcome says.
pub open spec fn verdict_of(outcome: Outcome) -> Verdict {
    match outcome {
        Outcome::Sat(model) => Verdict::Sat(model@),
        Outcome::Unsat => Verdict::Unsat,
        Outcome::Unknown => Verdict::Unknown,
    }
}

proof fn lemma_begun(before: Solver, after: Solver)
    requires
        after == (Solver { order: after.order, ..before }),
        before.conflicts == 0,
        before.order@.waits.len() == before.vars,
        after.order@ == queued_until(before, before.vars as int),
    ensures
        run_of(
            after,
            0,
            0,
            if before.clauses@.len() / 3 > 64 {
                (before.clauses@.len() / 3) as usize
            } else {
                64
            },
        ) == sat_machine::begun(state_of(before)),
{
    let s = state_of(before);
    let waits = Seq::new(
        s.order.waits.len(),
        |v: int| s.order.waits[v] || s.assign[v] is None,
    );
    assert(s.order == before.order@ && s.assign == before.assign@ && s.clauses.len()
        == before.clauses@.len() && state_of(after) == (State { order: after.order@, ..s })) by {
        reveal(state_of);
        assert(held(after) =~= held(before));
    }
    assert(after.order@.waits =~= waits);
    reveal(sat_machine::begun);
}

/// The variables that wait once the first ones that are not assigned do.
spec fn queued_until(solver: Solver, upto: int) -> Waiting {
    Waiting {
        waits: Seq::new(
            solver.order@.waits.len(),
            |v: int| solver.order@.waits[v] || (v < upto && solver.assign@[v] is None),
        ),
        ..solver.order@
    }
}

proof fn lemma_step_refutes(top: Solver, met: Solver, c: usize, r: int, since: int, room: usize)
    requires
        sat_machine::propagated(state_of(top)) == (state_of(met), Some(c)),
        met.trail_lim@.len() == 0,
    ensures
        sat_machine::stepped(run_of(top, r, since, room)) is Refuted,
{
    assert(state_of(met).lim == met.trail_lim@) by {
        reveal(state_of);
    }
    reveal(sat_machine::stepped);
}

proof fn lemma_step_learns(
    top: Solver,
    met: Solver,
    c: usize,
    learned: Solver,
    after: Solver,
    r: int,
    since: int,
    room: usize,
)
    requires
        sat_machine::propagated(state_of(top)) == (state_of(met), Some(c)),
        met.trail_lim@.len() > 0,
        state_of(learned) == sat_machine::learned(state_of(met), c as int),
        after == (Solver { order: after.order, conflicts: after.conflicts, ..learned }),
        after.order@ == learned.order@.decayed(),
        after.conflicts == top.conflicts + 1,
        since >= 0,
    ensures
        sat_machine::stepped(run_of(top, r, since, room)) == sat_machine::Step::On(
            run_of(after, r, since + 1, room),
        ),
{
    assert(state_of(met).lim == met.trail_lim@ && state_of(after) == (State {
        order: state_of(learned).order.decayed(),
        ..state_of(learned)
    })) by {
        reveal(state_of);
        assert(held(after) =~= held(learned));
    }
    reveal(sat_machine::stepped);
}

proof fn lemma_step_starts_over(
    top: Solver,
    full: Solver,
    back: Solver,
    after: Solver,
    r: int,
    since: int,
    room: usize,
)
    requires
        sat_machine::propagated(state_of(top)) == (state_of(full), None::<usize>),
        r >= 0,
        since >= 0,
        since / 100 >= luby_number((r + 1) as nat),
        state_of(back) == sat_machine::cancelled(state_of(full), 0),
        state_of(after) == (if back.learnt@.filter(|is: bool| is).len() > room {
            sat_machine::forgotten(state_of(back))
        } else {
            state_of(back)
        }),
        after.conflicts == top.conflicts,
    ensures
        sat_machine::stepped(run_of(top, r, since, room)) == sat_machine::Step::On(
            run_of(
                after,
                r + 1,
                0,
                if back.learnt@.filter(|is: bool| is).len() > room {
                    sat_machine::roomier(room)
                } else {
                    room
                },
            ),
        ),
{
    assert(state_of(back).learnt == back.learnt@) by {
        reveal(state_of);
    }
    reveal(sat_machine::stepped);
}

proof fn lemma_step_models(
    top: Solver,
    full: Solver,
    after: Solver,
    model: Seq<bool>,
    r: int,
    since: int,
    room: usize,
)
    requires
        sat_machine::propagated(state_of(top)) == (state_of(full), None::<usize>),
        r >= 0,
        since >= 0,
        since / 100 < luby_number((r + 1) as nat),
        sat_machine::picked(state_of(full)) == (state_of(after), None::<i32>),
        model.len() == after.assign@.len(),
        forall|v: int|
            0 <= v < model.len() ==> #[trigger] after.assign@[v] == Some(model[v]),
    ensures
        sat_machine::stepped(run_of(top, r, since, room)) == sat_machine::Step::Model(model),
{
    let s = state_of(after);
    assert(s.assign == after.assign@) by {
        reveal(state_of);
    }
    let read = Seq::new(s.assign.len(), |v: int| s.assign[v]->0);
    assert(model =~= read) by {
        assert forall|v: int| 0 <= v < model.len() implies model[v] == read[v] by {
            assert(after.assign@[v] == Some(model[v]));
        }
    }
    reveal(sat_machine::stepped);
}

proof fn lemma_step_decides(
    top: Solver,
    full: Solver,
    picked: Solver,
    opened: Solver,
    after: Solver,
    literal: i32,
    r: int,
    since: int,
    room: usize,
)
    requires
        sat_machine::propagated(state_of(top)) == (state_of(full), None::<usize>),
        r >= 0,
        since >= 0,
        since / 100 < luby_number((r + 1) as nat),
        sat_machine::picked(state_of(full)) == (state_of(picked), Some(literal)),
        opened == (Solver { trail_lim: opened.trail_lim, ..picked }),
        opened.trail_lim@ == picked.trail_lim@.push(picked.trail@.len() as usize),
        state_of(after) == sat_machine::assigned(state_of(opened), literal, None),
        after.conflicts == top.conflicts,
    ensures
        sat_machine::stepped(run_of(top, r, since, room)) == sat_machine::Step::On(
            run_of(after, r, since, room),
        ),
{
    assert(state_of(opened) == (State {
        lim: state_of(picked).lim.push(state_of(picked).trail.len() as usize),
        ..state_of(picked)
    })) by {
        reveal(state_of);
        assert(held(opened) =~= held(picked));
    }
    reveal(sat_machine::stepped);
}

/// What the search does next does not read the ghost record of the formula.
proof fn lemma_same_state(one: Solver, other: Solver)
    requires
        one == (Solver {
            formula: one.formula,
            covered: one.covered,
            seen: one.seen,
            seen_touched: one.seen_touched,
            conflicts: one.conflicts,
            ..other
        }),
    ensures
        state_of(one) == state_of(other),
{
    reveal(state_of);
    assert(held(one) =~= held(other));
}

/// One literal taken off the trail, as a step.
proof fn lemma_undone(before: Solver, after: Solver, length: int)
    requires
        before.trail@.len() > 0,
        before.trail@.len() > length,
        ({
            let literal = before.trail@.last();
            let v = sat_logic::var_of(literal);
            &&& after.trail@ == before.trail@.drop_last()
            &&& after.phase@ == before.phase@.update(v, literal > 0)
            &&& after.assign@ == before.assign@.update(v, None)
            &&& after.reason@ == before.reason@.update(v, None)
            &&& after.order@ == before.order@.with(v)
        }),
        after == (Solver {
            trail: after.trail,
            phase: after.phase,
            assign: after.assign,
            reason: after.reason,
            order: after.order,
            ..before
        }),
    ensures
        sat_machine::undone(state_of(before), length) == sat_machine::undone(
            state_of(after),
            length,
        ),
{
    sat_machine::lemma_undone_step(state_of(before), length);
    reveal(state_of);
    assert(held(after) =~= held(before));
}

/// The steps back to a level put together.
proof fn lemma_back_at(before: Solver, left: Solver, after: Solver, level: int)
    requires
        0 <= level < before.trail_lim@.len(),
        left.trail@.len() <= before.trail_lim@[level],
        left.trail_lim == before.trail_lim,
        sat_machine::undone(state_of(left), before.trail_lim@[level] as int)
            == sat_machine::undone(state_of(before), before.trail_lim@[level] as int),
        after == (Solver { trail_lim: after.trail_lim, head: after.head, ..left }),
        after.trail_lim@ == before.trail_lim@.take(level),
        after.head == left.trail@.len(),
    ensures
        state_of(after) == sat_machine::cancelled(state_of(before), level),
{
    sat_machine::lemma_undone_step(state_of(left), before.trail_lim@[level] as int);
    reveal(state_of);
    reveal(sat_machine::cancelled);
    assert(held(after) =~= held(left));
}

/// Every clause is made of literals of a clause of the formula.
#[verifier::opaque]
pub open spec fn from_formula(clauses: Seq<Vec<i32>>, formula: Seq<Seq<i32>>) -> bool {
    forall|c: int|
        0 <= c < clauses.len() ==> sat_run::made_of(formula, (#[trigger] clauses[c])@)
}

/// Clauses stay made of the formula's while they are reordered and it grows.
proof fn lemma_from_formula(
    one: Seq<Vec<i32>>,
    two: Seq<Vec<i32>>,
    formula: Seq<Seq<i32>>,
    extra: Seq<i32>,
)
    requires
        from_formula(one, formula),
        reordered(one, two),
    ensures
        from_formula(two, formula.push(extra)),
{
    reveal(reordered);
    reveal(from_formula);
    let longer = formula.push(extra);
    assert forall|c: int| 0 <= c < two.len() implies sat_run::made_of(
        longer,
        (#[trigger] two[c])@,
    ) by {
        assert(sat_logic::same_literals(one[c]@, two[c]@));
        assert(sat_run::made_of(formula, one[c]@));
        let f = choose|f: int|
            0 <= f < formula.len() && sat_logic::literals_within(one[c]@, #[trigger] formula[f]);
        assert forall|i: int| 0 <= i < two[c]@.len() implies longer[f].contains(
            #[trigger] two[c]@[i],
        ) by {
            assert(one[c]@.contains(two[c]@[i]));
            let j = choose|j: int| 0 <= j < one[c]@.len() && one[c]@[j] == two[c]@[i];
            assert(formula[f].contains(one[c]@[j]));
        }
        assert(sat_logic::literals_within(two[c]@, longer[f]));
    }
}

/// The same clauses, each with its literals in whatever order.
#[verifier::opaque]
pub open spec fn reordered(one: Seq<Vec<i32>>, two: Seq<Vec<i32>>) -> bool {
    &&& one.len() == two.len()
    &&& forall|c: int|
        0 <= c < two.len() ==> sat_logic::same_literals(one[c]@, (#[trigger] two[c])@)
}

proof fn lemma_reordered_itself(clauses: Seq<Vec<i32>>)
    ensures
        reordered(clauses, clauses),
{
    reveal(reordered);
    assert forall|c: int| 0 <= c < clauses.len() implies sat_logic::same_literals(
        clauses[c]@,
        (#[trigger] clauses[c])@,
    ) by {
        sat_run::lemma_same_literals_itself(clauses[c]@);
    }
}

/// Reordering one more clause is still reordering.
proof fn lemma_reordered_one(
    one: Seq<Vec<i32>>,
    two: Seq<Vec<i32>>,
    three: Seq<Vec<i32>>,
    at: int,
    i: int,
    j: int,
)
    requires
        reordered(one, two),
        0 <= at < two.len(),
        two.len() == three.len(),
        0 <= i < two[at]@.len(),
        0 <= j < two[at]@.len(),
        forall|d: int| 0 <= d < two.len() && d != at ==> #[trigger] three[d] == two[d],
        three[at]@ == two[at]@.update(i, two[at]@[j]).update(j, two[at]@[i]),
    ensures
        reordered(one, three),
{
    reveal(reordered);
    sat_logic::lemma_swap_literals(two[at]@, i, j);
    assert forall|c: int| 0 <= c < three.len() implies sat_logic::same_literals(
        one[c]@,
        (#[trigger] three[c])@,
    ) by {
        assert(sat_logic::same_literals(one[c]@, two[c]@));
        if c == at {
            sat_run::lemma_same_literals_chain(one[c]@, two[c]@, three[c]@);
        }
    }
}

impl Solver {
    /// Lets a clause whose first literal is false put its second one first.
    fn swap_watches(&mut self, c: usize)
        requires
            old(self).consistent(),
            c < old(self).clauses@.len(),
            is_false(old(self).assign@, old(self).clauses@[c as int]@[0]),
        ensures
            final(self).consistent(),
            final(self).same_store(old(self)),
            final(self).assign == old(self).assign,
            final(self).level == old(self).level,
            final(self).reason == old(self).reason,
            final(self).trail == old(self).trail,
            final(self).when == old(self).when,
            final(self).head == old(self).head,
            final(self).phase == old(self).phase,
            final(self).watches == old(self).watches,
            final(self).clauses@.len() == old(self).clauses@.len(),
            forall|d: int|
                0 <= d < old(self).clauses@.len() && d != c ==> #[trigger] final(self).clauses@[d]
                    == old(self).clauses@[d],
            final(self).clauses@[c as int]@ == old(self).clauses@[c as int]@.update(
                0,
                old(self).clauses@[c as int]@[1],
            ).update(1, old(self).clauses@[c as int]@[0]),
    {
        let ghost before = *self;
        assert(self.clauses@[c as int]@.len() >= 2);
        let zero: i32 = self.clauses[c][0];
        let one: i32 = self.clauses[c][1];
        self.clauses[c][0] = one;
        self.clauses[c][1] = zero;
        proof {
            sat_logic::lemma_swap_literals(before.clauses@[c as int]@, 0, 1);
            lemma_permuted(before, *self, c as int);
            assert(watches_ok(
                self.clauses@,
                self.watches@,
                self.vars as nat,
                self.clauses@.len() as int,
            )) by {
                assert forall|s: int, p: int|
                    #![trigger self.watches@[s]@[p]]
                    0 <= s < self.watches@.len() && 0 <= p
                        < self.watches@[s]@.len() implies self.watches@[s]@[p]
                    < self.clauses@.len() && watched_at(
                    self.clauses@,
                    self.watches@[s]@[p] as int,
                    s,
                ) by {
                    let d = before.watches@[s]@[p];
                    assert(watched_at(before.clauses@, d as int, s));
                }
                assert forall|d: int| 0 <= d < self.clauses@.len() implies listed(
                    self.watches@,
                    slot_of((#[trigger] self.clauses@[d])@[0]),
                    d,
                ) && listed(self.watches@, slot_of(self.clauses@[d]@[1]), d) by {
                    assert(listed(before.watches@, slot_of(before.clauses@[d]@[0]), d));
                }
            }
        }
    }

    /// Lets clause `c`, the `p`-th in `slot`, watch its `position`-th literal
    /// instead of its second.
    fn move_watch(&mut self, c: usize, position: usize, slot: usize, p: usize)
        requires
            old(self).consistent(),
            c < old(self).clauses@.len(),
            2 <= position < old(self).clauses@[c as int]@.len(),
            slot == slot_of(old(self).clauses@[c as int]@[1]),
            slot < old(self).watches@.len(),
            p < old(self).watches@[slot as int]@.len(),
            old(self).watches@[slot as int]@[p as int] == c,
        ensures
            final(self).consistent(),
            final(self).same_store(old(self)),
            final(self).assign == old(self).assign,
            final(self).level == old(self).level,
            final(self).reason == old(self).reason,
            final(self).trail == old(self).trail,
            final(self).when == old(self).when,
            final(self).head == old(self).head,
            final(self).phase == old(self).phase,
            final(self).clauses@.len() == old(self).clauses@.len(),
            forall|d: int|
                0 <= d < old(self).clauses@.len() && d != c ==> #[trigger] final(self).clauses@[d]
                    == old(self).clauses@[d],
            final(self).clauses@[c as int]@ == old(self).clauses@[c as int]@.update(
                1,
                old(self).clauses@[c as int]@[position as int],
            ).update(position as int, old(self).clauses@[c as int]@[1]),
            final(self).watches@.len() == old(self).watches@.len(),
            final(self).watches@[slot as int]@.len() == old(self).watches@[slot as int]@.len() - 1,
            forall|q: int|
                0 <= q < p ==> #[trigger] final(self).watches@[slot as int]@[q] == old(
                    self,
                ).watches@[slot as int]@[q],
            lists(final(self).watches@) == sat_machine::moved(
                lists(old(self).watches@),
                slot as int,
                p as int,
                slot_of(old(self).clauses@[c as int]@[position as int]),
            ),
    {
        let ghost before = *self;
        let one: i32 = self.clauses[c][1];
        let candidate: i32 = self.clauses[c][position];
        assert(sat_logic::clause_ok(self.clauses@[c as int]@, self.vars as nat));
        assert(sat_logic::lit_ok(candidate, self.vars as nat));
        assert(self.clauses@[c as int]@.no_duplicates());
        self.clauses[c][1] = candidate;
        self.clauses[c][position] = one;
        self.watches[slot].remove(p);
        let ghost middle = *self;
        proof {
            assert(candidate != one);
            if slot_of(candidate) == slot {
                lemma_slots_differ(candidate, one);
            }
        }
        let target: usize = index_of(candidate);
        self.watches[target].push(c);
        proof {
            let n = before.vars as nat;
            sat_logic::lemma_swap_literals(before.clauses@[c as int]@, 1, position as int);
            lemma_permuted(before, *self, c as int);
            let was = before.watches@[slot as int]@;
            let left = self.watches@[slot as int]@;
            assert(left == was.remove(p as int));
            assert(!before.watches@[target as int]@.contains(c)) by {
                if before.watches@[target as int]@.contains(c) {
                    let q = choose|q: int|
                        0 <= q < before.watches@[target as int]@.len()
                            && before.watches@[target as int]@[q] == c;
                    assert(watched_at(
                        before.clauses@,
                        before.watches@[target as int]@[q] as int,
                        target as int,
                    ));
                    lemma_slots_differ(candidate, before.clauses@[c as int]@[0]);
                }
            }
            assert forall|s: int, q: int|
                #![trigger self.watches@[s]@[q]]
                0 <= s < self.watches@.len() && 0 <= q
                    < self.watches@[s]@.len() implies self.watches@[s]@[q] < self.clauses@.len()
                && watched_at(self.clauses@, self.watches@[s]@[q] as int, s) by {
                if s == slot {
                    let k = if q < p { q } else { q + 1 };
                    assert(left[q] == was[k]);
                    assert(watched_at(before.clauses@, was[k] as int, s));
                    assert(was[k] != c) by {
                        assert(was[p as int] == c);
                    }
                } else if s == target && q == before.watches@[s]@.len() {
                } else {
                    assert(self.watches@[s]@[q] == before.watches@[s]@[q]);
                    assert(watched_at(before.clauses@, before.watches@[s]@[q] as int, s));
                    if self.watches@[s]@[q] == c {
                        assert(s == slot_of(before.clauses@[c as int]@[0]));
                    }
                }
            }
            assert forall|s: int| 0 <= s < self.watches@.len() implies (
            #[trigger] self.watches@[s])@.no_duplicates() by {
                assert(before.watches@[s]@.no_duplicates());
                if s == slot {
                    assert forall|a: int, b: int|
                        0 <= a < left.len() && 0 <= b < left.len() && a != b implies left[a]
                        != left[b] by {
                        let x = if a < p { a } else { a + 1 };
                        let y = if b < p { b } else { b + 1 };
                        assert(left[a] == was[x] && left[b] == was[y]);
                    }
                } else if s == target {
                    let list = self.watches@[s]@;
                    let older = before.watches@[s]@;
                    assert(list == older.push(c));
                    assert forall|a: int, b: int|
                        0 <= a < list.len() && 0 <= b < list.len() && a != b implies list[a]
                        != list[b] by {
                        if a == older.len() {
                            assert(older.contains(list[b]));
                        } else if b == older.len() {
                            assert(older.contains(list[a]));
                        }
                    }
                }
            }
            assert forall|d: int| 0 <= d < self.clauses@.len() implies listed(
                self.watches@,
                slot_of((#[trigger] self.clauses@[d])@[0]),
                d,
            ) && listed(self.watches@, slot_of(self.clauses@[d]@[1]), d) by {
                assert(before.clauses@[d]@.len() >= 2);
                lemma_moved_listing(before, *self, c as int, slot as int, p as int, target as int, d);
            }
            assert(watches_ok(self.clauses@, self.watches@, n, self.clauses@.len() as int));
            assert(lists(self.watches@) =~= sat_machine::moved(
                lists(before.watches@),
                slot as int,
                p as int,
                target as int,
            )) by {
                let old_lists = lists(before.watches@);
                assert(old_lists[slot as int] == was);
                assert(old_lists[target as int] == before.watches@[target as int]@);
                assert(self.watches@[target as int]@ == before.watches@[target as int]@.push(c));
            }
        }
    }
}

/// Moving the watch of one clause leaves every other clause listed.
proof fn lemma_moved_listing(
    before: Solver,
    after: Solver,
    c: int,
    slot: int,
    p: int,
    target: int,
    d: int,
)
    requires
        watches_ok(
            before.clauses@,
            before.watches@,
            before.vars as nat,
            before.clauses@.len() as int,
        ),
        clauses_ok(before.clauses@, before.vars as nat),
        clauses_ok(after.clauses@, before.vars as nat),
        0 <= c < before.clauses@.len(),
        0 <= d < before.clauses@.len(),
        after.clauses@.len() == before.clauses@.len(),
        d != c ==> after.clauses@[d] == before.clauses@[d],
        after.clauses@[c]@[0] == before.clauses@[c]@[0],
        after.watches@.len() == before.watches@.len(),
        slot == slot_of(before.clauses@[c]@[1]),
        target == slot_of(after.clauses@[c]@[1]),
        slot != target,
        0 <= p < before.watches@[slot]@.len(),
        before.watches@[slot]@[p] == c,
        after.watches@[slot]@ == before.watches@[slot]@.remove(p),
        after.watches@[target]@ == before.watches@[target]@.push(c as usize),
        c == c as usize,
        forall|s: int|
            0 <= s < before.watches@.len() && s != slot && s != target
                ==> #[trigger] after.watches@[s] == before.watches@[s],
    ensures
        listed(after.watches@, slot_of(after.clauses@[d]@[0]), d),
        listed(after.watches@, slot_of(after.clauses@[d]@[1]), d),
{
    let n = before.vars as nat;
    assert(before.clauses@[d]@.len() >= 2 && sat_logic::clause_ok(before.clauses@[d]@, n));
    assert(after.clauses@[d]@.len() >= 2 && sat_logic::clause_ok(after.clauses@[d]@, n));
    assert(before.clauses@[c]@.no_duplicates() && after.clauses@[c]@.no_duplicates());
    assert forall|side: int| 0 <= side < 2 implies listed(
        after.watches@,
        slot_of(#[trigger] after.clauses@[d]@[side]),
        d,
    ) by {
        assert(sat_logic::lit_ok(after.clauses@[d]@[side], n));
        assert(sat_logic::lit_ok(before.clauses@[d]@[side], n));
        let s = slot_of(after.clauses@[d]@[side]);
        if d == c && side == 1 {
            let list = after.watches@[target]@;
            assert(list[list.len() - 1] == c);
        } else {
            assert(listed(before.watches@, s, d));
            let q = choose|q: int|
                0 <= q < before.watches@[s]@.len() && #[trigger] before.watches@[s]@[q] == d;
            if s == slot {
                if d == c {
                    lemma_slots_differ(before.clauses@[c]@[0], before.clauses@[c]@[1]);
                }
                assert(q != p);
                let k = if q < p { q } else { q - 1 };
                assert(after.watches@[s]@[k] == d);
            } else {
                assert(after.watches@[s]@[q] == d);
            }
        }
    }
    assert(slot_of(after.clauses@[d]@[0]) == slot_of(after.clauses@[d]@[0]));
}

/// A clause settled up to a trail entry is settled past it, unless it watches
/// what that entry falsified.
proof fn lemma_settled_past(solver: Solver, head: int, clause: Seq<i32>)
    requires
        solver.consistent(),
        0 <= head < solver.trail@.len(),
        clause.len() >= 2,
        sat_logic::clause_ok(clause, solver.vars as nat),
        clause_settled(clause, solver.assign@, solver.level@, solver.when@, head),
        clause[0] != -solver.trail@[head],
        clause[1] != -solver.trail@[head],
    ensures
        clause_settled(clause, solver.assign@, solver.level@, solver.when@, head + 1),
{
    assert(sat_logic::lit_ok(clause[0], solver.vars as nat));
    assert(sat_logic::lit_ok(clause[1], solver.vars as nat));
    let t = solver.trail@[head];
    assert(is_true(solver.assign@, t));
    assert forall|w: i32|
        sat_logic::lit_ok(w, solver.vars as nat) && is_false(solver.assign@, w)
            && solver.when@[#[trigger] sat_logic::var_of(w)] == head implies w == -t by {
        assert(solver.assign@[sat_logic::var_of(w)] is Some);
    }
}

impl Solver {
    /// What stays when the assignment only grows.
    pub open spec fn extends(&self, other: &Solver) -> bool {
        &&& self.same_store(other)
        &&& self.phase == other.phase
        &&& self.clauses@.len() == other.clauses@.len()
        &&& other.trail@.is_prefix_of(self.trail@)
        &&& forall|v: int|
            0 <= v < other.vars && #[trigger] other.assign@[v] is Some ==> self.assign@[v]
                == other.assign@[v]
    }

    /// The start of the current decision level on the trail.
    pub open spec fn level_start(&self) -> int {
        if self.trail_lim@.len() == 0 {
            0
        } else {
            self.trail_lim@.last() as int
        }
    }

    /// Assigns everything that follows from what is assigned by one clause at
    /// a time. Returns a clause that has gone false, if there is one.
    #[verifier::rlimit(60)]
    #[verifier::spinoff_prover]
    pub fn propagate(&mut self) -> (conflict: Option<usize>)
        requires
            old(self).consistent(),
            old(self).settled_to(old(self).head as int),
            old(self).pending_current(),
        ensures
            final(self).consistent(),
            final(self).extends(old(self)),
            reordered(old(self).clauses@, final(self).clauses@),
            sat_machine::propagated(state_of(*old(self))) == (state_of(*final(self)), conflict),
            final(self).head == final(self).trail@.len(),
            conflict is None ==> final(self).settled_to(final(self).head as int),
            conflict matches Some(c) ==> {
                &&& c < final(self).clauses@.len()
                &&& final(self).settled_to(final(self).level_start())
                &&& forall|j: int|
                    0 <= j < final(self).clauses@[c as int]@.len() ==> is_false(
                        final(self).assign@,
                        #[trigger] final(self).clauses@[c as int]@[j],
                    )
                &&& final(self).level@[sat_logic::var_of(final(self).clauses@[c as int]@[1])]
                    == final(self).trail_lim@.len()
            },
    {
        proof {
            assert(self.trail@.is_prefix_of(self.trail@));
            lemma_reordered_itself(self.clauses@);
        }
        while self.head < self.trail.len()
            invariant
                self.consistent(),
                self.extends(old(self)),
                reordered(old(self).clauses@, self.clauses@),
                sat_machine::propagated(state_of(*self)) == sat_machine::propagated(
                    state_of(*old(self)),
                ),
                self.settled_to(self.head as int),
                self.pending_current(),
            decreases self.vars - self.head,
        {
            let literal: i32 = self.trail[self.head];
            let ghost at = self.head as int;
            assert(sat_logic::lit_ok(literal, self.vars as nat));
            let false_literal: i32 = -literal;
            let slot: usize = index_of(false_literal);
            let ghost top = *self;
            let mut p: usize = 0;
            proof {
                lemma_trail_fits(self.vars as nat, self.assign@, self.trail@, self.when@);
                assert(is_false(self.assign@, false_literal));
            }
            while p < self.watches[slot].len()
                invariant
                    self.consistent(),
                    self.extends(old(self)),
                    reordered(old(self).clauses@, self.clauses@),
                    sat_machine::walked(state_of(*self), false_literal, p as int)
                        == sat_machine::walked(state_of(top), false_literal, 0),
                    top.head == at < top.trail@.len() <= top.vars,
                    top.trail@[at] == literal,
                    self.vars == top.vars,
                    sat_machine::propagated(state_of(top)) == sat_machine::propagated(
                        state_of(*old(self)),
                    ),
                    self.head == at < self.trail@.len(),
                    self.settled_to(at),
                    self.pending_current(),
                    literal == self.trail@[at],
                    sat_logic::lit_ok(literal, self.vars as nat),
                    false_literal == -literal,
                    is_false(self.assign@, false_literal),
                    slot == slot_of(false_literal),
                    slot < self.watches@.len(),
                    self.trail@.len() <= self.vars,
                    forall|q: int|
                        0 <= q < p ==> clause_settled(
                            self.clauses@[#[trigger] self.watches@[slot as int]@[q] as int]@,
                            self.assign@,
                            self.level@,
                            self.when@,
                            at + 1,
                        ),
                    p <= self.watches@[slot as int]@.len(),
                decreases self.watches@[slot as int]@.len() - p,
            {
                let c: usize = self.watches[slot][p];
                let ghost start = *self;
                assert(watched_at(self.clauses@, c as int, slot as int));
                assert(self.clauses@[c as int]@.len() >= 2 && sat_logic::clause_ok(
                    self.clauses@[c as int]@,
                    self.vars as nat,
                ));
                if self.clauses[c][0] == false_literal {
                    self.swap_watches(c);
                    proof {
                        lemma_reordered_one(
                            old(self).clauses@,
                            start.clauses@,
                            self.clauses@,
                            c as int,
                            0,
                            1,
                        );
                    }
                    assert(self.settled_to(at)) by {
                        assert forall|d: int| 0 <= d < self.clauses@.len() implies clause_settled(
                            (#[trigger] self.clauses@[d])@,
                            self.assign@,
                            self.level@,
                            self.when@,
                            at,
                        ) by {
                            assert(clause_settled(
                                start.clauses@[d]@,
                                start.assign@,
                                start.level@,
                                start.when@,
                                at,
                            ));
                        }
                    }
                } else {
                    proof {
                        assert(sat_logic::lit_ok(self.clauses@[c as int]@[0], self.vars as nat));
                        assert(sat_logic::lit_ok(self.clauses@[c as int]@[1], self.vars as nat));
                        if slot == slot_of(self.clauses@[c as int]@[0]) {
                            lemma_slots_differ(self.clauses@[c as int]@[0], false_literal);
                        }
                        lemma_slots_differ(self.clauses@[c as int]@[1], false_literal);
                    }
                }
                assert(self.clauses@[c as int]@[1] == false_literal);
                assert forall|q: int| 0 <= q < p implies clause_settled(
                    self.clauses@[#[trigger] self.watches@[slot as int]@[q] as int]@,
                    self.assign@,
                    self.level@,
                    self.when@,
                    at + 1,
                ) && self.watches@[slot as int]@[q] != c by {
                    assert(start.watches@[slot as int]@.no_duplicates());
                    assert(start.watches@[slot as int]@[q] != start.watches@[slot as int]@[p as int]);
                    let d = start.watches@[slot as int]@[q];
                    assert(watched_at(start.clauses@, d as int, slot as int));
                    assert(self.clauses@[d as int] == start.clauses@[d as int]);
                }
                assert(self.clauses@[c as int]@.len() >= 2 && sat_logic::clause_ok(
                    self.clauses@[c as int]@,
                    self.vars as nat,
                ) && self.clauses@[c as int]@.no_duplicates());
                let first: i32 = self.clauses[c][0];
                assert(sat_logic::lit_ok(first, self.vars as nat));
                let ghost ready = *self;
                assert(turned_to(start, ready, c as int, false_literal));
                let standing: Option<bool> = self.value(first);
                if standing == Some(true) {
                    proof {
                        lemma_visit_true(start, ready, false_literal, p as int);
                        lemma_walk_onward(start, *self, false_literal, p as int, p + 1);
                        let v = sat_logic::var_of(first);
                        assert(self.assign@[v] is Some);
                        assert(self.level@[sat_logic::var_of(self.trail@[self.when@[v]])]
                            <= self.trail_lim@.len());
                        assert(self.level@[sat_logic::var_of(self.trail@[at])]
                            == self.trail_lim@.len());
                        assert(clause_settled(
                            self.clauses@[c as int]@,
                            self.assign@,
                            self.level@,
                            self.when@,
                            at + 1,
                        ));
                    }
                    p = p + 1;
                    continue;
                }
                let mut position: usize = 2;
                while position < self.clauses[c].len()
                    invariant_except_break
                        *self == ready,
                        self.consistent(),
                        c < self.clauses@.len(),
                        2 <= position <= self.clauses@[c as int]@.len(),
                        forall|j: int|
                            2 <= j < position ==> is_false(
                                self.assign@,
                                #[trigger] self.clauses@[c as int]@[j],
                            ),
                    ensures
                        *self == ready,
                        2 <= position <= self.clauses@[c as int]@.len(),
                        forall|j: int|
                            2 <= j < position ==> is_false(
                                self.assign@,
                                #[trigger] self.clauses@[c as int]@[j],
                            ),
                        position < self.clauses@[c as int]@.len() ==> !is_false(
                            self.assign@,
                            self.clauses@[c as int]@[position as int],
                        ),
                    decreases self.clauses@[c as int]@.len() - position,
                {
                    let candidate: i32 = self.clauses[c][position];
                    assert(sat_logic::clause_ok(self.clauses@[c as int]@, self.vars as nat));
                    let found: Option<bool> = self.value(candidate);
                    if found != Some(false) {
                        break;
                    }
                    position = position + 1;
                }
                if position < self.clauses[c].len() {
                    let ghost candidate = self.clauses@[c as int]@[position as int];
                    self.move_watch(c, position, slot, p);
                    proof {
                        lemma_visit_moves(
                            start,
                            ready,
                            *self,
                            false_literal,
                            p as int,
                            position as int,
                        );
                        lemma_walk_onward(start, *self, false_literal, p as int, p as int);
                        lemma_reordered_one(
                            old(self).clauses@,
                            ready.clauses@,
                            self.clauses@,
                            c as int,
                            1,
                            position as int,
                        );
                    }
                    assert(self.settled_to(at)) by {
                        assert forall|d: int| 0 <= d < self.clauses@.len() implies clause_settled(
                            (#[trigger] self.clauses@[d])@,
                            self.assign@,
                            self.level@,
                            self.when@,
                            at,
                        ) by {
                            assert(clause_settled(
                                ready.clauses@[d]@,
                                ready.assign@,
                                ready.level@,
                                ready.when@,
                                at,
                            ));
                            if d == c {
                                assert(self.clauses@[d]@[0] == first);
                                assert(self.clauses@[d]@[1] == candidate);
                            }
                        }
                    }
                    assert forall|q: int| 0 <= q < p implies clause_settled(
                        self.clauses@[#[trigger] self.watches@[slot as int]@[q] as int]@,
                        self.assign@,
                        self.level@,
                        self.when@,
                        at + 1,
                    ) by {
                        assert(self.watches@[slot as int]@[q] == ready.watches@[slot as int]@[q]);
                        assert(watched_at(
                            ready.clauses@,
                            ready.watches@[slot as int]@[q] as int,
                            slot as int,
                        ));
                    }
                    continue;
                }
                assert forall|j: int| 1 <= j < self.clauses@[c as int]@.len() implies is_false(
                    self.assign@,
                    #[trigger] self.clauses@[c as int]@[j],
                ) && self.when@[sat_logic::var_of(self.clauses@[c as int]@[j])]
                    < self.trail@.len() by {
                    assert(sat_logic::lit_ok(self.clauses@[c as int]@[j], self.vars as nat));
                    assert(self.assign@[sat_logic::var_of(self.clauses@[c as int]@[j])] is Some);
                }
                proof {
                    if self.trail_lim@.len() == 0 {
                        lemma_unit_entailed(*self, c as int);
                    }
                    assert(self.level@[sat_logic::var_of(self.trail@[at])]
                        == self.trail_lim@.len());
                }
                if !self.enqueue(first, Some(c)) {
                    proof {
                        assert forall|j: int| 0 <= j < self.clauses@[c as int]@.len() implies is_false(
                            self.assign@,
                            #[trigger] self.clauses@[c as int]@[j],
                        ) by {
                            if j > 0 {
                                assert(is_false(ready.assign@, ready.clauses@[c as int]@[j]));
                            }
                        }
                        assert(self.level_start() <= at) by {
                            if self.trail_lim@.len() > 0 {
                                let k = self.trail_lim@.len() - 1;
                                assert(self.trail_lim@[k] <= at <==> self.level@[sat_logic::var_of(
                                    self.trail@[at],
                                )] > k);
                            }
                        }
                    }
                    self.head = self.trail.len();
                    proof {
                        lemma_visit_clashes(start, ready, *self, false_literal, p as int);
                        lemma_clash_found(top, start, *self, false_literal, p as int, c);
                    }
                    return Some(c);
                }
                proof {
                    lemma_assigned(ready, *self, first, Some(c));
                    lemma_visit_forces(start, ready, *self, false_literal, p as int);
                    lemma_walk_onward(start, *self, false_literal, p as int, p + 1);
                    lemma_trail_fits(self.vars as nat, self.assign@, self.trail@, self.when@);
                    assert forall|d: int| 0 <= d < self.clauses@.len() implies clause_settled(
                        (#[trigger] self.clauses@[d])@,
                        self.assign@,
                        self.level@,
                        self.when@,
                        at,
                    ) by {
                        assert(ready.clauses@[d]@.len() >= 2);
                        lemma_settled_grows(ready, *self, first, at, ready.clauses@[d]@);
                    }
                    assert forall|q: int| 0 <= q <= p implies clause_settled(
                        self.clauses@[#[trigger] self.watches@[slot as int]@[q] as int]@,
                        self.assign@,
                        self.level@,
                        self.when@,
                        at + 1,
                    ) by {
                        let d = ready.watches@[slot as int]@[q];
                        assert(watched_at(ready.clauses@, d as int, slot as int));
                        if q < p {
                            assert(ready.clauses@[d as int]@.len() >= 2);
                            lemma_settled_grows(
                                ready,
                                *self,
                                first,
                                at + 1,
                                ready.clauses@[d as int]@,
                            );
                        } else {
                            assert(self.watches@ == ready.watches@);
                            assert(d == c);
                        }
                    }
                    assert forall|i: int|
                        self.head <= i < self.trail@.len() implies self.level@[sat_logic::var_of(
                        #[trigger] self.trail@[i],
                    )] == self.trail_lim@.len() by {
                        if i < ready.trail@.len() {
                            assert(ready.trail@[i] == self.trail@[i]);
                            assert(sat_logic::var_of(ready.trail@[i]) != sat_logic::var_of(first));
                        }
                    }
                    assert(self.trail@[at] == ready.trail@[at]);
                    assert forall|v: int|
                        0 <= v < old(self).vars && #[trigger] old(self).assign@[v] is Some implies
                        self.assign@[v] == old(self).assign@[v] by {
                        assert(ready.assign@[v] == old(self).assign@[v]);
                    }
                    assert(old(self).trail@.is_prefix_of(self.trail@));
                }
                p = p + 1;
            }
            proof {
                assert forall|d: int| 0 <= d < self.clauses@.len() implies clause_settled(
                    (#[trigger] self.clauses@[d])@,
                    self.assign@,
                    self.level@,
                    self.when@,
                    at + 1,
                ) by {
                    let clause = self.clauses@[d]@;
                    assert(clause.len() >= 2 && sat_logic::clause_ok(clause, self.vars as nat));
                    assert(listed(self.watches@, slot_of(clause[0]), d) && listed(
                        self.watches@,
                        slot_of(clause[1]),
                        d,
                    ));
                    if clause[0] == false_literal || clause[1] == false_literal {
                        let q = choose|q: int|
                            0 <= q < self.watches@[slot as int]@.len()
                                && #[trigger] self.watches@[slot as int]@[q] == d;
                        assert(clause_settled(
                            self.clauses@[self.watches@[slot as int]@[q] as int]@,
                            self.assign@,
                            self.level@,
                            self.when@,
                            at + 1,
                        ));
                    } else {
                        lemma_settled_past(*self, at, clause);
                    }
                }
            }
            let ghost done = *self;
            self.head = self.head + 1;
            proof {
                lemma_walk_done(top, done, *self, false_literal, p as int);
            }
        }
        proof {
            lemma_all_propagated(*self);
        }
        None
    }
}

/// Dropping the tail of the trail from the start of level `level` keeps the
/// state consistent.
proof fn lemma_cancelled(before: Solver, after: Solver, level: int)
    requires
        before.consistent(),
        0 <= level < before.trail_lim@.len(),
        before.settled_to(before.trail_lim@[level] as int),
        after.vars == before.vars,
        after.clauses == before.clauses,
        after.learnt == before.learnt,
        after.clause_activity == before.clause_activity,
        after.watches == before.watches,
        after.level == before.level,
        after.when == before.when,
        after.seen == before.seen,
        after.seen_touched == before.seen_touched,
        after.formula == before.formula,
        after.covered == before.covered,
        after.order.wf(after.vars as nat),
        after.phase@.len() == after.vars,
        after.reason@.len() == after.vars,
        after.assign@.len() == after.vars,
        after.trail@ == before.trail@.take(before.trail_lim@[level] as int),
        after.trail_lim@ == before.trail_lim@.take(level),
        after.head == after.trail@.len(),
        forall|v: int|
            0 <= v < after.vars ==> #[trigger] after.assign@[v] == (if before.assign@[v] is Some
                && before.when@[v] < after.trail@.len() {
                before.assign@[v]
            } else {
                None
            }),
        forall|v: int|
            0 <= v < after.vars && before.assign@[v] is Some && before.when@[v]
                < after.trail@.len() ==> #[trigger] after.reason@[v] == before.reason@[v],
    ensures
        after.consistent(),
        after.settled_to(after.head as int),
{
    let n = before.vars as nat;
    let keep = before.trail_lim@[level] as int;
    assert(keep <= before.trail@.len());
    assert forall|i: int| 0 <= i < after.trail@.len() implies #[trigger] after.trail@[i]
        == before.trail@[i] by {}
    assert forall|i: int| 0 <= i < after.trail@.len() implies sat_logic::lit_ok(
        #[trigger] after.trail@[i],
        n,
    ) && is_true(after.assign@, after.trail@[i]) && after.when@[sat_logic::var_of(
        after.trail@[i],
    )] == i by {
        assert(is_true(before.assign@, before.trail@[i]));
        assert(after.assign@[sat_logic::var_of(before.trail@[i])] is Some);
    }
    assert forall|v: int| 0 <= v < n && #[trigger] after.assign@[v] is Some implies 0
        <= after.when@[v] < after.trail@.len() && sat_logic::var_of(after.trail@[after.when@[v]])
        == v by {
        assert(before.assign@[v] is Some);
    }
    assert(trail_ok(n, after.assign@, after.trail@, after.when@));
    assert(levels_ok(after.trail@, after.trail_lim@, after.level@)) by {
        assert forall|k: int| 0 <= k < after.trail_lim@.len() implies #[trigger] after.trail_lim@[k]
            <= after.trail@.len() by {
            assert(before.trail_lim@[k] <= before.trail_lim@[level]);
        }
        assert forall|k: int, l: int|
            0 <= k < l < after.trail_lim@.len() implies #[trigger] after.trail_lim@[k]
            <= #[trigger] after.trail_lim@[l] by {
            assert(before.trail_lim@[k] <= before.trail_lim@[l]);
        }
        assert forall|i: int| 0 <= i < after.trail@.len() implies after.level@[sat_logic::var_of(
            #[trigger] after.trail@[i],
        )] <= after.trail_lim@.len() by {
            assert(before.trail_lim@[level] <= i <==> before.level@[sat_logic::var_of(
                before.trail@[i],
            )] > level);
        }
        assert forall|i: int, k: int|
            #![trigger after.trail@[i], after.trail_lim@[k]]
            0 <= i < after.trail@.len() && 0 <= k < after.trail_lim@.len() implies (
        after.trail_lim@[k] <= i <==> after.level@[sat_logic::var_of(after.trail@[i])] > k) by {
            assert(before.trail_lim@[k] <= i <==> before.level@[sat_logic::var_of(
                before.trail@[i],
            )] > k);
        }
    }
    assert(ground(after.trail@, after.trail_lim@) == ground(before.trail@, before.trail_lim@));
    assert forall|i: int|
        #![trigger after.trail@[i]]
        ground(after.trail@, after.trail_lim@) <= i
            < after.trail@.len() implies match after.reason@[sat_logic::var_of(after.trail@[i])] {
        Some(r) => reason_ok(
            after.clauses@,
            after.assign@,
            after.when@,
            r as int,
            after.trail@[i],
            i,
        ),
        None => exists|k: int|
            0 <= k < after.trail_lim@.len() && #[trigger] after.trail_lim@[k] == i,
    } by {
        let v = sat_logic::var_of(before.trail@[i]);
        assert(before.assign@[v] is Some && before.when@[v] == i);
        assert(after.reason@[v] == before.reason@[v]);
        match before.reason@[v] {
            Some(r) => {
                let clause = before.clauses@[r as int]@;
                assert(clause.len() >= 2 && sat_logic::clause_ok(clause, n));
                assert forall|j: int| 1 <= j < clause.len() implies is_false(
                    after.assign@,
                    #[trigger] clause[j],
                ) && after.when@[sat_logic::var_of(clause[j])] < i by {
                    assert(is_false(before.assign@, clause[j]));
                    assert(sat_logic::lit_ok(clause[j], n));
                    assert(after.assign@[sat_logic::var_of(clause[j])] is Some);
                }
            },
            None => {
                let k = choose|k: int|
                    0 <= k < before.trail_lim@.len() && #[trigger] before.trail_lim@[k] == i;
                if k >= level {
                    assert(before.trail_lim@[level] <= before.trail_lim@[k]);
                }
                assert(after.trail_lim@[k] == i);
            },
        }
    }
    assert(sound(after.formula@, n, after.clauses@, after.trail@, after.trail_lim@));
    assert forall|f: int| 0 <= f < after.covered@.len() implies kept_in(
        #[trigger] after.covered@[f],
        after.clauses@,
        after.learnt@,
    ) || ground_true(after.covered@[f], after.trail@, after.trail_lim@) by {
        if ground_true(before.covered@[f], before.trail@, before.trail_lim@) {
            let i = choose|i: int|
                0 <= i < ground(before.trail@, before.trail_lim@) && i < before.trail@.len()
                    && before.covered@[f].contains(#[trigger] before.trail@[i]);
            assert(before.trail_lim@[0] <= before.trail_lim@[level]);
            assert(after.trail@[i] == before.trail@[i]);
        }
    }
    assert forall|d: int| 0 <= d < after.clauses@.len() implies clause_settled(
        (#[trigger] after.clauses@[d])@,
        after.assign@,
        after.level@,
        after.when@,
        after.head as int,
    ) by {
        let clause = before.clauses@[d]@;
        assert(clause.len() >= 2 && sat_logic::clause_ok(clause, n));
        assert(clause_settled(clause, before.assign@, before.level@, before.when@, keep));
        lemma_settled_cut(before, after, keep, clause[0], clause[1]);
        lemma_settled_cut(before, after, keep, clause[1], clause[0]);
    }
}

/// A settled watch stays settled when the trail is cut.
proof fn lemma_settled_cut(before: Solver, after: Solver, keep: int, watch: i32, other: i32)
    requires
        before.consistent(),
        sat_logic::lit_ok(watch, before.vars as nat),
        sat_logic::lit_ok(other, before.vars as nat),
        0 <= keep <= before.trail@.len(),
        exists|k: int| 0 <= k < before.trail_lim@.len() && #[trigger] before.trail_lim@[k] == keep,
        watch_settled(before.assign@, before.level@, before.when@, keep, watch, other),
        after.level == before.level,
        after.when == before.when,
        after.vars == before.vars,
        forall|v: int|
            0 <= v < after.vars ==> #[trigger] after.assign@[v] == (if before.assign@[v] is Some
                && before.when@[v] < keep {
                before.assign@[v]
            } else {
                None
            }),
    ensures
        watch_settled(after.assign@, after.level@, after.when@, keep, watch, other),
{
    let w = sat_logic::var_of(watch);
    let o = sat_logic::var_of(other);
    assert(after.assign@[w] == after.assign@[w]);
    assert(after.assign@[o] == after.assign@[o]);
    if is_false(after.assign@, watch) {
        assert(before.assign@[w] is Some);
        assert(is_false(before.assign@, watch));
        assert(before.assign@[o] is Some);
        let k = choose|k: int|
            0 <= k < before.trail_lim@.len() && #[trigger] before.trail_lim@[k] == keep;
        let i = before.when@[w];
        let j = before.when@[o];
        assert(before.trail_lim@[k] <= i <==> before.level@[sat_logic::var_of(before.trail@[i])]
            > k);
        assert(before.trail_lim@[k] <= j <==> before.level@[sat_logic::var_of(before.trail@[j])]
            > k);
    }
}

impl Solver {
    /// Undoes every level past `level`, remembering which way each variable
    /// was last assigned.
    #[verifier::spinoff_prover]
    fn cancel_until(&mut self, level: usize)
        requires
            old(self).consistent(),
            level <= old(self).trail_lim@.len(),
            level == old(self).trail_lim@.len() ==> old(self).head == old(self).trail@.len()
                && old(self).settled_to(old(self).head as int),
            level < old(self).trail_lim@.len() ==> old(self).settled_to(
                old(self).trail_lim@[level as int] as int,
            ),
        ensures
            final(self).consistent(),
            final(self).settled_to(final(self).head as int),
            final(self).head == final(self).trail@.len(),
            final(self).vars == old(self).vars,
            final(self).clauses == old(self).clauses,
            final(self).learnt == old(self).learnt,
            final(self).formula == old(self).formula,
            final(self).covered == old(self).covered,
            final(self).conflicts == old(self).conflicts,
            final(self).level == old(self).level,
            final(self).when == old(self).when,
            final(self).trail_lim@ == old(self).trail_lim@.take(level as int),
            level == old(self).trail_lim@.len() ==> final(self).trail == old(self).trail
                && final(self).assign == old(self).assign,
            level < old(self).trail_lim@.len() ==> {
                &&& final(self).trail@ == old(self).trail@.take(
                    old(self).trail_lim@[level as int] as int,
                )
                &&& forall|v: int|
                    0 <= v < old(self).vars ==> #[trigger] final(self).assign@[v] == (if old(
                        self,
                    ).assign@[v] is Some && old(self).when@[v] < final(self).trail@.len() {
                        old(self).assign@[v]
                    } else {
                        None
                    })
            },
            old(self).all_waiting() ==> final(self).all_waiting(),
            state_of(*final(self)) == sat_machine::cancelled(state_of(*old(self)), level as int),
    {
        if self.trail_lim.len() <= level {
            assert(self.trail_lim@ == self.trail_lim@.take(level as int));
            self.head = self.trail.len();
            proof {
                reveal(state_of);
                reveal(sat_machine::cancelled);
                assert(held(*self) =~= held(*old(self)));
            }
            return;
        }
        let limit: usize = self.trail_lim[level];
        let ghost before = *self;
        assert(before.trail@.take(before.trail@.len() as int) == before.trail@);
        while self.trail.len() > limit
            invariant
                before.consistent(),
                limit <= self.trail@.len() <= before.trail@.len(),
                self.trail@ == before.trail@.take(self.trail@.len() as int),
                self.vars == before.vars,
                self.clauses == before.clauses,
                self.learnt == before.learnt,
                self.clause_activity == before.clause_activity,
                self.watches == before.watches,
                self.level == before.level,
                self.when == before.when,
                self.seen == before.seen,
                self.seen_touched == before.seen_touched,
                self.formula == before.formula,
                self.covered == before.covered,
                self.conflicts == before.conflicts,
                self.trail_lim == before.trail_lim,
                self.order.wf(self.vars as nat),
                self.phase@.len() == self.vars,
                self.reason@.len() == self.vars,
                self.assign@.len() == self.vars,
                forall|v: int|
                    0 <= v < self.vars ==> #[trigger] self.assign@[v] == (if before.assign@[v] is Some
                        && before.when@[v] < self.trail@.len() {
                        before.assign@[v]
                    } else {
                        None
                    }),
                forall|v: int|
                    0 <= v < self.vars && before.assign@[v] is Some && before.when@[v]
                        < self.trail@.len() ==> #[trigger] self.reason@[v] == before.reason@[v],
                before.all_waiting() ==> self.all_waiting(),
                sat_machine::undone(state_of(*self), limit as int) == sat_machine::undone(
                    state_of(before),
                    limit as int,
                ),
                self.head == before.head,
            decreases self.trail@.len(),
        {
            let ghost step = *self;
            let ghost at = self.trail@.len() - 1;
            let literal: i32 = self.trail[self.trail.len() - 1];
            assert(before.trail@[at] == literal);
            assert(sat_logic::lit_ok(literal, self.vars as nat));
            self.trail.pop();
            let variable: usize = variable_of(literal);
            self.phase[variable] = literal > 0;
            self.assign[variable] = None;
            self.reason[variable] = None;
            self.order.insert(variable, Ghost(self.vars as nat));
            proof {
                lemma_undone(step, *self, limit as int);
                assert(self.trail@ == before.trail@.take(at));
                assert forall|v: int| 0 <= v < self.vars implies #[trigger] self.assign@[v] == (
                if before.assign@[v] is Some && before.when@[v] < self.trail@.len() {
                    before.assign@[v]
                } else {
                    None
                }) by {
                    assert(step.assign@[v] == step.assign@[v]);
                    if v != variable && before.assign@[v] is Some && before.when@[v] == at {
                        assert(sat_logic::var_of(before.trail@[before.when@[v]]) == v);
                    }
                }
                assert forall|v: int|
                    0 <= v < self.vars && before.assign@[v] is Some && before.when@[v]
                        < self.trail@.len() implies #[trigger] self.reason@[v]
                    == before.reason@[v] by {
                    assert(step.reason@[v] == before.reason@[v]);
                }
                if before.all_waiting() {
                    assert forall|v: int|
                        0 <= v < self.vars && #[trigger] self.assign@[v] is None implies self.order.holds(
                        v,
                    ) by {
                        assert(v != variable ==> step.assign@[v] is None);
                        assert(v != variable ==> step.order.holds(v));
                    }
                }
            }
        }
        let ghost left = *self;
        self.trail_lim.truncate(level);
        self.head = self.trail.len();
        proof {
            lemma_back_at(before, left, *self, level as int);
            lemma_cancelled(before, *self, level as int);
        }
    }

    /// Lists clause `index` under its first two literals.
    fn watch_clause(&mut self, index: usize)
        requires
            clauses_ok(old(self).clauses@, old(self).vars as nat),
            old(self).vars <= i32::MAX,
            index < old(self).clauses@.len(),
            watches_ok(
                old(self).clauses@,
                old(self).watches@,
                old(self).vars as nat,
                index as int,
            ),
        ensures
            watches_ok(
                final(self).clauses@,
                final(self).watches@,
                final(self).vars as nat,
                index + 1,
            ),
            *final(self) == (Solver { watches: final(self).watches, ..*old(self) }),
            lists(final(self).watches@) == sat_machine::filed(
                lists(old(self).watches@),
                index,
                old(self).clauses@[index as int]@,
            ),
    {
        let ghost before = *self;
        let ghost n = self.vars as nat;
        let zero: i32 = self.clauses[index][0];
        let one: i32 = self.clauses[index][1];
        proof {
            let clause = self.clauses@[index as int]@;
            assert(clause.len() >= 2 && sat_logic::clause_ok(clause, n) && clause.no_duplicates());
            assert(sat_logic::lit_ok(clause[0], n) && sat_logic::lit_ok(clause[1], n));
            if slot_of(zero) == slot_of(one) {
                lemma_slots_differ(zero, one);
            }
        }
        let first: usize = index_of(zero);
        let second: usize = index_of(one);
        self.watches[first].push(index);
        self.watches[second].push(index);
        proof {
            assert forall|s: int, q: int|
                #![trigger self.watches@[s]@[q]]
                0 <= s < self.watches@.len() && 0 <= q
                    < self.watches@[s]@.len() implies self.watches@[s]@[q] < index + 1
                && watched_at(self.clauses@, self.watches@[s]@[q] as int, s) by {
                if q < before.watches@[s]@.len() {
                    assert(self.watches@[s]@[q] == before.watches@[s]@[q]);
                    assert(watched_at(before.clauses@, before.watches@[s]@[q] as int, s));
                }
            }
            assert forall|s: int| 0 <= s < self.watches@.len() implies (
            #[trigger] self.watches@[s])@.no_duplicates() by {
                let list = self.watches@[s]@;
                let older = before.watches@[s]@;
                assert(older.no_duplicates());
                assert forall|a: int, b: int|
                    0 <= a < list.len() && 0 <= b < list.len() && a != b implies list[a]
                    != list[b] by {
                    assert(forall|q: int| 0 <= q < older.len() ==> #[trigger] older[q] < index);
                    if a < older.len() {
                        assert(list[a] == older[a]);
                    }
                    if b < older.len() {
                        assert(list[b] == older[b]);
                    }
                }
            }
            assert forall|c: int| 0 <= c < index + 1 implies listed(
                self.watches@,
                slot_of((#[trigger] self.clauses@[c])@[0]),
                c,
            ) && listed(self.watches@, slot_of(self.clauses@[c]@[1]), c) by {
                let clause = self.clauses@[c]@;
                assert(clause.len() >= 2 && sat_logic::clause_ok(clause, n));
                assert(sat_logic::lit_ok(clause[0], n) && sat_logic::lit_ok(clause[1], n));
                if c < index {
                    assert(listed(before.watches@, slot_of(clause[0]), c) && listed(
                        before.watches@,
                        slot_of(clause[1]),
                        c,
                    ));
                    let a = choose|p: int|
                        0 <= p < before.watches@[slot_of(clause[0])]@.len()
                            && #[trigger] before.watches@[slot_of(clause[0])]@[p] == c;
                    assert(self.watches@[slot_of(clause[0])]@[a] == c);
                    let b = choose|p: int|
                        0 <= p < before.watches@[slot_of(clause[1])]@.len()
                            && #[trigger] before.watches@[slot_of(clause[1])]@[p] == c;
                    assert(self.watches@[slot_of(clause[1])]@[b] == c);
                } else {
                    let a = self.watches@[first as int]@;
                    assert(a[a.len() - 1] == index);
                    let b = self.watches@[second as int]@;
                    assert(b[b.len() - 1] == index);
                }
            }
            assert(lists(self.watches@) =~= sat_machine::filed(
                lists(before.watches@),
                index,
                before.clauses@[index as int]@,
            ));
        }
    }

    /// Stores a clause and watches its first two literals.
    fn attach(&mut self, literals: Vec<i32>, learnt: bool) -> (index: usize)
        requires
            old(self).consistent(),
            literals@.len() >= 2,
            sat_logic::clause_ok(literals@, old(self).vars as nat),
            literals@.no_duplicates(),
            sat_logic::entails(old(self).formula@, old(self).vars as nat, literals@),
        ensures
            final(self).consistent(),
            index == old(self).clauses@.len(),
            final(self).clauses@ == old(self).clauses@.push(literals),
            final(self).learnt@ == old(self).learnt@.push(learnt),
            final(self).clause_activity@ == old(self).clause_activity@.push(0),
            *final(self) == (Solver {
                clauses: final(self).clauses,
                learnt: final(self).learnt,
                clause_activity: final(self).clause_activity,
                watches: final(self).watches,
                ..*old(self)
            }),
            state_of(*final(self)) == sat_machine::attached(
                state_of(*old(self)),
                literals@,
                learnt,
            ),
    {
        let ghost before = *self;
        let ghost n = self.vars as nat;
        let index: usize = self.clauses.len();
        self.clauses.push(literals);
        self.learnt.push(learnt);
        self.clause_activity.push(0);
        proof {
            assert forall|c: int| 0 <= c < before.clauses@.len() implies #[trigger] self.clauses@[c]
                == before.clauses@[c] by {}
            assert(clauses_ok(self.clauses@, n)) by {
                assert forall|c: int| 0 <= c < self.clauses@.len() implies (
                #[trigger] self.clauses@[c])@.len() >= 2 && sat_logic::clause_ok(
                    self.clauses@[c]@,
                    n,
                ) && self.clauses@[c]@.no_duplicates() by {
                    if c < index {
                        assert(before.clauses@[c]@.len() >= 2);
                    }
                }
            }
            assert(watches_ok(self.clauses@, self.watches@, n, index as int)) by {
                assert forall|s: int, q: int|
                    #![trigger self.watches@[s]@[q]]
                    0 <= s < self.watches@.len() && 0 <= q
                        < self.watches@[s]@.len() implies self.watches@[s]@[q] < index
                    && watched_at(self.clauses@, self.watches@[s]@[q] as int, s) by {
                    assert(watched_at(before.clauses@, before.watches@[s]@[q] as int, s));
                }
                assert forall|c: int| 0 <= c < index implies listed(
                    self.watches@,
                    slot_of((#[trigger] self.clauses@[c])@[0]),
                    c,
                ) && listed(self.watches@, slot_of(self.clauses@[c]@[1]), c) by {
                    assert(listed(before.watches@, slot_of(before.clauses@[c]@[0]), c));
                }
            }
        }
        self.watch_clause(index);
        proof {
            assert(state_of(*self) == sat_machine::attached(
                state_of(before),
                literals@,
                learnt,
            )) by {
                reveal(state_of);
                reveal(sat_machine::attached);
                assert(held(*self) =~= held(before).push(literals@));
            }
            assert forall|i: int|
                #![trigger self.trail@[i]]
                ground(self.trail@, self.trail_lim@) <= i
                    < self.trail@.len() implies match self.reason@[sat_logic::var_of(
                self.trail@[i],
            )] {
                Some(r) => reason_ok(
                    self.clauses@,
                    self.assign@,
                    self.when@,
                    r as int,
                    self.trail@[i],
                    i,
                ),
                None => exists|k: int|
                    0 <= k < self.trail_lim@.len() && #[trigger] self.trail_lim@[k] == i,
            } by {
                match before.reason@[sat_logic::var_of(before.trail@[i])] {
                    Some(r) => {
                        assert(reason_ok(
                            before.clauses@,
                            before.assign@,
                            before.when@,
                            r as int,
                            before.trail@[i],
                            i,
                        ));
                        assert(self.clauses@[r as int] == before.clauses@[r as int]);
                    },
                    None => {},
                }
            }
            assert forall|c: int| 0 <= c < self.clauses@.len() implies sat_logic::entails(
                self.formula@,
                n,
                (#[trigger] self.clauses@[c])@,
            ) by {
                if c < index {
                    assert(sat_logic::entails(before.formula@, n, before.clauses@[c]@));
                }
            }
            assert(covering(
                self.covered@,
                self.clauses@,
                self.learnt@,
                self.trail@,
                self.trail_lim@,
            )) by {
                assert forall|f: int| 0 <= f < self.covered@.len() implies kept_in(
                    #[trigger] self.covered@[f],
                    self.clauses@,
                    self.learnt@,
                ) || ground_true(self.covered@[f], self.trail@, self.trail_lim@) by {
                    if kept_in(before.covered@[f], before.clauses@, before.learnt@) {
                        let d = choose|d: int|
                            0 <= d < before.clauses@.len() && !before.learnt@[d]
                                && sat_logic::literals_within(
                                (#[trigger] before.clauses@[d])@,
                                before.covered@[f],
                            );
                        assert(self.clauses@[d] == before.clauses@[d]);
                        assert(!self.learnt@[d]);
                    }
                }
            }
        }
        index
    }
}

/// Whether `model` disagrees with the assignment on `variable`.
pub open spec fn differs(model: Seq<bool>, assign: Seq<Option<bool>>, variable: int) -> bool {
    assign[variable] is Some && model[variable] != assign[variable]->0
}

/// How many trail entries from `lo` on and before `hi` are marked.
pub open spec fn count_seen(trail: Seq<i32>, seen: Seq<bool>, lo: int, hi: int) -> nat
    decreases hi - lo,
{
    if hi <= lo {
        0
    } else {
        count_seen(trail, seen, lo, hi - 1) + if seen[sat_logic::var_of(trail[hi - 1])] {
            1nat
        } else {
            0nat
        }
    }
}

/// Marks that differ only outside the counted entries count the same.
proof fn lemma_count_same(trail: Seq<i32>, one: Seq<bool>, other: Seq<bool>, lo: int, hi: int)
    requires
        forall|i: int|
            lo <= i < hi ==> one[sat_logic::var_of(#[trigger] trail[i])] == other[sat_logic::var_of(
                trail[i],
            )],
    ensures
        count_seen(trail, one, lo, hi) == count_seen(trail, other, lo, hi),
    decreases hi - lo,
{
    if hi > lo {
        assert(one[sat_logic::var_of(trail[hi - 1])] == other[sat_logic::var_of(trail[hi - 1])]);
        lemma_count_same(trail, one, other, lo, hi - 1);
    }
}

/// Marking one more entry counts one more.
proof fn lemma_count_mark(solver: Solver, seen: Seq<bool>, v: int, lo: int, hi: int)
    requires
        solver.consistent(),
        seen.len() == solver.vars,
        0 <= v < solver.vars,
        solver.assign@[v] is Some,
        !seen[v],
        0 <= lo <= solver.when@[v] < hi <= solver.trail@.len(),
    ensures
        count_seen(solver.trail@, seen.update(v, true), lo, hi) == count_seen(
            solver.trail@,
            seen,
            lo,
            hi,
        ) + 1,
    decreases hi,
{
    let marked = seen.update(v, true);
    let at = solver.when@[v];
    if at == hi - 1 {
        assert forall|i: int| lo <= i < hi - 1 implies marked[sat_logic::var_of(
            #[trigger] solver.trail@[i],
        )] == seen[sat_logic::var_of(solver.trail@[i])] by {
            assert(solver.when@[sat_logic::var_of(solver.trail@[i])] == i);
        }
        lemma_count_same(solver.trail@, marked, seen, lo, hi - 1);
    } else {
        assert(solver.when@[sat_logic::var_of(solver.trail@[hi - 1])] == hi - 1);
        lemma_count_mark(solver, seen, v, lo, hi - 1);
    }
}

/// A marked entry is counted.
proof fn lemma_count_positive(trail: Seq<i32>, seen: Seq<bool>, lo: int, hi: int, at: int)
    requires
        lo <= at < hi,
        seen[sat_logic::var_of(trail[at])],
    ensures
        count_seen(trail, seen, lo, hi) > 0,
    decreases hi - lo,
{
    if at < hi - 1 {
        lemma_count_positive(trail, seen, lo, hi - 1, at);
    }
}

/// Counting is bounded by the entries counted.
proof fn lemma_count_bounded(trail: Seq<i32>, seen: Seq<bool>, lo: int, hi: int)
    requires
        lo <= hi,
    ensures
        count_seen(trail, seen, lo, hi) <= hi - lo,
    decreases hi - lo,
{
    if hi > lo {
        lemma_count_bounded(trail, seen, lo, hi - 1);
    }
}

/// Every model of the formula disagrees with the assignment on a marked
/// variable, or on `extra`, or satisfies a literal of the clause from `start`
/// on.
pub open spec fn conflict_traced(
    solver: Solver,
    extra: Option<int>,
    clause: Seq<i32>,
    start: int,
) -> bool {
    forall|m: Seq<bool>|
        m.len() == solver.vars && #[trigger] sat_logic::formula_holds(m, solver.formula@)
            ==> mark_differs(solver, m, extra) || holds_from(m, clause, start)
}

/// Whether `model` disagrees with the assignment on a marked variable, or on
/// `extra`.
pub open spec fn mark_differs(solver: Solver, model: Seq<bool>, extra: Option<int>) -> bool {
    exists|v: int|
        0 <= v < solver.vars && (#[trigger] solver.seen@[v] || extra == Some(v)) && differs(
            model,
            solver.assign@,
            v,
        )
}

/// Whether `model` satisfies a literal of `clause` from `start` on.
pub open spec fn holds_from(model: Seq<bool>, clause: Seq<i32>, start: int) -> bool {
    exists|j: int| start <= j < clause.len() && sat_logic::lit_holds(model, #[trigger] clause[j])
}

/// The marks of a conflict analysis: each is past the ground level, the
/// current level's stand before `index`, and the rest are named in `learnt`.
pub open spec fn marks_ok(solver: Solver, learnt: Seq<i32>, index: int) -> bool {
    &&& forall|j: int|
        1 <= j < learnt.len() ==> {
            &&& sat_logic::lit_ok(#[trigger] learnt[j], solver.vars as nat)
            &&& is_false(solver.assign@, learnt[j])
            &&& 0 < solver.level@[sat_logic::var_of(learnt[j])] < solver.trail_lim@.len()
            &&& solver.seen@[sat_logic::var_of(learnt[j])]
        }
    &&& forall|j: int, k: int|
        1 <= j < k < learnt.len() ==> #[trigger] learnt[j] != #[trigger] learnt[k]
    &&& forall|v: int|
        0 <= v < solver.vars && #[trigger] solver.seen@[v] ==> {
            &&& solver.assign@[v] is Some
            &&& solver.level@[v] > 0
            &&& solver.level@[v] == solver.trail_lim@.len() ==> solver.when@[v] < index
            &&& solver.level@[v] < solver.trail_lim@.len() ==> named_in(learnt, v)
        }
}

/// Whether `learnt`, past its first literal, names `variable`.
pub open spec fn named_in(learnt: Seq<i32>, variable: int) -> bool {
    exists|j: int| 1 <= j < learnt.len() && sat_logic::var_of(#[trigger] learnt[j]) == variable
}

/// What a conflict analysis may touch.
pub open spec fn only_marks_differ(one: Solver, other: Solver) -> bool {
    one == (Solver {
        seen: one.seen,
        seen_touched: one.seen_touched,
        order: one.order,
        clause_activity: one.clause_activity,
        ..other
    })
}

/// A literal made false by the assignment and true by a model marks a
/// disagreement, and the other way round.
proof fn lemma_differs(m: Seq<bool>, assign: Seq<Option<bool>>, literal: i32)
    requires
        is_false(assign, literal),
    ensures
        differs(m, assign, sat_logic::var_of(literal)) <==> sat_logic::lit_holds(m, literal),
{
}

/// A variable assigned on the ground is one whose level is 0.
proof fn lemma_ground_level(solver: Solver, v: int)
    requires
        solver.consistent(),
        0 <= v < solver.vars,
        solver.assign@[v] is Some,
    ensures
        solver.level@[v] == 0 <==> solver.when@[v] < ground(solver.trail@, solver.trail_lim@),
        solver.level@[v] <= solver.trail_lim@.len(),
        solver.trail_lim@.len() > 0 ==> (solver.level@[v] == solver.trail_lim@.len()
            <==> solver.when@[v] >= solver.trail_lim@.last()),
{
    let i = solver.when@[v];
    assert(sat_logic::var_of(solver.trail@[i]) == v);
    if solver.trail_lim@.len() > 0 {
        assert(solver.trail_lim@[0] <= i <==> solver.level@[sat_logic::var_of(solver.trail@[i])]
            > 0);
        let k = solver.trail_lim@.len() - 1;
        assert(solver.trail_lim@[k] <= i <==> solver.level@[sat_logic::var_of(solver.trail@[i])]
            > k);
    }
}

/// What an analysis has marked so far.
spec fn marks_of(solver: Solver, lesson: Seq<i32>, count: int) -> Marks {
    Marks { order: solver.order@, seen: solver.seen@, lesson: lesson, count: count }
}

/// One literal marked, as a step.
proof fn lemma_noted(
    start: Solver,
    before: Solver,
    lesson: Seq<i32>,
    count: int,
    after: Solver,
    lesson_after: Seq<i32>,
    count_after: int,
    clause: Seq<i32>,
    p: int,
)
    requires
        0 <= p < clause.len(),
        start.level == before.level,
        start.trail_lim == before.trail_lim,
        ({
            let v = sat_logic::var_of(clause[p]);
            if before.seen@[v] || before.level@[v] == 0 {
                after == before && lesson_after == lesson && count_after == count
            } else {
                &&& after.seen@ == before.seen@.update(v, true)
                &&& after.order@ == before.order@.raised(v)
                &&& if before.level@[v] >= before.trail_lim@.len() {
                    lesson_after == lesson && count_after == count + 1
                } else {
                    lesson_after == lesson.push(clause[p]) && count_after == count
                }
            }
        }),
    ensures
        sat_machine::noted_from(state_of(start), marks_of(before, lesson, count), clause, p)
            == sat_machine::noted_from(
            state_of(start),
            marks_of(after, lesson_after, count_after),
            clause,
            p + 1,
        ),
{
    sat_machine::lemma_noted_step(
        state_of(start),
        marks_of(before, lesson, count),
        clause,
        p,
    );
    assert(sat_machine::noted(state_of(start), marks_of(before, lesson, count), clause[p])
        == marks_of(after, lesson_after, count_after)) by {
        reveal(state_of);
    }
}

impl Solver {
    /// Clears the marks of the last analysis.
    fn clear_marks(&mut self)
        requires
            old(self).consistent(),
        ensures
            final(self).consistent(),
            only_marks_differ(*final(self), *old(self)),
            final(self).order == old(self).order,
            final(self).clause_activity == old(self).clause_activity,
            forall|v: int| 0 <= v < final(self).vars ==> !#[trigger] final(self).seen@[v],
    {
        let mut at: usize = 0;
        while at < self.seen_touched.len()
            invariant
                at <= self.seen_touched@.len(),
                self.seen_touched == old(self).seen_touched,
                self.seen@.len() == self.vars == old(self).seen@.len(),
                *self == (Solver { seen: self.seen, ..*old(self) }),
                forall|i: int|
                    0 <= i < self.seen_touched@.len() ==> #[trigger] self.seen_touched@[i]
                        < self.vars,
                forall|v: int|
                    0 <= v < self.vars && #[trigger] self.seen@[v] ==> old(self).seen@[v] && !(
                    exists|i: int| 0 <= i < at && #[trigger] self.seen_touched@[i] == v),
            decreases self.seen_touched@.len() - at,
        {
            let variable: usize = self.seen_touched[at];
            self.seen[variable] = false;
            at = at + 1;
        }
        proof {
            assert forall|v: int| 0 <= v < self.vars implies !#[trigger] self.seen@[v] by {
                if self.seen@[v] {
                    assert(old(self).seen_touched@.contains(v as usize));
                    let i = choose|i: int|
                        0 <= i < self.seen_touched@.len() && self.seen_touched@[i] == v as usize;
                    assert(self.seen_touched@[i] == v);
                }
            }
        }
        self.seen_touched.clear();
    }

    /// Marks the variables of a false clause, from `start` on: those of the
    /// current level are counted, the others go into `learnt`.
    #[verifier::spinoff_prover]
    #[verifier::rlimit(60)]
    fn mark_clause(
        &mut self,
        clause: usize,
        start: usize,
        learnt: &mut Vec<i32>,
        counter: usize,
        Ghost(index): Ghost<int>,
    ) -> (counted: usize)
        requires
            old(self).consistent(),
            old(self).trail_lim@.len() > 0,
            clause < old(self).clauses@.len(),
            start <= 1,
            old(learnt)@.len() >= 1,
            old(self).level_start() <= index <= old(self).trail@.len(),
            marks_ok(*old(self), old(learnt)@, index),
            counter == count_seen(
                old(self).trail@,
                old(self).seen@,
                old(self).level_start(),
                index,
            ),
            conflict_traced(
                *old(self),
                None,
                old(self).clauses@[clause as int]@,
                start as int,
            ),
            forall|j: int|
                start <= j < old(self).clauses@[clause as int]@.len() ==> is_false(
                    old(self).assign@,
                    #[trigger] old(self).clauses@[clause as int]@[j],
                ) && old(self).when@[sat_logic::var_of(
                    old(self).clauses@[clause as int]@[j],
                )] < index,
            counter > 0 || (start == 0 && old(self).level@[sat_logic::var_of(
                old(self).clauses@[clause as int]@[1],
            )] == old(self).trail_lim@.len()),
        ensures
            final(self).consistent(),
            only_marks_differ(*final(self), *old(self)),
            final(self).order.same_waiting(&old(self).order),
            final(learnt)@.len() >= 1,
            marks_ok(*final(self), final(learnt)@, index),
            counted == count_seen(
                final(self).trail@,
                final(self).seen@,
                final(self).level_start(),
                index,
            ),
            counted > 0,
            conflict_traced(*final(self), None, Seq::<i32>::empty(), 0),
            marks_of(*final(self), final(learnt)@, counted as int) == sat_machine::noted_from(
                state_of(*old(self)),
                marks_of(*old(self), old(learnt)@, counter as int),
                old(self).clauses@[clause as int]@,
                start as int,
            ),
            final(self).clause_activity@ == sat_machine::scored(
                old(self).clause_activity@,
                clause as int,
            ),
    {
        let ghost n = self.vars as nat;
        let ghost lo = self.level_start();
        let ghost literals = self.clauses@[clause as int]@;
        let score: u64 = self.clause_activity[clause];
        let bumped: u64 = if score < sat_machine::SCORE_LIMIT {
            score + 1
        } else {
            score
        };
        self.clause_activity[clause] = bumped;
        let mut counted: usize = counter;
        let mut position: usize = start;
        proof {
            assert(literals.len() >= 2 && sat_logic::clause_ok(literals, n));
            lemma_trail_fits(n, self.assign@, self.trail@, self.when@);
            assert(lo >= 0);
        }
        let ghost goal = sat_machine::noted_from(
            state_of(*old(self)),
            marks_of(*old(self), learnt@, counter as int),
            literals,
            start as int,
        );
        let ghost scores = self.clause_activity;
        assert(marks_of(*self, learnt@, counter as int) == marks_of(
            *old(self),
            learnt@,
            counter as int,
        ));
        while position < self.clauses[clause].len()
            invariant
                self.consistent(),
                only_marks_differ(*self, *old(self)),
                self.order.same_waiting(&old(self).order),
                sat_machine::noted_from(
                    state_of(*old(self)),
                    marks_of(*self, learnt@, counted as int),
                    literals,
                    position as int,
                ) == goal,
                self.clause_activity == scores,
                n == self.vars,
                self.trail_lim@.len() > 0,
                lo == self.level_start(),
                0 <= lo <= index <= self.trail@.len(),
                self.trail@.len() <= n,
                clause < self.clauses@.len(),
                literals == self.clauses@[clause as int]@,
                literals.len() >= 2,
                sat_logic::clause_ok(literals, n),
                start <= position <= literals.len(),
                start <= 1,
                learnt@.len() >= 1,
                marks_ok(*self, learnt@, index),
                counted == count_seen(self.trail@, self.seen@, lo, index),
                conflict_traced(*self, None, literals, position as int),
                forall|j: int|
                    start <= j < literals.len() ==> is_false(self.assign@, #[trigger] literals[j])
                        && self.when@[sat_logic::var_of(literals[j])] < index,
                counted > 0 || (position <= 1 && start == 0 && self.level@[sat_logic::var_of(
                    literals[1],
                )] == self.trail_lim@.len()),
            decreases literals.len() - position,
        {
            let ghost before = *self;
            let ghost learnt_before = learnt@;
            let other: i32 = self.clauses[clause][position];
            assert(sat_logic::lit_ok(other, n));
            let variable: usize = variable_of(other);
            let ghost v = variable as int;
            assert(is_false(self.assign@, literals[position as int]));
            assert(self.assign@[v] is Some);
            let ghost counted_before = counted as int;
            proof {
                lemma_ground_level(*self, v);
            }
            if self.seen[variable] || self.level[variable] == 0 {
                proof {
                    lemma_noted(
                        *old(self),
                        before,
                        learnt@,
                        counted as int,
                        *self,
                        learnt@,
                        counted as int,
                        literals,
                        position as int,
                    );
                    assert forall|m: Seq<bool>|
                        m.len() == n && #[trigger] sat_logic::formula_holds(
                            m,
                            self.formula@,
                        ) implies mark_differs(*self, m, None) || holds_from(m, literals, position + 1) by {
                        if sat_logic::lit_holds(m, other) {
                            lemma_differs(m, self.assign@, other);
                            if !self.seen@[v] {
                                lemma_ground_agrees(*self, m, other);
                            } else {
                                assert(self.seen@[v] && differs(m, self.assign@, v));
                            }
                        }
                    }
                    if counted == 0 && position == 1 {
                        assert(self.seen@[v]);
                        let i = self.when@[v];
                        assert(sat_logic::var_of(self.trail@[i]) == v);
                        lemma_count_positive(self.trail@, self.seen@, lo, index, i);
                    }
                }
                position = position + 1;
                continue;
            }
            self.seen[variable] = true;
            self.seen_touched.push(variable);
            self.order.raise(variable, Ghost(self.vars as nat));
            proof {
                assert forall|u: int|
                    0 <= u < self.vars && #[trigger] self.seen@[u] implies self.seen_touched@.contains(
                    u as usize,
                ) by {
                    let list = self.seen_touched@;
                    if u == v {
                        assert(list[list.len() - 1] == u as usize);
                    } else {
                        assert(before.seen@[u]);
                        let older = before.seen_touched@;
                        let k = choose|k: int| 0 <= k < older.len() && older[k] == u as usize;
                        assert(list[k] == u as usize);
                    }
                }
                assert(self.consistent());
                assert forall|u: int| 0 <= u < n implies (#[trigger] self.order.holds(u)
                    <==> old(self).order.holds(u)) by {
                    assert(before.order.holds(u) <==> old(self).order.holds(u));
                }
            }
            if self.level[variable] >= self.trail_lim.len() {
                proof {
                    lemma_count_mark(before, before.seen@, v, lo, index);
                    lemma_count_bounded(self.trail@, self.seen@, lo, index);
                    assert(self.seen@ == before.seen@.update(v, true));
                }
                counted = counted + 1;
            } else {
                learnt.push(other);
                proof {
                    assert forall|i: int| lo <= i < index implies self.seen@[sat_logic::var_of(
                        #[trigger] self.trail@[i],
                    )] == before.seen@[sat_logic::var_of(self.trail@[i])] by {
                        assert(self.when@[sat_logic::var_of(self.trail@[i])] == i);
                    }
                    lemma_count_same(self.trail@, self.seen@, before.seen@, lo, index);
                    assert(learnt@[learnt@.len() - 1] == other);
                }
            }
            proof {
                lemma_noted(
                    *old(self),
                    before,
                    learnt_before,
                    counted_before,
                    *self,
                    learnt@,
                    counted as int,
                    literals,
                    position as int,
                );
                assert forall|j: int| 1 <= j < learnt@.len() implies {
                    &&& sat_logic::lit_ok(#[trigger] learnt@[j], n)
                    &&& is_false(self.assign@, learnt@[j])
                    &&& 0 < self.level@[sat_logic::var_of(learnt@[j])] < self.trail_lim@.len()
                    &&& self.seen@[sat_logic::var_of(learnt@[j])]
                } by {
                    if j < learnt_before.len() {
                        assert(learnt@[j] == learnt_before[j]);
                        assert(before.seen@[sat_logic::var_of(learnt_before[j])]);
                    }
                }
                assert forall|j: int, k: int|
                    1 <= j < k < learnt@.len() implies #[trigger] learnt@[j]
                    != #[trigger] learnt@[k] by {
                    assert(learnt@[j] == learnt_before[j]);
                    if k < learnt_before.len() {
                        assert(learnt@[k] == learnt_before[k]);
                    } else {
                        assert(before.seen@[sat_logic::var_of(learnt_before[j])]);
                    }
                }
                assert forall|u: int| 0 <= u < n && #[trigger] self.seen@[u] implies {
                    &&& self.assign@[u] is Some
                    &&& self.level@[u] > 0
                    &&& self.level@[u] == self.trail_lim@.len() ==> self.when@[u] < index
                    &&& self.level@[u] < self.trail_lim@.len() ==> named_in(learnt@, u)
                } by {
                    if u != v {
                        assert(before.seen@[u]);
                        if self.level@[u] < self.trail_lim@.len() {
                            let j = choose|j: int|
                                1 <= j < learnt_before.len() && sat_logic::var_of(
                                    #[trigger] learnt_before[j],
                                ) == u;
                            assert(learnt@[j] == learnt_before[j]);
                        }
                    } else if self.level@[u] < self.trail_lim@.len() {
                        assert(sat_logic::var_of(learnt@[learnt@.len() - 1]) == u);
                    }
                }
                assert forall|m: Seq<bool>|
                    m.len() == n && #[trigger] sat_logic::formula_holds(
                        m,
                        self.formula@,
                    ) implies mark_differs(*self, m, None) || holds_from(m, literals, position + 1) by {
                    if mark_differs(before, m, None) {
                        let u = choose|u: int|
                            0 <= u < n && (#[trigger] before.seen@[u] || None::<int> == Some(u))
                                && differs(m, before.assign@, u);
                        assert(self.seen@[u] && differs(m, self.assign@, u));
                    } else {
                        let j = choose|j: int|
                            position <= j < literals.len() && sat_logic::lit_holds(
                                m,
                                #[trigger] literals[j],
                            );
                        if j == position {
                            lemma_differs(m, self.assign@, other);
                            assert(self.seen@[v] && differs(m, self.assign@, v));
                        }
                    }
                }
            }
            position = position + 1;
        }
        proof {
            sat_machine::lemma_noted_step(
                state_of(*old(self)),
                marks_of(*self, learnt@, counted as int),
                literals,
                position as int,
            );
        }
        counted
    }
}

/// A literal of `learnt` may go: what forced it false is marked, or holds on
/// the ground.
pub open spec fn implied_by_marks(solver: Solver, variable: int) -> bool {
    &&& solver.reason@[variable] is Some
    &&& forall|j: int|
        1 <= j < solver.clauses@[solver.reason@[variable]->0 as int]@.len() ==> {
            let next = sat_logic::var_of(
                #[trigger] solver.clauses@[solver.reason@[variable]->0 as int]@[j],
            );
            solver.seen@[next] || solver.level@[next] == 0
        }
}

/// A model that disagrees on a marked variable satisfies a literal that was
/// kept: disagreements on dropped ones go back, by what forced them, to ones
/// earlier on the trail.
proof fn lemma_chase(solver: Solver, m: Seq<bool>, learnt: Seq<i32>, kept: Seq<i32>, v: int)
    requires
        solver.consistent(),
        m.len() == solver.vars,
        sat_logic::formula_holds(m, solver.formula@),
        marks_ok(solver, learnt, 0),
        0 <= v < solver.vars,
        solver.seen@[v],
        differs(m, solver.assign@, v),
        solver.trail_lim@.len() > 0,
        forall|k: int|
            1 <= k < learnt.len() ==> kept.contains(#[trigger] learnt[k]) || implied_by_marks(
                solver,
                sat_logic::var_of(learnt[k]),
            ),
    ensures
        sat_logic::clause_holds(m, kept),
    decreases solver.when@[v],
{
    let n = solver.vars as nat;
    lemma_ground_level(solver, v);
    assert(solver.when@[v] >= 0);
    assert(named_in(learnt, v));
    let k = choose|j: int| 1 <= j < learnt.len() && sat_logic::var_of(#[trigger] learnt[j]) == v;
    if kept.contains(learnt[k]) {
        lemma_differs(m, solver.assign@, learnt[k]);
        let j = choose|j: int| 0 <= j < kept.len() && kept[j] == learnt[k];
        assert(sat_logic::lit_holds(m, kept[j]));
    } else {
        assert(implied_by_marks(solver, v));
        let r = solver.reason@[v]->0 as int;
        let i = solver.when@[v];
        assert(sat_logic::var_of(solver.trail@[i]) == v);
        assert(reason_ok(solver.clauses@, solver.assign@, solver.when@, r, solver.trail@[i], i));
        let clause = solver.clauses@[r]@;
        assert(sat_logic::entails(solver.formula@, n, clause));
        assert(clause.len() >= 2 && sat_logic::clause_ok(clause, n));
        let j = choose|j: int| 0 <= j < clause.len() && sat_logic::lit_holds(m, #[trigger] clause[j]);
        assert(j != 0) by {
            assert(is_true(solver.assign@, solver.trail@[i]));
        }
        assert(sat_logic::lit_ok(clause[j], n));
        let w = sat_logic::var_of(clause[j]);
        lemma_differs(m, solver.assign@, clause[j]);
        lemma_ground_level(solver, w);
        if solver.level@[w] == 0 {
            lemma_ground_agrees(solver, m, clause[j]);
        } else {
            assert(solver.when@[w] >= 0);
            lemma_chase(solver, m, learnt, kept, w);
        }
    }
}

/// A conflict passes through one literal of the current level, and comes from
/// marked literals of the levels below.
pub open spec fn passes_through(solver: Solver, learnt: Seq<i32>, chosen: i32) -> bool {
    &&& learnt.len() >= 1
    &&& marks_ok(solver, learnt, 0)
    &&& sat_logic::lit_ok(chosen, solver.vars as nat)
    &&& is_true(solver.assign@, chosen)
    &&& solver.level@[sat_logic::var_of(chosen)] == solver.trail_lim@.len()
    &&& conflict_traced(solver, Some(sat_logic::var_of(chosen)), Seq::<i32>::empty(), 0)
}

/// What may be dropped is read off the state of the search.
proof fn lemma_droppable(solver: Solver, v: int)
    requires
        solver.reason@[v] is Some ==> solver.reason@[v]->0 < solver.clauses@.len(),
    ensures
        sat_machine::droppable(state_of(solver), solver.seen@, v) == implied_by_marks(solver, v),
{
    reveal(state_of);
    if solver.reason@[v] is Some {
        let r = solver.reason@[v]->0 as int;
        let clause = solver.clauses@[r]@;
        assert(held(solver)[r] == clause);
        if implied_by_marks(solver, v) {
            assert forall|j: int| 1 <= j < clause.len() implies {
                let next = sat_logic::var_of(#[trigger] held(solver)[r][j]);
                solver.seen@[next] || solver.level@[next] == 0
            } by {
                assert(solver.clauses@[r]@[j] == clause[j]);
            }
        }
        if sat_machine::droppable(state_of(solver), solver.seen@, v) {
            assert forall|j: int| 1 <= j < clause.len() implies {
                let next = sat_logic::var_of(#[trigger] solver.clauses@[r]@[j]);
                solver.seen@[next] || solver.level@[next] == 0
            } by {
                let s = state_of(solver);
                assert(s.clauses[s.reason[v]->0 as int][j] == clause[j]);
            }
        }
    }
}

/// The parts of an analysis put together.
proof fn lemma_studied(
    before: Solver,
    after: Solver,
    c: int,
    learnt: Seq<i32>,
    chosen: i32,
    best: int,
)
    requires
        only_marks_differ(after, before),
        sat_machine::traced(
            state_of(before),
            sat_machine::unmarked(state_of(before)),
            before.clause_activity@,
            c,
            0,
            before.trail@.len() as int,
        ) == (marks_of(after, learnt, 0), after.clause_activity@, chosen),
        ({
            let kept = sat_machine::cut(
                state_of(after),
                after.seen@,
                chosen,
                learnt,
                learnt.len() as int,
            );
            kept.len() != 1 ==> best == sat_machine::deepest(
                after.level@,
                kept,
                kept.len() as int,
            )
        }),
    ensures
        ({
            let kept = sat_machine::cut(
                state_of(after),
                after.seen@,
                chosen,
                learnt,
                learnt.len() as int,
            );
            sat_machine::studied(state_of(before), c) == if kept.len() == 1 {
                (state_of(after), kept, 0usize)
            } else {
                (
                    state_of(after),
                    sat_machine::swapped(kept, 1, best),
                    after.level@[sat_logic::var_of(kept[best])],
                )
            }
        }),
{
    assert(state_of(after) == (State {
        scores: after.clause_activity@,
        order: after.order@,
        ..state_of(before)
    }) && state_of(before).scores == before.clause_activity@ && state_of(before).trail
        == before.trail@ && state_of(before).level == after.level@) by {
        reveal(state_of);
        assert(held(after) =~= held(before));
    }
    sat_machine::lemma_cut_same(
        state_of(before),
        state_of(after),
        after.seen@,
        chosen,
        learnt,
        learnt.len() as int,
    );
    reveal(sat_machine::studied);
}

/// One clause of a conflict traced, as a step.
proof fn lemma_traced(
    first: Solver,
    before: Solver,
    lesson: Seq<i32>,
    count: int,
    c: int,
    start: int,
    below: int,
    marked: Solver,
    learnt: Seq<i32>,
    counted: int,
    after: Solver,
    at: int,
)
    requires
        only_marks_differ(before, first),
        only_marks_differ(marked, first),
        0 <= c < before.clauses@.len(),
        marks_of(marked, learnt, counted) == sat_machine::noted_from(
            state_of(before),
            marks_of(before, lesson, count),
            before.clauses@[c]@,
            start,
        ),
        marked.clause_activity@ == sat_machine::scored(before.clause_activity@, c),
        0 <= at < below <= first.trail@.len(),
        marked.seen@[sat_logic::var_of(first.trail@[at])],
        forall|i: int|
            at < i < below ==> !marked.seen@[sat_logic::var_of(#[trigger] first.trail@[i])],
        after.seen@ == marked.seen@.update(sat_logic::var_of(first.trail@[at]), false),
        after.order == marked.order,
        after.clause_activity == marked.clause_activity,
    ensures
        sat_machine::traced(
            state_of(first),
            marks_of(before, lesson, count),
            before.clause_activity@,
            c,
            start,
            below,
        ) == if counted == 1 {
            (marks_of(after, learnt, 0), after.clause_activity@, first.trail@[at])
        } else {
            sat_machine::traced(
                state_of(first),
                marks_of(after, learnt, counted - 1),
                after.clause_activity@,
                first.reason@[sat_logic::var_of(first.trail@[at])]->0 as int,
                1,
                at,
            )
        },
{
    let s = state_of(first);
    assert(s.trail == first.trail@ && s.reason == first.reason@ && s.clauses[c]
        == before.clauses@[c]@ && s.level == state_of(before).level && s.lim == state_of(
        before,
    ).lim) by {
        reveal(state_of);
        assert(held(first)[c] == first.clauses@[c]@);
    }
    sat_machine::lemma_noted_same(
        s,
        state_of(before),
        marks_of(before, lesson, count),
        before.clauses@[c]@,
        start,
    );
    sat_machine::lemma_last_seen(s.trail, marked.seen@, below, at + 1);
    sat_machine::lemma_traced_step(
        s,
        marks_of(before, lesson, count),
        before.clause_activity@,
        c,
        start,
        below,
        marks_of(marked, learnt, counted),
        at,
    );
}

impl Solver {
    /// Whether `variable`'s antecedents are all marked already, or settled on
    /// the ground, so that keeping it adds nothing.
    ///
    /// Local rather than recursive: keeping a literal this cannot prove
    /// redundant only makes the learnt clause weaker.
    fn redundant(&self, variable: usize) -> (droppable: bool)
        requires
            self.consistent(),
            variable < self.vars,
            self.reason@[variable as int] is Some ==> self.reason@[variable as int]->0
                < self.clauses@.len(),
        ensures
            droppable == implied_by_marks(*self, variable as int),
    {
        match self.reason[variable] {
            None => false,
            Some(reason) => {
                assert(self.clauses@[reason as int]@.len() >= 2);
                let mut position: usize = 1;
                while position < self.clauses[reason].len()
                    invariant
                        self.consistent(),
                        variable < self.vars,
                        reason < self.clauses@.len(),
                        self.clauses@[reason as int]@.len() >= 2,
                        self.reason@[variable as int] == Some(reason),
                        1 <= position <= self.clauses@[reason as int]@.len(),
                        forall|j: int|
                            1 <= j < position ==> {
                                let next = sat_logic::var_of(
                                    #[trigger] self.clauses@[reason as int]@[j],
                                );
                                self.seen@[next] || self.level@[next] == 0
                            },
                    decreases self.clauses@[reason as int]@.len() - position,
                {
                    let other: i32 = self.clauses[reason][position];
                    assert(sat_logic::clause_ok(self.clauses@[reason as int]@, self.vars as nat));
                    assert(sat_logic::lit_ok(other, self.vars as nat));
                    let next: usize = variable_of(other);
                    if !self.seen[next] && self.level[next] != 0 {
                        assert(!implied_by_marks(*self, variable as int)) by {
                            let clause = self.clauses@[self.reason@[variable as int]->0 as int]@;
                            assert(clause[position as int] == other);
                        }
                        return false;
                    }
                    position = position + 1;
                }
                true
            },
        }
    }

    /// What a conflict teaches: a clause that follows from the formula, false
    /// throughout, with one literal of the current level in front.
    pub open spec fn teaches(&self, learnt: Seq<i32>, backtrack: int) -> bool {
        &&& learnt.len() >= 1
        &&& sat_logic::clause_ok(learnt, self.vars as nat)
        &&& learnt.no_duplicates()
        &&& sat_logic::entails(self.formula@, self.vars as nat, learnt)
        &&& forall|j: int| 0 <= j < learnt.len() ==> is_false(self.assign@, #[trigger] learnt[j])
        &&& self.level@[sat_logic::var_of(learnt[0])] == self.trail_lim@.len()
        &&& backtrack < self.trail_lim@.len()
        &&& forall|j: int|
            1 <= j < learnt.len() ==> 0 < self.level@[sat_logic::var_of(#[trigger] learnt[j])]
                <= backtrack
        &&& learnt.len() == 1 ==> backtrack == 0
        &&& learnt.len() >= 2 ==> self.level@[sat_logic::var_of(learnt[1])] == backtrack
    }

    /// Traces a conflict back to the one literal of the current level it
    /// passes through: the literals of the levels below that it comes from, the
    /// first place left free, and that literal.
    #[verifier::spinoff_prover]
    #[verifier::rlimit(80)]
    fn trace(&mut self, conflict: usize) -> (found: (Vec<i32>, i32))
        requires
            old(self).consistent(),
            old(self).trail_lim@.len() > 0,
            conflict < old(self).clauses@.len(),
            forall|j: int|
                0 <= j < old(self).clauses@[conflict as int]@.len() ==> is_false(
                    old(self).assign@,
                    #[trigger] old(self).clauses@[conflict as int]@[j],
                ),
            old(self).level@[sat_logic::var_of(old(self).clauses@[conflict as int]@[1])] == old(
                self,
            ).trail_lim@.len(),
        ensures
            final(self).consistent(),
            only_marks_differ(*final(self), *old(self)),
            final(self).order.same_waiting(&old(self).order),
            passes_through(*final(self), found.0@, found.1),
            sat_machine::traced(
                state_of(*old(self)),
                sat_machine::unmarked(state_of(*old(self))),
                old(self).clause_activity@,
                conflict as int,
                0,
                old(self).trail@.len() as int,
            ) == (
                marks_of(*final(self), found.0@, 0),
                final(self).clause_activity@,
                found.1,
            ),
    {
        self.clear_marks();
        let ghost n = self.vars as nat;
        let ghost lo = self.level_start();
        let mut learnt: Vec<i32> = Vec::new();
        learnt.push(0);
        let mut counter: usize = 0;
        let mut index: usize = self.trail.len();
        let mut clause: usize = conflict;
        let mut start: usize = 0;
        let mut chosen: i32 = 0;
        proof {
            assert(self.trail_lim@[self.trail_lim@.len() - 1] <= self.trail@.len());
            let literals = self.clauses@[conflict as int]@;
            assert(literals.len() >= 2 && sat_logic::clause_ok(literals, n));
            assert forall|j: int| 0 <= j < literals.len() implies is_false(
                self.assign@,
                #[trigger] literals[j],
            ) && self.when@[sat_logic::var_of(literals[j])] < index by {
                assert(sat_logic::lit_ok(literals[j], n));
                assert(is_false(old(self).assign@, old(self).clauses@[conflict as int]@[j]));
                assert(self.assign@[sat_logic::var_of(literals[j])] is Some);
            }
            assert forall|m: Seq<bool>|
                m.len() == n && #[trigger] sat_logic::formula_holds(
                    m,
                    self.formula@,
                ) implies mark_differs(*self, m, None) || holds_from(m, literals, 0) by {
                assert(sat_logic::entails(self.formula@, n, literals));
                assert(sat_logic::clause_holds(m, literals));
                let i = choose|i: int|
                    0 <= i < literals.len() && sat_logic::lit_holds(m, #[trigger] literals[i]);
                assert(0 <= i < literals.len() && sat_logic::lit_holds(m, literals[i]));
            }
            assert forall|i: int| lo <= i < index implies self.seen@[sat_logic::var_of(
                #[trigger] self.trail@[i],
            )] == false by {}
            lemma_nothing_seen(self.trail@, self.seen@, lo, index as int);
        }
        let ghost goal = sat_machine::traced(
            state_of(*old(self)),
            sat_machine::unmarked(state_of(*old(self))),
            old(self).clause_activity@,
            conflict as int,
            0,
            old(self).trail@.len() as int,
        );
        assert(marks_of(*self, learnt@, 0) == sat_machine::unmarked(state_of(*old(self)))) by {
            reveal(state_of);
            assert(self.seen@ =~= Seq::new(old(self).vars as nat, |v: int| false));
            assert(learnt@ =~= seq![0i32]);
        }
        loop
            invariant_except_break
                sat_machine::traced(
                    state_of(*old(self)),
                    marks_of(*self, learnt@, counter as int),
                    self.clause_activity@,
                    clause as int,
                    start as int,
                    index as int,
                ) == goal,
                learnt@.len() >= 1,
                lo <= index <= self.trail@.len(),
                marks_ok(*self, learnt@, index as int),
                counter == count_seen(self.trail@, self.seen@, lo, index as int),
                clause < self.clauses@.len(),
                start <= 1,
                conflict_traced(*self, None, self.clauses@[clause as int]@, start as int),
                forall|j: int|
                    start <= j < self.clauses@[clause as int]@.len() ==> is_false(
                        self.assign@,
                        #[trigger] self.clauses@[clause as int]@[j],
                    ) && self.when@[sat_logic::var_of(self.clauses@[clause as int]@[j])] < index,
                counter > 0 || (start == 0 && self.level@[sat_logic::var_of(
                    self.clauses@[clause as int]@[1],
                )] == self.trail_lim@.len()),
            invariant
                self.consistent(),
                only_marks_differ(*self, *old(self)),
                self.order.same_waiting(&old(self).order),
                n == self.vars,
                self.trail_lim@.len() > 0,
                lo == self.level_start(),
            ensures
                goal == (marks_of(*self, learnt@, 0), self.clause_activity@, chosen),
                learnt@.len() >= 1,
                marks_ok(*self, learnt@, 0),
                sat_logic::lit_ok(chosen, n),
                is_true(self.assign@, chosen),
                self.level@[sat_logic::var_of(chosen)] == self.trail_lim@.len(),
                conflict_traced(
                    *self,
                    Some(sat_logic::var_of(chosen)),
                    Seq::<i32>::empty(),
                    0,
                ),
            decreases index,
        {
            let ghost before = *self;
            let ghost lesson = learnt@;
            let ghost count = counter as int;
            counter = self.mark_clause(clause, start, &mut learnt, counter, Ghost(index as int));
            let ghost from = index as int;
            while index > 0 && !self.seen[variable_of(self.trail[index - 1])]
                invariant
                    self.consistent(),
                    lo == self.level_start(),
                    lo <= index <= from <= self.trail@.len(),
                    counter == count_seen(self.trail@, self.seen@, lo, index as int),
                    counter > 0,
                    self.vars <= i32::MAX,
                    forall|i: int|
                        index <= i < from ==> !self.seen@[sat_logic::var_of(
                            #[trigger] self.trail@[i],
                        )],
                    forall|i: int|
                        0 <= i < self.trail@.len() ==> sat_logic::lit_ok(
                            #[trigger] self.trail@[i],
                            self.vars as nat,
                        ),
                decreases index,
            {
                index = index - 1;
            }
            assert(index > lo);
            index = index - 1;
            chosen = self.trail[index];
            let variable: usize = variable_of(chosen);
            let ghost v = variable as int;
            let ghost marked = *self;
            assert(self.seen@[v]);
            assert(self.when@[v] == index);
            proof {
                lemma_ground_level(*self, v);
            }
            self.seen[variable] = false;
            counter = counter - 1;
            proof {
                lemma_traced(
                    *old(self),
                    before,
                    lesson,
                    count,
                    clause as int,
                    start as int,
                    from,
                    marked,
                    learnt@,
                    counter + 1,
                    *self,
                    index as int,
                );
                assert(self.consistent()) by {
                    assert forall|u: int|
                        0 <= u < self.vars && #[trigger] self.seen@[u] implies self.seen_touched@.contains(
                        u as usize,
                    ) by {
                        assert(marked.seen@[u]);
                    }
                }
                assert forall|i: int| lo <= i < index implies self.seen@[sat_logic::var_of(
                    #[trigger] self.trail@[i],
                )] == marked.seen@[sat_logic::var_of(self.trail@[i])] by {
                    assert(self.when@[sat_logic::var_of(self.trail@[i])] == i);
                }
                lemma_count_same(self.trail@, self.seen@, marked.seen@, lo, index as int);
                assert forall|u: int| 0 <= u < n && #[trigger] self.seen@[u] implies {
                    &&& self.assign@[u] is Some
                    &&& self.level@[u] > 0
                    &&& self.level@[u] == self.trail_lim@.len() ==> self.when@[u] < index
                    &&& self.level@[u] < self.trail_lim@.len() ==> named_in(learnt@, u)
                } by {
                    assert(marked.seen@[u]);
                    if self.level@[u] == self.trail_lim@.len() {
                        let i = self.when@[u];
                        assert(sat_logic::var_of(self.trail@[i]) == u);
                        if i > index {
                            assert(!marked.seen@[sat_logic::var_of(marked.trail@[i])]);
                        }
                    }
                }
                assert forall|j: int| 1 <= j < learnt@.len() implies {
                    &&& sat_logic::lit_ok(#[trigger] learnt@[j], n)
                    &&& is_false(self.assign@, learnt@[j])
                    &&& 0 < self.level@[sat_logic::var_of(learnt@[j])] < self.trail_lim@.len()
                    &&& self.seen@[sat_logic::var_of(learnt@[j])]
                } by {
                    assert(marked.seen@[sat_logic::var_of(learnt@[j])]);
                }
                assert(marks_ok(*self, learnt@, index as int));
                assert forall|m: Seq<bool>|
                    m.len() == n && #[trigger] sat_logic::formula_holds(
                        m,
                        self.formula@,
                    ) implies mark_differs(*self, m, Some(v)) by {
                    assert(mark_differs(marked, m, None));
                    let u = choose|u: int|
                        0 <= u < n && (#[trigger] marked.seen@[u] || None::<int> == Some(u))
                            && differs(m, marked.assign@, u);
                    assert(self.seen@[u] || u == v);
                }
            }
            if counter == 0 {
                proof {
                    assert forall|u: int| 0 <= u < n && #[trigger] self.seen@[u] implies {
                        &&& self.assign@[u] is Some
                        &&& self.level@[u] > 0
                        &&& self.level@[u] == self.trail_lim@.len() ==> self.when@[u] < 0
                        &&& self.level@[u] < self.trail_lim@.len() ==> named_in(learnt@, u)
                    } by {
                        lemma_ground_level(*self, u);
                        if self.level@[u] == self.trail_lim@.len() {
                            let i = self.when@[u];
                            assert(sat_logic::var_of(self.trail@[i]) == u);
                            lemma_count_positive(self.trail@, self.seen@, lo, index as int, i);
                        }
                    }
                }
                break;
            }
            proof {
                assert(index > lo);
                assert(self.trail@[index as int] == chosen);
                if self.reason@[v] is None {
                    let k = choose|k: int|
                        0 <= k < self.trail_lim@.len() && #[trigger] self.trail_lim@[k] == index;
                    let last = self.trail_lim@.len() - 1;
                    if k < last {
                        assert(self.trail_lim@[k] <= self.trail_lim@[last]);
                    }
                }
                assert(self.trail_lim@[0] <= self.trail_lim@[self.trail_lim@.len() - 1]) by {
                    if self.trail_lim@.len() > 1 {
                        assert(self.trail_lim@[0] <= self.trail_lim@[self.trail_lim@.len() - 1]);
                    }
                }
            }
            match self.reason[variable] {
                Some(reason) => {
                    clause = reason;
                    start = 1;
                    proof {
                        let literals = self.clauses@[clause as int]@;
                        assert(reason_ok(
                            self.clauses@,
                            self.assign@,
                            self.when@,
                            reason as int,
                            chosen,
                            index as int,
                        ));
                        assert forall|m: Seq<bool>|
                            m.len() == n && #[trigger] sat_logic::formula_holds(
                                m,
                                self.formula@,
                            ) implies mark_differs(*self, m, None) || holds_from(m, literals, 1) by {
                            assert(mark_differs(*self, m, Some(v)));
                            let u = choose|u: int|
                                0 <= u < n && (#[trigger] self.seen@[u] || Some(v) == Some(u))
                                    && differs(m, self.assign@, u);
                            if u == v && !self.seen@[u] {
                                assert(sat_logic::entails(self.formula@, n, literals));
                                assert(sat_logic::clause_holds(m, literals));
                                let i = choose|i: int|
                                    0 <= i < literals.len() && sat_logic::lit_holds(
                                        m,
                                        #[trigger] literals[i],
                                    );
                                assert(i != 0);
                                assert(1 <= i < literals.len() && sat_logic::lit_holds(
                                    m,
                                    literals[i],
                                ));
                            } else {
                                assert(self.seen@[u] && differs(m, self.assign@, u));
                            }
                        }
                    }
                },
                None => {},
            }
        }
        (learnt, chosen)
    }

    /// The literals a conflict comes from without those that the rest implies,
    /// the one of the current level in front.
    #[verifier::spinoff_prover]
    #[verifier::rlimit(80)]
    fn minimise(&self, learnt: &Vec<i32>, chosen: i32) -> (minimised: Vec<i32>)
        requires
            self.consistent(),
            self.trail_lim@.len() > 0,
            passes_through(*self, learnt@, chosen),
        ensures
            minimised@.len() >= 1,
            minimised@[0] == -chosen,
            minimised@.no_duplicates(),
            forall|j: int|
                0 <= j < minimised@.len() ==> sat_logic::lit_ok(
                    #[trigger] minimised@[j],
                    self.vars as nat,
                ) && is_false(self.assign@, minimised@[j]) && (j > 0 ==> 0
                    < self.level@[sat_logic::var_of(minimised@[j])] < self.trail_lim@.len()),
            sat_logic::entails(self.formula@, self.vars as nat, minimised@),
            minimised@ == sat_machine::cut(
                state_of(*self),
                self.seen@,
                chosen,
                learnt@,
                learnt@.len() as int,
            ),
    {
        let ghost n = self.vars as nat;
        let mut minimised: Vec<i32> = Vec::new();
        minimised.push(-chosen);
        let mut position: usize = 1;
        while position < learnt.len()
            invariant
                self.consistent(),
                n == self.vars,
                self.trail_lim@.len() > 0,
                minimised@ == sat_machine::cut(
                    state_of(*self),
                    self.seen@,
                    chosen,
                    learnt@,
                    position as int,
                ),
                learnt@.len() >= 1,
                marks_ok(*self, learnt@, 0),
                sat_logic::lit_ok(chosen, n),
                is_true(self.assign@, chosen),
                self.level@[sat_logic::var_of(chosen)] == self.trail_lim@.len(),
                1 <= position <= learnt@.len(),
                minimised@.len() >= 1,
                minimised@[0] == -chosen,
                forall|j: int|
                    1 <= j < minimised@.len() ==> came_from(
                        learnt@,
                        position as int,
                        #[trigger] minimised@[j],
                    ),
                minimised@.no_duplicates(),
                forall|k: int|
                    1 <= k < position ==> minimised@.contains(#[trigger] learnt@[k])
                        || implied_by_marks(*self, sat_logic::var_of(learnt@[k])),
            decreases learnt@.len() - position,
        {
            let other: i32 = learnt[position];
            let ghost before = minimised@;
            let variable: usize = variable_of(other);
            proof {
                let v = variable as int;
                assert(self.seen@[sat_logic::var_of(learnt@[position as int])]);
                assert(self.assign@[v] is Some);
                lemma_ground_level(*self, v);
                let i = self.when@[v];
                assert(sat_logic::var_of(self.trail@[i]) == v);
            }
            let droppable: bool = self.redundant(variable);
            assert(droppable == sat_machine::droppable(
                state_of(*self),
                self.seen@,
                variable as int,
            )) by {
                lemma_droppable(*self, variable as int);
            }
            if !droppable {
                proof {
                    assert(!before.contains(other)) by {
                        if before.contains(other) {
                            let j = choose|j: int| 0 <= j < before.len() && before[j] == other;
                            if j > 0 {
                                assert(came_from(learnt@, position as int, before[j]));
                                let k = choose|k: int|
                                    1 <= k < position && #[trigger] learnt@[k] == before[j];
                                assert(learnt@[k] != learnt@[position as int]);
                            }
                        }
                    }
                }
                minimised.push(other);
                proof {
                    assert(minimised@ == before.push(other));
                    assert(minimised@[before.len() as int] == other);
                }
            }
            proof {
                assert forall|j: int| 1 <= j < minimised@.len() implies came_from(
                    learnt@,
                    position + 1,
                    #[trigger] minimised@[j],
                ) by {
                    if j < before.len() {
                        assert(minimised@[j] == before[j]);
                        let k = choose|k: int|
                            1 <= k < position && #[trigger] learnt@[k] == before[j];
                        assert(learnt@[k] == minimised@[j]);
                    } else {
                        assert(learnt@[position as int] == minimised@[j]);
                    }
                }
                assert forall|k: int| 1 <= k < position + 1 implies minimised@.contains(
                    #[trigger] learnt@[k],
                ) || implied_by_marks(*self, sat_logic::var_of(learnt@[k])) by {
                    if k < position {
                        if before.contains(learnt@[k]) {
                            let j = choose|j: int| 0 <= j < before.len() && before[j] == learnt@[k];
                            assert(minimised@[j] == learnt@[k]);
                        }
                    }
                }
            }
            position = position + 1;
        }
        proof {
            assert forall|j: int| 0 <= j < minimised@.len() implies sat_logic::lit_ok(
                #[trigger] minimised@[j],
                n,
            ) && is_false(self.assign@, minimised@[j]) && (j > 0 ==> 0
                < self.level@[sat_logic::var_of(minimised@[j])] < self.trail_lim@.len()) by {
                if j > 0 {
                    let k = choose|k: int|
                        1 <= k < learnt@.len() && #[trigger] learnt@[k] == minimised@[j];
                    assert(is_false(self.assign@, learnt@[k]));
                }
            }
            assert forall|m: Seq<bool>|
                m.len() == n && #[trigger] sat_logic::formula_holds(
                    m,
                    self.formula@,
                ) implies sat_logic::clause_holds(m, minimised@) by {
                assert(mark_differs(*self, m, Some(sat_logic::var_of(chosen))));
                let u = choose|u: int|
                    0 <= u < n && (#[trigger] self.seen@[u] || Some(sat_logic::var_of(chosen))
                        == Some(u)) && differs(m, self.assign@, u);
                if self.seen@[u] {
                    lemma_chase(*self, m, learnt@, minimised@, u);
                } else {
                    assert(sat_logic::lit_holds(m, minimised@[0]));
                }
            }
        }
        minimised
    }

    /// What a conflict teaches, and the level to go back to: it is traced back to
    /// the one literal of the current level it passes through, and what the rest
    /// implies is dropped.
    #[verifier::spinoff_prover]
    #[verifier::rlimit(40)]
    fn analyze(&mut self, conflict: usize) -> (taught: (Vec<i32>, usize))
        requires
            old(self).consistent(),
            old(self).trail_lim@.len() > 0,
            conflict < old(self).clauses@.len(),
            forall|j: int|
                0 <= j < old(self).clauses@[conflict as int]@.len() ==> is_false(
                    old(self).assign@,
                    #[trigger] old(self).clauses@[conflict as int]@[j],
                ),
            old(self).level@[sat_logic::var_of(old(self).clauses@[conflict as int]@[1])] == old(
                self,
            ).trail_lim@.len(),
        ensures
            final(self).consistent(),
            only_marks_differ(*final(self), *old(self)),
            final(self).order.same_waiting(&old(self).order),
            final(self).teaches(taught.0@, taught.1 as int),
            sat_machine::studied(state_of(*old(self)), conflict as int) == (
                state_of(*final(self)),
                taught.0@,
                taught.1,
            ),
    {
        let ghost n = self.vars as nat;
        let (learnt, chosen) = self.trace(conflict);
        let mut minimised: Vec<i32> = self.minimise(&learnt, chosen);
        let ghost kept = minimised@;
        if minimised.len() == 1 {
            proof {
                lemma_studied(*old(self), *self, conflict as int, learnt@, chosen, 0);
            }
            return (minimised, 0);
        }
        let mut best: usize = 1;
        let mut position: usize = 2;
        while position < minimised.len()
            invariant
                self.consistent(),
                n == self.vars,
                minimised@ == kept,
                1 <= best < minimised@.len(),
                best == sat_machine::deepest(self.level@, kept, position as int),
                2 <= position <= minimised@.len(),
                sat_logic::clause_ok(minimised@, n),
                forall|j: int|
                    1 <= j < position ==> self.level@[sat_logic::var_of(#[trigger] minimised@[j])]
                        <= self.level@[sat_logic::var_of(minimised@[best as int])],
            decreases minimised@.len() - position,
        {
            assert(sat_logic::lit_ok(minimised@[position as int], n));
            assert(sat_logic::lit_ok(minimised@[best as int], n));
            let here: usize = self.level[variable_of(minimised[position])];
            let there: usize = self.level[variable_of(minimised[best])];
            if here > there {
                best = position;
            }
            position = position + 1;
        }
        let one: i32 = minimised[1];
        let deepest: i32 = minimised[best];
        minimised[1] = deepest;
        minimised[best] = one;
        assert(sat_logic::lit_ok(deepest, n)) by {
            assert(sat_logic::lit_ok(kept[best as int], n));
        }
        let backtrack: usize = self.level[variable_of(deepest)];
        proof {
            assert(minimised@ == kept.update(1, kept[best as int]).update(best as int, kept[1]));
            sat_logic::lemma_swap_literals(kept, 1, best as int);
            assert forall|j: int| 0 <= j < minimised@.len() implies sat_logic::lit_ok(
                #[trigger] minimised@[j],
                n,
            ) && is_false(self.assign@, minimised@[j]) && (j > 0 ==> 0
                < self.level@[sat_logic::var_of(minimised@[j])] <= backtrack) by {
                let k = if j == 1 { best as int } else if j == best { 1 } else { j };
                assert(minimised@[j] == kept[k]);
                assert(is_false(self.assign@, kept[k]));
            }
            assert forall|m: Seq<bool>|
                m.len() == n && #[trigger] sat_logic::formula_holds(
                    m,
                    self.formula@,
                ) implies sat_logic::clause_holds(m, minimised@) by {
                sat_logic::lemma_within_holds(m, kept, minimised@);
            }
            assert(kept[best as int] == deepest);
            lemma_studied(*old(self), *self, conflict as int, learnt@, chosen, best as int);
        }
        (minimised, backtrack)
    }
}

/// `literal` stands in `learnt` past its first literal and before `upto`.
pub open spec fn came_from(learnt: Seq<i32>, upto: int, literal: i32) -> bool {
    exists|k: int| 1 <= k < upto && #[trigger] learnt[k] == literal
}

proof fn lemma_nothing_seen(trail: Seq<i32>, seen: Seq<bool>, lo: int, hi: int)
    requires
        forall|i: int| lo <= i < hi ==> !seen[sat_logic::var_of(#[trigger] trail[i])],
    ensures
        count_seen(trail, seen, lo, hi) == 0,
    decreases hi - lo,
{
    if hi > lo {
        assert(!seen[sat_logic::var_of(trail[hi - 1])]);
        lemma_nothing_seen(trail, seen, lo, hi - 1);
    }
}

/// The greatest power of two not above `x`.
pub open spec fn top_power(x: nat) -> nat
    decreases x,
{
    if x <= 1 {
        1
    } else {
        2 * top_power(x / 2)
    }
}

/// The Luby sequence, counted from 1: `1 1 2 1 1 2 4 ...`. It ends each run of
/// `2^k - 1` values with `2^(k - 1)`, after two copies of the run before.
pub open spec fn luby_number(x: nat) -> nat
    decreases x,
{
    let power = top_power(x);
    if x <= 1 || x + 1 == 2 * power {
        power
    } else if power <= 1 || power > x {
        1
    } else {
        luby_number((x - power + 1) as nat)
    }
}

pub open spec fn is_power(p: nat) -> bool
    decreases p,
{
    p == 1 || (p > 1 && p % 2 == 0 && is_power(p / 2))
}

proof fn lemma_top_power(p: nat, x: nat)
    requires
        is_power(p),
        p <= x < 2 * p,
    ensures
        top_power(x) == p,
    decreases p,
{
    if p > 1 {
        lemma_top_power(p / 2, x / 2);
    }
}

proof fn lemma_luby_full(p: nat)
    requires
        is_power(p),
    ensures
        luby_number((2 * p - 1) as nat) == p,
{
    lemma_top_power(p, (2 * p - 1) as nat);
}

/// The Luby sequence, which makes restarts cost no completeness: every run
/// length recurs for ever.
fn luby(index: u64) -> (length: u64)
    requires
        index <= 0x4000_0000_0000_0000,
    ensures
        length == luby_number((index + 1) as nat),
        length >= 1,
{
    let mut power: u64 = 1;
    while 2 * power - 1 < index + 1
        invariant
            1 <= power <= index + 1,
            index <= 0x4000_0000_0000_0000,
            is_power(power as nat),
        decreases index + 1 - power,
    {
        power = 2 * power;
        assert((power as nat) / 2 * 2 == power);
    }
    let mut at: u64 = index + 1;
    while 2 * power - 1 != at
        invariant
            1 <= at <= 2 * power - 1,
            1 <= power <= 0x4000_0000_0000_0001,
            is_power(power as nat),
            luby_number(at as nat) == luby_number((index + 1) as nat),
        decreases power,
    {
        if at >= power {
            proof {
                lemma_top_power(power as nat, at as nat);
            }
            at = at - (power - 1);
        }
        power = power / 2;
    }
    proof {
        lemma_luby_full(power as nat);
    }
    power
}

/// A clause false throughout on the ground refutes the formula.
proof fn lemma_ground_conflict(solver: Solver, c: int)
    requires
        solver.consistent(),
        solver.trail_lim@.len() == 0,
        0 <= c < solver.clauses@.len(),
        forall|j: int|
            0 <= j < solver.clauses@[c]@.len() ==> is_false(
                solver.assign@,
                #[trigger] solver.clauses@[c]@[j],
            ),
    ensures
        sat_logic::unsatisfiable(solver.formula@, solver.vars as nat),
{
    let n = solver.vars as nat;
    let clause = solver.clauses@[c]@;
    assert forall|m: Seq<bool>| m.len() == n implies !#[trigger] sat_logic::formula_holds(
        m,
        solver.formula@,
    ) by {
        if sat_logic::formula_holds(m, solver.formula@) {
            assert(sat_logic::entails(solver.formula@, n, clause));
            assert(sat_logic::clause_ok(clause, n));
            let i = choose|i: int|
                0 <= i < clause.len() && sat_logic::lit_holds(m, #[trigger] clause[i]);
            assert(sat_logic::lit_ok(clause[i], n));
            assert(solver.assign@[sat_logic::var_of(clause[i])] is Some);
            lemma_ground_agrees(solver, m, clause[i]);
        }
    }
}

/// A full assignment with every clause settled is a model.
proof fn lemma_model(solver: Solver, m: Seq<bool>)
    requires
        solver.consistent(),
        solver.head == solver.trail@.len(),
        solver.settled_to(solver.head as int),
        solver.covered == solver.formula,
        m.len() == solver.vars,
        forall|v: int| 0 <= v < solver.vars ==> #[trigger] solver.assign@[v] == Some(m[v]),
    ensures
        sat_logic::formula_holds(m, solver.formula@),
{
    let n = solver.vars as nat;
    assert forall|f: int| 0 <= f < solver.formula@.len() implies sat_logic::clause_holds(
        m,
        #[trigger] solver.formula@[f],
    ) by {
        let clause = solver.covered@[f];
        if kept_in(clause, solver.clauses@, solver.learnt@) {
            let d = choose|d: int|
                0 <= d < solver.clauses@.len() && !solver.learnt@[d] && sat_logic::literals_within(
                    (#[trigger] solver.clauses@[d])@,
                    clause,
                );
            let kept = solver.clauses@[d]@;
            assert(kept.len() >= 2 && sat_logic::clause_ok(kept, n));
            assert(sat_logic::lit_ok(kept[0], n) && sat_logic::lit_ok(kept[1], n));
            assert(clause_settled(
                kept,
                solver.assign@,
                solver.level@,
                solver.when@,
                solver.head as int,
            ));
            assert(solver.assign@[sat_logic::var_of(kept[0])] is Some);
            if is_true(solver.assign@, kept[0]) {
                assert(sat_logic::lit_holds(m, kept[0]));
            } else {
                assert(is_true(solver.assign@, kept[1]));
                assert(solver.assign@[sat_logic::var_of(kept[1])] is Some);
                assert(sat_logic::lit_holds(m, kept[1]));
            }
            sat_logic::lemma_within_holds(m, kept, clause);
        } else {
            assert(ground_true(clause, solver.trail@, solver.trail_lim@));
            let i = choose|i: int|
                0 <= i < ground(solver.trail@, solver.trail_lim@) && i < solver.trail@.len()
                    && clause.contains(#[trigger] solver.trail@[i]);
            let t = solver.trail@[i];
            assert(is_true(solver.assign@, t));
            assert(solver.assign@[sat_logic::var_of(t)] is Some);
            let j = choose|j: int| 0 <= j < clause.len() && clause[j] == t;
            assert(sat_logic::lit_holds(m, clause[j]));
        }
    }
}

/// Opening a decision level where the trail ends changes nothing else.
proof fn lemma_level_opened(before: Solver, after: Solver)
    requires
        before.consistent(),
        after == (Solver { trail_lim: after.trail_lim, ..before }),
        after.trail_lim@ == before.trail_lim@.push(before.trail.len()),
    ensures
        after.consistent(),
{
    let n = before.vars as nat;
    assert(levels_ok(after.trail@, after.trail_lim@, after.level@)) by {
        assert forall|k: int| 0 <= k < after.trail_lim@.len() implies #[trigger] after.trail_lim@[k]
            <= after.trail@.len() by {
            if k < before.trail_lim@.len() {
                assert(before.trail_lim@[k] <= before.trail@.len());
            }
        }
        assert forall|k: int, l: int|
            0 <= k < l < after.trail_lim@.len() implies #[trigger] after.trail_lim@[k]
            <= #[trigger] after.trail_lim@[l] by {
            assert(before.trail_lim@[k] <= before.trail@.len());
            if l < before.trail_lim@.len() {
                assert(before.trail_lim@[k] <= before.trail_lim@[l]);
            }
        }
        assert forall|i: int, k: int|
            #![trigger after.trail@[i], after.trail_lim@[k]]
            0 <= i < after.trail@.len() && 0 <= k < after.trail_lim@.len() implies (
        after.trail_lim@[k] <= i <==> after.level@[sat_logic::var_of(after.trail@[i])] > k) by {
            if k < before.trail_lim@.len() {
                assert(before.trail_lim@[k] <= i <==> before.level@[sat_logic::var_of(
                    before.trail@[i],
                )] > k);
            }
        }
    }
    assert(ground(after.trail@, after.trail_lim@) == ground(before.trail@, before.trail_lim@));
    assert forall|i: int|
        #![trigger after.trail@[i]]
        ground(after.trail@, after.trail_lim@) <= i
            < after.trail@.len() implies match after.reason@[sat_logic::var_of(after.trail@[i])] {
        Some(r) => reason_ok(
            after.clauses@,
            after.assign@,
            after.when@,
            r as int,
            after.trail@[i],
            i,
        ),
        None => exists|k: int|
            0 <= k < after.trail_lim@.len() && #[trigger] after.trail_lim@[k] == i,
    } by {
        match before.reason@[sat_logic::var_of(before.trail@[i])] {
            Some(r) => {},
            None => {
                let k = choose|k: int|
                    0 <= k < before.trail_lim@.len() && #[trigger] before.trail_lim@[k] == i;
                assert(after.trail_lim@[k] == i);
            },
        }
    }
    assert(sound(after.formula@, n, after.clauses@, after.trail@, after.trail_lim@));
    assert(covering(after.covered@, after.clauses@, after.learnt@, after.trail@, after.trail_lim@))
        by {
        assert forall|f: int| 0 <= f < after.covered@.len() implies kept_in(
            #[trigger] after.covered@[f],
            after.clauses@,
            after.learnt@,
        ) || ground_true(after.covered@[f], after.trail@, after.trail_lim@) by {
            if ground_true(before.covered@[f], before.trail@, before.trail_lim@) {
                let i = choose|i: int|
                    0 <= i < ground(before.trail@, before.trail_lim@) && i < before.trail@.len()
                        && before.covered@[f].contains(#[trigger] before.trail@[i]);
                assert(after.trail@[i] == before.trail@[i]);
            }
        }
    }
}

/// A formula that grows keeps the state sound.
proof fn lemma_formula_grown(before: Solver, after: Solver, extra: Seq<i32>)
    requires
        before.consistent(),
        after == (Solver { formula: after.formula, ..before }),
        after.formula@ == before.formula@.push(extra),
    ensures
        after.consistent(),
{
    let n = before.vars as nat;
    assert forall|c: int| 0 <= c < after.clauses@.len() implies sat_logic::entails(
        after.formula@,
        n,
        (#[trigger] after.clauses@[c])@,
    ) by {
        sat_logic::lemma_entails_grows(before.formula@, extra, n, before.clauses@[c]@);
    }
    assert forall|i: int|
        0 <= i < ground(after.trail@, after.trail_lim@) && i
            < after.trail@.len() implies sat_logic::entails(
        after.formula@,
        n,
        seq![#[trigger] after.trail@[i]],
    ) by {
        sat_logic::lemma_entails_grows(before.formula@, extra, n, seq![before.trail@[i]]);
    }
}

impl Solver {
    /// Ready to take another clause: nothing is decided and nothing pending.
    pub open spec fn grounded(&self) -> bool {
        &&& self.consistent()
        &&& self.covered == self.formula
        &&& self.trail_lim@.len() == 0
        &&& self.head == self.trail@.len()
        &&& self.settled_to(self.head as int)
        &&& from_formula(self.clauses@, self.formula@)
    }

    /// Adds a clause to the formula; `false` when that refutes it outright.
    #[verifier::spinoff_prover]
    #[verifier::rlimit(60)]
    pub fn add_clause(&mut self, clause: &Vec<i32>) -> (standing: bool)
        requires
            old(self).grounded(),
            sat_logic::clause_ok(clause@, old(self).vars as nat),
        ensures
            final(self).vars == old(self).vars,
            final(self).formula@ == old(self).formula@.push(clause@),
            final(self).conflicts == old(self).conflicts,
            !standing ==> sat_logic::unsatisfiable(final(self).formula@, final(self).vars as nat),
            standing ==> final(self).grounded(),
            final(self).clauses@.len() == old(self).clauses@.len() || clause@.len() >= 2,
            sat_machine::added(state_of(*old(self)), clause@) == (
                state_of(*final(self)),
                standing,
            ),
    {
        let ghost before = *self;
        let ghost n = self.vars as nat;
        proof {
            self.formula@ = self.formula@.push(clause@);
            lemma_formula_grown(before, *self, clause@);
        }
        let ghost grown = *self;
        let mut literals: Vec<i32> = Vec::with_capacity(clause.len());
        let mut at: usize = 0;
        while at < clause.len()
            invariant
                *self == grown,
                self.consistent(),
                self.trail_lim@.len() == 0,
                n == self.vars,
                at <= clause@.len(),
                sat_logic::clause_ok(clause@, n),
                literals@.len() <= at,
                literals@ == sat_machine::undecided(self.assign@, clause@, at as int),
                forall|k: int| 0 <= k < at ==> !is_true(self.assign@, #[trigger] clause@[k]),
                literals@.no_duplicates(),
                sat_logic::literals_within(literals@, clause@),
                forall|j: int|
                    0 <= j < literals@.len() ==> val(self.assign@, #[trigger] literals@[j]) is None,
                forall|k: int|
                    0 <= k < at ==> literals@.contains(#[trigger] clause@[k]) || is_false(
                        self.assign@,
                        clause@[k],
                    ),
                grown.formula@ == before.formula@.push(clause@),
                grown.conflicts == before.conflicts,
                grown.vars == before.vars,
                grown == (Solver { formula: grown.formula, ..before }),
                before == *old(self),
                before.grounded(),
            decreases clause@.len() - at,
        {
            let literal: i32 = clause[at];
            assert(sat_logic::lit_ok(clause@[at as int], n));
            let ghost was = literals@;
            match self.value(literal) {
                Some(true) => {
                    proof {
                        let v = sat_logic::var_of(literal);
                        assert(self.assign@[v] is Some);
                        let i = self.when@[v];
                        assert(self.trail@[i] == literal) by {
                            assert(sat_logic::var_of(self.trail@[i]) == v);
                            assert(is_true(self.assign@, self.trail@[i]));
                        }
                        assert(clause@.contains(self.trail@[i])) by {
                            assert(clause@[at as int] == literal);
                        }
                        self.covered@ = self.covered@.push(clause@);
                        assert(covering(
                            self.covered@,
                            self.clauses@,
                            self.learnt@,
                            self.trail@,
                            self.trail_lim@,
                        )) by {
                            assert forall|f: int| 0 <= f < self.covered@.len() implies kept_in(
                                #[trigger] self.covered@[f],
                                self.clauses@,
                                self.learnt@,
                            ) || ground_true(self.covered@[f], self.trail@, self.trail_lim@) by {
                                if f < before.covered@.len() {
                                    assert(self.covered@[f] == before.covered@[f]);
                                }
                            }
                        }
                        assert(self.covered@ == self.formula@);
                        lemma_reordered_itself(before.clauses@);
                        lemma_from_formula(
                            before.clauses@,
                            self.clauses@,
                            before.formula@,
                            clause@,
                        );
                        assert(is_true(before.assign@, clause@[at as int]));
                        lemma_same_state(*self, before);
                        lemma_added_holds(before, clause@);
                    }
                    return true;
                },
                Some(false) => {},
                None => {
                    let present: bool = holds_literal(&literals, literal);
                    if !present {
                        literals.push(literal);
                        proof {
                            assert(literals@ == was.push(literal));
                            assert(literals@[was.len() as int] == literal);
                            assert(clause@.contains(literal));
                        }
                    }
                },
            }
            proof {
                assert forall|k: int| 0 <= k < at + 1 implies literals@.contains(
                    #[trigger] clause@[k],
                ) || is_false(self.assign@, clause@[k]) by {
                    if was.contains(clause@[k]) {
                        let j = choose|j: int| 0 <= j < was.len() && was[j] == clause@[k];
                        assert(literals@[j] == clause@[k]);
                    }
                }
                assert forall|i: int| 0 <= i < literals@.len() implies clause@.contains(
                    #[trigger] literals@[i],
                ) by {
                    if i < was.len() {
                        assert(literals@[i] == was[i]);
                    }
                }
            }
            at = at + 1;
        }
        proof {
            assert(sat_logic::entails(self.formula@, n, literals@)) by {
                assert forall|m: Seq<bool>|
                    m.len() == n && #[trigger] sat_logic::formula_holds(
                        m,
                        self.formula@,
                    ) implies sat_logic::clause_holds(m, literals@) by {
                    assert(self.formula@[before.formula@.len() as int] == clause@);
                    assert(sat_logic::clause_holds(m, clause@));
                    let k = choose|k: int|
                        0 <= k < clause@.len() && sat_logic::lit_holds(m, #[trigger] clause@[k]);
                    assert(sat_logic::lit_ok(clause@[k], n));
                    if is_false(self.assign@, clause@[k]) {
                        assert(self.assign@[sat_logic::var_of(clause@[k])] is Some);
                        lemma_ground_agrees(*self, m, clause@[k]);
                    } else {
                        let j = choose|j: int| 0 <= j < literals@.len() && literals@[j] == clause@[k];
                        assert(sat_logic::lit_holds(m, literals@[j]));
                    }
                }
            }
            assert(sat_logic::clause_ok(literals@, n)) by {
                assert forall|i: int| 0 <= i < literals@.len() implies sat_logic::lit_ok(
                    #[trigger] literals@[i],
                    n,
                ) by {
                    assert(clause@.contains(literals@[i]));
                    let j = choose|j: int| 0 <= j < clause@.len() && clause@[j] == literals@[i];
                    assert(sat_logic::lit_ok(clause@[j], n));
                }
            }
        }
        if literals.len() == 0 {
            proof {
                assert forall|m: Seq<bool>| m.len() == n implies !#[trigger] sat_logic::formula_holds(
                    m,
                    self.formula@,
                ) by {
                    if sat_logic::formula_holds(m, self.formula@) {
                        assert(sat_logic::clause_holds(m, literals@));
                    }
                }
                lemma_same_state(*self, before);
                lemma_added(before, clause@);
            }
            return false;
        }
        if literals.len() == 1 {
            let only: i32 = literals[0];
            proof {
                assert(literals@ == seq![only]);
                assert(val(self.assign@, literals@[0]) is None);
            }
            self.enqueue(only, None);
            let ghost queued = *self;
            proof {
                lemma_same_state(grown, before);
                lemma_assigned(grown, queued, only, None);
                lemma_added(before, clause@);
                assert(queued.trail@[before.trail@.len() as int] == only);
                assert(self.settled_to(self.head as int)) by {
                    assert forall|d: int| 0 <= d < self.clauses@.len() implies clause_settled(
                        (#[trigger] self.clauses@[d])@,
                        self.assign@,
                        self.level@,
                        self.when@,
                        self.head as int,
                    ) by {
                        assert(grown.clauses@[d]@.len() >= 2);
                        lemma_settled_grows(grown, *self, only, grown.head as int, grown.clauses@[d]@);
                    }
                }
            }
            match self.propagate() {
                Some(conflict) => {
                    proof {
                        lemma_ground_conflict(*self, conflict as int);
                    }
                    return false;
                },
                None => {
                    let ghost spread = *self;
                    proof {
                        let i = before.trail@.len() as int;
                        assert(self.trail@[i] == queued.trail@[i]);
                        assert(clause@.contains(only)) by {
                            assert(clause@.contains(literals@[0]));
                        }
                        self.covered@ = self.covered@.push(clause@);
                        assert(covering(
                            self.covered@,
                            self.clauses@,
                            self.learnt@,
                            self.trail@,
                            self.trail_lim@,
                        )) by {
                            assert forall|f: int| 0 <= f < self.covered@.len() implies kept_in(
                                #[trigger] self.covered@[f],
                                self.clauses@,
                                self.learnt@,
                            ) || ground_true(self.covered@[f], self.trail@, self.trail_lim@) by {
                                if f < before.covered@.len() {
                                    assert(self.covered@[f] == before.covered@[f]);
                                } else {
                                    assert(clause@.contains(self.trail@[i]));
                                }
                            }
                        }
                        assert(self.covered@ == self.formula@);
                        lemma_same_state(*self, spread);
                        lemma_from_formula(
                            before.clauses@,
                            self.clauses@,
                            before.formula@,
                            clause@,
                        );
                    }
                    return true;
                },
            }
        }
        proof {
            lemma_same_state(grown, before);
            lemma_added(before, clause@);
        }
        let ghost stored = literals@;
        let index: usize = self.attach(literals, false);
        proof {
            assert(self.clauses@[index as int]@ == stored);
            assert(!self.learnt@[index as int]);
            assert(self.settled_to(self.head as int)) by {
                assert forall|d: int| 0 <= d < self.clauses@.len() implies clause_settled(
                    (#[trigger] self.clauses@[d])@,
                    self.assign@,
                    self.level@,
                    self.when@,
                    self.head as int,
                ) by {
                    if d < index {
                        assert(self.clauses@[d] == before.clauses@[d]);
                    } else {
                        assert(val(self.assign@, stored[0]) is None);
                        assert(val(self.assign@, stored[1]) is None);
                    }
                }
            }
            let attached = *self;
            self.covered@ = self.covered@.push(clause@);
            lemma_same_state(*self, attached);
            assert(covering(
                self.covered@,
                self.clauses@,
                self.learnt@,
                self.trail@,
                self.trail_lim@,
            )) by {
                assert forall|f: int| 0 <= f < self.covered@.len() implies kept_in(
                    #[trigger] self.covered@[f],
                    self.clauses@,
                    self.learnt@,
                ) || ground_true(self.covered@[f], self.trail@, self.trail_lim@) by {
                    if f < before.covered@.len() {
                        assert(self.covered@[f] == attached.covered@[f]);
                    } else {
                        assert(sat_logic::literals_within(self.clauses@[index as int]@, clause@));
                    }
                }
            }
            assert(self.covered@ == self.formula@);
            assert(from_formula(self.clauses@, self.formula@)) by {
                lemma_reordered_itself(before.clauses@);
                lemma_from_formula(before.clauses@, before.clauses@, before.formula@, clause@);
                reveal(from_formula);
                assert(self.formula@[before.formula@.len() as int] == clause@);
                assert forall|c: int| 0 <= c < self.clauses@.len() implies sat_run::made_of(
                    self.formula@,
                    (#[trigger] self.clauses@[c])@,
                ) by {
                    if c < index {
                        assert(self.clauses@[c] == before.clauses@[c]);
                        assert(sat_run::made_of(self.formula@, before.clauses@[c]@));
                    } else {
                        let f = before.formula@.len() as int;
                        assert(sat_logic::literals_within(self.clauses@[c]@, self.formula@[f]));
                    }
                }
            }
        }
        true
    }

    /// The next variable to decide, in the way it was last assigned.
    fn pick(&mut self) -> (next: Option<i32>)
        requires
            old(self).consistent(),
            old(self).all_waiting(),
        ensures
            final(self).consistent(),
            *final(self) == (Solver { order: final(self).order, ..*old(self) }),
            next matches Some(literal) ==> {
                &&& sat_logic::lit_ok(literal, final(self).vars as nat)
                &&& val(final(self).assign@, literal) is None
                &&& (literal > 0) == final(self).phase@[sat_logic::var_of(literal)]
                &&& forall|v: int|
                    0 <= v < final(self).vars && v != sat_logic::var_of(literal)
                        && #[trigger] final(self).assign@[v] is None ==> final(self).order.holds(v)
            },
            next is None ==> forall|v: int|
                0 <= v < final(self).vars ==> #[trigger] final(self).assign@[v] is Some,
            sat_machine::picked(state_of(*old(self))) == (state_of(*final(self)), next),
    {
        loop
            invariant
                self.consistent(),
                self.all_waiting(),
                *self == (Solver { order: self.order, ..*old(self) }),
                skipped(self.assign@, old(self).order@, self.order@),
            decreases self.order.heap@.len(),
        {
            let ghost before = *self;
            match self.order.pop(Ghost(self.vars as nat)) {
                None => {
                    assert forall|v: int| 0 <= v < self.vars implies #[trigger] self.assign@[v] is Some by {
                        assert(!before.order.holds(v));
                    }
                    proof {
                        assert forall|v: int| 0 <= v < self.vars implies !#[trigger] before.order@.waits[v] by {
                            assert(!before.order.holds(v));
                        }
                        lemma_none_picked(*old(self), *self);
                    }
                    return None;
                },
                Some(variable) => {
                    proof {
                        assert(before.order@.is_first(variable as int)) by {
                            assert(before.order.holds(variable as int));
                            assert forall|u: int|
                                0 <= u < self.vars && u != variable
                                    && #[trigger] before.order@.waits[u] implies sat_order::outranks_in(
                                before.order@.activity,
                                variable as int,
                                u,
                            ) by {
                                assert(before.order.holds(u));
                            }
                        }
                        if self.assign@[variable as int] is None {
                            lemma_picked(*old(self), before, *self, variable as int);
                        } else {
                            lemma_skipped(
                                self.assign@,
                                old(self).order@,
                                before.order@,
                                variable as int,
                            );
                        }
                    }
                    assert forall|v: int|
                        0 <= v < self.vars && v != variable
                            && #[trigger] self.assign@[v] is None implies self.order.holds(v) by {
                        assert(before.order.holds(v));
                    }
                    if self.assign[variable].is_none() {
                        let literal: i32 = variable as i32 + 1;
                        return Some(if self.phase[variable] {
                            literal
                        } else {
                            -literal
                        });
                    }
                },
            }
        }
    }
}

/// The variables that wait no longer are assigned, and are tried before all that do.
spec fn skipped(assign: Seq<Option<bool>>, before: Waiting, now: Waiting) -> bool {
    &&& now.activity == before.activity
    &&& now.bump == before.bump
    &&& now.waits.len() == before.waits.len()
    &&& forall|u: int|
        0 <= u < now.waits.len() && #[trigger] now.waits[u] ==> before.waits[u]
    &&& forall|u: int, w: int|
        0 <= u < now.waits.len() && 0 <= w < now.waits.len() && #[trigger] before.waits[u]
            && !now.waits[u] && #[trigger] now.waits[w] ==> sat_order::outranks_in(
            now.activity,
            u,
            w,
        )
    &&& forall|u: int|
        0 <= u < now.waits.len() && #[trigger] before.waits[u] && !now.waits[u]
            ==> assign[u] is Some
}

proof fn lemma_skipped(assign: Seq<Option<bool>>, first: Waiting, now: Waiting, v: int)
    requires
        skipped(assign, first, now),
        now.is_first(v),
        assign[v] is Some,
    ensures
        skipped(assign, first, now.without(v)),
{
    let later = now.without(v);
    assert forall|u: int, w: int|
        0 <= u < later.waits.len() && 0 <= w < later.waits.len() && #[trigger] first.waits[u]
            && !later.waits[u] && #[trigger] later.waits[w] implies sat_order::outranks_in(
        later.activity,
        u,
        w,
    ) by {
        assert(now.waits[w]);
    }
}

proof fn lemma_none_picked(before: Solver, after: Solver)
    requires
        after == (Solver { order: after.order, ..before }),
        skipped(after.assign@, before.order@, after.order@),
        after.order@.waits.len() == after.vars,
        forall|v: int| 0 <= v < after.vars ==> !#[trigger] after.order@.waits[v],
    ensures
        sat_machine::picked(state_of(before)) == (state_of(after), None::<i32>),
{
    let s = state_of(before);
    assert(s.order == before.order@ && s.assign == after.assign@ && state_of(after) == (State {
        order: after.order@,
        ..s
    })) by {
        reveal(state_of);
        assert(held(after) =~= held(before));
    }
    assert forall|v: int| !sat_machine::is_next(s, v) by {
        if sat_machine::is_next(s, v) {
            assert(before.order@.waits[v] && !after.order@.waits[v]);
        }
    }
    assert(after.order@.waits =~= Seq::new(s.order.waits.len(), |u: int| false));
    reveal(sat_machine::picked);
}

proof fn lemma_picked(first: Solver, before: Solver, after: Solver, v: int)
    requires
        before == (Solver { order: before.order, ..first }),
        after == (Solver { order: after.order, ..first }),
        skipped(first.assign@, first.order@, before.order@),
        before.order@.is_first(v),
        first.assign@[v] is None,
        after.order@ == before.order@.without(v),
        0 <= v < i32::MAX,
    ensures
        sat_machine::picked(state_of(first)) == (
            state_of(after),
            Some(
                if first.phase@[v] {
                    (v + 1) as i32
                } else {
                    (-(v + 1)) as i32
                },
            ),
        ),
{
    let s = state_of(first);
    assert(s.order == first.order@ && s.assign == first.assign@ && s.phase == first.phase@
        && state_of(after) == (State { order: after.order@, ..s })) by {
        reveal(state_of);
        assert(held(after) =~= held(first));
    }
    assert(sat_machine::is_next(s, v)) by {
        assert(before.order@.waits[v]);
        assert forall|u: int|
            0 <= u < s.order.waits.len() && u != v && s.assign[u] is None
                && #[trigger] s.order.waits[u] implies sat_order::outranks_in(
            s.order.activity,
            v,
            u,
        ) by {
            assert(before.order@.waits[u]);
        }
    }
    sat_machine::lemma_next_is(s, v);
    let waits = Seq::new(
        s.order.waits.len(),
        |u: int| s.order.waits[u] && u != v && !sat_order::outranks_in(s.order.activity, u, v),
    );
    assert(after.order@.waits =~= waits) by {
        assert forall|u: int| 0 <= u < waits.len() implies after.order@.waits[u] == waits[u] by {
            if first.order@.waits[u] && u != v {
                if before.order@.waits[u] {
                    assert(sat_order::outranks_in(before.order@.activity, v, u));
                } else {
                    assert(before.order@.waits[v]);
                    assert(sat_order::outranks_in(before.order@.activity, u, v));
                }
            } else if !first.order@.waits[u] {
                assert(!before.order@.waits[u]);
            }
        }
    }
    reveal(sat_machine::picked);
}

/// Whether `literal` is among `literals`.
fn holds_literal(literals: &Vec<i32>, literal: i32) -> (present: bool)
    ensures
        present == literals@.contains(literal),
{
    let mut at: usize = 0;
    while at < literals.len()
        invariant
            at <= literals@.len(),
            forall|i: int| 0 <= i < at ==> literals@[i] != literal,
        decreases literals@.len() - at,
    {
        if literals[at] == literal {
            return true;
        }
        at = at + 1;
    }
    false
}

/// Whether clause `c` may be forgotten: it was learnt, is longer than two
/// literals, and is nobody's reason.
pub open spec fn removable(solver: Solver, c: int) -> bool {
    &&& solver.learnt@[c]
    &&& solver.clauses@[c]@.len() > 2
    &&& solver.reason@[sat_logic::var_of(solver.clauses@[c]@[0])] != Some(c as usize)
}

/// How many of the first `upto` clauses may be forgotten.
pub open spec fn removable_count(solver: Solver, upto: int) -> nat
    decreases upto,
{
    if upto <= 0 {
        0
    } else {
        removable_count(solver, upto - 1) + if removable(solver, upto - 1) {
            1nat
        } else {
            0nat
        }
    }
}

/// Whether clause `c` is forgotten before clause `d`: the less active first,
/// and between equals the older.
pub open spec fn staler(solver: Solver, c: int, d: int) -> bool {
    solver.clause_activity@[c] < solver.clause_activity@[d] || (solver.clause_activity@[c]
        == solver.clause_activity@[d] && c < d)
}

/// What forgetting leaves: the clauses `origins` names, in their old order.
pub open spec fn keeps(before: Solver, after: Solver, origins: Seq<int>) -> bool {
    &&& origins.len() == after.clauses@.len()
    &&& after.learnt@.len() == origins.len()
    &&& after.clause_activity@.len() == origins.len()
    &&& forall|c: int, d: int| 0 <= c < d < origins.len() ==> #[trigger] origins[c] < #[trigger] origins[d]
    &&& forall|c: int|
        0 <= c < origins.len() ==> {
            &&& 0 <= #[trigger] origins[c] < before.clauses@.len()
            &&& after.clauses@[c] == before.clauses@[origins[c]]
            &&& after.learnt@[c] == before.learnt@[origins[c]]
            &&& after.clause_activity@[c] == before.clause_activity@[origins[c]]
        }
}

/// Half of what may be forgotten is, and the stalest of it.
pub open spec fn forgets_stalest(before: Solver, origins: Seq<int>) -> bool {
    &&& origins.len() + removable_count(before, before.clauses@.len() as int) / 2
        == before.clauses@.len()
    &&& forall|c: int|
        0 <= c < before.clauses@.len() && !#[trigger] origins.contains(c) ==> removable(before, c)
    &&& forall|c: int, d: int|
        0 <= c < before.clauses@.len() && 0 <= d < before.clauses@.len()
            && !#[trigger] origins.contains(c) && #[trigger] origins.contains(d) && removable(
            before,
            d,
        ) ==> staler(before, c, d)
}

spec fn pair_before(left: (u64, usize), right: (u64, usize)) -> bool {
    left.0 < right.0 || (left.0 == right.0 && left.1 < right.1)
}

spec fn pairs_sorted(list: Seq<(u64, usize)>) -> bool {
    forall|i: int, j: int|
        0 <= i < j < list.len() ==> pair_before(#[trigger] list[i], #[trigger] list[j])
}

/// Puts `item` where it belongs in a sorted list.
fn insert_sorted(list: &mut Vec<(u64, usize)>, item: (u64, usize))
    requires
        pairs_sorted(old(list)@),
        forall|i: int| 0 <= i < old(list)@.len() ==> (#[trigger] old(list)@[i]).1 < item.1,
    ensures
        pairs_sorted(final(list)@),
        exists|at: int|
            0 <= at <= old(list)@.len() && final(list)@ == #[trigger] old(list)@.insert(at, item),
{
    let mut low: usize = 0;
    let mut high: usize = list.len();
    while low < high
        invariant
            list@ == old(list)@,
            0 <= low <= high <= list@.len(),
            pairs_sorted(list@),
            forall|i: int| 0 <= i < list@.len() ==> (#[trigger] list@[i]).1 < item.1,
            forall|i: int| 0 <= i < low ==> (#[trigger] list@[i]).0 <= item.0,
            forall|i: int| high <= i < list@.len() ==> (#[trigger] list@[i]).0 > item.0,
        decreases high - low,
    {
        let middle: usize = low + (high - low) / 2;
        let probe: (u64, usize) = list[middle];
        if probe.0 <= item.0 {
            low = middle + 1;
        } else {
            high = middle;
        }
    }
    list.insert(low, item);
    proof {
        let was = old(list)@;
        assert(list@ == was.insert(low as int, item));
        assert forall|i: int, j: int| 0 <= i < j < list@.len() implies pair_before(
            #[trigger] list@[i],
            #[trigger] list@[j],
        ) by {
            let a = if i < low { i } else { i - 1 };
            let b = if j < low { j } else { j - 1 };
            if i != low {
                assert(list@[i] == was[a]);
            }
            if j != low {
                assert(list@[j] == was[b]);
            }
        }
    }
}

impl Solver {
    /// The clauses that may be forgotten, stalest first.
    fn stale_clauses(&self) -> (list: Vec<(u64, usize)>)
        requires
            self.consistent(),
        ensures
            pairs_sorted(list@),
            list@.len() == removable_count(*self, self.clauses@.len() as int),
            forall|i: int|
                0 <= i < list@.len() ==> (#[trigger] list@[i]).1 < self.clauses@.len() && removable(
                    *self,
                    list@[i].1 as int,
                ) && list@[i].0 == self.clause_activity@[list@[i].1 as int],
            forall|c: int|
                0 <= c < self.clauses@.len() && #[trigger] removable(*self, c) ==> exists|i: int|
                    0 <= i < list@.len() && (#[trigger] list@[i]).1 == c,
    {
        let mut list: Vec<(u64, usize)> = Vec::new();
        let mut index: usize = 0;
        while index < self.clauses.len()
            invariant
                self.consistent(),
                index <= self.clauses@.len(),
                pairs_sorted(list@),
                list@.len() == removable_count(*self, index as int),
                forall|i: int|
                    0 <= i < list@.len() ==> (#[trigger] list@[i]).1 < index && removable(
                        *self,
                        list@[i].1 as int,
                    ) && list@[i].0 == self.clause_activity@[list@[i].1 as int],
                forall|c: int|
                    0 <= c < index && #[trigger] removable(*self, c) ==> exists|i: int|
                        0 <= i < list@.len() && (#[trigger] list@[i]).1 == c,
            decreases self.clauses@.len() - index,
        {
            assert(self.clauses@[index as int]@.len() >= 2 && sat_logic::clause_ok(
                self.clauses@[index as int]@,
                self.vars as nat,
            ));
            let first: i32 = self.clauses[index][0];
            assert(sat_logic::lit_ok(first, self.vars as nat));
            let held: bool = match self.reason[variable_of(first)] {
                Some(reason) => reason == index,
                None => false,
            };
            if self.learnt[index] && self.clauses[index].len() > 2 && !held {
                let ghost was = list@;
                insert_sorted(&mut list, (self.clause_activity[index], index));
                proof {
                    let item = (self.clause_activity@[index as int], index);
                    let at = choose|at: int|
                        0 <= at <= was.len() && list@ == #[trigger] was.insert(at, item);
                    assert forall|i: int| 0 <= i < list@.len() implies (#[trigger] list@[i]).1
                        < index + 1 && removable(*self, list@[i].1 as int) && list@[i].0
                        == self.clause_activity@[list@[i].1 as int] by {
                        if i != at {
                            let k = if i < at { i } else { i - 1 };
                            assert(list@[i] == was[k]);
                        }
                    }
                    assert forall|c: int| 0 <= c < index + 1 && #[trigger] removable(
                        *self,
                        c,
                    ) implies exists|i: int| 0 <= i < list@.len() && (#[trigger] list@[i]).1 == c by {
                        if c < index {
                            let k = choose|k: int| 0 <= k < was.len() && (#[trigger] was[k]).1 == c;
                            let i = if k < at { k } else { k + 1 };
                            assert(list@[i] == was[k]);
                        } else {
                            assert(list@[at].1 == c);
                        }
                    }
                }
            }
            index = index + 1;
        }
        list
    }

    /// Forgets the stalest half of the clauses that may be forgotten, and
    /// watches the rest afresh.
    #[verifier::spinoff_prover]
    #[verifier::rlimit(100)]
    fn reduce(&mut self)
        requires
            old(self).consistent(),
            old(self).trail_lim@.len() == 0,
            old(self).head == old(self).trail@.len(),
            old(self).settled_to(old(self).head as int),
        ensures
            final(self).consistent(),
            final(self).settled_to(final(self).head as int),
            *final(self) == (Solver {
                clauses: final(self).clauses,
                learnt: final(self).learnt,
                clause_activity: final(self).clause_activity,
                watches: final(self).watches,
                reason: final(self).reason,
                ..*old(self)
            }),
            exists|origins: Seq<int>|
                keeps(*old(self), *final(self), origins) && forgets_stalest(*old(self), origins),
            state_of(*final(self)) == sat_machine::forgotten(state_of(*old(self))),
    {
        let ghost before = *self;
        let ghost n = self.vars as nat;
        let total: usize = self.clauses.len();
        let stale: Vec<(u64, usize)> = self.stale_clauses();
        let drop_count: usize = stale.len() / 2;
        if drop_count == 0 {
            proof {
                let origins = Seq::new(self.clauses@.len(), |c: int| c);
                assert forall|c: int| 0 <= c < self.clauses@.len() implies #[trigger] origins.contains(
                    c,
                ) by {
                    assert(origins[c] == c);
                }
                assert(keeps(*old(self), *self, origins) && forgets_stalest(*old(self), origins));
                lemma_nothing_forgotten(*self);
            }
            return;
        }
        let mut doomed: Vec<bool> = vec![false; total];
        let mut at: usize = 0;
        proof {
            lemma_none_doomed(doomed@);
        }
        while at < drop_count
            invariant
                *self == before,
                at <= drop_count <= stale@.len(),
                doomed@.len() == total == before.clauses@.len(),
                pairs_sorted(stale@),
                forall|i: int|
                    0 <= i < stale@.len() ==> (#[trigger] stale@[i]).1 < total && removable(
                        before,
                        stale@[i].1 as int,
                    ) && stale@[i].0 == before.clause_activity@[stale@[i].1 as int],
                doomed_count(doomed@) == at,
                forall|c: int|
                    0 <= c < total && #[trigger] doomed@[c] ==> exists|i: int|
                        0 <= i < at && (#[trigger] stale@[i]).1 == c,
                forall|i: int| 0 <= i < at ==> doomed@[(#[trigger] stale@[i]).1 as int],
            decreases drop_count - at,
        {
            let index: usize = stale[at].1;
            let ghost was = doomed@;
            proof {
                if was[index as int] {
                    let i = choose|i: int| 0 <= i < at && (#[trigger] stale@[i]).1 == index;
                    assert(pair_before(stale@[i], stale@[at as int]));
                }
                lemma_doom_one(was, index as int);
            }
            doomed[index] = true;
            at = at + 1;
            proof {
                assert forall|c: int| 0 <= c < total && #[trigger] doomed@[c] implies exists|i: int|
                    0 <= i < at && (#[trigger] stale@[i]).1 == c by {
                    if c == index {
                        assert(stale@[at - 1].1 == c);
                    } else {
                        assert(was[c]);
                    }
                }
            }
        }
        let mut stored: Vec<Vec<i32>> = Vec::new();
        std::mem::swap(&mut stored, &mut self.clauses);
        let mut kept: Vec<Vec<i32>> = Vec::new();
        let mut kept_learnt: Vec<bool> = Vec::new();
        let mut kept_activity: Vec<u64> = Vec::new();
        let mut remap: Vec<Option<usize>> = Vec::new();
        let ghost mut origins: Seq<int> = Seq::empty();
        let mut index: usize = 0;
        while index < total
            invariant
                *self == (Solver { clauses: self.clauses, ..before }),
                before.consistent(),
                index <= total == before.clauses@.len(),
                doomed@.len() == total,
                stored@.len() == total,
                forall|c: int| index <= c < total ==> #[trigger] stored@[c] == before.clauses@[c],
                kept@.len() == origins.len(),
                kept_learnt@.len() == origins.len(),
                kept_activity@.len() == origins.len(),
                remap@.len() == index,
                forall|c: int|
                    0 <= c < index ==> #[trigger] remap@[c] == sat_machine::renamed(
                        Some(c as usize),
                        origins,
                    ),
                forall|c: int, d: int|
                    0 <= c < d < origins.len() ==> #[trigger] origins[c] < #[trigger] origins[d],
                forall|c: int|
                    0 <= c < origins.len() ==> {
                        &&& 0 <= #[trigger] origins[c] < index
                        &&& !doomed@[origins[c]]
                        &&& kept@[c] == before.clauses@[origins[c]]
                        &&& kept_learnt@[c] == before.learnt@[origins[c]]
                        &&& kept_activity@[c] == before.clause_activity@[origins[c]]
                    },
                forall|c: int|
                    0 <= c < index ==> (!#[trigger] doomed@[c] ==> exists|k: int|
                        0 <= k < origins.len() && #[trigger] origins[k] == c),
                origins.len() + doomed_count(doomed@.take(index as int)) == index,
            decreases total - index,
        {
            proof {
                lemma_doom_step(doomed@, index as int);
            }
            if doomed[index] {
                remap.push(None);
                proof {
                    assert(!origins.contains(index as int)) by {
                        if origins.contains(index as int) {
                            let k = choose|k: int|
                                0 <= k < origins.len() && origins[k] == index as int;
                            assert(origins[k] < index);
                        }
                    }
                }
            } else {
                let ghost was = origins;
                remap.push(Some(kept.len()));
                let mut clause: Vec<i32> = Vec::new();
                std::mem::swap(&mut clause, &mut stored[index]);
                kept.push(clause);
                kept_learnt.push(self.learnt[index]);
                kept_activity.push(self.clause_activity[index]);
                proof {
                    origins = origins.push(index as int);
                    assert forall|c: int| 0 <= c < index + 1 implies #[trigger] remap@[c]
                        == sat_machine::renamed(Some(c as usize), origins) by {
                        lemma_renamed(was, index as int, c);
                    }
                    assert forall|c: int|
                        0 <= c < index + 1 && !#[trigger] doomed@[c] implies exists|k: int|
                        0 <= k < origins.len() && #[trigger] origins[k] == c by {
                        if c < index {
                            let k = choose|k: int| 0 <= k < was.len() && #[trigger] was[k] == c;
                            assert(origins[k] == c);
                        } else {
                            assert(origins[was.len() as int] == c);
                        }
                    }
                }
            }
            index = index + 1;
        }
        proof {
            assert(doomed@.take(total as int) == doomed@);
        }
        self.clauses = kept;
        self.learnt = kept_learnt;
        self.clause_activity = kept_activity;
        let ghost rebuilt = *self;
        proof {
            assert(clauses_ok(self.clauses@, n)) by {
                assert forall|c: int| 0 <= c < self.clauses@.len() implies (
                #[trigger] self.clauses@[c])@.len() >= 2 && sat_logic::clause_ok(
                    self.clauses@[c]@,
                    n,
                ) && self.clauses@[c]@.no_duplicates() by {
                    assert(0 <= origins[c] < total);
                    assert(before.clauses@[origins[c]]@.len() >= 2);
                }
            }
        }
        self.watch_all();
        self.rename_reasons(&remap);
        proof {
            assert forall|c: int| 0 <= c < self.clauses@.len() implies sat_logic::entails(
                self.formula@,
                n,
                (#[trigger] self.clauses@[c])@,
            ) && clause_settled(
                self.clauses@[c]@,
                self.assign@,
                self.level@,
                self.when@,
                self.head as int,
            ) by {
                assert(0 <= origins[c] < total);
                assert(sat_logic::entails(before.formula@, n, before.clauses@[origins[c]]@));
            }
            assert(covering(
                self.covered@,
                self.clauses@,
                self.learnt@,
                self.trail@,
                self.trail_lim@,
            )) by {
                assert forall|f: int| 0 <= f < self.covered@.len() implies kept_in(
                    #[trigger] self.covered@[f],
                    self.clauses@,
                    self.learnt@,
                ) || ground_true(self.covered@[f], self.trail@, self.trail_lim@) by {
                    if kept_in(before.covered@[f], before.clauses@, before.learnt@) {
                        let d = choose|d: int|
                            0 <= d < before.clauses@.len() && !before.learnt@[d]
                                && sat_logic::literals_within(
                                (#[trigger] before.clauses@[d])@,
                                before.covered@[f],
                            );
                        assert(!doomed@[d]) by {
                            if doomed@[d] {
                                let i = choose|i: int|
                                    0 <= i < drop_count && (#[trigger] stale@[i]).1 == d;
                                assert(removable(before, stale@[i].1 as int));
                            }
                        }
                        let k = choose|k: int| 0 <= k < origins.len() && #[trigger] origins[k] == d;
                        assert(self.clauses@[k] == before.clauses@[d]);
                        assert(!self.learnt@[k]);
                    }
                }
            }
            assert(keeps(before, *self, origins));
            assert(forgets_stalest(before, origins)) by {
                assert forall|c: int|
                    0 <= c < total && !#[trigger] origins.contains(c) implies removable(before, c)
                    && doomed@[c] by {
                    if !doomed@[c] {
                        let k = choose|k: int| 0 <= k < origins.len() && #[trigger] origins[k] == c;
                        assert(origins.contains(c));
                    }
                    let i = choose|i: int| 0 <= i < drop_count && (#[trigger] stale@[i]).1 == c;
                    assert(removable(before, stale@[i].1 as int));
                }
                assert forall|c: int, d: int|
                    0 <= c < total && 0 <= d < total && !#[trigger] origins.contains(c)
                        && #[trigger] origins.contains(d) && removable(before, d) implies staler(
                    before,
                    c,
                    d,
                ) by {
                    assert(doomed@[c]);
                    let i = choose|i: int| 0 <= i < drop_count && (#[trigger] stale@[i]).1 == c;
                    let j = choose|j: int| 0 <= j < stale@.len() && (#[trigger] stale@[j]).1 == d;
                    let k = choose|k: int| 0 <= k < origins.len() && origins[k] == d;
                    assert(!doomed@[origins[k]]);
                    if j < drop_count {
                        assert(doomed@[stale@[j].1 as int]);
                    }
                    assert(pair_before(stale@[i], stale@[j]));
                }
            }
            assert forall|v: int| 0 <= v < n implies #[trigger] self.reason@[v]
                == sat_machine::renamed(before.reason@[v], origins) by {
                if let Some(r) = before.reason@[v] {
                    if r < total {
                        assert(remap@[r as int] == sat_machine::renamed(Some(r), origins));
                    } else if origins.contains(r as int) {
                        let k = choose|k: int| 0 <= k < origins.len() && origins[k] == r as int;
                        assert(origins[k] < total);
                    }
                }
            }
            lemma_reduced(before, *self, origins);
        }
    }

    /// Lists every clause under its first two literals, and under no other.
    fn watch_all(&mut self)
        requires
            clauses_ok(old(self).clauses@, old(self).vars as nat),
            old(self).vars <= i32::MAX,
            old(self).watches@.len() == 2 * old(self).vars,
        ensures
            watches_ok(
                final(self).clauses@,
                final(self).watches@,
                final(self).vars as nat,
                final(self).clauses@.len() as int,
            ),
            *final(self) == (Solver { watches: final(self).watches, ..*old(self) }),
            lists(final(self).watches@) == sat_machine::listing(
                held(*old(self)),
                old(self).watches@.len(),
                old(self).clauses@.len() as int,
            ),
    {
        let ghost n = self.vars as nat;
        let ghost slots = self.watches@.len();
        let mut slot: usize = 0;
        let mut watches: Vec<Vec<usize>> = Vec::new();
        while slot < self.watches.len()
            invariant
                slot <= self.watches@.len(),
                watches@.len() == slot,
                forall|s: int| 0 <= s < slot ==> (#[trigger] watches@[s])@.len() == 0,
            decreases self.watches@.len() - slot,
        {
            watches.push(Vec::new());
            slot = slot + 1;
        }
        self.watches = watches;
        let ghost rebuilt = *self;
        assert(lists(self.watches@) =~~= Seq::new(slots, |slot: int| Seq::<usize>::empty()));
        let mut index: usize = 0;
        while index < self.clauses.len()
            invariant
                *self == (Solver { watches: self.watches, ..rebuilt }),
                rebuilt.clauses == old(self).clauses,
                clauses_ok(self.clauses@, n),
                n == self.vars,
                self.vars <= i32::MAX,
                index <= self.clauses@.len(),
                watches_ok(self.clauses@, self.watches@, n, index as int),
                lists(self.watches@) == sat_machine::listing(
                    held(*old(self)),
                    slots,
                    index as int,
                ),
            decreases self.clauses@.len() - index,
        {
            self.watch_clause(index);
            index = index + 1;
            assert(held(*old(self))[index - 1] == self.clauses@[index - 1]@);
        }
    }

    /// Gives every reason its new number, `None` where the clause is gone.
    fn rename_reasons(&mut self, remap: &Vec<Option<usize>>)
        requires
            old(self).reason@.len() == old(self).vars,
        ensures
            *final(self) == (Solver { reason: final(self).reason, ..*old(self) }),
            final(self).reason@.len() == old(self).reason@.len(),
            forall|v: int|
                0 <= v < final(self).vars ==> #[trigger] final(self).reason@[v] == (match old(
                    self,
                ).reason@[v] {
                    Some(r) => if r < remap@.len() {
                        remap@[r as int]
                    } else {
                        None
                    },
                    None => None,
                }),
    {
        let mut variable: usize = 0;
        while variable < self.vars
            invariant
                *self == (Solver { reason: self.reason, ..*old(self) }),
                self.reason@.len() == self.vars == old(self).reason@.len(),
                variable <= self.vars,
                forall|v: int|
                    variable <= v < self.vars ==> #[trigger] self.reason@[v] == old(
                        self,
                    ).reason@[v],
                forall|v: int|
                    0 <= v < variable ==> #[trigger] self.reason@[v] == (match old(
                        self,
                    ).reason@[v] {
                        Some(r) => if r < remap@.len() {
                            remap@[r as int]
                        } else {
                            None
                        },
                        None => None,
                    }),
            decreases self.vars - variable,
        {
            let fresh: Option<usize> = match self.reason[variable] {
                Some(reason) => if reason < remap.len() {
                    remap[reason]
                } else {
                    None
                },
                None => None,
            };
            self.reason[variable] = fresh;
            variable = variable + 1;
        }
    }
}

/// One more clause kept, and where the others then stand.
proof fn lemma_renamed(was: Seq<int>, index: int, c: int)
    requires
        0 <= c <= index <= usize::MAX,
        was.len() <= index,
        forall|k: int| 0 <= k < was.len() ==> 0 <= #[trigger] was[k] < index,
        forall|c: int, d: int| 0 <= c < d < was.len() ==> #[trigger] was[c] < #[trigger] was[d],
    ensures
        c < index ==> sat_machine::renamed(Some(c as usize), was.push(index))
            == sat_machine::renamed(Some(c as usize), was),
        c == index ==> sat_machine::renamed(Some(c as usize), was.push(index)) == Some(
            was.len() as usize,
        ),
{
    let now = was.push(index);
    if c == index {
        assert(now[was.len() as int] == c);
        let k = now.index_of(c);
        assert(now[k] == c);
        if k < was.len() {
            assert(was[k] < index);
        }
    } else if was.contains(c) {
        let k = was.index_of(c);
        assert(now[k] == c);
        let j = now.index_of(c);
        assert(now[j] == c);
        assert(j < was.len());
        assert(was[j] == c && was[k] == c);
        if j < k {
            assert(was[j] < was[k]);
        } else if k < j {
            assert(was[k] < was[j]);
        }
    } else if now.contains(c) {
        let k = choose|k: int| 0 <= k < now.len() && now[k] == c;
        assert(was[k] == c);
    }
}

proof fn lemma_removable(solver: Solver, upto: int)
    requires
        upto <= solver.clauses@.len(),
    ensures
        sat_machine::removable_count(state_of(solver), upto) == removable_count(solver, upto),
        forall|c: int|
            0 <= c < upto ==> #[trigger] sat_machine::removable(state_of(solver), c)
                == removable(solver, c),
    decreases upto,
{
    if upto > 0 {
        lemma_removable(solver, upto - 1);
        reveal(state_of);
        assert(held(solver)[upto - 1] == solver.clauses@[upto - 1]@);
    }
}

/// Where fewer than two clauses may be forgotten, none is.
proof fn lemma_nothing_forgotten(solver: Solver)
    requires
        removable_count(solver, solver.clauses@.len() as int) < 2,
    ensures
        sat_machine::forgotten(state_of(solver)) == state_of(solver),
{
    lemma_removable(solver, solver.clauses@.len() as int);
    assert(state_of(solver).clauses.len() == solver.clauses@.len()) by {
        reveal(state_of);
    }
    reveal(sat_machine::forgotten);
}

/// Forgetting, as a step.
proof fn lemma_reduced(before: Solver, after: Solver, origins: Seq<int>)
    requires
        removable_count(before, before.clauses@.len() as int) >= 2,
        keeps(before, after, origins),
        forgets_stalest(before, origins),
        after == (Solver {
            clauses: after.clauses,
            learnt: after.learnt,
            clause_activity: after.clause_activity,
            watches: after.watches,
            reason: after.reason,
            ..before
        }),
        lists(after.watches@) == sat_machine::listing(
            held(after),
            before.watches@.len(),
            after.clauses@.len() as int,
        ),
        after.reason@.len() == before.reason@.len() == before.vars,
        forall|v: int|
            0 <= v < before.vars ==> #[trigger] after.reason@[v] == sat_machine::renamed(
                before.reason@[v],
                origins,
            ),
    ensures
        state_of(after) == sat_machine::forgotten(state_of(before)),
{
    let s = state_of(before);
    lemma_removable(before, before.clauses@.len() as int);
    assert(s.clauses == held(before) && s.learnt == before.learnt@ && s.scores
        == before.clause_activity@ && s.watches == lists(before.watches@) && s.reason
        == before.reason@) by {
        reveal(state_of);
    }
    assert(sat_machine::spares(s, origins)) by {
        assert forall|c: int|
            0 <= c < s.clauses.len() && !#[trigger] origins.contains(
                c,
            ) implies sat_machine::removable(s, c) by {
            assert(removable(before, c));
        }
        assert forall|c: int, d: int|
            0 <= c < s.clauses.len() && 0 <= d < s.clauses.len() && !#[trigger] origins.contains(c)
                && #[trigger] origins.contains(d) && sat_machine::removable(
                s,
                d,
            ) implies sat_machine::staler(s, c, d) by {
            assert(removable(before, d));
            assert(staler(before, c, d));
        }
    }
    sat_machine::lemma_forgotten_is(s, origins);
    let thin = sat_machine::thinned(s, origins);
    assert(held(after) =~= thin.clauses);
    assert(after.learnt@ =~= thin.learnt);
    assert(after.clause_activity@ =~= thin.scores);
    assert(after.reason@ =~= thin.reason);
    reveal(state_of);
}

spec fn doomed_count(doomed: Seq<bool>) -> nat
    decreases doomed.len(),
{
    if doomed.len() == 0 {
        0
    } else {
        doomed_count(doomed.drop_last()) + if doomed.last() {
            1nat
        } else {
            0nat
        }
    }
}

proof fn lemma_none_doomed(doomed: Seq<bool>)
    requires
        forall|c: int| 0 <= c < doomed.len() ==> !#[trigger] doomed[c],
    ensures
        doomed_count(doomed) == 0,
    decreases doomed.len(),
{
    if doomed.len() > 0 {
        assert(!doomed[doomed.len() - 1]);
        assert forall|c: int| 0 <= c < doomed.drop_last().len() implies !#[trigger] doomed.drop_last()[c] by {
            assert(!doomed[c]);
        }
        lemma_none_doomed(doomed.drop_last());
    }
}

proof fn lemma_doom_one(doomed: Seq<bool>, at: int)
    requires
        0 <= at < doomed.len(),
        !doomed[at],
    ensures
        doomed_count(doomed.update(at, true)) == doomed_count(doomed) + 1,
    decreases doomed.len(),
{
    let marked = doomed.update(at, true);
    if at == doomed.len() - 1 {
        assert(marked.drop_last() == doomed.drop_last());
    } else {
        assert(marked.drop_last() == doomed.drop_last().update(at, true));
        lemma_doom_one(doomed.drop_last(), at);
    }
}

proof fn lemma_doom_step(doomed: Seq<bool>, at: int)
    requires
        0 <= at < doomed.len(),
    ensures
        doomed_count(doomed.take(at + 1)) == doomed_count(doomed.take(at)) + if doomed[at] {
            1nat
        } else {
            0nat
        },
{
    assert(doomed.take(at + 1).drop_last() == doomed.take(at));
}

/// The stored clauses.
pub open spec fn held(solver: Solver) -> Seq<Seq<i32>> {
    Seq::new(solver.clauses@.len(), |c: int| solver.clauses@[c]@)
}

/// What is known without a decision: the stored clauses, and what was assigned
/// before the first decision.
pub open spec fn facts(solver: Solver) -> Seq<Seq<i32>> {
    held(solver) + sat_run::units(
        solver.trail@.take(ground(solver.trail@, solver.trail_lim@)),
    )
}

proof fn lemma_facts_entailed(solver: Solver)
    requires
        solver.consistent(),
    ensures
        forall|i: int|
            0 <= i < facts(solver).len() ==> sat_logic::entails(
                solver.formula@,
                solver.vars as nat,
                #[trigger] facts(solver)[i],
            ),
{
    let known = facts(solver);
    let stored = held(solver).len() as int;
    assert(ground(solver.trail@, solver.trail_lim@) <= solver.trail@.len()) by {
        if solver.trail_lim@.len() > 0 {
            assert(solver.trail_lim@[0] <= solver.trail@.len());
        }
    }
    assert forall|i: int| 0 <= i < known.len() implies sat_logic::entails(
        solver.formula@,
        solver.vars as nat,
        #[trigger] known[i],
    ) by {
        if i < stored {
            assert(known[i] == solver.clauses@[i]@);
        } else {
            let j = i - stored;
            assert(known[i] == seq![solver.trail@[j]]);
            assert(sat_logic::entails(
                solver.formula@,
                solver.vars as nat,
                seq![solver.trail@[j]],
            ));
        }
    }
}

/// A solver for its own facts is as consistent as it was.
proof fn lemma_facts_hold_themselves(solver: Solver)
    requires
        solver.consistent(),
    ensures
        (Solver { formula: Ghost(facts(solver)), ..solver }).consistent(),
{
    let n = solver.vars as nat;
    let known = facts(solver);
    let stored = held(solver).len() as int;
    assert forall|i: int| 0 <= i < known.len() implies sat_logic::entails(
        known,
        n,
        #[trigger] known[i],
    ) by {
        assert forall|m: Seq<bool>|
            m.len() == n && #[trigger] sat_logic::formula_holds(
                m,
                known,
            ) implies sat_logic::clause_holds(m, known[i]) by {}
    }
    assert(ground(solver.trail@, solver.trail_lim@) <= solver.trail@.len()) by {
        if solver.trail_lim@.len() > 0 {
            assert(solver.trail_lim@[0] <= solver.trail@.len());
        }
    }
    assert forall|c: int| 0 <= c < solver.clauses@.len() implies sat_logic::entails(
        known,
        n,
        (#[trigger] solver.clauses@[c])@,
    ) by {
        assert(known[c] == solver.clauses@[c]@);
    }
    assert forall|i: int|
        0 <= i < ground(solver.trail@, solver.trail_lim@) && i
            < solver.trail@.len() implies sat_logic::entails(
        known,
        n,
        seq![#[trigger] solver.trail@[i]],
    ) by {
        assert(known[stored + i] == seq![solver.trail@[i]]);
    }
}

impl Solver {
    /// How many stored clauses were learnt.
    fn learnt_count(&self) -> (count: usize)
        ensures
            count == self.learnt@.filter(|is: bool| is).len(),
    {
        let mut count: usize = 0;
        let mut index: usize = 0;
        assert(self.learnt@.take(0).filter(|is: bool| is) == Seq::<bool>::empty()) by {
            reveal(Seq::filter);
        }
        while index < self.learnt.len()
            invariant
                index <= self.learnt@.len(),
                count == self.learnt@.take(index as int).filter(|is: bool| is).len(),
                count <= index,
            decreases self.learnt@.len() - index,
        {
            proof {
                reveal(Seq::filter);
                assert(self.learnt@.take(index + 1).drop_last() == self.learnt@.take(index as int));
            }
            if self.learnt[index] {
                count = count + 1;
            }
            index = index + 1;
        }
        assert(self.learnt@.take(index as int) == self.learnt@);
        count
    }

    /// Analyses a conflict, and shows that the lesson follows from what is held.
    fn study(&mut self, conflict: usize) -> (taught: (Vec<i32>, usize))
        requires
            old(self).consistent(),
            old(self).trail_lim@.len() > 0,
            conflict < old(self).clauses@.len(),
            forall|j: int|
                0 <= j < old(self).clauses@[conflict as int]@.len() ==> is_false(
                    old(self).assign@,
                    #[trigger] old(self).clauses@[conflict as int]@[j],
                ),
            old(self).level@[sat_logic::var_of(old(self).clauses@[conflict as int]@[1])] == old(
                self,
            ).trail_lim@.len(),
        ensures
            final(self).consistent(),
            only_marks_differ(*final(self), *old(self)),
            final(self).order.same_waiting(&old(self).order),
            final(self).teaches(taught.0@, taught.1 as int),
            sat_logic::entails(facts(*old(self)), old(self).vars as nat, taught.0@),
            sat_machine::studied(state_of(*old(self)), conflict as int) == (
                state_of(*final(self)),
                taught.0@,
                taught.1,
            ),
    {
        let ghost formula = self.formula@;
        proof {
            lemma_facts_entailed(*self);
            self.formula@ = facts(*self);
            lemma_facts_hold_themselves(*old(self));
        }
        let ghost ready = *self;
        let taught = self.analyze(conflict);
        let ghost analyzed = *self;
        proof {
            lemma_same_state(ready, *old(self));
            let n = self.vars as nat;
            assert(sat_logic::entails(formula, n, taught.0@)) by {
                assert forall|m: Seq<bool>|
                    m.len() == n && #[trigger] sat_logic::formula_holds(
                        m,
                        formula,
                    ) implies sat_logic::clause_holds(m, taught.0@) by {
                    let known = facts(*old(self));
                    assert forall|i: int| 0 <= i < known.len() implies sat_logic::clause_holds(
                        m,
                        #[trigger] known[i],
                    ) by {
                        assert(sat_logic::entails(formula, n, known[i]));
                    }
                    assert(sat_logic::formula_holds(m, known));
                }
            }
            self.formula@ = formula;
            lemma_same_state(*self, analyzed);
        }
        taught
    }

    /// Learns from a conflict: goes back as far as the lesson allows and
    /// assigns what it forces.
    #[verifier::spinoff_prover]
    #[verifier::rlimit(60)]
    fn learn(&mut self, conflict: usize) -> (taught: Ghost<(Seq<i32>, int)>)
        requires
            old(self).consistent(),
            old(self).all_waiting(),
            old(self).trail_lim@.len() > 0,
            old(self).settled_to(old(self).level_start()),
            conflict < old(self).clauses@.len(),
            forall|j: int|
                0 <= j < old(self).clauses@[conflict as int]@.len() ==> is_false(
                    old(self).assign@,
                    #[trigger] old(self).clauses@[conflict as int]@[j],
                ),
            old(self).level@[sat_logic::var_of(old(self).clauses@[conflict as int]@[1])] == old(
                self,
            ).trail_lim@.len(),
        ensures
            final(self).consistent(),
            final(self).all_waiting(),
            final(self).settled_to(final(self).head as int),
            final(self).pending_current(),
            final(self).head < final(self).trail@.len(),
            final(self).trail_lim@.len() < old(self).trail_lim@.len(),
            final(self).trail_lim@ == old(self).trail_lim@.take(
                final(self).trail_lim@.len() as int,
            ),
            final(self).trail@.len() == 1 + old(
                self,
            ).trail_lim@[final(self).trail_lim@.len() as int],
            old(self).teaches(taught@.0, taught@.1),
            sat_logic::entails(facts(*old(self)), old(self).vars as nat, taught@.0),
            final(self).trail_lim@.len() == taught@.1,
            final(self).trail@ == old(self).trail@.take(
                old(self).trail_lim@[taught@.1] as int,
            ).push(taught@.0[0]),
            held(*final(self)) == (if taught@.0.len() >= 2 {
                held(*old(self)).push(taught@.0)
            } else {
                held(*old(self))
            }),
            final(self).vars == old(self).vars,
            final(self).formula == old(self).formula,
            final(self).covered == old(self).covered,
            final(self).conflicts == old(self).conflicts,
            state_of(*final(self)) == sat_machine::learned(state_of(*old(self)), conflict as int),
    {
        let (learnt, backtrack) = self.study(conflict);
        let ghost analyzed = *self;
        let ghost n = self.vars as nat;
        let ghost lits = learnt@;
        proof {
            let last = self.trail_lim@.len() - 1;
            if backtrack < last {
                assert(self.trail_lim@[backtrack as int] <= self.trail_lim@[last]);
            }
            assert(self.all_waiting()) by {
                assert forall|v: int|
                    0 <= v < self.vars && #[trigger] self.assign@[v] is None implies self.order.holds(
                    v,
                ) by {
                    assert(old(self).assign@[v] is None);
                    assert(old(self).order.holds(v));
                }
            }
            assert(self.settled_to(self.trail_lim@[backtrack as int] as int)) by {
                assert forall|d: int| 0 <= d < self.clauses@.len() implies clause_settled(
                    (#[trigger] self.clauses@[d])@,
                    self.assign@,
                    self.level@,
                    self.when@,
                    self.trail_lim@[backtrack as int] as int,
                ) by {
                    assert(clause_settled(
                        old(self).clauses@[d]@,
                        old(self).assign@,
                        old(self).level@,
                        old(self).when@,
                        old(self).level_start(),
                    ));
                }
            }
        }
        self.cancel_until(backtrack);
        let ghost back = *self;
        let first: i32 = learnt[0];
        proof {
            assert(sat_logic::lit_ok(lits[0], n));
            let v = sat_logic::var_of(first);
            assert(is_false(analyzed.assign@, lits[0]));
            assert(analyzed.assign@[v] is Some);
            lemma_ground_level(analyzed, v);
            let last = analyzed.trail_lim@.len() - 1;
            if backtrack < last {
                assert(analyzed.trail_lim@[backtrack as int] <= analyzed.trail_lim@[last]);
            }
            assert(self.assign@[v] is None);
            assert forall|j: int| 1 <= j < lits.len() implies is_false(
                self.assign@,
                #[trigger] lits[j],
            ) && self.when@[sat_logic::var_of(lits[j])] < self.trail@.len() by {
                assert(sat_logic::lit_ok(lits[j], n));
                assert(is_false(analyzed.assign@, lits[j]));
                let w = sat_logic::var_of(lits[j]);
                assert(analyzed.assign@[w] is Some);
                let i = analyzed.when@[w];
                assert(sat_logic::var_of(analyzed.trail@[i]) == w);
                assert(analyzed.trail_lim@[backtrack as int] <= i
                    <==> analyzed.level@[sat_logic::var_of(analyzed.trail@[i])] > backtrack);
                assert(self.assign@[w] is Some);
            }
        }
        if learnt.len() == 1 {
            proof {
                assert(lits == seq![first]);
            }
            self.enqueue(first, None);
            proof {
                lemma_after_learning(back, *self, first);
                lemma_assigned(back, *self, first, None);
                reveal(sat_machine::learned);
            }
        } else {
            let index: usize = self.attach(learnt, true);
            let ghost stored = *self;
            proof {
                let clause = self.clauses@[index as int]@;
                assert(clause == lits);
                assert(self.trail_lim@.len() == backtrack);
                assert(0 < analyzed.level@[sat_logic::var_of(lits[1])]);
                assert(reason_ok(
                    self.clauses@,
                    self.assign@,
                    self.when@,
                    index as int,
                    first,
                    self.trail@.len() as int,
                ));
            }
            self.enqueue(first, Some(index));
            proof {
                lemma_assigned(stored, *self, first, Some(index));
                assert(state_of(*self) == sat_machine::learned(
                    state_of(*old(self)),
                    conflict as int,
                )) by {
                    reveal(sat_machine::learned);
                    assert(state_of(back).clauses.len() == index) by {
                        reveal(state_of);
                    }
                }
                assert forall|d: int| 0 <= d < self.clauses@.len() implies clause_settled(
                    (#[trigger] self.clauses@[d])@,
                    self.assign@,
                    self.level@,
                    self.when@,
                    self.head as int,
                ) by {
                    if d < index {
                        assert(self.clauses@[d] == back.clauses@[d]);
                        assert(stored.clauses@[d]@.len() >= 2);
                        lemma_settled_grows(
                            stored,
                            *self,
                            first,
                            back.head as int,
                            back.clauses@[d]@,
                        );
                    } else {
                        let clause = self.clauses@[d]@;
                        assert(clause == lits);
                        assert(is_false(stored.assign@, lits[1]));
                        assert(sat_logic::lit_ok(lits[1], n));
                        assert(lits[0] != lits[1]);
                    }
                }
                assert forall|v: int|
                    0 <= v < self.vars && #[trigger] self.assign@[v] is None implies self.order.holds(
                    v,
                ) by {
                    assert(back.assign@[v] is None);
                }
                let i = back.trail@.len() as int;
                assert(self.trail@[i] == first);
            }
        }
        proof {
            assert(held(*self) =~= (if lits.len() >= 2 {
                held(*old(self)).push(lits)
            } else {
                held(*old(self))
            }));
        }
        Ghost((lits, backtrack as int))
    }

    /// Decides the formula, giving up once `budget` conflicts have been met.
    ///
    /// Whatever comes of it, `conflicts` counts the conflicts of one search: there
    /// are fewer than `budget`, or none, where the formula is decided.
    #[verifier::spinoff_prover]
    #[verifier::rlimit(60)]
    pub fn solve(&mut self, budget: u64) -> (outcome: Outcome)
        requires
            old(self).grounded(),
            old(self).conflicts == 0,
        ensures
            match outcome {
                Outcome::Sat(model) => model@.len() == old(self).vars && sat_logic::formula_holds(
                    model@,
                    old(self).formula@,
                ),
                Outcome::Unsat => sat_logic::unsatisfiable(
                    old(self).formula@,
                    old(self).vars as nat,
                ),
                Outcome::Unknown => old(self).clauses@.len() > 0 && budget < enough(
                    old(self).vars as nat,
                ),
            },
            outcome is Unknown ==> final(self).conflicts == (if budget == 0 {
                1
            } else {
                budget as int
            }),
            !(outcome is Unknown) ==> final(self).conflicts == 0 || final(self).conflicts < budget,
            exists|run: Seq<sat_run::Conflict>|
                run.len() == final(self).conflicts && #[trigger] sat_run::conflict_run(
                    old(self).formula@,
                    old(self).vars as nat,
                    run,
                ),
            sat_machine::ends(
                sat_machine::begun(state_of(*old(self))),
                budget as nat,
                verdict_of(outcome),
            ),
    {
        let ghost n = self.vars as nat;
        let ghost span = power2::pow2(n);
        proof {
            power2::lemma_pow2_pos(n);
        }
        let mut variable: usize = 0;
        assert(self.order@.waits =~= queued_until(*old(self), 0).waits);
        while variable < self.vars
            invariant
                self.consistent(),
                *self == (Solver { order: self.order, ..*old(self) }),
                old(self).grounded(),
                old(self).conflicts == 0,
                n == self.vars,
                variable <= self.vars,
                self.order@ == queued_until(*old(self), variable as int),
                self.order@.waits.len() == self.vars,
                forall|v: int|
                    0 <= v < variable && #[trigger] self.assign@[v] is None ==> self.order.holds(v),
            decreases self.vars - variable,
        {
            let ghost before = *self;
            if self.assign[variable].is_none() {
                self.order.insert(variable, Ghost(self.vars as nat));
            }
            proof {
                assert forall|v: int|
                    0 <= v < variable + 1 && #[trigger] self.assign@[v] is None implies self.order.holds(
                    v,
                ) by {
                    if v < variable {
                        assert(before.order.holds(v));
                    }
                }
                assert(self.order@.waits =~= queued_until(*old(self), variable + 1).waits);
            }
            variable = variable + 1;
        }
        let ghost mut run: Seq<sat_run::Conflict> = Seq::empty();
        proof {
            lemma_search_begins(*self);
        }
        let mut restart: u64 = 0;
        let mut until: u64 = luby(restart);
        let mut since_restart: u64 = 0;
        let third: usize = self.clauses.len() / 3;
        let mut max_learnt: usize = if third > 64 {
            third
        } else {
            64
        };
        let ghost begun = sat_machine::begun(state_of(*old(self)));
        let ghost mut steps: nat = 0;
        proof {
            lemma_begun(*old(self), *self);
            sat_machine::lemma_run_begins(begun, budget as nat);
        }
        loop
            invariant
                begun == sat_machine::begun(state_of(*old(self))),
                sat_machine::goes_on(
                    begun,
                    budget as nat,
                    steps,
                    run_of(*self, restart as int, since_restart as int, max_learnt),
                ),
                self.consistent(),
                self.all_waiting(),
                self.settled_to(self.head as int),
                self.pending_current(),
                n == self.vars == old(self).vars,
                self.formula == old(self).formula,
                self.covered == old(self).formula,
                self.conflicts == 0 || self.conflicts < budget,
                100 * restart + since_restart <= self.conflicts,
                until >= 1,
                until == luby_number((restart + 1) as nat),
                span == power2::pow2(n),
                rising(self.trail_lim@, self.trail@.len() as int),
                since_restart <= progress(n, self.trail_lim@, self.trail@.len()),
                restart + 2 <= 2 * span,
                self.conflicts <= restart * span + since_restart,
                old(self).clauses@.len() == 0 ==> self.clauses@.len() == 0,
                run.len() == self.conflicts,
                search_stands(*self, run, restart as nat, since_restart as nat),
            decreases
                    budget - self.conflicts,
                    if since_restart / 100 >= until {
                        1int
                    } else {
                        0int
                    },
                    self.vars - self.trail@.len(),
        {
            let ghost top = *self;
            let ghost at = run_of(*self, restart as int, since_restart as int, max_learnt);
            match self.propagate() {
                Some(conflict) => {
                    proof {
                        lemma_search_propagates(
                            top,
                            *self,
                            run,
                            restart as nat,
                            since_restart as nat,
                        );
                    }
                    if self.decision_level() == 0 {
                        proof {
                            lemma_search_shows(*self, run, restart as nat, since_restart as nat);
                            lemma_ground_conflict(*self, conflict as int);
                            lemma_step_refutes(
                                top,
                                *self,
                                conflict,
                                restart as int,
                                since_restart as int,
                                max_learnt,
                            );
                            sat_machine::lemma_run_ends(
                                begun,
                                budget as nat,
                                steps,
                                at,
                                Verdict::Unsat,
                            );
                        }
                        return Outcome::Unsat;
                    }
                    proof {
                        assert(self.all_waiting()) by {
                            assert forall|v: int|
                                0 <= v < self.vars
                                    && #[trigger] self.assign@[v] is None implies self.order.holds(
                                v,
                            ) by {
                                assert(top.assign@[v] is None);
                            }
                        }
                    }
                    let ghost met = *self;
                    let taught = self.learn(conflict);
                    proof {
                        let entry = met_conflict(
                            met,
                            conflict as int,
                            taught@.0,
                            taught@.1,
                            restart as nat,
                            since_restart as nat,
                        );
                        lemma_is_conflict(
                            met,
                            conflict as int,
                            taught@.0,
                            taught@.1,
                            restart as nat,
                            since_restart as nat,
                        );
                        lemma_search_learns(met, *self, run, entry);
                        run = run.push(entry);
                        lemma_trail_fits(n, met.assign@, met.trail@, met.when@);
                        lemma_trail_fits(n, self.assign@, self.trail@, self.when@);
                        lemma_progress_grows(
                            n,
                            top.trail_lim@,
                            top.trail@.len(),
                            met.trail@.len(),
                        );
                        lemma_learning_progresses(
                            n,
                            met.trail_lim@,
                            met.trail@.len(),
                            self.trail_lim@.len() as int,
                        );
                        lemma_progress_bounded(n, self.trail_lim@, 0, self.trail@.len());
                        lemma_enough(restart as nat, since_restart as nat + 1, n);
                    }
                    let ghost learned = *self;
                    self.conflicts = self.conflicts + 1;
                    since_restart = since_restart + 1;
                    self.order.decay(Ghost(self.vars as nat));
                    proof {
                        lemma_search_rests(
                            learned,
                            *self,
                            run,
                            restart as nat,
                            since_restart as nat,
                        );
                    }
                    let ghost next = run_of(
                        *self,
                        restart as int,
                        since_restart as int,
                        max_learnt,
                    );
                    proof {
                        lemma_step_learns(
                            top,
                            met,
                            conflict,
                            learned,
                            *self,
                            restart as int,
                            since_restart - 1,
                            max_learnt,
                        );
                    }
                    if self.conflicts >= budget {
                        proof {
                            lemma_search_shows(*self, run, restart as nat, since_restart as nat);
                            sat_machine::lemma_run_ends(
                                begun,
                                budget as nat,
                                steps,
                                at,
                                Verdict::Unknown,
                            );
                        }
                        return Outcome::Unknown;
                    }
                    proof {
                        sat_machine::lemma_run_goes_on(begun, budget as nat, steps, at, next);
                        steps = steps + 1;
                        assert(old(self).clauses@.len() > 0);
                    }
                },
                None => {
                    proof {
                        lemma_search_propagates(
                            top,
                            *self,
                            run,
                            restart as nat,
                            since_restart as nat,
                        );
                        assert(self.all_waiting()) by {
                            assert forall|v: int|
                                0 <= v < self.vars
                                    && #[trigger] self.assign@[v] is None implies self.order.holds(
                                v,
                            ) by {
                                assert(top.assign@[v] is None);
                            }
                        }
                    }
                    proof {
                        lemma_trail_fits(n, self.assign@, self.trail@, self.when@);
                        lemma_progress_grows(
                            n,
                            top.trail_lim@,
                            top.trail@.len(),
                            self.trail@.len(),
                        );
                        lemma_progress_bounded(n, self.trail_lim@, 0, self.trail@.len());
                    }
                    if since_restart / 100 >= until {
                        proof {
                            lemma_power_is_power(n);
                            lemma_luby_full(span);
                            assert((restart + 1) * span == restart * span + span)
                                by (nonlinear_arith);
                        }
                        let ghost gone_by = since_restart;
                        since_restart = 0;
                        restart = restart + 1;
                        until = luby(restart);
                        proof {
                            if self.trail_lim@.len() > 0 {
                                lemma_settled_earlier(*self, self.trail_lim@[0] as int);
                            }
                        }
                        let ghost full = *self;
                        self.cancel_until(0);
                        let ghost back = *self;
                        let ghost room = max_learnt;
                        if self.learnt_count() > max_learnt {
                            self.reduce();
                            max_learnt = max_learnt.saturating_add(max_learnt / 2);
                        }
                        proof {
                            lemma_search_starts_over(
                                full,
                                back,
                                *self,
                                run,
                                (restart - 1) as nat,
                                gone_by as nat,
                            );
                            lemma_step_starts_over(
                                top,
                                full,
                                back,
                                *self,
                                restart - 1,
                                gone_by as int,
                                room,
                            );
                            sat_machine::lemma_run_goes_on(
                                begun,
                                budget as nat,
                                steps,
                                at,
                                run_of(*self, restart as int, 0, max_learnt),
                            );
                            steps = steps + 1;
                        }
                        continue;
                    }
                    let ghost full = *self;
                    match self.pick() {
                        None => {
                            proof {
                                lemma_search_rests(
                                    full,
                                    *self,
                                    run,
                                    restart as nat,
                                    since_restart as nat,
                                );
                            }
                            let mut model: Vec<bool> = Vec::new();
                            let mut variable: usize = 0;
                            while variable < self.vars
                                invariant
                                    variable <= self.vars == self.assign@.len(),
                                    model@.len() == variable,
                                    forall|v: int|
                                        0 <= v < self.vars ==> #[trigger] self.assign@[v] is Some,
                                    forall|v: int|
                                        0 <= v < variable ==> self.assign@[v] == Some(
                                            #[trigger] model@[v],
                                        ),
                                decreases self.vars - variable,
                            {
                                assert(self.assign@[variable as int] is Some);
                                let chosen: bool = match self.assign[variable] {
                                    Some(b) => b,
                                    None => false,
                                };
                                model.push(chosen);
                                variable = variable + 1;
                            }
                            proof {
                                assert forall|v: int| 0 <= v < self.vars implies #[trigger] self.assign@[v]
                                    == Some(model@[v]) by {
                                    assert(self.assign@[v] == Some(model@[v]));
                                }
                                lemma_model(*self, model@);
                                lemma_step_models(
                                    top,
                                    full,
                                    *self,
                                    model@,
                                    restart as int,
                                    since_restart as int,
                                    max_learnt,
                                );
                                sat_machine::lemma_run_ends(
                                    begun,
                                    budget as nat,
                                    steps,
                                    at,
                                    Verdict::Sat(model@),
                                );
                                lemma_search_shows(
                                    *self,
                                    run,
                                    restart as nat,
                                    since_restart as nat,
                                );
                            }
                            return Outcome::Sat(model);
                        },
                        Some(literal) => {
                            let ghost picked = *self;
                            proof {
                                lemma_deciding_keeps_progress(
                                    n,
                                    picked.trail_lim@,
                                    picked.trail@.len(),
                                );
                            }
                            let mark: usize = self.trail.len();
                            self.trail_lim.push(mark);
                            proof {
                                lemma_level_opened(picked, *self);
                            }
                            let ghost opened = *self;
                            self.enqueue(literal, None);
                            proof {
                                lemma_search_decides(
                                    full,
                                    *self,
                                    run,
                                    restart as nat,
                                    since_restart as nat,
                                );
                                lemma_trail_fits(n, self.assign@, self.trail@, self.when@);
                                lemma_after_learning(opened, *self, literal);
                                lemma_assigned(opened, *self, literal, None);
                                lemma_step_decides(
                                    top,
                                    full,
                                    picked,
                                    opened,
                                    *self,
                                    literal,
                                    restart as int,
                                    since_restart as int,
                                    max_learnt,
                                );
                                sat_machine::lemma_run_goes_on(
                                    begun,
                                    budget as nat,
                                    steps,
                                    at,
                                    run_of(
                                        *self,
                                        restart as int,
                                        since_restart as int,
                                        max_learnt,
                                    ),
                                );
                                steps = steps + 1;
                            }
                        },
                    }
                },
            }
        }
    }
}

/// The search stands where it does after the conflicts of `run`.
#[verifier::opaque]
spec fn search_stands(
    solver: Solver,
    run: Seq<sat_run::Conflict>,
    restarts: nat,
    since: nat,
) -> bool {
    sat_run::stands(
        solver.formula@,
        solver.vars as nat,
        run,
        held(solver),
        solver.trail@,
        solver.trail_lim@,
        restarts,
        since,
    )
}

proof fn lemma_search_begins(solver: Solver)
    requires
        from_formula(solver.clauses@, solver.formula@),
    ensures
        search_stands(solver, Seq::empty(), 0, 0),
{
    reveal(search_stands);
    reveal(from_formula);
    let none = Seq::<sat_run::Conflict>::empty();
    assert forall|c: int| 0 <= c < held(solver).len() implies sat_run::has_source(
        solver.formula@,
        none,
        0,
        #[trigger] held(solver)[c],
    ) by {
        assert(sat_run::made_of(solver.formula@, solver.clauses@[c]@));
    }
}

proof fn lemma_search_shows(
    solver: Solver,
    run: Seq<sat_run::Conflict>,
    restarts: nat,
    since: nat,
)
    requires
        search_stands(solver, run, restarts, since),
    ensures
        sat_run::conflict_run(solver.formula@, solver.vars as nat, run),
{
    reveal(search_stands);
}

/// What the search stands on is not touched.
proof fn lemma_search_rests(
    before: Solver,
    after: Solver,
    run: Seq<sat_run::Conflict>,
    restarts: nat,
    since: nat,
)
    requires
        search_stands(before, run, restarts, since),
        after.formula == before.formula,
        after.vars == before.vars,
        after.clauses == before.clauses,
        after.trail == before.trail,
        after.trail_lim == before.trail_lim,
    ensures
        search_stands(after, run, restarts, since),
{
    reveal(search_stands);
    assert(held(before) =~= held(after));
}

proof fn lemma_search_propagates(
    before: Solver,
    after: Solver,
    run: Seq<sat_run::Conflict>,
    restarts: nat,
    since: nat,
)
    requires
        search_stands(before, run, restarts, since),
        after.extends(&before),
        reordered(before.clauses@, after.clauses@),
    ensures
        search_stands(after, run, restarts, since),
{
    reveal(search_stands);
    reveal(reordered);
    assert forall|c: int| 0 <= c < held(before).len() implies sat_logic::same_literals(
        held(before)[c],
        #[trigger] held(after)[c],
    ) by {
        assert(sat_logic::same_literals(before.clauses@[c]@, after.clauses@[c]@));
    }
    assert(before.trail_lim@ =~= after.trail_lim@.subrange(0, before.trail_lim@.len() as int));
    sat_run::lemma_still_stands(
        before.formula@,
        before.vars as nat,
        run,
        held(before),
        before.trail@,
        before.trail_lim@,
        restarts,
        since,
        held(after),
        after.trail@,
        after.trail_lim@,
    );
}

proof fn lemma_search_decides(
    before: Solver,
    after: Solver,
    run: Seq<sat_run::Conflict>,
    restarts: nat,
    since: nat,
)
    requires
        search_stands(before, run, restarts, since),
        after.formula == before.formula,
        after.vars == before.vars,
        after.clauses == before.clauses,
        before.trail@.is_prefix_of(after.trail@),
        before.trail_lim@.is_prefix_of(after.trail_lim@),
    ensures
        search_stands(after, run, restarts, since),
{
    reveal(search_stands);
    assert forall|c: int| 0 <= c < held(before).len() implies sat_logic::same_literals(
        held(before)[c],
        #[trigger] held(after)[c],
    ) by {
        sat_run::lemma_same_literals_itself(held(before)[c]);
    }
    sat_run::lemma_still_stands(
        before.formula@,
        before.vars as nat,
        run,
        held(before),
        before.trail@,
        before.trail_lim@,
        restarts,
        since,
        held(after),
        after.trail@,
        after.trail_lim@,
    );
}

proof fn lemma_search_starts_over(
    before: Solver,
    middle: Solver,
    after: Solver,
    run: Seq<sat_run::Conflict>,
    restarts: nat,
    since: nat,
)
    requires
        search_stands(before, run, restarts, since),
        since > 0,
        since / 100 >= luby_number(restarts + 1),
        middle.clauses == before.clauses,
        after.formula == before.formula,
        after.vars == before.vars,
        after.clauses == middle.clauses || exists|origins: Seq<int>| keeps(middle, after, origins),
    ensures
        search_stands(after, run, restarts + 1, 0),
{
    reveal(search_stands);
    assert forall|c: int| 0 <= c < held(after).len() implies held(before).contains(
        #[trigger] held(after)[c],
    ) by {
        if after.clauses == middle.clauses {
            assert(held(before)[c] == held(after)[c]);
        } else {
            let origins = choose|origins: Seq<int>| keeps(middle, after, origins);
            assert(after.clauses@[c] == middle.clauses@[origins[c]]);
            assert(held(before)[origins[c]] == held(after)[c]);
        }
    }
    sat_run::lemma_starts_over(
        before.formula@,
        before.vars as nat,
        run,
        held(before),
        before.trail@,
        before.trail_lim@,
        restarts,
        since,
        held(after),
        after.trail@,
        after.trail_lim@,
    );
}

proof fn lemma_search_learns(
    before: Solver,
    after: Solver,
    run: Seq<sat_run::Conflict>,
    met: sat_run::Conflict,
)
    requires
        search_stands(before, run, met.restarts, met.since),
        sat_run::is_conflict(before.formula@, before.vars as nat, met),
        met.held == held(before),
        met.trail == before.trail@,
        met.lim == before.trail_lim@,
        after.formula == before.formula,
        after.vars == before.vars,
        after.trail@ == met.trail.take(met.lim[met.back] as int).push(met.lesson[0]),
        after.trail_lim@ == met.lim.take(met.back),
        held(after) == (if met.lesson.len() >= 2 {
            met.held.push(met.lesson)
        } else {
            met.held
        }),
    ensures
        search_stands(after, run.push(met), met.restarts, met.since + 1),
{
    reveal(search_stands);
    sat_run::lemma_meets(
        before.formula@,
        before.vars as nat,
        run,
        met,
        held(after),
        after.trail@,
        after.trail_lim@,
    );
}

/// A conflict as the solver met it.
pub open spec fn met_conflict(
    solver: Solver,
    clash: int,
    lesson: Seq<i32>,
    back: int,
    restarts: nat,
    since: nat,
) -> sat_run::Conflict {
    sat_run::Conflict {
        held: held(solver),
        trail: solver.trail@,
        lim: solver.trail_lim@,
        clash,
        lesson,
        back,
        restarts,
        since,
    }
}

/// What is false is on the trail, negated, and where it stands tells since when.
proof fn lemma_false_on_trail(solver: Solver, literal: i32)
    requires
        solver.consistent(),
        sat_logic::lit_ok(literal, solver.vars as nat),
        is_false(solver.assign@, literal),
    ensures
        ({
            let at = solver.when@[sat_logic::var_of(literal)];
            &&& 0 <= at < solver.trail@.len()
            &&& solver.trail@[at] == -literal
        }),
{
    let v = sat_logic::var_of(literal);
    assert(solver.assign@[v] is Some);
    let at = solver.when@[v];
    assert(sat_logic::var_of(solver.trail@[at]) == v);
    assert(is_true(solver.assign@, solver.trail@[at]));
}

/// What stands on a part of the trail is true, and was assigned there.
proof fn lemma_true_on_trail(solver: Solver, literal: i32, upto: int)
    requires
        solver.consistent(),
        0 <= upto <= solver.trail@.len(),
        solver.trail@.take(upto).contains(literal),
    ensures
        is_true(solver.assign@, literal),
        solver.when@[sat_logic::var_of(literal)] < upto,
{
    let i = choose|i: int| 0 <= i < upto && solver.trail@.take(upto)[i] == literal;
    assert(solver.trail@[i] == literal);
}

/// A clause that has dealt with the trail up to a decision forces nothing there.
proof fn lemma_at_rest(solver: Solver, c: int, k: int)
    requires
        solver.consistent(),
        0 <= c < solver.clauses@.len(),
        0 <= k < solver.trail_lim@.len(),
        solver.settled_to(solver.level_start()),
    ensures
        sat_run::at_rest(
            solver.clauses@[c]@,
            solver.trail@.take(solver.trail_lim@[k] as int),
        ),
{
    let clause = solver.clauses@[c]@;
    let start = solver.trail_lim@[k] as int;
    let prefix = solver.trail@.take(start);
    let last = solver.trail_lim@.len() - 1;
    if k < last {
        assert(solver.trail_lim@[k] <= solver.trail_lim@[last]);
    }
    assert(clause.len() >= 2 && sat_logic::clause_ok(clause, solver.vars as nat)
        && clause.no_duplicates());
    assert(sat_logic::lit_ok(clause[0], solver.vars as nat));
    assert(sat_logic::lit_ok(clause[1], solver.vars as nat));
    assert(clause_settled(
        clause,
        solver.assign@,
        solver.level@,
        solver.when@,
        solver.level_start(),
    ));
    if !exists|j: int| 0 <= j < clause.len() && prefix.contains(#[trigger] clause[j]) {
        lemma_watch_open(solver, c, k, 0, 1);
        lemma_watch_open(solver, c, k, 1, 0);
        assert(clause[0] != clause[1]);
    }
}

proof fn lemma_watch_open(solver: Solver, c: int, k: int, one: int, other: int)
    requires
        solver.consistent(),
        0 <= c < solver.clauses@.len(),
        0 <= k < solver.trail_lim@.len(),
        (one == 0 && other == 1) || (one == 1 && other == 0),
        solver.trail_lim@[k] <= solver.level_start(),
        watch_settled(
            solver.assign@,
            solver.level@,
            solver.when@,
            solver.level_start(),
            solver.clauses@[c]@[one],
            solver.clauses@[c]@[other],
        ),
        forall|j: int|
            0 <= j < solver.clauses@[c]@.len() ==> !solver.trail@.take(
                solver.trail_lim@[k] as int,
            ).contains(#[trigger] solver.clauses@[c]@[j]),
    ensures
        sat_run::undecided(
            solver.trail@.take(solver.trail_lim@[k] as int),
            solver.clauses@[c]@[one],
        ),
{
    let clause = solver.clauses@[c]@;
    let n = solver.vars as nat;
    let start = solver.trail_lim@[k] as int;
    let prefix = solver.trail@.take(start);
    let watch = clause[one];
    assert(clause.len() >= 2 && sat_logic::clause_ok(clause, n));
    assert(sat_logic::lit_ok(clause[one], n));
    assert(sat_logic::lit_ok(clause[other], n));
    if sat_run::gone(prefix, watch) {
        lemma_true_on_trail(solver, (-watch) as i32, start);
        assert(is_false(solver.assign@, watch));
        let at = solver.when@[sat_logic::var_of(watch)];
        assert(sat_logic::var_of((-watch) as i32) == sat_logic::var_of(watch));
        assert(is_true(solver.assign@, clause[other]));
        lemma_false_on_trail(solver, watch);
        assert(solver.trail_lim@[k] <= at <==> solver.level@[sat_logic::var_of(solver.trail@[at])]
            > k);
        let v = sat_logic::var_of(clause[other]);
        assert(solver.assign@[v] is Some);
        let when = solver.when@[v];
        assert(sat_logic::var_of(solver.trail@[when]) == v);
        assert(is_true(solver.assign@, solver.trail@[when]));
        assert(solver.trail@[when] == clause[other]);
        assert(solver.trail_lim@[k] <= when <==> solver.level@[sat_logic::var_of(
            solver.trail@[when],
        )] > k);
        assert(prefix[when] == clause[other]);
        assert(prefix.contains(clause[other]));
    }
}

/// What the solver meets is a conflict of a search.
#[verifier::spinoff_prover]
proof fn lemma_is_conflict(
    solver: Solver,
    clash: int,
    lesson: Seq<i32>,
    back: int,
    restarts: nat,
    since: nat,
)
    requires
        solver.consistent(),
        rising(solver.trail_lim@, solver.trail@.len() as int),
        solver.settled_to(solver.level_start()),
        0 <= clash < solver.clauses@.len(),
        forall|j: int|
            0 <= j < solver.clauses@[clash]@.len() ==> is_false(
                solver.assign@,
                #[trigger] solver.clauses@[clash]@[j],
            ),
        back >= 0,
        solver.teaches(lesson, back),
        sat_logic::entails(facts(solver), solver.vars as nat, lesson),
    ensures
        sat_run::is_conflict(
            solver.formula@,
            solver.vars as nat,
            met_conflict(solver, clash, lesson, back, restarts, since),
        ),
{
    let n = solver.vars as nat;
    let met = met_conflict(solver, clash, lesson, back, restarts, since);
    let trail = solver.trail@;
    let lim = solver.trail_lim@;
    let last = lim.len() - 1;
    assert(lim[0] < trail.len());
    assert(lim[last] < trail.len());
    assert(lim[back] < trail.len());
    assert forall|i: int| lim[0] <= i < trail.len() implies sat_run::decided(lim, i)
        || #[trigger] sat_run::forced(met.held, trail, i) by {
        match solver.reason@[sat_logic::var_of(trail[i])] {
            Some(r) => {
                assert(reason_ok(
                    solver.clauses@,
                    solver.assign@,
                    solver.when@,
                    r as int,
                    trail[i],
                    i,
                ));
                let clause = solver.clauses@[r as int]@;
                assert(clause.len() >= 2 && sat_logic::clause_ok(clause, n));
                assert(clause[0] == trail[i]);
                assert forall|j: int| 0 <= j < clause.len() && clause[j] != trail[i] implies sat_run::gone(
                    trail.take(i),
                    #[trigger] clause[j],
                ) by {
                    assert(sat_logic::lit_ok(clause[j], n));
                    assert(is_false(solver.assign@, clause[j]));
                    lemma_false_on_trail(solver, clause[j]);
                    let at = solver.when@[sat_logic::var_of(clause[j])];
                    assert(trail.take(i)[at] == -clause[j]);
                }
                assert(sat_run::forces(met.held[r as int], trail, i));
            },
            None => {
                assert(sat_run::decided(lim, i));
            },
        }
    }
    assert forall|k: int| 0 <= k < lim.len() implies sat_run::propagated(
        met.held,
        trail.take(#[trigger] lim[k] as int),
    ) by {
        assert forall|c: int| 0 <= c < met.held.len() implies sat_run::at_rest(
            #[trigger] met.held[c],
            trail.take(lim[k] as int),
        ) by {
            lemma_at_rest(solver, c, k);
        }
    }
    let clause = solver.clauses@[clash]@;
    assert(sat_logic::clause_ok(clause, n));
    assert forall|j: int| 0 <= j < met.held[clash].len() implies sat_run::gone(
        trail,
        #[trigger] met.held[clash][j],
    ) by {
        assert(sat_logic::lit_ok(clause[j], n));
        assert(is_false(solver.assign@, clause[j]));
        lemma_false_on_trail(solver, clause[j]);
        assert(trail[solver.when@[sat_logic::var_of(clause[j])]] == -clause[j]);
    }
    assert(sat_logic::lit_ok(lesson[0], n));
    assert(is_false(solver.assign@, lesson[0]));
    lemma_false_on_trail(solver, lesson[0]);
    let at = solver.when@[sat_logic::var_of(lesson[0])];
    assert(sat_run::gone(trail, lesson[0]));
    assert(lim[last] <= at <==> solver.level@[sat_logic::var_of(trail[at])] > last);
    assert(sat_logic::var_of(trail[at]) == sat_logic::var_of(lesson[0]));
    assert(lim[last] <= at);
    let prefix = trail.take(lim.last() as int);
    if prefix.contains(lesson[0]) {
        lemma_true_on_trail(solver, lesson[0], lim.last() as int);
    }
    if sat_run::gone(prefix, lesson[0]) {
        lemma_true_on_trail(solver, (-lesson[0]) as i32, lim.last() as int);
        assert(sat_logic::var_of((-lesson[0]) as i32) == sat_logic::var_of(lesson[0]));
    }
    assert forall|j: int| 1 <= j < lesson.len() implies sat_run::gone(
        trail.take(lim[back] as int),
        #[trigger] lesson[j],
    ) by {
        assert(sat_logic::lit_ok(lesson[j], n));
        assert(is_false(solver.assign@, lesson[j]));
        lemma_false_on_trail(solver, lesson[j]);
        let when = solver.when@[sat_logic::var_of(lesson[j])];
        assert(sat_logic::var_of(trail[when]) == sat_logic::var_of(lesson[j]));
        assert(lim[back] <= when <==> solver.level@[sat_logic::var_of(trail[when])] > back);
        assert(trail.take(lim[back] as int)[when] == -lesson[j]);
    }
    assert forall|i: int| 0 <= i < lim[0] implies sat_logic::entails(
        solver.formula@,
        n,
        seq![#[trigger] trail[i]],
    ) by {}
}

/// The levels start at different places of a trail, one after the other.
pub open spec fn rising(lim: Seq<usize>, len: int) -> bool {
    &&& forall|i: int, j: int| 0 <= i < j < lim.len() ==> #[trigger] lim[i] < #[trigger] lim[j]
    &&& forall|i: int| 0 <= i < lim.len() ==> (#[trigger] lim[i]) < len
}

/// How much of the search is behind a trail: everything on it that was not decided
/// but follows rules out the other half of what was left there.
pub open spec fn progress(vars: nat, lim: Seq<usize>, len: nat) -> nat
    decreases len,
{
    if len == 0 {
        0
    } else {
        progress(vars, lim, (len - 1) as nat) + (if lim.contains((len - 1) as usize) {
            0
        } else {
            power2::pow2((vars - len) as nat)
        })
    }
}

/// So many conflicts are enough to decide a formula, whatever is forgotten and
/// however often the search starts over.
pub open spec fn enough(vars: nat) -> nat {
    2 * power2::pow2(vars) * power2::pow2(vars)
}

proof fn lemma_progress_grows(vars: nat, lim: Seq<usize>, few: nat, many: nat)
    requires
        few <= many,
    ensures
        progress(vars, lim, few) <= progress(vars, lim, many),
    decreases many,
{
    if few < many {
        lemma_progress_grows(vars, lim, few, (many - 1) as nat);
    }
}

proof fn lemma_progress_bounded(vars: nat, lim: Seq<usize>, from: nat, len: nat)
    requires
        from <= len <= vars,
    ensures
        progress(vars, lim, len) + power2::pow2((vars - len) as nat) <= progress(vars, lim, from) + power2::pow2(
            (vars - from) as nat,
        ),
        power2::pow2((vars - len) as nat) >= 1,
    decreases len,
{
    power2::lemma_pow2_pos((vars - len) as nat);
    if from < len {
        lemma_progress_bounded(vars, lim, from, (len - 1) as nat);
        power2::lemma_pow2_unfold((vars - len + 1) as nat);
    }
}

proof fn lemma_progress_alike(vars: nat, one: Seq<usize>, other: Seq<usize>, len: nat)
    requires
        forall|p: int|
            0 <= p < len ==> #[trigger] one.contains(p as usize) == other.contains(p as usize),
    ensures
        progress(vars, one, len) == progress(vars, other, len),
    decreases len,
{
    if len > 0 {
        lemma_progress_alike(vars, one, other, (len - 1) as nat);
        let p = len - 1;
        assert(one.contains(p as usize) == other.contains(p as usize));
    }
}

/// A conflict takes the search further: what it forces where a decision stood
/// weighs more than everything that came after.
proof fn lemma_learning_progresses(vars: nat, lim: Seq<usize>, len: nat, back: int)
    requires
        rising(lim, len as int),
        0 <= back < lim.len(),
        len <= vars,
        vars <= usize::MAX,
    ensures
        progress(vars, lim, len) < progress(vars, lim.take(back), (lim[back] + 1) as nat),
        rising(lim.take(back), lim[back] + 1),
{
    let kept = lim.take(back);
    let at = lim[back];
    assert forall|i: int, j: int| 0 <= i < j < kept.len() implies #[trigger] kept[i]
        < #[trigger] kept[j] by {
        assert(lim[i] < lim[j]);
    }
    assert forall|i: int| 0 <= i < kept.len() implies (#[trigger] kept[i]) < at by {
        assert(lim[i] < lim[back]);
    }
    assert forall|p: int| 0 <= p < at implies #[trigger] lim.contains(p as usize)
        == kept.contains(p as usize) by {
        if lim.contains(p as usize) {
            let k = choose|k: int| 0 <= k < lim.len() && lim[k] == p as usize;
            if k >= back {
                if back < k {
                    assert(lim[back] < lim[k]);
                }
            }
            assert(kept[k] == p as usize);
        }
        if kept.contains(p as usize) {
            let k = choose|k: int| 0 <= k < kept.len() && kept[k] == p as usize;
            assert(lim[k] == p as usize);
        }
    }
    lemma_progress_alike(vars, lim, kept, at as nat);
    assert(lim.contains(at));
    assert(!kept.contains(at)) by {
        if kept.contains(at) {
            let k = choose|k: int| 0 <= k < kept.len() && kept[k] == at;
            assert(kept[k] < at);
        }
    }
    lemma_progress_bounded(vars, lim, (at + 1) as nat, len);
}

proof fn lemma_deciding_keeps_progress(vars: nat, lim: Seq<usize>, len: nat)
    requires
        rising(lim, len as int),
        len <= usize::MAX,
    ensures
        progress(vars, lim.push(len as usize), (len + 1) as nat) == progress(vars, lim, len),
        rising(lim.push(len as usize), (len + 1) as int),
{
    let more = lim.push(len as usize);
    assert(more[lim.len() as int] == len as usize);
    assert(more.contains(len as usize));
    assert forall|p: int| 0 <= p < len implies #[trigger] more.contains(p as usize)
        == lim.contains(p as usize) by {
        if lim.contains(p as usize) {
            let k = choose|k: int| 0 <= k < lim.len() && lim[k] == p as usize;
            assert(more[k] == p as usize);
        }
        if more.contains(p as usize) {
            let k = choose|k: int| 0 <= k < more.len() && more[k] == p as usize;
            assert(k < lim.len());
            assert(lim[k] == p as usize);
        }
    }
    lemma_progress_alike(vars, more, lim, len);
}

proof fn lemma_power_is_power(exponent: nat)
    ensures
        is_power(power2::pow2(exponent)),
        power2::pow2(exponent) >= 1,
    decreases exponent,
{
    power2::lemma_pow2_pos(exponent);
    if exponent == 0 {
        power2::lemma2_to64();
    } else {
        power2::lemma_pow2_unfold(exponent);
        lemma_power_is_power((exponent - 1) as nat);
        assert(power2::pow2(exponent) / 2 == power2::pow2((exponent - 1) as nat));
    }
}

proof fn lemma_enough(restarts: nat, since: nat, vars: nat)
    requires
        restarts + 2 <= 2 * power2::pow2(vars),
    ensures
        since < power2::pow2(vars) ==> restarts * power2::pow2(vars) + since < enough(vars),
{
    let span = power2::pow2(vars);
    assert(restarts * span + span <= 2 * span * span) by (nonlinear_arith)
        requires
            restarts + 2 <= 2 * span,
    ;
}

/// What is settled up to one point is settled up to any earlier one.
proof fn lemma_settled_earlier(solver: Solver, head: int)
    requires
        solver.settled_to(solver.head as int),
        head <= solver.head,
    ensures
        solver.settled_to(head),
{
    assert forall|d: int| 0 <= d < solver.clauses@.len() implies clause_settled(
        (#[trigger] solver.clauses@[d])@,
        solver.assign@,
        solver.level@,
        solver.when@,
        head,
    ) by {
        assert(clause_settled(
            solver.clauses@[d]@,
            solver.assign@,
            solver.level@,
            solver.when@,
            solver.head as int,
        ));
    }
}

/// One more assigned literal leaves everything settled, and is all that is
/// pending.
proof fn lemma_after_learning(before: Solver, after: Solver, literal: i32)
    requires
        before.consistent(),
        before.head == before.trail@.len(),
        before.settled_to(before.head as int),
        sat_logic::lit_ok(literal, before.vars as nat),
        val(before.assign@, literal) is None,
        forall|v: int|
            0 <= v < before.vars && v != sat_logic::var_of(literal)
                && #[trigger] before.assign@[v] is None ==> before.order.holds(v),
        after.same_store(&before),
        after.clauses == before.clauses,
        after.head == before.head,
        after.trail@ == before.trail@.push(literal),
        after.assign@ == before.assign@.update(sat_logic::var_of(literal), Some(literal > 0)),
        after.level@ == before.level@.update(
            sat_logic::var_of(literal),
            before.trail_lim.len(),
        ),
        after.when@ == before.when@.update(
            sat_logic::var_of(literal),
            before.trail@.len() as int,
        ),
    ensures
        after.settled_to(after.head as int),
        after.pending_current(),
        after.all_waiting(),
        after.head < after.trail@.len(),
{
    assert forall|d: int| 0 <= d < after.clauses@.len() implies clause_settled(
        (#[trigger] after.clauses@[d])@,
        after.assign@,
        after.level@,
        after.when@,
        after.head as int,
    ) by {
        assert(before.clauses@[d]@.len() >= 2);
        lemma_settled_grows(before, after, literal, before.head as int, before.clauses@[d]@);
    }
    assert forall|v: int|
        0 <= v < after.vars && #[trigger] after.assign@[v] is None implies after.order.holds(v) by {
        assert(before.assign@[v] is None);
    }
    assert(after.trail@[before.trail@.len() as int] == literal);
}

} // verus!
