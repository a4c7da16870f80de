//! A tagged formula builder over the decision procedure.
//!
//! Every clause carries the group of constraints it belongs to, so that an
//! unsatisfiable formula can be answered with the groups that conflict rather
//! than with a bare "no".

use crate::compile::sat_logic;
use crate::compile::sat_machine;
use crate::compile::sat_machine::Verdict;
use crate::compile::sat_run;
use crate::compile::sat_solver;
use crate::compile::sat_solver::Solver;
use crate::text;
use std::collections::BTreeSet;
use vstd::prelude::*;

verus! {

broadcast use {vstd::std_specs::btree::group_btree_axioms, vstd::laws_cmp::group_laws_cmp};

/// A literal: `v` for the positive form of variable `v`, `-v` for its
/// negation. Variables are numbered from 1, so `0` is never a literal.
pub type Lit = i32;

/// Which group of the model a clause came from.
pub type Group = usize;

/// What a [`Cnf`] stands for.
#[verifier::ext_equal]
pub struct CnfView {
    pub vars: nat,
    pub groups: Seq<Seq<char>>,
    pub clauses: Seq<(Seq<i32>, usize)>,
}

/// Whether the literals hold both a variable and its negation.
pub open spec fn tautology(literals: Seq<i32>) -> bool {
    exists|i: int, j: int|
        0 <= i < literals.len() && 0 <= j < literals.len() && #[trigger] literals[i]
            == -#[trigger] literals[j]
}

/// `sorted` with `literal` put in its place, unless it is there already.
pub open spec fn placed(sorted: Seq<i32>, literal: i32) -> Seq<i32>
    decreases sorted.len(),
{
    if sorted.len() == 0 || literal > sorted.last() {
        sorted.push(literal)
    } else if literal == sorted.last() {
        sorted
    } else {
        placed(sorted.drop_last(), literal).push(sorted.last())
    }
}

/// The literals in ascending order, each once.
pub open spec fn canonical(literals: Seq<i32>) -> Seq<i32>
    decreases literals.len(),
{
    if literals.len() == 0 {
        seq![]
    } else {
        placed(canonical(literals.drop_last()), literals.last())
    }
}

pub open spec fn ascending(literals: Seq<i32>) -> bool {
    forall|i: int, j: int|
        0 <= i < j < literals.len() ==> #[trigger] literals[i] < #[trigger] literals[j]
}

/// The clauses whose group is in `enabled`.
pub open spec fn selected(clauses: Seq<(Seq<i32>, usize)>, enabled: Set<usize>) -> Seq<Seq<i32>>
    decreases clauses.len(),
{
    if clauses.len() == 0 {
        seq![]
    } else {
        let rest = selected(clauses.drop_last(), enabled);
        if enabled.contains(clauses.last().1) {
            rest.push(clauses.last().0)
        } else {
            rest
        }
    }
}

/// At most one of `literals`, counted by place, is true.
pub open spec fn at_most_one_holds(model: Seq<bool>, literals: Seq<i32>) -> bool {
    forall|i: int, j: int|
        0 <= i < j < literals.len() ==> !(sat_logic::lit_holds(model, #[trigger] literals[i])
            && sat_logic::lit_holds(model, #[trigger] literals[j]))
}

impl CnfView {
    pub open spec fn wf(self) -> bool {
        &&& self.vars <= i32::MAX
        &&& forall|c: int|
            0 <= c < self.clauses.len() ==> sat_logic::clause_ok(
                (#[trigger] self.clauses[c]).0,
                self.vars,
            ) && ascending(self.clauses[c].0)
    }

    /// This with one more clause, unless that clause constrains nothing.
    pub open spec fn with(self, literals: Seq<i32>, group: usize) -> CnfView {
        if tautology(literals) {
            self
        } else {
            CnfView { clauses: self.clauses.push((canonical(literals), group)), ..self }
        }
    }

    /// This with the clauses of `list`, in order.
    pub open spec fn with_all(self, list: Seq<Seq<i32>>, group: usize) -> CnfView
        decreases list.len(),
    {
        if list.len() == 0 {
            self
        } else {
            self.with_all(list.drop_last(), group).with(list.last(), group)
        }
    }

    /// Every group that has been declared.
    pub open spec fn all_groups(self) -> Set<usize> {
        Set::new(|g: usize| g < self.groups.len())
    }

    /// The clauses of the groups in `enabled`.
    pub open spec fn formula(self, enabled: Set<usize>) -> Seq<Seq<i32>> {
        selected(self.clauses, enabled)
    }

    /// Some assignment satisfies the groups in `enabled`.
    pub open spec fn satisfiable(self, enabled: Set<usize>) -> bool {
        !sat_logic::unsatisfiable(self.formula(enabled), self.vars)
    }

    /// This with at most one of `literals` allowed, over fresh auxiliary
    /// variables.
    pub open spec fn with_at_most_one(self, literals: Seq<i32>, group: usize) -> CnfView {
        if literals.len() < 2 {
            self
        } else {
            (CnfView { vars: (self.vars + literals.len() - 1) as nat, ..self }).with_all(
                ladder(literals, self.vars as int + 1, literals.len() as int),
                group,
            )
        }
    }

    /// The verdict of the search for a model of the groups in `enabled`.
    pub open spec fn searched(self, enabled: Set<usize>, budget: u64, verdict: Verdict) -> bool {
        sat_machine::judged(self.vars, self.formula(enabled), budget as nat, verdict)
    }

    /// The search for a model of the groups in `enabled` gives up: it meets as many
    /// conflicts as the budget has, or one where it has none. A clause offers it a
    /// choice then, and the budget is less than is always enough.
    pub open spec fn gives_up(self, enabled: Set<usize>, budget: u64) -> bool {
        &&& self.searched(enabled, budget, Verdict::Unknown)
        &&& self.branches(enabled)
        &&& budget < sat_solver::enough(self.vars)
        &&& exists|run: Seq<sat_run::Conflict>|
            run.len() == (if budget == 0 {
                1
            } else {
                budget as int
            }) && #[trigger] sat_run::conflict_run(self.formula(enabled), self.vars, run)
    }

    /// What an outcome says of the groups in `enabled`: it is the verdict of the
    /// search. A model satisfies them, `Unsat` means nothing does, and `Unknown` comes
    /// only once the search has met the conflicts of the budget.
    pub open spec fn answered(self, enabled: Set<usize>, budget: u64, outcome: Outcome) -> bool {
        &&& self.searched(enabled, budget, sat_solver::verdict_of(outcome))
        &&& match outcome {
            Outcome::Sat(model) => model@.len() == self.vars && sat_logic::formula_holds(
                model@,
                self.formula(enabled),
            ),
            Outcome::Unsat => sat_logic::unsatisfiable(self.formula(enabled), self.vars),
            Outcome::Unknown => self.gives_up(enabled, budget),
        }
    }

    /// What is left of all groups when each of the first `count` has been dropped,
    /// in turn, whose absence leaves the rest unsatisfiable.
    pub open spec fn kept_until(self, count: nat) -> Set<usize>
        decreases count,
    {
        if count == 0 {
            self.all_groups()
        } else {
            let before = self.kept_until((count - 1) as nat);
            let fewer = before.remove((count - 1) as usize);
            if before.contains((count - 1) as usize) && !self.satisfiable(fewer) {
                fewer
            } else {
                before
            }
        }
    }

    proof fn lemma_decided(self, enabled: Set<usize>, budget: u64, verdict: Verdict)
        requires
            self.searched(enabled, budget, verdict),
            verdict !is Unknown,
        ensures
            !self.gives_up(enabled, budget),
    {
        if self.gives_up(enabled, budget) {
            sat_machine::lemma_judged_once(
                self.vars,
                self.formula(enabled),
                budget as nat,
                verdict,
                Verdict::Unknown,
            );
        }
    }

    /// Some clause of the groups in `enabled` offers a choice.
    pub open spec fn branches(self, enabled: Set<usize>) -> bool {
        exists|c: int|
            0 <= c < self.clauses.len() && enabled.contains((#[trigger] self.clauses[c]).1)
                && self.clauses[c].0.len() >= 2
    }
}

/// A clause of the ladder: `step` counts through the chain of implications
/// that carries "one of the literals so far is true" from left to right.
///
/// With `carry` the first auxiliary variable, `carry + i` is true where one of the
/// first `i + 1` literals is. The last is true where the last literal is not, and
/// only there.
pub open spec fn ladder(literals: Seq<i32>, carry: int, upto: int) -> Seq<Seq<i32>>
    decreases upto,
{
    if upto <= 0 {
        seq![]
    } else if upto == 1 {
        seq![seq![(-literals[0]) as i32, carry as i32]]
    } else {
        let index = upto - 1;
        let rest = ladder(literals, carry, upto - 1);
        let raised = if index < literals.len() - 1 {
            rest.push(seq![(-literals[index]) as i32, (carry + index) as i32]).push(
                seq![(-(carry + index - 1)) as i32, (carry + index) as i32],
            )
        } else {
            rest.push(seq![literals[index], (carry + index - 1) as i32])
        };
        raised.push(seq![(-literals[index]) as i32, (-(carry + index - 1)) as i32])
    }
}

/// A formula, plus the name of the constraint group each clause belongs to.
#[derive(Debug, Clone)]
pub struct Cnf {
    vars: usize,
    groups: Vec<String>,
    clauses: Vec<(Vec<Lit>, Group)>,
}

impl View for Cnf {
    type V = CnfView;

    closed spec fn view(&self) -> CnfView {
        CnfView {
            vars: self.vars as nat,
            groups: Seq::new(self.groups@.len(), |i: int| self.groups@[i]@),
            clauses: Seq::new(
                self.clauses@.len(),
                |i: int| (self.clauses@[i].0@, self.clauses@[i].1),
            ),
        }
    }
}

impl Default for Cnf {
    fn default() -> (cnf: Cnf)
        ensures
            cnf@ == (CnfView { vars: 0, groups: seq![], clauses: seq![] }),
    {
        let cnf = Cnf { vars: 0, groups: Vec::new(), clauses: Vec::new() };
        assert(cnf@ =~= (CnfView { vars: 0, groups: seq![], clauses: seq![] }));
        cnf
    }
}

impl Cnf {
    pub fn new() -> (cnf: Cnf)
        ensures
            cnf@ == (CnfView { vars: 0, groups: seq![], clauses: seq![] }),
            cnf@.wf(),
    {
        Cnf::default()
    }

    /// A fresh variable. Numbering starts at 1.
    pub fn var(&mut self) -> (variable: i32)
        requires
            old(self)@.wf(),
            old(self)@.vars < i32::MAX,
        ensures
            final(self)@ == (CnfView { vars: old(self)@.vars + 1, ..old(self)@ }),
            final(self)@.wf(),
            variable == final(self)@.vars,
    {
        self.vars = self.vars + 1;
        proof {
            assert(self@ =~= (CnfView { vars: old(self)@.vars + 1, ..old(self)@ }));
            assert forall|c: int| 0 <= c < self@.clauses.len() implies sat_logic::clause_ok(
                (#[trigger] self@.clauses[c]).0,
                self@.vars,
            ) && ascending(self@.clauses[c].0) by {
                assert(sat_logic::clause_ok(old(self)@.clauses[c].0, old(self)@.vars));
            }
        }
        self.vars as i32
    }

    pub fn vars(&self) -> (count: usize)
        ensures
            count == self@.vars,
    {
        self.vars
    }

    pub fn clause_count(&self) -> (count: usize)
        ensures
            count == self@.clauses.len(),
    {
        self.clauses.len()
    }

    /// Declare a constraint group, returning its handle.
    pub fn group(&mut self, name: &str) -> (group: Group)
        ensures
            final(self)@ == (CnfView {
                groups: old(self)@.groups.push(name@),
                ..old(self)@
            }),
            group == old(self)@.groups.len(),
            old(self)@.wf() ==> final(self)@.wf(),
    {
        let group: usize = self.groups.len();
        self.groups.push(name.to_owned());
        proof {
            assert(self@.groups =~= old(self)@.groups.push(name@));
            assert(self@ =~= (CnfView { groups: old(self)@.groups.push(name@), ..old(self)@ }));
        }
        group
    }

    pub fn group_name(&self, group: Group) -> (name: &str)
        requires
            group < self@.groups.len(),
        ensures
            name@ == self@.groups[group as int],
    {
        self.groups[group].as_str()
    }

    pub fn group_count(&self) -> (count: usize)
        ensures
            count == self@.groups.len(),
    {
        self.groups.len()
    }

    /// Add a clause. Tautologies (`x` and `-x` together) are dropped, because
    /// they constrain nothing and would only make a core look larger than it
    /// is.
    pub fn add(&mut self, literals: &[Lit], group: Group)
        requires
            old(self)@.wf(),
            sat_logic::clause_ok(literals@, old(self)@.vars),
        ensures
            final(self)@ == old(self)@.with(literals@, group),
            final(self)@.wf(),
    {
        let mut seen: Vec<i32> = Vec::new();
        let mut at: usize = 0;
        let ghost n = self@.vars;
        assert(literals@.take(0) == Seq::<i32>::empty());
        while at < literals.len()
            invariant
                *self == *old(self),
                self@.wf(),
                n == self@.vars,
                sat_logic::clause_ok(literals@, n),
                at <= literals@.len(),
                seen@ == canonical(literals@.take(at as int)),
                forall|i: int, j: int|
                    0 <= i < at && 0 <= j < at ==> #[trigger] literals@[i]
                        != -#[trigger] literals@[j],
            decreases literals@.len() - at,
        {
            let literal: i32 = literals[at];
            proof {
                assert(sat_logic::lit_ok(literals@[at as int], n));
                lemma_canonical(literals@.take(at as int));
            }
            if contains_literal(&seen, -literal) {
                proof {
                    let earlier = literals@.take(at as int);
                    assert(earlier.contains((-literal) as i32));
                    let i = choose|i: int| 0 <= i < earlier.len() && earlier[i] == -literal;
                    assert(literals@[i] == -literals@[at as int]);
                }
                return;
            }
            proof {
                let earlier = literals@.take(at as int);
                let next = literals@.take(at + 1);
                assert(next.drop_last() == earlier);
                assert forall|i: int, j: int|
                    0 <= i < at + 1 && 0 <= j < at + 1 implies #[trigger] literals@[i]
                    != -#[trigger] literals@[j] by {
                    if i < at && j == at {
                        assert(earlier[i] == literals@[i]);
                        assert(earlier.contains(literals@[i]));
                    }
                    if i == at && j < at {
                        assert(earlier[j] == literals@[j]);
                        assert(earlier.contains(literals@[j]));
                    }
                }
            }
            place(&mut seen, literal);
            at = at + 1;
        }
        proof {
            assert(literals@.take(at as int) == literals@);
            lemma_canonical(literals@);
        }
        let ghost kept = seen@;
        self.clauses.push((seen, group));
        proof {
            assert(self@.clauses =~= old(self)@.clauses.push((kept, group)));
            assert(self@.groups =~= old(self)@.groups);
            assert(!tautology(literals@));
            assert(self@ =~= old(self)@.with(literals@, group));
            assert forall|c: int| 0 <= c < self@.clauses.len() implies sat_logic::clause_ok(
                (#[trigger] self@.clauses[c]).0,
                self@.vars,
            ) && ascending(self@.clauses[c].0) by {
                if c < old(self)@.clauses.len() {
                    assert(self@.clauses[c] == old(self)@.clauses[c]);
                } else {
                    assert forall|i: int| 0 <= i < kept.len() implies sat_logic::lit_ok(
                        #[trigger] kept[i],
                        n,
                    ) by {
                        assert(kept.contains(kept[i]));
                        assert(literals@.contains(kept[i]));
                        let j = choose|j: int| 0 <= j < literals@.len() && literals@[j] == kept[i];
                        assert(sat_logic::lit_ok(literals@[j], n));
                    }
                }
            }
        }
    }

    /// `left -> right`.
    pub fn implies(&mut self, left: Lit, right: Lit, group: Group)
        requires
            old(self)@.wf(),
            sat_logic::lit_ok(left, old(self)@.vars),
            sat_logic::lit_ok(right, old(self)@.vars),
        ensures
            final(self)@ == old(self)@.with(seq![(-left) as i32, right], group),
            final(self)@.wf(),
    {
        let pair: [i32; 2] = [-left, right];
        assert(pair@ == seq![(-left) as i32, right]);
        self.add(&pair, group);
    }

    /// At most one of `literals` is true, by the sequential (ladder) encoding:
    /// for `n` literals, `n - 1` auxiliary variables and `3(n - 1)` clauses, where
    /// a pairwise encoding takes `n(n - 1)/2`.
    pub fn at_most_one(&mut self, literals: &[Lit], group: Group)
        requires
            old(self)@.wf(),
            sat_logic::clause_ok(literals@, old(self)@.vars),
            literals@.len() < 2 || old(self)@.vars + literals@.len() - 1 <= i32::MAX,
        ensures
            final(self)@ == old(self)@.with_at_most_one(literals@, group),
            final(self)@.wf(),
            literals@.len() >= 2 ==> final(self)@.vars == old(self)@.vars + literals@.len() - 1,
            literals@.len() >= 2 ==> final(self)@.clauses.len() == old(self)@.clauses.len() + 3 * (
            literals@.len() - 1),
    {
        proof {
            lemma_ladder_length(old(self)@, literals@, group);
        }
        if literals.len() < 2 {
            return;
        }
        let ghost n0 = self@.vars;
        let ghost count = literals@.len();
        let base: usize = self.vars;
        let mut added: usize = 0;
        while added < literals.len() - 1
            invariant
                literals@.len() == count >= 2,
                added <= count - 1,
                n0 == old(self)@.vars == base,
                n0 + count - 1 <= i32::MAX,
                self@ == (CnfView { vars: (n0 + added) as nat, ..old(self)@ }),
                self@.wf(),
                sat_logic::clause_ok(literals@, n0),
            decreases count - 1 - added,
        {
            self.var();
            added = added + 1;
        }
        let ghost widened = self@;
        let carry: i32 = base as i32 + 1;
        proof {
            assert forall|i: int| 0 <= i < count implies sat_logic::lit_ok(
                #[trigger] literals@[i],
                widened.vars,
            ) by {
                assert(sat_logic::lit_ok(literals@[i], n0));
            }
        }
        // carry[0] >= literals[0]
        assert(sat_logic::lit_ok(literals@[0], widened.vars));
        let first: [i32; 2] = [-literals[0], carry];
        assert(first@ == seq![(-literals@[0]) as i32, carry]);
        self.add(&first, group);
        proof {
            assert(ladder(literals@, carry as int, 1).drop_last() == Seq::<Seq<i32>>::empty());
            assert(self@ == widened.with_all(ladder(literals@, carry as int, 1), group)) by {
                reveal_with_fuel(CnfView::with_all, 2);
            }
        }
        let mut index: usize = 1;
        while index < literals.len()
            invariant
                literals@.len() == count >= 2,
                1 <= index <= count,
                n0 == base,
                widened.vars == n0 + count - 1,
                n0 + count - 1 <= i32::MAX,
                carry == n0 + 1,
                sat_logic::clause_ok(literals@, widened.vars),
                self@ == widened.with_all(ladder(literals@, carry as int, index as int), group),
                self@.wf(),
                self@.vars == widened.vars,
            decreases count - index,
        {
            assert(sat_logic::lit_ok(literals@[index as int], widened.vars));
            let ghost rest = ladder(literals@, carry as int, index as int);
            let behind: i32 = base as i32 + index as i32;
            let ghost mut list = rest;
            if index < literals.len() - 1 {
                let here: i32 = behind + 1;
                // carry[i] >= literals[i], carry[i] >= carry[i - 1]
                let raise: [i32; 2] = [-literals[index], here];
                assert(raise@ == seq![(-literals@[index as int]) as i32, here]);
                self.add(&raise, group);
                proof {
                    assert(list.push(raise@).drop_last() == list);
                    list = list.push(raise@);
                    assert(self@ == widened.with_all(list, group));
                }
                let hold: [i32; 2] = [-behind, here];
                assert(hold@ == seq![(-behind) as i32, here]);
                self.add(&hold, group);
                proof {
                    assert(list.push(hold@).drop_last() == list);
                    list = list.push(hold@);
                    assert(self@ == widened.with_all(list, group));
                }
            } else {
                // literals[i] or carry[i - 1]
                let either: [i32; 2] = [literals[index], behind];
                assert(either@ == seq![literals@[index as int], behind]);
                self.add(&either, group);
                proof {
                    assert(list.push(either@).drop_last() == list);
                    list = list.push(either@);
                    assert(self@ == widened.with_all(list, group));
                }
            }
            // not (literals[i] and carry[i - 1])
            let forbid: [i32; 2] = [-literals[index], -behind];
            assert(forbid@ == seq![(-literals@[index as int]) as i32, (-behind) as i32]);
            self.add(&forbid, group);
            proof {
                assert(list.push(forbid@).drop_last() == list);
                list = list.push(forbid@);
                assert(self@ == widened.with_all(list, group));
                assert(list =~= ladder(literals@, carry as int, index + 1));
            }
            index = index + 1;
        }
    }

    /// One of `literals` is true, and only one.
    pub fn exactly_one(&mut self, literals: &[Lit], group: Group)
        requires
            old(self)@.wf(),
            sat_logic::clause_ok(literals@, old(self)@.vars),
            literals@.len() < 2 || old(self)@.vars + literals@.len() - 1 <= i32::MAX,
        ensures
            final(self)@ == old(self)@.with(literals@, group).with_at_most_one(literals@, group),
            final(self)@.wf(),
    {
        self.add(literals, group);
        self.at_most_one(literals, group);
    }

    /// Solve with every group enabled.
    pub fn solve(&self, budget: u64) -> (outcome: Outcome)
        requires
            self@.wf(),
        ensures
            self@.answered(self@.all_groups(), budget, outcome),
    {
        let all: BTreeSet<Group> = self.every_group();
        self.solve_groups(&all, budget)
    }

    fn every_group(&self) -> (all: BTreeSet<Group>)
        ensures
            all@ == self@.all_groups(),
    {
        let mut all: BTreeSet<Group> = BTreeSet::new();
        let mut group: usize = 0;
        while group < self.groups.len()
            invariant
                group <= self.groups@.len(),
                all@ == Set::new(|g: usize| g < group),
            decreases self.groups@.len() - group,
        {
            let ghost was = all@;
            all.insert(group);
            group = group + 1;
            assert(all@ =~= Set::new(|g: usize| g < group));
        }
        assert(all@ =~= self@.all_groups());
        all
    }

    /// Solve using only the clauses whose group is in `enabled`.
    pub fn solve_groups(&self, enabled: &BTreeSet<Group>, budget: u64) -> (outcome: Outcome)
        requires
            self@.wf(),
        ensures
            self@.answered(enabled@, budget, outcome),
    {
        let mut solver: Solver = Solver::new(self.vars);
        let mut at: usize = 0;
        let ghost n = self@.vars;
        assert(self@.clauses.take(0) == Seq::<(Seq<i32>, usize)>::empty());
        while at < self.clauses.len()
            invariant
                self@.wf(),
                n == self@.vars,
                at <= self.clauses@.len(),
                solver.grounded(),
                solver.vars == n,
                solver.conflicts == 0,
                solver.formula@ == selected(self@.clauses.take(at as int), enabled@),
                sat_machine::loaded(n, solver.formula@) == (sat_solver::state_of(solver), true),
                solver.clauses@.len() > 0 ==> self@.branches(enabled@),
            decreases self.clauses@.len() - at,
        {
            proof {
                assert(self@.clauses.take(at + 1).drop_last() == self@.clauses.take(at as int));
                assert(self@.clauses[at as int] == (
                    self.clauses@[at as int].0@,
                    self.clauses@[at as int].1,
                ));
            }
            if enabled.contains(&self.clauses[at].1) {
                let ghost known = solver.formula@;
                let standing: bool = solver.add_clause(&self.clauses[at].0);
                assert(solver.formula@.drop_last() =~= known);
                if !standing {
                    proof {
                        lemma_loaded_refuted(self@.clauses, enabled@, n, at + 1);
                        assert forall|m: Seq<bool>|
                            m.len() == n implies !#[trigger] sat_logic::formula_holds(
                            m,
                            self@.formula(enabled@),
                        ) by {
                            if sat_logic::formula_holds(m, self@.formula(enabled@)) {
                                lemma_selected_prefix(self@.clauses, enabled@, at + 1, m);
                            }
                        }
                    }
                    return Outcome::Unsat;
                }
            }
            at = at + 1;
        }
        assert(self@.clauses.take(at as int) == self@.clauses);
        let outcome: Outcome = solver.solve(budget);
        proof {
            let run = choose|run: Seq<sat_run::Conflict>|
                run.len() == solver.conflicts && #[trigger] sat_run::conflict_run(
                    self@.formula(enabled@),
                    n,
                    run,
                );
            assert(sat_run::conflict_run(self@.formula(enabled@), self@.vars, run));
        }
        outcome
    }

    /// A minimal unsatisfiable subset of the *groups*, by deletion.
    ///
    /// Each group is dropped in turn and the rest solved again; a group whose
    /// absence leaves the formula unsatisfiable was not needed and stays out.
    ///
    /// Returns `None` if the full formula is not unsatisfiable, or if a solve
    /// on the way exceeds its budget: an `Unknown` in the middle would make a
    /// core that is not one.
    pub fn minimal_core(&self, budget: u64) -> (found: Option<Vec<Group>>)
        requires
            self@.wf(),
        ensures
            found matches Some(groups) ==> {
                let kept = groups@.to_set();
                &&& forall|i: int, j: int|
                    0 <= i < j < groups@.len() ==> #[trigger] groups@[i] < #[trigger] groups@[j]
                &&& kept == self@.kept_until(self@.groups.len())
                &&& kept.subset_of(self@.all_groups())
                &&& !self@.satisfiable(kept)
                &&& forall|g: usize| #[trigger] kept.contains(g) ==> self@.satisfiable(kept.remove(g))
            },
            self@.satisfiable(self@.all_groups()) ==> found is None,
            found is None <==> {
                ||| self@.satisfiable(self@.all_groups())
                ||| self@.gives_up(self@.all_groups(), budget)
                ||| exists|g: usize|
                    g < self@.groups.len() && #[trigger] self@.kept_until(g as nat).contains(g)
                        && self@.gives_up(self@.kept_until(g as nat).remove(g), budget)
            },
    {
        let mut keep: BTreeSet<Group> = self.every_group();
        let ghost everything = self@.all_groups();
        match self.solve_groups(&keep, budget) {
            Outcome::Unsat => {
                proof {
                    self@.lemma_decided(everything, budget, Verdict::Unsat);
                }
            },
            Outcome::Sat(model) => {
                assert(sat_logic::formula_holds(model@, self@.formula(everything)));
                return None;
            },
            Outcome::Unknown => {
                return None;
            },
        }
        let mut group: usize = 0;
        while group < self.groups.len()
            invariant
                self@.wf(),
                everything == self@.all_groups(),
                group <= self.groups@.len() == self@.groups.len(),
                keep@.subset_of(everything),
                !self@.satisfiable(everything),
                !self@.satisfiable(keep@),
                keep@ == self@.kept_until(group as nat),
                !self@.gives_up(everything, budget),
                forall|g: usize|
                    g < group && #[trigger] self@.kept_until(g as nat).contains(g)
                        ==> !self@.gives_up(self@.kept_until(g as nat).remove(g), budget),
                forall|g: usize|
                    #[trigger] keep@.contains(g) && g < group ==> self@.satisfiable(keep@.remove(g)),
            decreases self.groups@.len() - group,
        {
            if keep.contains(&group) {
                let mut without: BTreeSet<Group> = keep.clone();
                without.remove(&group);
                match self.solve_groups(&without, budget) {
                    Outcome::Unsat => {
                        proof {
                            assert(without@ =~= keep@.remove(group));
                            self@.lemma_decided(without@, budget, Verdict::Unsat);
                            assert forall|g: usize|
                                #[trigger] without@.contains(g) && g < group
                                    + 1 implies self@.satisfiable(without@.remove(g)) by {
                                assert(keep@.contains(g));
                                assert(without@.remove(g).subset_of(keep@.remove(g)));
                                lemma_fewer_groups(self@, keep@.remove(g), without@.remove(g));
                            }
                        }
                        assert(without@ =~= keep@.remove(group));
                        keep = without;
                    },
                    Outcome::Sat(model) => {
                        proof {
                            assert(sat_logic::formula_holds(model@, self@.formula(without@)));
                            assert(without@ == keep@.remove(group));
                            self@.lemma_decided(without@, budget, Verdict::Sat(model@));
                        }
                    },
                    Outcome::Unknown => {
                        proof {
                            assert(without@ =~= keep@.remove(group));
                            assert(self@.kept_until(group as nat).contains(group));
                        }
                        return None;
                    },
                }
            }
            group = group + 1;
        }
        let mut list: Vec<Group> = Vec::new();
        let mut group: usize = 0;
        while group < self.groups.len()
            invariant
                group <= self.groups@.len(),
                forall|i: int| 0 <= i < list@.len() ==> #[trigger] list@[i] < group,
                forall|i: int, j: int|
                    0 <= i < j < list@.len() ==> #[trigger] list@[i] < #[trigger] list@[j],
                forall|g: usize|
                    #[trigger] list@.contains(g) <==> keep@.contains(g) && g < group,
            decreases self.groups@.len() - group,
        {
            if keep.contains(&group) {
                let ghost was = list@;
                list.push(group);
                proof {
                    assert forall|g: usize|
                        #[trigger] list@.contains(g) <==> keep@.contains(g) && g < group + 1 by {
                        if list@.contains(g) {
                            let i = choose|i: int| 0 <= i < list@.len() && list@[i] == g;
                            if i < was.len() {
                                assert(was[i] == g);
                                assert(was.contains(g));
                            }
                        }
                        if keep@.contains(g) && g < group + 1 {
                            if g < group {
                                assert(was.contains(g));
                                let i = choose|i: int| 0 <= i < was.len() && was[i] == g;
                                assert(list@[i] == g);
                            } else {
                                assert(list@[was.len() as int] == g);
                            }
                        }
                    }
                }
            }
            group = group + 1;
        }
        proof {
            assert(list@.to_set() =~= keep@) by {
                assert forall|g: usize| list@.to_set().contains(g) <==> keep@.contains(g) by {
                    assert(list@.contains(g) <==> keep@.contains(g) && g < group);
                    if keep@.contains(g) {
                        assert(everything.contains(g));
                    }
                }
            }
        }
        Some(list)
    }

    /// DIMACS, for feeding an instance to an outside checker by hand.
    pub fn dimacs(&self) -> (text: String)
        ensures
            text@ == dimacs_text(self@),
    {
        let mut text: String = "p cnf ".to_owned();
        text::push_decimal(&mut text, self.vars as u64);
        text.append(" ");
        text::push_decimal(&mut text, self.clauses.len() as u64);
        text.append("\n");
        let mut at: usize = 0;
        let ghost head = text@;
        assert(self@.clauses.take(0) == Seq::<(Seq<i32>, usize)>::empty());
        while at < self.clauses.len()
            invariant
                at <= self.clauses@.len() == self@.clauses.len(),
                text@ == head + dimacs_lines(self@.clauses.take(at as int)),
            decreases self.clauses@.len() - at,
        {
            proof {
                assert(self@.clauses.take(at + 1).drop_last() == self@.clauses.take(at as int));
                assert(self@.clauses[at as int].0 == self.clauses@[at as int].0@);
            }
            let ghost before = text@;
            let mut position: usize = 0;
            let clause: &Vec<i32> = &self.clauses[at].0;
            assert(clause@.take(0) == Seq::<i32>::empty());
            while position < clause.len()
                invariant
                    position <= clause@.len(),
                    text@ == before + dimacs_literals(clause@.take(position as int)),
                decreases clause@.len() - position,
            {
                proof {
                    assert(clause@.take(position + 1).drop_last() == clause@.take(position as int));
                }
                text::push_signed(&mut text, clause[position] as i64);
                text.append(" ");
                position = position + 1;
                assert(text@ == before + dimacs_literals(clause@.take(position as int)));
            }
            assert(clause@.take(position as int) == clause@);
            text.append("0\n");
            at = at + 1;
            assert(text@ == head + dimacs_lines(self@.clauses.take(at as int)));
        }
        assert(self@.clauses.take(at as int) == self@.clauses);
        text
    }
}

/// Whether `literal` is among `literals`.
fn contains_literal(literals: &Vec<i32>, literal: i32) -> (present: bool)
    ensures
        present == literals@.contains(literal),
{
    let mut at: usize = 0;
    while at < literals.len()
        invariant
            at <= literals@.len(),
            forall|i: int| 0 <= i < at ==> literals@[i] != literal,
        decreases literals@.len() - at,
    {
        if literals[at] == literal {
            return true;
        }
        at = at + 1;
    }
    false
}

/// Puts `literal` in its place, unless it is there already.
fn place(sorted: &mut Vec<i32>, literal: i32)
    requires
        ascending(old(sorted)@),
    ensures
        final(sorted)@ == placed(old(sorted)@, literal),
{
    let mut at: usize = sorted.len();
    while at > 0 && sorted[at - 1] > literal
        invariant
            sorted@ == old(sorted)@,
            at <= sorted@.len(),
            forall|i: int| at <= i < sorted@.len() ==> sorted@[i] > literal,
        decreases at,
    {
        at = at - 1;
    }
    proof {
        lemma_placed_at(sorted@, literal, at as int);
    }
    if at > 0 && sorted[at - 1] == literal {
        return;
    }
    sorted.insert(at, literal);
}

/// Where [`placed`] puts a literal.
proof fn lemma_placed_at(sorted: Seq<i32>, literal: i32, at: int)
    requires
        ascending(sorted),
        0 <= at <= sorted.len(),
        forall|i: int| at <= i < sorted.len() ==> sorted[i] > literal,
        at > 0 ==> sorted[at - 1] <= literal,
    ensures
        at > 0 && sorted[at - 1] == literal ==> placed(sorted, literal) == sorted,
        !(at > 0 && sorted[at - 1] == literal) ==> placed(sorted, literal) == sorted.insert(
            at,
            literal,
        ),
    decreases sorted.len(),
{
    if sorted.len() > 0 && at < sorted.len() {
        let shorter = sorted.drop_last();
        lemma_placed_at(shorter, literal, at);
        if at > 0 && sorted[at - 1] == literal {
            assert(placed(sorted, literal) =~= sorted);
        } else {
            assert(placed(sorted, literal) =~= sorted.insert(at, literal));
        }
    } else {
        assert(sorted.insert(at, literal) =~= sorted.push(literal));
    }
}

proof fn lemma_placed(sorted: Seq<i32>, literal: i32)
    requires
        ascending(sorted),
    ensures
        ascending(placed(sorted, literal)),
        forall|x: i32|
            #[trigger] placed(sorted, literal).contains(x) <==> sorted.contains(x) || x == literal,
    decreases sorted.len(),
{
    let result = placed(sorted, literal);
    if sorted.len() == 0 || literal > sorted.last() {
        assert(result == sorted.push(literal));
        assert forall|x: i32| #[trigger] result.contains(x) <==> sorted.contains(x) || x == literal by {
            if result.contains(x) {
                let i = choose|i: int| 0 <= i < result.len() && result[i] == x;
                if i < sorted.len() {
                    assert(sorted[i] == x);
                }
            }
            if sorted.contains(x) {
                let i = choose|i: int| 0 <= i < sorted.len() && sorted[i] == x;
                assert(result[i] == x);
            }
            if x == literal {
                assert(result[sorted.len() as int] == x);
            }
        }
    } else if literal == sorted.last() {
        assert(sorted[sorted.len() - 1] == literal);
    } else {
        let shorter = sorted.drop_last();
        let below = placed(shorter, literal);
        lemma_placed(shorter, literal);
        assert(result == below.push(sorted.last()));
        assert forall|x: i32| #[trigger] result.contains(x) <==> sorted.contains(x) || x == literal by {
            assert(below.contains(x) <==> shorter.contains(x) || x == literal);
            if result.contains(x) {
                let i = choose|i: int| 0 <= i < result.len() && result[i] == x;
                if i < below.len() {
                    assert(below[i] == x);
                    if shorter.contains(x) {
                        let j = choose|j: int| 0 <= j < shorter.len() && shorter[j] == x;
                        assert(sorted[j] == x);
                    }
                } else {
                    assert(sorted[sorted.len() - 1] == x);
                }
            }
            if sorted.contains(x) {
                let i = choose|i: int| 0 <= i < sorted.len() && sorted[i] == x;
                if i < shorter.len() {
                    assert(shorter[i] == x);
                    let j = choose|j: int| 0 <= j < below.len() && below[j] == x;
                    assert(result[j] == x);
                } else {
                    assert(result[below.len() as int] == x);
                }
            }
            if x == literal {
                let j = choose|j: int| 0 <= j < below.len() && below[j] == x;
                assert(result[j] == x);
            }
        }
        assert forall|i: int, j: int| 0 <= i < j < result.len() implies #[trigger] result[i]
            < #[trigger] result[j] by {
            if j == below.len() {
                let x = below[i];
                assert(below.contains(x));
                if shorter.contains(x) {
                    let k = choose|k: int| 0 <= k < shorter.len() && shorter[k] == x;
                    assert(sorted[k] < sorted[sorted.len() - 1]);
                }
            }
        }
    }
}

/// The canonical form of a clause is in ascending order and has its literals.
pub proof fn lemma_canonical(literals: Seq<i32>)
    ensures
        ascending(canonical(literals)),
        forall|x: i32| #[trigger] canonical(literals).contains(x) <==> literals.contains(x),
    decreases literals.len(),
{
    if literals.len() > 0 {
        let shorter = literals.drop_last();
        lemma_canonical(shorter);
        lemma_placed(canonical(shorter), literals.last());
        assert forall|x: i32| #[trigger] canonical(literals).contains(x) <==> literals.contains(x) by {
            if literals.contains(x) {
                let i = choose|i: int| 0 <= i < literals.len() && literals[i] == x;
                if i < shorter.len() {
                    assert(shorter[i] == x);
                }
            }
            if shorter.contains(x) {
                let i = choose|i: int| 0 <= i < shorter.len() && shorter[i] == x;
                assert(literals[i] == x);
            }
            if x == literals.last() {
                assert(literals[literals.len() - 1] == x);
            }
        }
    }
}

/// What a solve concluded. **`Unknown` is not `Unsat`**: a search that ran out
/// of budget has shown nothing.
#[derive(Debug, Clone, PartialEq, Eq)]
pub enum Outcome {
    Sat(Vec<bool>),
    Unsat,
    Unknown,
}

impl Outcome {
    pub fn model(&self) -> (found: Option<&[bool]>)
        ensures
            match *self {
                Outcome::Sat(model) => found matches Some(slice) && slice@ == model@,
                _ => found is None,
            },
    {
        match self {
            Outcome::Sat(model) => Some(model.as_slice()),
            _ => None,
        }
    }
}

/// Read a variable's value out of a model. Variables are 1-based; the model is
/// 0-based.
pub fn value(model: &[bool], variable: i32) -> (set: bool)
    requires
        1 <= variable <= model@.len(),
    ensures
        set == model@[variable - 1],
{
    model[variable as usize - 1]
}

/// The literals of a clause, each followed by a space.
pub open spec fn dimacs_literals(clause: Seq<i32>) -> Seq<char>
    decreases clause.len(),
{
    if clause.len() == 0 {
        seq![]
    } else {
        dimacs_literals(clause.drop_last()) + text::signed_decimal(clause.last() as int) + " "@
    }
}

/// One line for each clause, ended by a zero.
pub open spec fn dimacs_lines(clauses: Seq<(Seq<i32>, usize)>) -> Seq<char>
    decreases clauses.len(),
{
    if clauses.len() == 0 {
        seq![]
    } else {
        dimacs_lines(clauses.drop_last()) + dimacs_literals(clauses.last().0) + "0\n"@
    }
}

/// The whole file: a header with both counts, then the clauses.
pub open spec fn dimacs_text(cnf: CnfView) -> Seq<char> {
    "p cnf "@ + text::decimal(cnf.vars) + " "@ + text::decimal(cnf.clauses.len()) + "\n"@
        + dimacs_lines(cnf.clauses)
}

/// What satisfies all the selected clauses satisfies those of a prefix.
proof fn lemma_selected_prefix(
    clauses: Seq<(Seq<i32>, usize)>,
    enabled: Set<usize>,
    upto: int,
    model: Seq<bool>,
)
    requires
        0 <= upto <= clauses.len(),
        sat_logic::formula_holds(model, selected(clauses, enabled)),
    ensures
        sat_logic::formula_holds(model, selected(clauses.take(upto), enabled)),
    decreases clauses.len(),
{
    if upto < clauses.len() {
        let shorter = clauses.drop_last();
        let part = selected(shorter, enabled);
        assert forall|i: int| 0 <= i < part.len() implies sat_logic::clause_holds(
            model,
            #[trigger] part[i],
        ) by {
            assert(selected(clauses, enabled)[i] == part[i]);
        }
        lemma_selected_prefix(shorter, enabled, upto, model);
        assert(shorter.take(upto) == clauses.take(upto));
    } else {
        assert(clauses.take(upto) == clauses);
    }
}

proof fn lemma_loaded_refuted(
    clauses: Seq<(Seq<i32>, usize)>,
    enabled: Set<usize>,
    vars: nat,
    upto: int,
)
    requires
        0 <= upto <= clauses.len(),
        !sat_machine::loaded(vars, selected(clauses.take(upto), enabled)).1,
    ensures
        !sat_machine::loaded(vars, selected(clauses, enabled)).1,
    decreases clauses.len(),
{
    if upto < clauses.len() {
        let shorter = clauses.drop_last();
        assert(shorter.take(upto) == clauses.take(upto));
        lemma_loaded_refuted(shorter, enabled, vars, upto);
        if enabled.contains(clauses.last().1) {
            assert(selected(clauses, enabled).drop_last() =~= selected(shorter, enabled));
        }
    } else {
        assert(clauses.take(upto) == clauses);
    }
}

/// Solving is settled by the clauses of the groups solved, in their order, and the
/// budget: two solves that agree on these have the same outcome, the model included.
pub proof fn lemma_solving_is_settled(
    cnf: CnfView,
    enabled: Set<usize>,
    other: CnfView,
    others: Set<usize>,
    budget: u64,
    first: Outcome,
    second: Outcome,
)
    requires
        cnf.vars == other.vars,
        cnf.formula(enabled) == other.formula(others),
        cnf.answered(enabled, budget, first),
        other.answered(others, budget, second),
    ensures
        sat_solver::verdict_of(first) == sat_solver::verdict_of(second),
{
    sat_machine::lemma_judged_once(
        cnf.vars,
        cnf.formula(enabled),
        budget as nat,
        sat_solver::verdict_of(first),
        sat_solver::verdict_of(second),
    );
}

/// A decided answer is stable: what a solve decides, every solve of the same groups
/// with a larger budget decides in the same way, the model included.
pub proof fn lemma_decided_answer_is_stable(
    cnf: CnfView,
    enabled: Set<usize>,
    budget: u64,
    larger: u64,
    first: Outcome,
    second: Outcome,
)
    requires
        budget <= larger,
        cnf.answered(enabled, budget, first),
        first !is Unknown,
        cnf.answered(enabled, larger, second),
    ensures
        sat_solver::verdict_of(first) == sat_solver::verdict_of(second),
{
    sat_machine::lemma_judged_for_good(
        cnf.vars,
        cnf.formula(enabled),
        budget as nat,
        larger as nat,
        sat_solver::verdict_of(first),
    );
    sat_machine::lemma_judged_once(
        cnf.vars,
        cnf.formula(enabled),
        larger as nat,
        sat_solver::verdict_of(first),
        sat_solver::verdict_of(second),
    );
}

/// Whether `clause` is a clause of an enabled group.
spec fn from_enabled(
    clauses: Seq<(Seq<i32>, usize)>,
    enabled: Set<usize>,
    clause: Seq<i32>,
) -> bool {
    exists|c: int|
        0 <= c < clauses.len() && enabled.contains((#[trigger] clauses[c]).1) && clauses[c].0
            == clause
}

/// Every selected clause is a clause of an enabled group, and the other way
/// round.
proof fn lemma_selected_members(clauses: Seq<(Seq<i32>, usize)>, enabled: Set<usize>)
    ensures
        forall|i: int|
            0 <= i < selected(clauses, enabled).len() ==> from_enabled(
                clauses,
                enabled,
                #[trigger] selected(clauses, enabled)[i],
            ),
        forall|c: int|
            0 <= c < clauses.len() && enabled.contains((#[trigger] clauses[c]).1) ==> selected(
                clauses,
                enabled,
            ).contains(clauses[c].0),
    decreases clauses.len(),
{
    if clauses.len() > 0 {
        let shorter = clauses.drop_last();
        let part = selected(shorter, enabled);
        let whole = selected(clauses, enabled);
        lemma_selected_members(shorter, enabled);
        assert forall|i: int| 0 <= i < whole.len() implies from_enabled(
            clauses,
            enabled,
            #[trigger] whole[i],
        ) by {
            if i < part.len() {
                assert(whole[i] == part[i]);
                assert(from_enabled(shorter, enabled, part[i]));
                let c = choose|c: int|
                    0 <= c < shorter.len() && enabled.contains((#[trigger] shorter[c]).1)
                        && shorter[c].0 == part[i];
                assert(clauses[c] == shorter[c]);
            } else {
                assert(clauses[clauses.len() - 1].0 == whole[i]);
            }
        }
        assert forall|c: int|
            0 <= c < clauses.len() && enabled.contains(
                (#[trigger] clauses[c]).1,
            ) implies whole.contains(clauses[c].0) by {
            if c < shorter.len() {
                assert(shorter[c] == clauses[c]);
                assert(part.contains(shorter[c].0));
                let i = choose|i: int| 0 <= i < part.len() && part[i] == clauses[c].0;
                assert(whole[i] == clauses[c].0);
            } else {
                assert(whole[part.len() as int] == clauses[c].0);
            }
        }
    }
}

/// Fewer groups are no harder to satisfy.
pub proof fn lemma_fewer_groups(cnf: CnfView, more: Set<usize>, fewer: Set<usize>)
    requires
        fewer.subset_of(more),
        cnf.satisfiable(more),
    ensures
        cnf.satisfiable(fewer),
{
    let model = choose|model: Seq<bool>|
        model.len() == cnf.vars && #[trigger] sat_logic::formula_holds(model, cnf.formula(more));
    lemma_selected_members(cnf.clauses, more);
    lemma_selected_members(cnf.clauses, fewer);
    let few = cnf.formula(fewer);
    let many = cnf.formula(more);
    assert forall|i: int| 0 <= i < few.len() implies sat_logic::clause_holds(
        model,
        #[trigger] few[i],
    ) by {
        assert(from_enabled(cnf.clauses, fewer, few[i]));
        let c = choose|c: int|
            0 <= c < cnf.clauses.len() && fewer.contains((#[trigger] cnf.clauses[c]).1)
                && cnf.clauses[c].0 == few[i];
        assert(more.contains(cnf.clauses[c].1));
        assert(many.contains(cnf.clauses[c].0));
        let j = choose|j: int| 0 <= j < many.len() && many[j] == cnf.clauses[c].0;
        assert(sat_logic::clause_holds(model, many[j]));
    }
    assert(sat_logic::formula_holds(model, few));
}

/// A clause means the same in canonical form.
proof fn lemma_canonical_meaning(literals: Seq<i32>, model: Seq<bool>)
    ensures
        sat_logic::clause_holds(model, canonical(literals)) <==> sat_logic::clause_holds(
            model,
            literals,
        ),
{
    lemma_canonical(literals);
    let kept = canonical(literals);
    assert forall|i: int| 0 <= i < kept.len() implies literals.contains(#[trigger] kept[i]) by {
        assert(kept.contains(kept[i]));
    }
    assert forall|i: int| 0 <= i < literals.len() implies kept.contains(#[trigger] literals[i]) by {
        assert(literals.contains(literals[i]));
    }
    if sat_logic::clause_holds(model, kept) {
        sat_logic::lemma_within_holds(model, kept, literals);
    }
    if sat_logic::clause_holds(model, literals) {
        sat_logic::lemma_within_holds(model, literals, kept);
    }
}

/// Adding a clause to an enabled group demands that clause and nothing else:
/// sorting it, dropping repeats and leaving tautologies out change no model.
pub proof fn lemma_clause_meaning(
    cnf: CnfView,
    literals: Seq<i32>,
    group: usize,
    enabled: Set<usize>,
    model: Seq<bool>,
)
    requires
        sat_logic::clause_ok(literals, cnf.vars),
        enabled.contains(group),
    ensures
        sat_logic::formula_holds(model, cnf.with(literals, group).formula(enabled)) <==> (
        sat_logic::formula_holds(model, cnf.formula(enabled)) && sat_logic::clause_holds(
            model,
            literals,
        )),
{
    if tautology(literals) {
        let (i, j) = choose|i: int, j: int|
            0 <= i < literals.len() && 0 <= j < literals.len() && #[trigger] literals[i]
                == -#[trigger] literals[j];
        assert(sat_logic::lit_ok(literals[i], cnf.vars));
        assert(sat_logic::lit_holds(model, literals[i]) || sat_logic::lit_holds(
            model,
            literals[j],
        ));
    } else {
        lemma_canonical_meaning(literals, model);
        let older = cnf.formula(enabled);
        let newer = cnf.with(literals, group).formula(enabled);
        let pushed = cnf.clauses.push((canonical(literals), group));
        assert(pushed.drop_last() == cnf.clauses);
        assert(newer == older.push(canonical(literals)));
        if sat_logic::formula_holds(model, newer) {
            assert(sat_logic::clause_holds(model, newer[older.len() as int]));
            assert forall|i: int| 0 <= i < older.len() implies sat_logic::clause_holds(
                model,
                #[trigger] older[i],
            ) by {
                assert(newer[i] == older[i]);
            }
        }
    }
}

/// Adding several clauses to an enabled group demands all of them and nothing
/// else.
pub proof fn lemma_clauses_meaning(
    cnf: CnfView,
    list: Seq<Seq<i32>>,
    group: usize,
    enabled: Set<usize>,
    model: Seq<bool>,
)
    requires
        sat_logic::formula_ok(list, cnf.vars),
        enabled.contains(group),
    ensures
        cnf.with_all(list, group).vars == cnf.vars,
        sat_logic::formula_holds(model, cnf.with_all(list, group).formula(enabled)) <==> (
        sat_logic::formula_holds(model, cnf.formula(enabled)) && sat_logic::formula_holds(
            model,
            list,
        )),
    decreases list.len(),
{
    if list.len() > 0 {
        let shorter = list.drop_last();
        assert forall|i: int| 0 <= i < shorter.len() implies sat_logic::clause_ok(
            #[trigger] shorter[i],
            cnf.vars,
        ) by {
            assert(sat_logic::clause_ok(list[i], cnf.vars));
        }
        lemma_clauses_meaning(cnf, shorter, group, enabled, model);
        assert(sat_logic::clause_ok(list[list.len() - 1], cnf.vars));
        lemma_clause_meaning(
            cnf.with_all(shorter, group),
            list.last(),
            group,
            enabled,
            model,
        );
        if sat_logic::formula_holds(model, list) {
            assert forall|i: int| 0 <= i < shorter.len() implies sat_logic::clause_holds(
                model,
                #[trigger] shorter[i],
            ) by {
                assert(list[i] == shorter[i]);
            }
            assert(sat_logic::clause_holds(model, list[list.len() - 1]));
        }
        if sat_logic::formula_holds(model, shorter) && sat_logic::clause_holds(
            model,
            list.last(),
        ) {
            assert forall|i: int| 0 <= i < list.len() implies sat_logic::clause_holds(
                model,
                #[trigger] list[i],
            ) by {
                if i < shorter.len() {
                    assert(list[i] == shorter[i]);
                }
            }
        }
    }
}

/// One of the literals up to one of them is true.
pub open spec fn one_so_far(model: Seq<bool>, literals: Seq<i32>, upto: int) -> bool {
    exists|j: int| 0 <= j <= upto && j < literals.len() && sat_logic::lit_holds(
        model,
        #[trigger] literals[j],
    )
}

/// The values that make the ladder true, one for each auxiliary variable.
spec fn carried(model: Seq<bool>, literals: Seq<i32>, i: int) -> bool {
    if i == literals.len() - 2 {
        !sat_logic::lit_holds(model, literals[i + 1])
    } else {
        one_so_far(model, literals, i)
    }
}

spec fn pair_holds(model: Seq<bool>, left: i32, right: i32) -> bool {
    sat_logic::lit_holds(model, left) || sat_logic::lit_holds(model, right)
}

proof fn lemma_pair(model: Seq<bool>, left: i32, right: i32)
    ensures
        sat_logic::clause_holds(model, seq![left, right]) <==> pair_holds(model, left, right),
{
    let clause = seq![left, right];
    if sat_logic::lit_holds(model, left) {
        assert(sat_logic::lit_holds(model, clause[0]));
    }
    if sat_logic::lit_holds(model, right) {
        assert(sat_logic::lit_holds(model, clause[1]));
    }
}

/// The ladder up to `upto` demands exactly its pairs.
spec fn rungs_hold(model: Seq<bool>, literals: Seq<i32>, carry: int, upto: int) -> bool {
    &&& upto > 0 ==> pair_holds(model, (-literals[0]) as i32, carry as i32)
    &&& forall|i: int| 1 <= i < upto ==> #[trigger] rung_holds(model, literals, carry, i)
}

spec fn rung_holds(model: Seq<bool>, literals: Seq<i32>, carry: int, i: int) -> bool {
    &&& pair_holds(model, (-literals[i]) as i32, (-(carry + i - 1)) as i32)
    &&& i < literals.len() - 1 ==> pair_holds(model, (-literals[i]) as i32, (carry + i) as i32)
        && pair_holds(model, (-(carry + i - 1)) as i32, (carry + i) as i32)
    &&& i == literals.len() - 1 ==> pair_holds(model, literals[i], (carry + i - 1) as i32)
}

proof fn lemma_rungs(model: Seq<bool>, literals: Seq<i32>, carry: int, upto: int)
    requires
        0 <= upto <= literals.len(),
    ensures
        sat_logic::formula_holds(model, ladder(literals, carry, upto)) <==> rungs_hold(
            model,
            literals,
            carry,
            upto,
        ),
    decreases upto,
{
    if upto == 1 {
        let list = ladder(literals, carry, 1);
        lemma_pair(model, (-literals[0]) as i32, carry as i32);
        assert(list.len() == 1);
        assert(list[0] == seq![(-literals[0]) as i32, carry as i32]);
    } else if upto > 1 {
        let index = upto - 1;
        let rest = ladder(literals, carry, index);
        let list = ladder(literals, carry, upto);
        lemma_rungs(model, literals, carry, index);
        let raise = seq![(-literals[index]) as i32, (carry + index) as i32];
        let hold = seq![(-(carry + index - 1)) as i32, (carry + index) as i32];
        let forbid = seq![(-literals[index]) as i32, (-(carry + index - 1)) as i32];
        lemma_pair(model, raise[0], raise[1]);
        lemma_pair(model, hold[0], hold[1]);
        let either = seq![literals[index], (carry + index - 1) as i32];
        lemma_pair(model, forbid[0], forbid[1]);
        lemma_pair(model, either[0], either[1]);
        let full = index < literals.len() - 1;
        let tail = if full {
            seq![raise, hold, forbid]
        } else {
            seq![either, forbid]
        };
        assert(list =~= rest + tail);
        if sat_logic::formula_holds(model, list) {
            assert forall|i: int| 0 <= i < rest.len() implies sat_logic::clause_holds(
                model,
                #[trigger] rest[i],
            ) by {
                assert(list[i] == rest[i]);
            }
            assert(list[list.len() - 1] == forbid);
            assert(sat_logic::clause_holds(model, list[list.len() - 1]));
            if full {
                assert(list[rest.len() as int] == raise);
                assert(list[rest.len() as int + 1] == hold);
                assert(sat_logic::clause_holds(model, list[rest.len() as int]));
                assert(sat_logic::clause_holds(model, list[rest.len() as int + 1]));
            } else {
                assert(list[rest.len() as int] == either);
                assert(sat_logic::clause_holds(model, list[rest.len() as int]));
            }
            assert(rungs_hold(model, literals, carry, index));
            assert forall|i: int| 1 <= i < upto implies #[trigger] rung_holds(model, literals, carry, i) by {
                if i < index {
                    assert(rung_holds(model, literals, carry, i));
                }
            }
        }
        if rungs_hold(model, literals, carry, upto) {
            assert(rung_holds(model, literals, carry, index));
            assert(rungs_hold(model, literals, carry, index)) by {
                assert forall|i: int| 1 <= i < index implies #[trigger] rung_holds(model, literals, carry, i) by {
                    assert(rung_holds(model, literals, carry, i));
                }
            }
            assert forall|i: int| 0 <= i < list.len() implies sat_logic::clause_holds(
                model,
                #[trigger] list[i],
            ) by {
                if i < rest.len() {
                    assert(list[i] == rest[i]);
                } else {
                    assert(list[i] == tail[i - rest.len()]);
                }
            }
        }
    }
}

/// A true literal raises every later carry.
proof fn lemma_carried(model: Seq<bool>, literals: Seq<i32>, carry: int, j: int, i: int)
    requires
        rungs_hold(model, literals, carry, literals.len() as int),
        0 <= j <= i < literals.len() - 1,
        sat_logic::lit_holds(model, literals[j]),
        1 <= carry,
        carry + literals.len() <= i32::MAX + 2,
        forall|k: int|
            0 <= k < literals.len() ==> (#[trigger] literals[k]) != 0 && literals[k] > i32::MIN,
    ensures
        sat_logic::lit_holds(model, (carry + i) as i32),
    decreases i,
{
    assert(literals[i] != 0);
    assert(literals[j] != 0);
    if i > j {
        lemma_carried(model, literals, carry, j, i - 1);
        assert(rung_holds(model, literals, carry, i));
    } else if i > 0 {
        assert(rung_holds(model, literals, carry, i));
    }
}

/// The ladder forbids two true literals and permits one or none: a model of
/// the old variables extends to one of the ladder exactly when at most one of
/// the literals is true in it.
pub proof fn lemma_at_most_one_exact(vars: nat, literals: Seq<i32>, model: Seq<bool>)
    requires
        literals.len() >= 2,
        sat_logic::clause_ok(literals, vars),
        vars + literals.len() - 1 <= i32::MAX,
        model.len() == vars,
    ensures
        at_most_one_holds(model, literals) <==> exists|wider: Seq<bool>|
            wider.len() == vars + literals.len() - 1 && wider.take(vars as int) == model
                && #[trigger] sat_logic::formula_holds(
                wider,
                ladder(literals, vars as int + 1, literals.len() as int),
            ),
{
    let carry = vars as int + 1;
    let count = literals.len() as int;
    assert forall|k: int| 0 <= k < count implies (#[trigger] literals[k]) != 0 && literals[k]
        > i32::MIN && 0 <= sat_logic::var_of(literals[k]) < vars by {
        assert(sat_logic::lit_ok(literals[k], vars));
    }
    if at_most_one_holds(model, literals) {
        let wider = Seq::new(
            (vars + count - 1) as nat,
            |v: int|
                if v < vars {
                    model[v]
                } else {
                    carried(model, literals, v - vars)
                },
        );
        assert(wider.take(vars as int) =~= model);
        assert forall|k: int| 0 <= k < count implies (sat_logic::lit_holds(
            wider,
            #[trigger] literals[k],
        ) <==> sat_logic::lit_holds(model, literals[k])) && (sat_logic::lit_holds(
            wider,
            (-literals[k]) as i32,
        ) <==> !sat_logic::lit_holds(model, literals[k])) by {
            assert(wider[sat_logic::var_of(literals[k])] == model[sat_logic::var_of(literals[k])]);
        }
        assert forall|i: int| 0 <= i < count - 1 implies (sat_logic::lit_holds(
            wider,
            #[trigger] ((carry + i) as i32),
        ) <==> carried(model, literals, i)) by {
            assert(wider[vars + i] == carried(model, literals, i));
        }
        assert forall|i: int| 0 <= i < count - 1 && one_so_far(
            model,
            literals,
            i,
        ) implies #[trigger] carried(model, literals, i) by {
            if i == count - 2 {
                let j = choose|j: int|
                    0 <= j <= i && j < literals.len() && sat_logic::lit_holds(
                        model,
                        #[trigger] literals[j],
                    );
                assert(!(sat_logic::lit_holds(model, literals[j]) && sat_logic::lit_holds(
                    model,
                    literals[i + 1],
                )));
            }
        }
        assert(rungs_hold(wider, literals, carry, count)) by {
            assert(literals[0] != 0);
            assert(sat_logic::lit_holds(wider, (carry + 0) as i32) <==> carried(
                model,
                literals,
                0,
            ));
            if sat_logic::lit_holds(model, literals[0]) {
                assert(one_so_far(model, literals, 0));
            }
            assert(pair_holds(wider, (-literals[0]) as i32, carry as i32));
            assert forall|i: int| 1 <= i < count implies #[trigger] rung_holds(wider, literals, carry, i) by {
                let c = (carry + (i - 1)) as i32;
                assert(sat_logic::lit_holds(wider, c) <==> carried(model, literals, i - 1));
                assert(literals[i] != 0);
                assert(sat_logic::lit_holds(wider, (-(carry + i - 1)) as i32)
                    <==> !sat_logic::lit_holds(wider, c));
                if sat_logic::lit_holds(model, literals[i]) && one_so_far(model, literals, i - 1) {
                    let j = choose|j: int|
                        0 <= j <= i - 1 && j < literals.len() && sat_logic::lit_holds(
                            model,
                            #[trigger] literals[j],
                        );
                    assert(!(sat_logic::lit_holds(model, literals[j]) && sat_logic::lit_holds(
                        model,
                        literals[i],
                    )));
                }
                if i < count - 1 {
                    let d = (carry + i) as i32;
                    assert(sat_logic::lit_holds(wider, d) <==> carried(model, literals, i));
                    if sat_logic::lit_holds(model, literals[i]) {
                        assert(one_so_far(model, literals, i));
                    }
                    if one_so_far(model, literals, i - 1) {
                        let j = choose|j: int|
                            0 <= j <= i - 1 && j < literals.len() && sat_logic::lit_holds(
                                model,
                                #[trigger] literals[j],
                            );
                        assert(0 <= j <= i && sat_logic::lit_holds(model, literals[j]));
                        assert(one_so_far(model, literals, i));
                    }
                }
            }
        }
        lemma_rungs(wider, literals, carry, count);
        assert(sat_logic::formula_holds(wider, ladder(literals, carry, count)));
    }
    if exists|wider: Seq<bool>|
        wider.len() == vars + literals.len() - 1 && wider.take(vars as int) == model
            && #[trigger] sat_logic::formula_holds(wider, ladder(literals, carry, count)) {
        let wider = choose|wider: Seq<bool>|
            wider.len() == vars + literals.len() - 1 && wider.take(vars as int) == model
                && #[trigger] sat_logic::formula_holds(wider, ladder(literals, carry, count));
        lemma_rungs(wider, literals, carry, count);
        assert forall|i: int, j: int| 0 <= i < j < literals.len() implies !(sat_logic::lit_holds(
            model,
            #[trigger] literals[i],
        ) && sat_logic::lit_holds(model, #[trigger] literals[j])) by {
            assert(wider.take(vars as int)[sat_logic::var_of(literals[i])]
                == wider[sat_logic::var_of(literals[i])]);
            assert(wider.take(vars as int)[sat_logic::var_of(literals[j])]
                == wider[sat_logic::var_of(literals[j])]);
            if sat_logic::lit_holds(model, literals[i]) && sat_logic::lit_holds(
                model,
                literals[j],
            ) {
                lemma_carried(wider, literals, carry, i, j - 1);
                assert(rung_holds(wider, literals, carry, j));
            }
        }
    }
}

proof fn lemma_ladder_ok(literals: Seq<i32>, vars: nat, upto: int)
    requires
        sat_logic::clause_ok(literals, vars),
        literals.len() >= 2,
        literals.len() < 2 || vars + literals.len() - 1 <= i32::MAX,
        0 <= upto <= literals.len(),
    ensures
        sat_logic::formula_ok(
            ladder(literals, vars as int + 1, upto),
            (vars + literals.len() - 1) as nat,
        ),
    decreases upto,
{
    let wide = (vars + literals.len() - 1) as nat;
    let carry = vars as int + 1;
    if upto == 1 {
        assert(sat_logic::lit_ok(literals[0], vars));
    } else if upto > 1 {
        lemma_ladder_ok(literals, vars, upto - 1);
        let index = upto - 1;
        assert(sat_logic::lit_ok(literals[index], vars));
        let rest = ladder(literals, carry, upto - 1);
        let whole = ladder(literals, carry, upto);
        assert forall|i: int| 0 <= i < whole.len() implies sat_logic::clause_ok(
            #[trigger] whole[i],
            wide,
        ) by {
            if i < rest.len() {
                assert(sat_logic::clause_ok(rest[i], wide));
            }
        }
    }
}

/// Clauses that each hold a variable and its negation nowhere are all added.
proof fn lemma_all_added(cnf: CnfView, list: Seq<Seq<i32>>, group: usize)
    requires
        forall|i: int| 0 <= i < list.len() ==> !tautology(#[trigger] list[i]),
    ensures
        cnf.with_all(list, group).clauses.len() == cnf.clauses.len() + list.len(),
        cnf.with_all(list, group).vars == cnf.vars,
    decreases list.len(),
{
    if list.len() > 0 {
        let rest = list.drop_last();
        assert forall|i: int| 0 <= i < rest.len() implies !tautology(#[trigger] rest[i]) by {
            assert(rest[i] == list[i]);
        }
        lemma_all_added(cnf, rest, group);
        assert(!tautology(list[list.len() - 1]));
    }
}

/// Two literals of different variables make no tautology.
proof fn lemma_no_tautology(left: i32, right: i32)
    requires
        left != 0,
        right != 0,
        left != -right,
    ensures
        !tautology(seq![left, right]),
{
    let pair = seq![left, right];
    assert forall|i: int, j: int| 0 <= i < pair.len() && 0 <= j < pair.len() implies #[trigger] pair[i]
        != -#[trigger] pair[j] by {
        assert(i == 0 || i == 1);
        assert(j == 0 || j == 1);
    }
}

/// No clause of the ladder says nothing, and there are as many as it promises.
proof fn lemma_ladder_clauses(literals: Seq<i32>, vars: nat, upto: int)
    requires
        sat_logic::clause_ok(literals, vars),
        literals.len() >= 2,
        vars + literals.len() - 1 <= i32::MAX,
        0 <= upto <= literals.len(),
    ensures
        ({
            let list = ladder(literals, vars as int + 1, upto);
            &&& forall|i: int| 0 <= i < list.len() ==> !tautology(#[trigger] list[i])
            &&& list.len() == (if upto == 0 {
                0
            } else if upto < literals.len() {
                3 * upto - 2
            } else {
                3 * upto - 3
            })
        }),
    decreases upto,
{
    let carry = vars as int + 1;
    let list = ladder(literals, carry, upto);
    if upto == 1 {
        assert(sat_logic::lit_ok(literals[0], vars));
        lemma_no_tautology((-literals[0]) as i32, carry as i32);
    } else if upto > 1 {
        let index = upto - 1;
        lemma_ladder_clauses(literals, vars, index);
        let rest = ladder(literals, carry, index);
        assert(sat_logic::lit_ok(literals[index], vars));
        let behind = carry + index - 1;
        lemma_no_tautology((-literals[index]) as i32, (-behind) as i32);
        if index < literals.len() - 1 {
            lemma_no_tautology((-literals[index]) as i32, (behind + 1) as i32);
            lemma_no_tautology((-behind) as i32, (behind + 1) as i32);
        } else {
            lemma_no_tautology(literals[index], behind as i32);
        }
        assert forall|i: int| 0 <= i < list.len() implies !tautology(#[trigger] list[i]) by {
            if i < rest.len() {
                assert(list[i] == rest[i]);
            }
        }
    }
}

/// What a ladder adds: for `n` literals, `n - 1` variables and `3(n - 1)` clauses.
pub proof fn lemma_ladder_length(cnf: CnfView, literals: Seq<i32>, group: usize)
    requires
        sat_logic::clause_ok(literals, cnf.vars),
        literals.len() < 2 || cnf.vars + literals.len() - 1 <= i32::MAX,
    ensures
        literals.len() >= 2 ==> ({
            let after = cnf.with_at_most_one(literals, group);
            &&& after.vars == cnf.vars + literals.len() - 1
            &&& after.clauses.len() == cnf.clauses.len() + 3 * (literals.len() - 1)
        }),
{
    if literals.len() >= 2 {
        lemma_ladder_clauses(literals, cnf.vars, literals.len() as int);
        lemma_all_added(
            CnfView { vars: (cnf.vars + literals.len() - 1) as nat, ..cnf },
            ladder(literals, cnf.vars as int + 1, literals.len() as int),
            group,
        );
    }
}

proof fn lemma_wider_model(cnf: CnfView, enabled: Set<usize>, model: Seq<bool>, wider: Seq<bool>)
    requires
        cnf.wf(),
        model.len() == cnf.vars,
        wider.len() >= cnf.vars,
        wider.take(cnf.vars as int) == model,
    ensures
        sat_logic::formula_holds(wider, cnf.formula(enabled)) <==> sat_logic::formula_holds(
            model,
            cnf.formula(enabled),
        ),
{
    lemma_selected_members(cnf.clauses, enabled);
    let formula = cnf.formula(enabled);
    assert forall|i: int| 0 <= i < formula.len() implies (sat_logic::clause_holds(
        wider,
        #[trigger] formula[i],
    ) <==> sat_logic::clause_holds(model, formula[i])) by {
        let clause = formula[i];
        assert(from_enabled(cnf.clauses, enabled, clause));
        let c = choose|c: int|
            0 <= c < cnf.clauses.len() && enabled.contains((#[trigger] cnf.clauses[c]).1)
                && cnf.clauses[c].0 == clause;
        assert(sat_logic::clause_ok(cnf.clauses[c].0, cnf.vars));
        assert forall|k: int| 0 <= k < clause.len() implies (sat_logic::lit_holds(
            wider,
            #[trigger] clause[k],
        ) <==> sat_logic::lit_holds(model, clause[k])) by {
            assert(sat_logic::lit_ok(clause[k], cnf.vars));
            assert(wider.take(cnf.vars as int)[sat_logic::var_of(clause[k])]
                == wider[sat_logic::var_of(clause[k])]);
        }
        if sat_logic::clause_holds(wider, clause) {
            let k = choose|k: int|
                0 <= k < clause.len() && sat_logic::lit_holds(wider, #[trigger] clause[k]);
            assert(sat_logic::lit_holds(model, clause[k]));
        }
        if sat_logic::clause_holds(model, clause) {
            let k = choose|k: int|
                0 <= k < clause.len() && sat_logic::lit_holds(model, #[trigger] clause[k]);
            assert(sat_logic::lit_holds(wider, clause[k]));
        }
    }
    if sat_logic::formula_holds(wider, formula) {
        assert forall|i: int| 0 <= i < formula.len() implies sat_logic::clause_holds(
            model,
            #[trigger] formula[i],
        ) by {
            assert(sat_logic::clause_holds(wider, formula[i]));
        }
    }
    if sat_logic::formula_holds(model, formula) {
        assert forall|i: int| 0 <= i < formula.len() implies sat_logic::clause_holds(
            wider,
            #[trigger] formula[i],
        ) by {
            assert(sat_logic::clause_holds(model, formula[i]));
        }
    }
}

/// The model goes on, over whatever auxiliary variables there are, to one of the
/// groups in `enabled`.
pub open spec fn extends_to_a_model(
    model: Seq<bool>,
    cnf: CnfView,
    enabled: Set<usize>,
) -> bool {
    exists|wider: Seq<bool>|
        wider.len() == cnf.vars && wider.take(model.len() as int) == model
            && #[trigger] sat_logic::formula_holds(wider, cnf.formula(enabled))
}

/// Allowing at most one of some literals in an enabled group demands that and
/// nothing else: the assignments that go on to a model afterwards are the models
/// from before under which at most one of the literals is true.
pub proof fn lemma_at_most_one_models(
    cnf: CnfView,
    literals: Seq<i32>,
    group: usize,
    enabled: Set<usize>,
    model: Seq<bool>,
)
    requires
        cnf.wf(),
        sat_logic::clause_ok(literals, cnf.vars),
        literals.len() < 2 || cnf.vars + literals.len() - 1 <= i32::MAX,
        enabled.contains(group),
        model.len() == cnf.vars,
    ensures
        extends_to_a_model(model, cnf.with_at_most_one(literals, group), enabled) <==> (
        sat_logic::formula_holds(model, cnf.formula(enabled)) && at_most_one_holds(
            model,
            literals,
        )),
{
    let next = cnf.with_at_most_one(literals, group);
    if literals.len() < 2 {
        assert(next == cnf);
        assert(model.take(model.len() as int) =~= model);
        if extends_to_a_model(model, next, enabled) {
            let wider = choose|wider: Seq<bool>|
                wider.len() == next.vars && wider.take(model.len() as int) == model
                    && #[trigger] sat_logic::formula_holds(wider, next.formula(enabled));
            assert(wider =~= model);
        }
    } else {
        let wide = CnfView { vars: (cnf.vars + literals.len() - 1) as nat, ..cnf };
        let list = ladder(literals, cnf.vars as int + 1, literals.len() as int);
        lemma_ladder_ok(literals, cnf.vars, literals.len() as int);
        lemma_at_most_one_exact(cnf.vars, literals, model);
        assert forall|wider: Seq<bool>|
            wider.len() == wide.vars && wider.take(cnf.vars as int) == model implies (
        #[trigger] sat_logic::formula_holds(wider, next.formula(enabled)) <==> (
        sat_logic::formula_holds(model, cnf.formula(enabled)) && sat_logic::formula_holds(
            wider,
            list,
        ))) by {
            lemma_clauses_meaning(wide, list, group, enabled, wider);
            lemma_wider_model(cnf, enabled, model, wider);
        }
        lemma_clauses_meaning(wide, list, group, enabled, model);
        assert(next.vars == wide.vars);
        if extends_to_a_model(model, next, enabled) {
            let wider = choose|wider: Seq<bool>|
                wider.len() == next.vars && wider.take(model.len() as int) == model
                    && #[trigger] sat_logic::formula_holds(wider, next.formula(enabled));
            assert(sat_logic::formula_holds(wider, list));
        }
        if sat_logic::formula_holds(model, cnf.formula(enabled)) && at_most_one_holds(
            model,
            literals,
        ) {
            let wider = choose|wider: Seq<bool>|
                wider.len() == cnf.vars + literals.len() - 1 && wider.take(cnf.vars as int)
                    == model && #[trigger] sat_logic::formula_holds(wider, list);
            assert(sat_logic::formula_holds(wider, next.formula(enabled)));
        }
    }
}

/// Demanding exactly one of some literals in an enabled group demands that and
/// nothing else.
pub proof fn lemma_exactly_one_models(
    cnf: CnfView,
    literals: Seq<i32>,
    group: usize,
    enabled: Set<usize>,
    model: Seq<bool>,
)
    requires
        cnf.wf(),
        sat_logic::clause_ok(literals, cnf.vars),
        literals.len() < 2 || cnf.vars + literals.len() - 1 <= i32::MAX,
        enabled.contains(group),
        model.len() == cnf.vars,
    ensures
        extends_to_a_model(
            model,
            cnf.with(literals, group).with_at_most_one(literals, group),
            enabled,
        ) <==> (sat_logic::formula_holds(model, cnf.formula(enabled)) && sat_logic::clause_holds(
            model,
            literals,
        ) && at_most_one_holds(model, literals)),
{
    lemma_clause_meaning(cnf, literals, group, enabled, model);
    lemma_canonical(literals);
    let kept = canonical(literals);
    assert forall|i: int| 0 <= i < kept.len() implies sat_logic::lit_ok(
        #[trigger] kept[i],
        cnf.vars,
    ) by {
        assert(kept.contains(kept[i]));
        let j = choose|j: int| 0 <= j < literals.len() && literals[j] == kept[i];
        assert(sat_logic::lit_ok(literals[j], cnf.vars));
    }
    assert(cnf.with(literals, group).wf());
    lemma_at_most_one_models(cnf.with(literals, group), literals, group, enabled, model);
}

} // verus!
