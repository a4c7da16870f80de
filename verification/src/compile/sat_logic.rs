//! What a propositional formula means: literals, clauses, models, entailment.
//!
//! A literal is a nonzero `i32`, `v` for variable `v` and `-v` for its
//! negation, with variables numbered from 1. A model assigns a truth value to
//! every variable and is indexed from 0.

use vstd::prelude::*;

verus! {

/// The 0-based index of the variable a literal speaks of.
pub open spec fn var_of(literal: i32) -> int {
    if literal < 0 {
        -literal - 1
    } else {
        literal - 1
    }
}

/// Whether `literal` names one of `vars` variables.
pub open spec fn lit_ok(literal: i32, vars: nat) -> bool {
    literal != 0 && -vars <= literal <= vars
}

pub open spec fn clause_ok(clause: Seq<i32>, vars: nat) -> bool {
    forall|i: int| 0 <= i < clause.len() ==> lit_ok(#[trigger] clause[i], vars)
}

/// Whether `literal` is true under `model`.
pub open spec fn lit_holds(model: Seq<bool>, literal: i32) -> bool {
    model[var_of(literal)] == (literal > 0)
}

/// A clause holds when one of its literals does.
pub open spec fn clause_holds(model: Seq<bool>, clause: Seq<i32>) -> bool {
    exists|i: int| 0 <= i < clause.len() && lit_holds(model, #[trigger] clause[i])
}

/// A formula holds when all of its clauses do.
pub open spec fn formula_holds(model: Seq<bool>, formula: Seq<Seq<i32>>) -> bool {
    forall|i: int| 0 <= i < formula.len() ==> clause_holds(model, #[trigger] formula[i])
}

pub open spec fn formula_ok(formula: Seq<Seq<i32>>, vars: nat) -> bool {
    forall|i: int| 0 <= i < formula.len() ==> clause_ok(#[trigger] formula[i], vars)
}

/// No assignment of `vars` variables satisfies `formula`.
pub open spec fn unsatisfiable(formula: Seq<Seq<i32>>, vars: nat) -> bool {
    forall|model: Seq<bool>| model.len() == vars ==> !#[trigger] formula_holds(model, formula)
}

/// Every model of `formula` satisfies `clause`.
pub open spec fn entails(formula: Seq<Seq<i32>>, vars: nat, clause: Seq<i32>) -> bool {
    forall|model: Seq<bool>|
        model.len() == vars && #[trigger] formula_holds(model, formula) ==> clause_holds(
            model,
            clause,
        )
}

/// The same literals, in any order.
pub open spec fn same_literals(left: Seq<i32>, right: Seq<i32>) -> bool {
    &&& left.len() == right.len()
    &&& forall|i: int| 0 <= i < left.len() ==> right.contains(#[trigger] left[i])
    &&& forall|i: int| 0 <= i < right.len() ==> left.contains(#[trigger] right[i])
}

/// Every literal of `left` is a literal of `right`.
pub open spec fn literals_within(left: Seq<i32>, right: Seq<i32>) -> bool {
    forall|i: int| 0 <= i < left.len() ==> right.contains(#[trigger] left[i])
}

pub(crate) proof fn lemma_within_holds(model: Seq<bool>, left: Seq<i32>, right: Seq<i32>)
    requires
        literals_within(left, right),
        clause_holds(model, left),
    ensures
        clause_holds(model, right),
{
    let i = choose|i: int| 0 <= i < left.len() && lit_holds(model, #[trigger] left[i]);
    assert(right.contains(left[i]));
    let j = choose|j: int| 0 <= j < right.len() && right[j] == left[i];
    assert(lit_holds(model, right[j]));
}

/// A formula that grows keeps what it entailed.
pub proof fn lemma_entails_grows(
    formula: Seq<Seq<i32>>,
    extra: Seq<i32>,
    vars: nat,
    clause: Seq<i32>,
)
    requires
        entails(formula, vars, clause),
    ensures
        entails(formula.push(extra), vars, clause),
{
    assert forall|model: Seq<bool>|
        model.len() == vars && #[trigger] formula_holds(
            model,
            formula.push(extra),
        ) implies clause_holds(model, clause) by {
        assert forall|i: int| 0 <= i < formula.len() implies clause_holds(
            model,
            #[trigger] formula[i],
        ) by {
            assert(formula.push(extra)[i] == formula[i]);
        }
        assert(formula_holds(model, formula));
    }
}

/// Swapping two literals of a clause changes neither its literals nor their
/// distinctness.
pub proof fn lemma_swap_literals(clause: Seq<i32>, i: int, j: int)
    requires
        0 <= i < clause.len(),
        0 <= j < clause.len(),
    ensures
        same_literals(clause, clause.update(i, clause[j]).update(j, clause[i])),
        clause.no_duplicates() ==> clause.update(i, clause[j]).update(
            j,
            clause[i],
        ).no_duplicates(),
{
    let swapped = clause.update(i, clause[j]).update(j, clause[i]);
    assert forall|k: int| 0 <= k < clause.len() implies swapped.contains(#[trigger] clause[k]) by {
        let at = if k == i { j } else if k == j { i } else { k };
        assert(swapped[at] == clause[k]);
    }
    assert forall|k: int| 0 <= k < swapped.len() implies clause.contains(#[trigger] swapped[k]) by {
        let at = if k == i { j } else if k == j { i } else { k };
        assert(swapped[k] == clause[at]);
    }
    if clause.no_duplicates() {
        assert forall|a: int, b: int|
            0 <= a < swapped.len() && 0 <= b < swapped.len() && a != b implies swapped[a]
            != swapped[b] by {
            let x = if a == i { j } else if a == j { i } else { a };
            let y = if b == i { j } else if b == j { i } else { b };
            assert(swapped[a] == clause[x] && swapped[b] == clause[y]);
        }
    }
}

} // verus!
