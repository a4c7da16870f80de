use reda::compile::satcnf::{value, Cnf, Outcome};
fn pigeonhole(pigeons: usize, holes: usize) -> (Cnf, Vec<Vec<i32>>) {
    let mut cnf = Cnf::new();
    let group = cnf.group("pigeonhole");
    let mut place = vec![vec![0i32; holes]; pigeons];
    for pigeon in place.iter_mut() {
        for hole in pigeon.iter_mut() {
            *hole = cnf.var();
        }
    }
    for pigeon in &place {
        cnf.add(pigeon, group);
    }
    for left in 0..pigeons {
        for right in left + 1..pigeons {
            for (&here, &there) in place[left].iter().zip(&place[right]) {
                cnf.add(&[-here, -there], group);
            }
        }
    }
    (cnf, place)
}
#[test]
fn a_satisfiable_formula_is_solved_and_the_model_satisfies_every_clause() {
    let mut cnf = Cnf::new();
    let group = cnf.group("test");
    let a = cnf.var();
    let b = cnf.var();
    let c = cnf.var();
    cnf.add(&[a, b], group);
    cnf.add(&[-a, c], group);
    cnf.add(&[-b, -c], group);
    let outcome = cnf.solve(100_000);
    let model = outcome.model().expect("satisfiable").to_vec();
    assert!(value(&model, a) || value(&model, b));
    assert!(!value(&model, a) || value(&model, c));
    assert!(!value(&model, b) || !value(&model, c));
}

#[test]
fn a_contradiction_is_unsat_rather_than_unknown() {
    let mut cnf = Cnf::new();
    let group = cnf.group("test");
    let a = cnf.var();
    cnf.add(&[a], group);
    cnf.add(&[-a], group);
    assert_eq!(cnf.solve(100_000), Outcome::Unsat);
}
#[test]
fn the_pigeonhole_principle_comes_out_unsat() {
    let holes = 5;
    let pigeons = holes + 1;
    let (cnf, _) = pigeonhole(pigeons, holes);
    assert_eq!(cnf.solve(1_000_000), Outcome::Unsat);
}
#[test]
fn the_same_generator_one_pigeon_smaller_is_satisfiable() {
    let holes = 5;
    let pigeons = 5;
    let (cnf, place) = pigeonhole(pigeons, holes);
    let outcome = cnf.solve(1_000_000);
    let model = outcome.model().expect("five into five fits").to_vec();
    for (pigeon, holes_for_it) in place.iter().enumerate() {
        assert_eq!(
            holes_for_it.iter().filter(|&&slot| value(&model, slot)).count(),
            1,
            "pigeon {pigeon} takes exactly one hole"
        );
    }
}
#[test]
fn at_most_one_forbids_two_and_permits_one_and_permits_none() {
    for chosen in 0..4usize {
        let mut cnf = Cnf::new();
        let group = cnf.group("amo");
        let literals: Vec<i32> = (0..4).map(|_| cnf.var()).collect();
        cnf.at_most_one(&literals, group);
        cnf.add(&[literals[chosen]], group);
        let outcome = cnf.solve(100_000);
        let model = outcome.model().expect("one is allowed").to_vec();
        assert_eq!(literals.iter().filter(|&&slot| value(&model, slot)).count(), 1);
    }
    let mut cnf = Cnf::new();
    let group = cnf.group("amo");
    let literals: Vec<i32> = (0..4).map(|_| cnf.var()).collect();
    cnf.at_most_one(&literals, group);
    cnf.add(&[literals[1]], group);
    cnf.add(&[literals[3]], group);
    assert_eq!(cnf.solve(100_000), Outcome::Unsat);

    let mut cnf = Cnf::new();
    let group = cnf.group("amo");
    let literals: Vec<i32> = (0..4).map(|_| cnf.var()).collect();
    cnf.at_most_one(&literals, group);
    for &literal in &literals {
        cnf.add(&[-literal], group);
    }
    assert!(cnf.solve(100_000).model().is_some(), "none is allowed");
}
#[test]
fn the_core_names_the_groups_that_conflict_and_omits_a_bystander() {
    let mut cnf = Cnf::new();
    let says_yes = cnf.group("says-yes");
    let says_no = cnf.group("says-no");
    let bystander = cnf.group("bystander");
    let a = cnf.var();
    let b = cnf.var();
    cnf.add(&[a], says_yes);
    cnf.add(&[-a], says_no);
    cnf.add(&[b], bystander);
    let core = cnf.minimal_core(100_000).expect("unsatisfiable");
    assert_eq!(core, vec![says_yes, says_no]);
}
#[test]
fn a_satisfiable_formula_has_no_core() {
    let mut cnf = Cnf::new();
    let group = cnf.group("fine");
    let a = cnf.var();
    cnf.add(&[a], group);
    assert_eq!(cnf.minimal_core(100_000), None);
}
#[test]
fn an_exhausted_budget_is_unknown_and_never_unsat() {
    let holes = 8;
    let pigeons = holes + 1;
    let (cnf, _) = pigeonhole(pigeons, holes);
    assert_eq!(cnf.solve(1), Outcome::Unknown);
    assert_eq!(cnf.solve(10_000_000), Outcome::Unsat);
}
#[test]
fn random_three_sat_agrees_with_exhaustive_search_on_every_instance() {
    let variables = 12usize;
    let mut state = 0x2026_0816_u64;
    let mut next = move || {
        state ^= state << 13;
        state ^= state >> 7;
        state ^= state << 17;
        state
    };
    let mut sat = 0;
    let mut unsat = 0;
    for _ in 0..200 {
        let count = 40 + (next() % 25) as usize;
        let mut cnf = Cnf::new();
        let group = cnf.group("random");
        let literals: Vec<i32> = (0..variables).map(|_| cnf.var()).collect();
        let mut raw: Vec<[i32; 3]> = Vec::with_capacity(count);
        for _ in 0..count {
            let mut clause = [0i32; 3];
            for slot in &mut clause {
                let variable = literals[(next() % variables as u64) as usize];
                *slot = if next() % 2 == 0 { variable } else { -variable };
            }
            cnf.add(&clause, group);
            raw.push(clause);
        }
        let expected = (0..(1u32 << variables)).any(|mask| {
            raw.iter().all(|clause| {
                clause.iter().any(|&literal| {
                    let bit = (mask >> (literal.unsigned_abs() - 1)) & 1 == 1;
                    bit == (literal > 0)
                })
            })
        });
        match cnf.solve(10_000_000) {
            Outcome::Sat(model) => {
                assert!(expected, "solver said SAT where exhaustive search said UNSAT");
                for clause in &raw {
                    assert!(
                        clause.iter().any(|&literal| {
                            value(&model, literal.abs()) == (literal > 0)
                        }),
                        "the model does not satisfy {clause:?}"
                    );
                }
                sat += 1;
            }
            Outcome::Unsat => {
                assert!(!expected, "solver said UNSAT where exhaustive search said SAT");
                unsat += 1;
            }
            Outcome::Unknown => panic!("ten million conflicts is not a budget problem here"),
        }
    }
    assert!(sat > 20, "the generator produced too few satisfiable instances: {sat}");
    assert!(unsat > 20, "the generator produced too few unsatisfiable instances: {unsat}");
}

#[test]
fn a_budget_for_every_assignment_twice_over_always_decides() {
    // Three variables need no more than 2 * 8 * 8 conflicts.
    for mask in 0..256u32 {
        let mut cnf = Cnf::new();
        let group = cnf.group("corners");
        let literals: Vec<i32> = (0..3).map(|_| cnf.var()).collect();
        for corner in (0..8u32).filter(|corner| mask >> corner & 1 == 1) {
            let clause: Vec<i32> = literals
                .iter()
                .enumerate()
                .map(|(bit, &literal)| if corner >> bit & 1 == 1 { -literal } else { literal })
                .collect();
            cnf.add(&clause, group);
        }
        match cnf.solve(128) {
            Outcome::Sat(model) => {
                let corner: u32 = (0..3).map(|bit| (model[bit] as u32) << bit).sum();
                assert_eq!(mask >> corner & 1, 0, "the model is one of the forbidden corners");
            }
            Outcome::Unsat => assert_eq!(mask, 255),
            Outcome::Unknown => panic!("the budget was enough"),
        }
    }
}

#[test]
fn of_two_cores_the_one_with_the_later_groups_is_found() {
    let mut cnf = Cnf::new();
    let a = cnf.var();
    for name in ["yes", "no", "yes again", "no again"] {
        let group = cnf.group(name);
        cnf.add(&[if name.starts_with("yes") { a } else { -a }], group);
    }
    assert_eq!(cnf.minimal_core(0), Some(vec![2, 3]));
}

#[test]
fn exactly_one_demands_one_and_forbids_two() {
    let mut cnf = Cnf::new();
    let group = cnf.group("one");
    let literals: Vec<i32> = (0..3).map(|_| cnf.var()).collect();
    cnf.exactly_one(&literals, group);
    let model = cnf.solve(1_000).model().expect("one can be").to_vec();
    assert_eq!(literals.iter().filter(|&&literal| value(&model, literal)).count(), 1);
    let mut two = cnf.clone();
    two.add(&[literals[0]], group);
    two.add(&[literals[2]], group);
    assert_eq!(two.solve(1_000), Outcome::Unsat);
    for &literal in &literals {
        cnf.add(&[-literal], group);
    }
    assert_eq!(cnf.solve(1_000), Outcome::Unsat);
}

#[test]
fn a_formula_is_written_as_dimacs() {
    let mut cnf = Cnf::new();
    let group = cnf.group("named");
    let a = cnf.var();
    let b = cnf.var();
    cnf.add(&[b, -a, b], group);
    cnf.add(&[a, -a], group);
    cnf.implies(a, b, group);
    cnf.add(&[], group);
    assert_eq!(cnf.clause_count(), 3, "what says nothing is dropped");
    assert_eq!(cnf.group_count(), 1);
    assert_eq!(cnf.group_name(group), "named");
    assert_eq!(cnf.dimacs(), "p cnf 2 3\n-1 2 0\n-1 2 0\n0\n");
    assert_eq!(cnf.solve(1), Outcome::Unsat);
}

#[test]
fn at_most_one_takes_one_variable_and_three_clauses_for_each_literal_but_one() {
    for count in 0..6usize {
        let mut cnf = Cnf::new();
        let group = cnf.group("amo");
        let literals: Vec<i32> = (0..count).map(|_| cnf.var()).collect();
        cnf.at_most_one(&literals, group);
        let steps = count.saturating_sub(1);
        assert_eq!((cnf.vars(), cnf.clause_count()), (count + steps, 3 * steps), "{count}");
    }
    let mut cnf = Cnf::new();
    let group = cnf.group("amo");
    let a = cnf.var();
    cnf.at_most_one(&[a, -a], group);
    assert_eq!((cnf.vars(), cnf.clause_count()), (2, 3));
    assert_eq!(cnf.dimacs(), "p cnf 2 3\n-1 2 0\n-1 2 0\n-2 1 0\n");
    assert!(cnf.solve(10).model().is_some(), "one of a literal and its negation is true");
}

#[test]
fn every_choice_of_at_most_one_literal_has_a_model_and_no_other_does() {
    let mut cnf = Cnf::new();
    let group = cnf.group("amo");
    let literals: Vec<i32> = (0..3).map(|_| cnf.var()).collect();
    cnf.at_most_one(&literals, group);
    let mut choices = 0;
    loop {
        let outcome = cnf.solve(1_000);
        let Some(model) = outcome.model() else {
            break;
        };
        choices += 1;
        assert!(literals.iter().filter(|&&literal| value(model, literal)).count() <= 1);
        let others: Vec<i32> = literals
            .iter()
            .map(|&literal| if value(model, literal) { -literal } else { literal })
            .collect();
        cnf.add(&others, group);
    }
    assert_eq!(choices, 4, "none, or one of three");
}

#[test]
fn a_decided_answer_stays_the_same_with_a_larger_budget() {
    for (pigeons, holes) in [(4, 4), (4, 3), (5, 4), (3, 3)] {
        let (cnf, _) = pigeonhole(pigeons, holes);
        let decided = cnf.solve(1_000_000);
        assert_ne!(decided, Outcome::Unknown);
        let mut enough = false;
        for budget in 0..200u64 {
            let outcome = cnf.solve(budget);
            assert_eq!(cnf.solve(budget), outcome, "the same again");
            if outcome == Outcome::Unknown {
                assert!(!enough, "{pigeons} into {holes}: {budget} was more than enough before");
            } else {
                enough = true;
                assert_eq!(outcome, decided, "{pigeons} into {holes}, {budget}");
            }
        }
        assert!(enough);
    }
}

#[test]
fn the_groups_that_are_left_out_do_not_count() {
    let (small, _) = pigeonhole(3, 3);
    let (mut large, place) = pigeonhole(3, 3);
    let other = large.group("other");
    large.add(&[place[0][0], -place[1][1]], other);
    let enabled = std::collections::BTreeSet::from([0usize]);
    for budget in [0, 1, 2, 50] {
        assert_eq!(large.solve_groups(&enabled, budget), small.solve(budget));
    }
}

#[test]
fn a_core_that_the_budget_does_not_reach_is_not_given() {
    let (cnf, _) = pigeonhole(5, 4);
    assert_eq!(cnf.solve(1), Outcome::Unknown);
    assert_eq!(cnf.minimal_core(1), None);
    assert_eq!(cnf.minimal_core(1_000_000), Some(vec![0]));
}

#[test]
fn the_first_variable_is_tried_first_and_false_first() {
    let mut cnf = Cnf::new();
    let group = cnf.group("choice");
    let literals: Vec<i32> = (0..4).map(|_| cnf.var()).collect();
    cnf.add(&literals, group);
    assert_eq!(cnf.solve(10), Outcome::Sat(vec![false, false, false, true]));
    cnf.add(&[literals[0], -literals[3]], group);
    assert_eq!(cnf.solve(10), Outcome::Sat(vec![false, false, true, false]));
}

#[test]
fn a_conflict_turns_the_search_to_what_it_passed_through() {
    let mut cnf = Cnf::new();
    let group = cnf.group("conflict");
    let literals: Vec<i32> = (0..3).map(|_| cnf.var()).collect();
    let (a, b, c) = (literals[0], literals[1], literals[2]);
    cnf.add(&[a, b, c], group);
    cnf.add(&[a, b, -c], group);
    cnf.add(&[a, -b, c], group);
    assert_eq!(cnf.solve(1), Outcome::Unknown, "one conflict is met");
    assert_eq!(cnf.solve(2), Outcome::Sat(vec![false, true, true]));
}
