//! When a placement counts as settled, and how it is nudged before it starts.

use crate::compile::relax::bodies::{Body, BodyGraph};
use crate::compile::relax::error;
use crate::compile::relax::error::{RelaxError, Violation};
use vstd::prelude::*;

verus! {

/// How stiff the spring to the last legal placement is at first.
pub const ANCHOR_STIFFNESS: u64 = 1;

/// How much stiffer it gets with every step.
pub const ANCHOR_GROWTH: u64 = 2;

/// How stiff it gets at most.
pub const ANCHOR_CEILING: u64 = 0x1000_0000_0000_0000;

/// How hard to try, and from where.
#[derive(Debug, Clone, Copy, PartialEq, Eq, Structural)]
pub struct RelaxEffort {
    pub iterations: usize,
    pub seed: u64,
}

impl Default for RelaxEffort {
    fn default() -> (effort: Self)
        ensures
            effort == (RelaxEffort { iterations: 256, seed: 0 }),
    {
        RelaxEffort { iterations: 256, seed: 0 }
    }
}

/// The step that comes next.
#[derive(Debug, Clone, Copy, PartialEq, Eq, Structural)]
pub struct Settling {
    /// The number of the step, from one.
    pub iteration: usize,
    /// How many steps there are at most.
    pub iterations: usize,
    /// How stiff the springs to the last legal placement are in this step.
    pub anchor: u64,
}

/// What came of a step.
#[derive(Debug, Clone, Copy, PartialEq, Eq, Structural)]
pub enum Event {
    /// The springs had no solution.
    NoPivot { row: usize },
    /// The bodies could not be pushed apart.
    Stuck { worst: Violation },
    /// The bodies were solved for, turned and pushed apart.
    Stepped {
        /// Whether where the springs want the bodies is where they may be.
        agreed: bool,
        /// Whether hardly anything moved since the last step.
        settled: bool,
        /// Whether any body was turned.
        turned: bool,
    },
}

/// What to do next.
#[derive(Debug)]
pub enum Decision {
    /// Take another step.
    Step(Settling),
    /// The placement has settled, after so many steps.
    Converged(usize),
    /// No step is left.
    OutOfSteps,
    Failed(RelaxError),
}

/// How stiff the springs are in a step: twice as stiff as in the one before, up to
/// the ceiling.
pub open spec fn anchor_in(iteration: nat) -> nat
    decreases iteration,
{
    if iteration <= 1 {
        ANCHOR_STIFFNESS as nat
    } else if ANCHOR_GROWTH * anchor_in((iteration - 1) as nat) > ANCHOR_CEILING {
        ANCHOR_CEILING as nat
    } else {
        (ANCHOR_GROWTH * anchor_in((iteration - 1) as nat)) as nat
    }
}

impl Settling {
    pub open spec fn wf(self) -> bool {
        &&& 1 <= self.iteration <= self.iterations
        &&& self.anchor == anchor_in(self.iteration as nat)
        &&& ANCHOR_STIFFNESS <= self.anchor <= ANCHOR_CEILING
    }

    /// The first step, if there is one.
    pub fn start(effort: RelaxEffort) -> (decision: Decision)
        ensures
            match decision {
                Decision::Step(first) => {
                    &&& effort.iterations > 0
                    &&& first.wf()
                    &&& first.iteration == 1
                    &&& first.iterations == effort.iterations
                },
                Decision::OutOfSteps => effort.iterations == 0,
                _ => false,
            },
    {
        if effort.iterations == 0 {
            Decision::OutOfSteps
        } else {
            Decision::Step(
                Settling {
                    iteration: 1,
                    iterations: effort.iterations,
                    anchor: ANCHOR_STIFFNESS,
                },
            )
        }
    }

    /// What follows from a step. A placement has settled once the springs and the
    /// lattice agree, and hardly anything moved, and no body was turned: short of
    /// any of the three it can be anywhere.
    pub fn advance(self, event: Event) -> (decision: Decision)
        requires
            self.wf(),
        ensures
            match event {
                Event::NoPivot { row } => decision == Decision::Failed(
                    RelaxError::Unsolvable { component_row: row },
                ),
                Event::Stuck { worst } => decision == Decision::Failed(
                    RelaxError::Deadlocked { worst },
                ),
                Event::Stepped { agreed, settled, turned } => if agreed && settled && !turned {
                    decision == Decision::Converged(self.iteration)
                } else if self.iteration == self.iterations {
                    decision is OutOfSteps
                } else {
                    &&& decision matches Decision::Step(next)
                    &&& next.wf()
                    &&& next.iteration == self.iteration + 1
                    &&& next.iterations == self.iterations
                },
            },
    {
        match event {
            Event::NoPivot { row } => Decision::Failed(
                RelaxError::Unsolvable { component_row: row },
            ),
            Event::Stuck { worst } => Decision::Failed(RelaxError::Deadlocked { worst }),
            Event::Stepped { agreed, settled, turned } => {
                if agreed && settled && !turned {
                    Decision::Converged(self.iteration)
                } else if self.iteration == self.iterations {
                    Decision::OutOfSteps
                } else {
                    let stiffer: u64 = ANCHOR_GROWTH * self.anchor;
                    let anchor: u64 = if stiffer > ANCHOR_CEILING {
                        ANCHOR_CEILING
                    } else {
                        stiffer
                    };
                    Decision::Step(
                        Settling {
                            iteration: self.iteration + 1,
                            iterations: self.iterations,
                            anchor,
                        },
                    )
                }
            },
        }
    }

    /// The error of a placement whose steps have run out. `standing` is the worst
    /// pair of bodies that is still too close, if there is one.
    pub fn exhausted(effort: RelaxEffort, standing: Option<Violation>) -> (error: RelaxError)
        ensures
            error == (RelaxError::DidNotConverge {
                iterations: effort.iterations,
                worst: error::pair_or_none(standing),
            }),
    {
        RelaxError::DidNotConverge {
            iterations: effort.iterations,
            worst: error::named_pair(standing),
        }
    }
}

/// How many of the first `count` bodies may move.
pub open spec fn movable(bodies: Seq<Body>, count: nat) -> nat
    decreases count,
{
    if count == 0 {
        0
    } else {
        movable(bodies, (count - 1) as nat) + (if bodies[count - 1].pinned {
            0nat
        } else {
            1
        })
    }
}

/// The unknown that each body is: those that may move are numbered in order, those
/// that are pinned are none. The second result is how many there are.
pub fn free_slots(graph: &BodyGraph) -> (slots: (Vec<Option<usize>>, usize))
    ensures
        slots.0@.len() == graph.bodies@.len(),
        slots.1 == movable(graph.bodies@, graph.bodies@.len()),
        forall|b: int|
            0 <= b < graph.bodies@.len() ==> #[trigger] slots.0@[b] == (
            if graph.bodies@[b].pinned {
                None
            } else {
                Some(movable(graph.bodies@, b as nat) as usize)
            }),
{
    let mut slots: Vec<Option<usize>> = Vec::new();
    let mut order: usize = 0;
    let mut b: usize = 0;
    while b < graph.bodies.len()
        invariant
            b <= graph.bodies@.len(),
            slots@.len() == b,
            order == movable(graph.bodies@, b as nat),
            order <= b,
            forall|k: int|
                0 <= k < b ==> #[trigger] slots@[k] == (if graph.bodies@[k].pinned {
                    None
                } else {
                    Some(movable(graph.bodies@, k as nat) as usize)
                }),
        decreases graph.bodies@.len() - b,
    {
        if graph.bodies[b].pinned {
            slots.push(None);
        } else {
            slots.push(Some(order));
            order = order + 1;
        }
        b = b + 1;
    }
    (slots, order)
}

/// Different bodies that may move are different unknowns.
pub proof fn lemma_slots_differ(bodies: Seq<Body>, left: nat, right: nat)
    requires
        left < right <= bodies.len(),
        !bodies[left as int].pinned,
    ensures
        movable(bodies, left) < movable(bodies, right),
    decreases right,
{
    if left + 1 < right {
        lemma_slots_differ(bodies, left, (right - 1) as nat);
    }
}

/// The state of the stream of random numbers after another number.
pub open spec fn stirred(state: u64) -> u64 {
    state.wrapping_add(0x9e37_79b9_7f4a_7c15)
}

/// The number that a state gives: a splitmix, which spreads every bit of the state
/// over all of the number.
pub open spec fn mixed(state: u64) -> u64 {
    let first = (state ^ (state >> 30)).wrapping_mul(0xbf58_476d_1ce4_e5b9);
    let second = (first ^ (first >> 27)).wrapping_mul(0x94d0_49bb_1331_11eb);
    second ^ (second >> 31)
}

/// The state after so many numbers.
pub open spec fn stirred_times(seed: u64, count: nat) -> u64
    decreases count,
{
    if count == 0 {
        seed
    } else {
        stirred(stirred_times(seed, (count - 1) as nat))
    }
}

/// The number at a place of the stream, of which the upper bits are used.
pub open spec fn draw(seed: u64, place: nat) -> u64 {
    mixed(stirred_times(seed, place + 1)) >> 11
}

fn next_state(state: u64) -> (next: u64)
    ensures
        next == stirred(state),
{
    state.wrapping_add(0x9e37_79b9_7f4a_7c15)
}

fn mix(state: u64) -> (number: u64)
    ensures
        number == mixed(state),
{
    let first: u64 = (state ^ (state >> 30)).wrapping_mul(0xbf58_476d_1ce4_e5b9);
    let second: u64 = (first ^ (first >> 27)).wrapping_mul(0x94d0_49bb_1331_11eb);
    second ^ (second >> 31)
}

/// How each body is nudged along its two horizontal axes, on a scale from zero to
/// two to the power of 53. A pinned body is not nudged, and draws no numbers; with
/// a seed of zero nothing is.
pub fn nudges(graph: &BodyGraph, seed: u64) -> (found: Vec<Option<(u64, u64)>>)
    ensures
        found@.len() == graph.bodies@.len(),
        forall|b: int|
            0 <= b < graph.bodies@.len() ==> #[trigger] found@[b] == (if seed == 0
                || graph.bodies@[b].pinned {
                None
            } else {
                let place = 2 * movable(graph.bodies@, b as nat);
                Some((draw(seed, place), draw(seed, place + 1)))
            }),
        forall|b: int|
            0 <= b < graph.bodies@.len() ==> (#[trigger] found@[b] matches Some((x, z)) ==> x
                < 0x20_0000_0000_0000 && z < 0x20_0000_0000_0000),
{
    let mut found: Vec<Option<(u64, u64)>> = Vec::new();
    let mut state: u64 = seed;
    let mut b: usize = 0;
    while b < graph.bodies.len()
        invariant
            b <= graph.bodies@.len(),
            found@.len() == b,
            seed != 0 ==> state == stirred_times(seed, 2 * movable(graph.bodies@, b as nat)),
            forall|k: int|
                0 <= k < b ==> #[trigger] found@[k] == (if seed == 0 || graph.bodies@[k].pinned {
                    None
                } else {
                    let place = 2 * movable(graph.bodies@, k as nat);
                    Some((draw(seed, place), draw(seed, place + 1)))
                }),
            forall|k: int|
                0 <= k < b ==> (#[trigger] found@[k] matches Some((x, z)) ==> x
                    < 0x20_0000_0000_0000 && z < 0x20_0000_0000_0000),
        decreases graph.bodies@.len() - b,
    {
        if seed == 0 || graph.bodies[b].pinned {
            found.push(None);
        } else {
            let ghost place = 2 * movable(graph.bodies@, b as nat);
            state = next_state(state);
            assert(state == stirred_times(seed, place + 1));
            let first: u64 = mix(state);
            state = next_state(state);
            assert(state == stirred_times(seed, place + 2));
            let second: u64 = mix(state);
            assert(first >> 11 < 0x20_0000_0000_0000) by (bit_vector);
            assert(second >> 11 < 0x20_0000_0000_0000) by (bit_vector);
            found.push(Some((first >> 11, second >> 11)));
        }
        b = b + 1;
    }
    found
}

} // verus!
