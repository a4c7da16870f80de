//! Why a placement fails, in words.

use crate::text;
use vstd::arithmetic::div_mod;
use vstd::prelude::*;

verus! {

/// The parts that a shortfall is counted in: so many are a cell. They are fine enough
/// for every distance that is held in double precision and is not settled.
pub const CELL_PARTS: u128 = 0x1_0000_0000_0000_0000_0000;

/// Two bodies that are too close, and by how many parts of a cell.
#[derive(Debug, Clone, Copy, PartialEq, Eq, Structural)]
pub struct Violation {
    pub left: usize,
    pub right: usize,
    pub shortfall: u128,
}

/// A matrix that has no unique solution: the row without a positive pivot.
#[derive(Debug, Clone, Copy, PartialEq, Eq, Structural)]
pub struct NotPositiveDefinite {
    pub row: usize,
}

#[derive(Debug)]
pub enum RelaxError {
    /// The steps ran out. Where no two bodies are too close, it is the springs and
    /// the lattice that never agreed.
    DidNotConverge { iterations: usize, worst: Violation },
    /// Nothing moves any more, and two bodies are still too close.
    Deadlocked { worst: Violation },
    /// The system of springs has no unique solution.
    Unsolvable { component_row: usize },
    /// The netlist and its components do not fit together.
    CannotBuild { reason: String },
    /// Two bodies came too close by rounding.
    SurvivedSnap { worst: Violation },
}

/// The pair itself; the first body and itself, short by nothing, where there is none.
pub open spec fn pair_or_none(standing: Option<Violation>) -> Violation {
    match standing {
        Some(worst) => worst,
        None => Violation { left: 0, right: 0, shortfall: 0 },
    }
}

/// The pair, or the first body and itself.
pub fn named_pair(standing: Option<Violation>) -> (worst: Violation)
    ensures
        worst == pair_or_none(standing),
{
    match standing {
        Some(worst) => worst,
        None => Violation { left: 0, right: 0, shortfall: 0 },
    }
}

/// A shortfall in thousandths of a cell, rounded to the nearest, the even one of two.
pub open spec fn thousandths(shortfall: nat) -> nat {
    let floor = shortfall * 1000 / CELL_PARTS as nat;
    let rest = shortfall * 1000 % CELL_PARTS as nat;
    if 2 * rest > CELL_PARTS || (2 * rest == CELL_PARTS && floor % 2 == 1) {
        floor + 1
    } else {
        floor
    }
}

fn to_thousandths(shortfall: u128) -> (found: u64)
    ensures
        found == thousandths(shortfall as nat),
{
    let cells: u128 = shortfall / CELL_PARTS;
    let scaled: u128 = shortfall % CELL_PARTS * 1000;
    let more: u128 = scaled / CELL_PARTS;
    let rest: u128 = scaled % CELL_PARTS;
    proof {
        div_mod::lemma_fundamental_div_mod_converse(
            shortfall * 1000,
            CELL_PARTS as int,
            cells * 1000 + more,
            rest as int,
        );
    }
    let floor: u64 = (cells * 1000 + more) as u64;
    if 2 * rest > CELL_PARTS || (2 * rest == CELL_PARTS && floor % 2 == 1) {
        floor + 1
    } else {
        floor
    }
}

/// A number of thousandths, as a decimal fraction with three places.
pub open spec fn three_places(thousandths: nat) -> Seq<char> {
    text::decimal(thousandths / 1000) + "."@ + text::decimal(thousandths / 100 % 10)
        + text::decimal(thousandths / 10 % 10) + text::decimal(thousandths % 10)
}

fn places_text(thousandths: u64) -> (written: String)
    ensures
        written@ == three_places(thousandths as nat),
{
    let whole: String = text::decimal_text(thousandths / 1000);
    let first: String = text::decimal_text(thousandths / 100 % 10);
    let second: String = text::decimal_text(thousandths / 10 % 10);
    let third: String = text::decimal_text(thousandths % 10);
    text::glue5(whole.as_str(), ".", first.as_str(), second.as_str(), third.as_str())
}

/// The two bodies of a violation, and how far it goes, between three texts.
pub open spec fn named(
    before: Seq<char>,
    worst: Violation,
    between: Seq<char>,
    after: Seq<char>,
) -> Seq<char> {
    before + text::decimal(worst.left as nat) + " and "@ + text::decimal(worst.right as nat)
        + between + three_places(thousandths(worst.shortfall as nat)) + after
}

fn name_pair(before: &str, worst: &Violation, between: &str, after: &str) -> (whole: String)
    ensures
        whole@ == named(before@, *worst, between@, after@),
{
    let left: String = text::decimal_text(worst.left as u64);
    let right: String = text::decimal_text(worst.right as u64);
    let mut whole: String = text::glue5(before, left.as_str(), " and ", right.as_str(), between);
    let shortfall: String = places_text(to_thousandths(worst.shortfall));
    whole.append(shortfall.as_str());
    whole.append(after);
    whole
}

impl RelaxError {
    pub open spec fn worded(self) -> Seq<char> {
        match self {
            RelaxError::DidNotConverge { iterations, worst } => if worst.shortfall == 0 {
                "relaxation did not converge in "@ + text::decimal(iterations as nat)
                    + " iterations; every pair is legal, the springs and the lattice just never agreed"@
            } else {
                named(
                    "relaxation did not converge in "@ + text::decimal(iterations as nat)
                        + " iterations; bodies "@,
                    worst,
                    " are "@,
                    " too close"@,
                )
            },
            RelaxError::Deadlocked { worst } => named(
                "projection deadlocked: bodies "@,
                worst,
                " cannot be "@,
                " further apart and stay welded"@,
            ),
            RelaxError::Unsolvable { component_row } =>
                "the spring system has no positive pivot at body "@ + text::decimal(
                    component_row as nat,
                ) + ", which means the graph was built wrong"@,
            RelaxError::CannotBuild { reason } => "cannot build bodies for this netlist: "@
                + reason@,
            RelaxError::SurvivedSnap { worst } => named(
                "rounding left bodies "@,
                worst,
                " "@,
                " too close: the snap margin is wrong"@,
            ),
        }
    }

    /// The error in words.
    pub fn message(&self) -> (message: String)
        ensures
            message@ == self.worded(),
    {
        match self {
            RelaxError::DidNotConverge { iterations, worst } => {
                let steps: String = text::decimal_text(*iterations as u64);
                if worst.shortfall == 0 {
                    text::glue3(
                        "relaxation did not converge in ",
                        steps.as_str(),
                        " iterations; every pair is legal, the springs and the lattice just never agreed",
                    )
                } else {
                    let before: String = text::glue3(
                        "relaxation did not converge in ",
                        steps.as_str(),
                        " iterations; bodies ",
                    );
                    name_pair(before.as_str(), worst, " are ", " too close")
                }
            },
            RelaxError::Deadlocked { worst } => name_pair(
                "projection deadlocked: bodies ",
                worst,
                " cannot be ",
                " further apart and stay welded",
            ),
            RelaxError::Unsolvable { component_row } => {
                let row: String = text::decimal_text(*component_row as u64);
                text::glue3(
                    "the spring system has no positive pivot at body ",
                    row.as_str(),
                    ", which means the graph was built wrong",
                )
            },
            RelaxError::CannotBuild { reason } => {
                let mut whole: String = "cannot build bodies for this netlist: ".to_owned();
                whole.append(reason.as_str());
                whole
            },
            RelaxError::SurvivedSnap { worst } => name_pair(
                "rounding left bodies ",
                worst,
                " ",
                " too close: the snap margin is wrong",
            ),
        }
    }
}

} // verus!
