//! A circuit that has been laid out: the world it stands in, and where its named
//! parts are.

use crate::redstone::position::Position;
use crate::redstone::world::World;
use crate::text;
use vstd::prelude::*;

verus! {

pub struct CompiledCircuit {
    pub world: World,
    /// Where the lever of each input stands.
    pub input_positions: Vec<(String, Position)>,
    /// Where the lamp of each output stands.
    pub output_positions: Vec<(String, Position)>,
    /// Where the output of each gate is: its torch, or the junction of a merge.
    pub gate_output_positions: Vec<(String, Position)>,
}

/// The first position under a name, from one entry on.
pub open spec fn position_from(
    list: Seq<(String, Position)>,
    name: Seq<char>,
    from: int,
) -> Option<Position>
    decreases list.len() - from,
{
    if from < 0 || from >= list.len() {
        None
    } else if list[from].0@ == name {
        Some(list[from].1)
    } else {
        position_from(list, name, from + 1)
    }
}

/// The position under a name.
pub open spec fn position_of(list: Seq<(String, Position)>, name: Seq<char>) -> Option<Position> {
    position_from(list, name, 0)
}

/// Looks a name up.
pub fn find_position(list: &Vec<(String, Position)>, name: &str) -> (found: Option<Position>)
    ensures
        found == position_of(list@, name@),
{
    let mut at: usize = 0;
    while at < list.len()
        invariant
            at <= list@.len(),
            position_of(list@, name@) == position_from(list@, name@, at as int),
        decreases list@.len() - at,
    {
        if text::same_text(list[at].0.as_str(), name) {
            return Some(list[at].1);
        }
        at = at + 1;
    }
    None
}

} // verus!
