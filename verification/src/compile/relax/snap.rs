//! Reads a placement off the lattice.

use crate::compile::relax::bodies::{Body, BodyGraph, Catalogue, CellFacing};
use crate::compile::relax::error;
use crate::compile::relax::error::{RelaxError, Violation};
use crate::compile::relax::separation;
use crate::redstone::position::Position;
use vstd::prelude::*;

verus! {

/// A placement of which every body has been moved to the nearest cell.
#[derive(Debug)]
pub struct ContinuousPlacement {
    pub graph: BodyGraph,
    /// Whether the springs had settled.
    pub converged: bool,
    pub iterations: usize,
}

/// Where a gate or an input goes, and which way it is turned.
#[derive(Debug, Clone, Copy, PartialEq, Eq, Structural)]
pub struct SnappedNode {
    /// Its place among the gates and then the inputs.
    pub node: usize,
    pub anchor: Position,
    pub facing: CellFacing,
}

/// Where each gate and input goes: where the body is that it is placed by.
pub open spec fn answers(graph: BodyGraph) -> Seq<SnappedNode> {
    Seq::new(
        graph.anchor_body@.len(),
        |n: int|
            {
                let body = graph.bodies@[graph.anchor_body@[n] as int];
                SnappedNode { node: n as usize, anchor: body.position, facing: body.facing }
            },
    )
}

/// What must be kept on the lattice: what was required before, less what rounding
/// was allowed to cost.
pub open spec fn kept(graph: BodyGraph) -> Seq<i64> {
    Seq::new(
        graph.bodies@.len(),
        |b: int| (separation::required_of(graph.pulls@, b) - separation::SNAP_MARGIN) as i64,
    )
}

/// Every gate and input is placed by one of the bodies.
pub open spec fn anchored(graph: BodyGraph) -> bool {
    forall|n: int|
        0 <= n < graph.anchor_body@.len() ==> (#[trigger] graph.anchor_body@[n])
            < graph.bodies@.len()
}

/// Where everything goes. A placement that has not settled is refused: rounding it
/// would spend a margin that it does not have. `standing` is the worst pair of
/// bodies as they stood before they were moved to their cells, if one was too close.
pub fn snap(
    catalogue: &Catalogue,
    placement: &ContinuousPlacement,
    standing: Option<Violation>,
) -> (snapped: Result<Vec<SnappedNode>, RelaxError>)
    requires
        separation::shaped(*catalogue, placement.graph),
        separation::joined(placement.graph),
        separation::tied(placement.graph),
        anchored(placement.graph),
    ensures
        ({
            let worst = separation::worst_from(
                None,
                *catalogue,
                placement.graph,
                kept(placement.graph),
                0,
                1,
            );
            match snapped {
                Ok(nodes) => placement.converged && worst is None && nodes@ == answers(
                    placement.graph,
                ),
                Err(error) => if placement.converged {
                    worst is Some && error == (RelaxError::SurvivedSnap { worst: worst->0 })
                } else {
                    error == (RelaxError::DidNotConverge {
                        iterations: placement.iterations,
                        worst: error::pair_or_none(standing),
                    })
                },
            }
        }),
{
    if !placement.converged {
        return Err(
            RelaxError::DidNotConverge {
                iterations: placement.iterations,
                worst: error::named_pair(standing),
            },
        );
    }
    let graph: &BodyGraph = &placement.graph;
    let mut required: Vec<i64> = separation::required_separations(graph);
    let ghost full = required@;
    let mut b: usize = 0;
    while b < required.len()
        invariant
            b <= required@.len() == full.len() == graph.bodies@.len(),
            forall|k: int| 0 <= k < full.len() ==> 12 <= #[trigger] full[k] <= 0x1000_0000_0000,
            forall|k: int|
                0 <= k < full.len() ==> #[trigger] full[k] == separation::required_of(
                    graph.pulls@,
                    k,
                ),
            forall|k: int| b <= k < full.len() ==> #[trigger] required@[k] == full[k],
            forall|k: int|
                0 <= k < b ==> #[trigger] required@[k] == full[k] - separation::SNAP_MARGIN,
        decreases required@.len() - b,
    {
        let need: i64 = required[b] - separation::SNAP_MARGIN;
        required.set(b, need);
        b = b + 1;
    }
    assert(required@ =~= kept(*graph)) by {
        assert forall|k: int| 0 <= k < required@.len() implies required@[k] == kept(*graph)[k] by {
            assert(full[k] == separation::required_of(graph.pulls@, k));
        }
    }
    if let Some(worst) = separation::worst_violation(catalogue, graph, &required) {
        return Err(RelaxError::SurvivedSnap { worst });
    }
    let mut nodes: Vec<SnappedNode> = Vec::new();
    let mut n: usize = 0;
    while n < graph.anchor_body.len()
        invariant
            anchored(*graph),
            n <= graph.anchor_body@.len(),
            nodes@.len() == n,
            forall|k: int| 0 <= k < n ==> #[trigger] nodes@[k] == answers(*graph)[k],
        decreases graph.anchor_body@.len() - n,
    {
        let body: &Body = &graph.bodies[graph.anchor_body[n]];
        nodes.push(SnappedNode { node: n, anchor: body.position, facing: body.facing });
        n = n + 1;
    }
    assert(nodes@ =~= answers(*graph));
    Ok(nodes)
}

/// The nearest whole number to a fraction; halfway between two, the one further
/// from zero.
pub open spec fn nearest(numerator: int, denominator: int) -> int {
    if numerator >= 0 {
        (2 * numerator + denominator) / (2 * denominator)
    } else {
        -((2 * -numerator + denominator) / (2 * denominator))
    }
}

proof fn lemma_nearest(n: int, d: int)
    by (nonlinear_arith)
    requires
        d > 0,
    ensures
        -d <= 2 * (nearest(n, d) * d - n) <= d,
        n >= 0 ==> 2 * (nearest(n, d) * d - n) > -d,
{
}

/// Rounding costs at most a cell: two bodies that are so far apart on an axis, in
/// fractions of a cell, are nearer by at most one cell once both are rounded. Each
/// may have a cell of its own so many cells from its middle.
pub proof fn lemma_rounding_costs_at_most_a_cell(
    left: int,
    right: int,
    left_offset: int,
    right_offset: int,
    scale: int,
)
    requires
        scale > 0,
    ensures
        separation::gap(
            nearest(left, scale) + left_offset,
            nearest(right, scale) + right_offset,
        ) * scale >= separation::gap(left + left_offset * scale, right + right_offset * scale)
            - scale,
{
    lemma_nearest(left, scale);
    lemma_nearest(right, scale);
    let l = nearest(left, scale);
    let r = nearest(right, scale);
    assert((l + left_offset - (r + right_offset)) * scale == l * scale + left_offset * scale - r
        * scale - right_offset * scale) by (nonlinear_arith);
    assert((r + right_offset - (l + left_offset)) * scale == r * scale + right_offset * scale - l
        * scale - left_offset * scale) by (nonlinear_arith);
}

/// A gap of whole cells in height is not lost by rounding, for bodies that stand
/// above zero.
pub proof fn lemma_height_survives_rounding(
    left: int,
    right: int,
    left_offset: int,
    right_offset: int,
    scale: int,
    cells: int,
)
    requires
        scale > 0,
        left >= 0,
        right >= 0,
        separation::gap(left + left_offset * scale, right + right_offset * scale) >= cells * scale,
    ensures
        separation::gap(
            nearest(left, scale) + left_offset,
            nearest(right, scale) + right_offset,
        ) >= cells,
{
    lemma_nearest(left, scale);
    lemma_nearest(right, scale);
    let l = nearest(left, scale) + left_offset;
    let r = nearest(right, scale) + right_offset;
    let a = left + left_offset * scale;
    let b = right + right_offset * scale;
    assert(l * scale == nearest(left, scale) * scale + left_offset * scale) by (nonlinear_arith)
        requires
            l == nearest(left, scale) + left_offset,
    ;
    assert(r * scale == nearest(right, scale) * scale + right_offset * scale) by (nonlinear_arith)
        requires
            r == nearest(right, scale) + right_offset,
    ;
    if a >= b {
        assert((l - r) * scale > (cells - 1) * scale) by (nonlinear_arith)
            requires
                l * scale - r * scale > (a - b) - scale,
                a - b >= cells * scale,
        ;
        assert(l - r > cells - 1) by (nonlinear_arith)
            requires
                (l - r) * scale > (cells - 1) * scale,
                scale > 0,
        ;
    } else {
        assert((r - l) * scale > (cells - 1) * scale) by (nonlinear_arith)
            requires
                r * scale - l * scale > (b - a) - scale,
                b - a >= cells * scale,
        ;
        assert(r - l > cells - 1) by (nonlinear_arith)
            requires
                (r - l) * scale > (cells - 1) * scale,
                scale > 0,
        ;
    }
}

} // verus!
