//! Sets of cells, kept in order.

use crate::redstone::position::Position;
use vstd::prelude::*;

verus! {

/// One cell comes before another: by `x`, then `y`, then `z`.
pub open spec fn comes_before(one: Position, two: Position) -> bool {
    one.x < two.x || (one.x == two.x && (one.y < two.y || (one.y == two.y && one.z < two.z)))
}

/// The cells stand in order, none twice.
pub open spec fn ascending(cells: Seq<Position>) -> bool {
    forall|i: int, j: int|
        0 <= i < j < cells.len() ==> comes_before(#[trigger] cells[i], #[trigger] cells[j])
}

/// The cells of a set, in order.
pub open spec fn lists(cells: Seq<Position>, set: Set<Position>) -> bool {
    ascending(cells) && cells.to_set() == set
}

/// Cells are compared by `x` first; cells of one `x` by `y`, and cells of one `x` and `y`
/// by `z`. Of two different cells one comes before the other.
pub proof fn lemma_order_of_cells(one: Position, two: Position)
    ensures
        one.x < two.x ==> comes_before(one, two),
        one.x == two.x && one.y < two.y ==> comes_before(one, two),
        one.x == two.x && one.y == two.y && one.z < two.z ==> comes_before(one, two),
        one == two ==> !comes_before(one, two),
        one != two ==> (comes_before(one, two) <==> !comes_before(two, one)),
{
}

/// A set has one list alone.
pub proof fn lemma_one_list(one: Seq<Position>, two: Seq<Position>)
    requires
        ascending(one),
        ascending(two),
        one.to_set() == two.to_set(),
    ensures
        one == two,
    decreases one.len(),
{
    if one.len() == 0 {
        if two.len() > 0 {
            assert(two.to_set().contains(two[0]));
            assert(one.to_set().contains(two[0]));
        }
        assert(one =~= two);
    } else {
        assert(one.to_set().contains(one[0]));
        assert(two.to_set().contains(one[0]));
        assert(two.len() > 0);
        let last = one.last();
        let end = two.last();
        assert(one[one.len() - 1] == last);
        assert(two[two.len() - 1] == end);
        assert(two.to_set().contains(last)) by {
            assert(one.to_set().contains(last));
        }
        assert(one.to_set().contains(end)) by {
            assert(two.to_set().contains(end));
        }
        let i = choose|i: int| 0 <= i < two.len() && two[i] == last;
        let j = choose|j: int| 0 <= j < one.len() && one[j] == end;
        assert(last == end);
        let first = one.drop_last();
        let second = two.drop_last();
        assert(first.to_set() =~= second.to_set()) by {
            assert forall|cell: Position| first.to_set().contains(cell) == second.to_set().contains(
                cell,
            ) by {
                if first.contains(cell) {
                    let k = choose|k: int| 0 <= k < first.len() && first[k] == cell;
                    assert(one[k] == cell);
                    assert(one.to_set().contains(cell));
                    let m = choose|m: int| 0 <= m < two.len() && two[m] == cell;
                    assert(comes_before(one[k], one[one.len() - 1]));
                    assert(m < second.len());
                    assert(second[m] == cell);
                }
                if second.contains(cell) {
                    let k = choose|k: int| 0 <= k < second.len() && second[k] == cell;
                    assert(two[k] == cell);
                    assert(two.to_set().contains(cell));
                    let m = choose|m: int| 0 <= m < one.len() && one[m] == cell;
                    assert(comes_before(two[k], two[two.len() - 1]));
                    assert(m < first.len());
                    assert(first[m] == cell);
                }
            }
        }
        assert(ascending(first)) by {
            assert forall|a: int, b: int| 0 <= a < b < first.len() implies comes_before(
                #[trigger] first[a],
                #[trigger] first[b],
            ) by {
                assert(comes_before(one[a], one[b]));
            }
        }
        assert(ascending(second)) by {
            assert forall|a: int, b: int| 0 <= a < b < second.len() implies comes_before(
                #[trigger] second[a],
                #[trigger] second[b],
            ) by {
                assert(comes_before(two[a], two[b]));
            }
        }
        lemma_one_list(first, second);
        assert(one =~= first.push(last));
        assert(two =~= second.push(end));
    }
}

fn is_before(one: Position, two: Position) -> (earlier: bool)
    ensures
        earlier == comes_before(one, two),
{
    one.x < two.x || (one.x == two.x && (one.y < two.y || (one.y == two.y && one.z < two.z)))
}

/// Adds a cell to an ordered list, unless it is there.
pub fn insert_cell(cells: &mut Vec<Position>, cell: Position)
    requires
        ascending(old(cells)@),
    ensures
        ascending(final(cells)@),
        final(cells)@.to_set() == old(cells)@.to_set().insert(cell),
{
    let ghost start = cells@;
    let mut at: usize = 0;
    while at < cells.len() && is_before(cells[at], cell)
        invariant
            cells@ == start,
            ascending(start),
            at <= start.len(),
            forall|i: int| 0 <= i < at ==> comes_before(#[trigger] start[i], cell),
        decreases start.len() - at,
    {
        at = at + 1;
    }
    if at < cells.len() && cells[at] == cell {
        proof {
            assert(start.to_set().contains(start[at as int]));
            assert(start.to_set() =~= start.to_set().insert(cell));
        }
        return;
    }
    cells.insert(at, cell);
    proof {
        let now = cells@;
        assert(now == start.insert(at as int, cell));
        assert forall|i: int, j: int| 0 <= i < j < now.len() implies comes_before(
            #[trigger] now[i],
            #[trigger] now[j],
        ) by {
            let a = if i < at {
                i
            } else {
                i - 1
            };
            let b = if j < at {
                j
            } else {
                j - 1
            };
            if i != at && j != at {
                assert(now[i] == start[a]);
                assert(now[j] == start[b]);
                assert(comes_before(start[a], start[b]));
            } else if i == at {
                assert(now[j] == start[j - 1]);
                if j - 1 > at {
                    assert(comes_before(start[at as int], start[j - 1]));
                }
            } else {
                assert(now[i] == start[i]);
            }
        }
        assert(now.to_set() =~= start.to_set().insert(cell)) by {
            assert forall|other: Position| now.to_set().contains(other) == start.to_set().insert(
                cell,
            ).contains(other) by {
                if now.contains(other) {
                    let i = choose|i: int| 0 <= i < now.len() && now[i] == other;
                    if i < at {
                        assert(start[i] == other);
                    } else if i > at {
                        assert(start[i - 1] == other);
                    }
                }
                if start.contains(other) {
                    let i = choose|i: int| 0 <= i < start.len() && start[i] == other;
                    if i < at {
                        assert(now[i] == other);
                    } else {
                        assert(now[i + 1] == other);
                    }
                }
                if other == cell {
                    assert(now[at as int] == cell);
                }
            }
        }
    }
}

/// Whether a list holds a cell.
pub fn holds_cell(cells: &Vec<Position>, cell: Position) -> (found: bool)
    ensures
        found == cells@.contains(cell),
{
    let mut at: usize = 0;
    while at < cells.len()
        invariant
            at <= cells@.len(),
            forall|i: int| 0 <= i < at ==> #[trigger] cells@[i] != cell,
        decreases cells@.len() - at,
    {
        if cells[at] == cell {
            return true;
        }
        at = at + 1;
    }
    false
}

} // verus!
