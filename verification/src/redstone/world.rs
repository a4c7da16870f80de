//! A box of cells, each an index into a palette of block states.

use crate::redstone::block;
use crate::redstone::block::{BlockState, BlockView};
use vstd::prelude::*;

verus! {

/// Distinct block states, numbered from 0. Number 0 is always air.
#[derive(Debug)]
pub struct Palette {
    entries: Vec<BlockState>,
}

impl View for Palette {
    type V = Seq<BlockView>;

    closed spec fn view(&self) -> Seq<BlockView> {
        Seq::new(self.entries@.len(), |i: int| self.entries@[i]@)
    }
}

/// What a palette keeps: air comes first, no state occurs twice, and every
/// number fits its type.
pub open spec fn palette_ok(entries: Seq<BlockView>) -> bool {
    &&& 0 < entries.len() <= u32::MAX
    &&& entries[0] == block::air()
    &&& entries.no_duplicates()
}

impl Palette {
    pub fn new() -> (palette: Palette)
        ensures
            palette@ == seq![block::air()],
            palette_ok(palette@),
    {
        let mut entries: Vec<BlockState> = Vec::new();
        entries.push(BlockState::air());
        let palette = Palette { entries };
        assert(palette@ =~= seq![block::air()]);
        palette
    }

    /// The number of `state`, which gets one if it has none.
    pub fn intern(&mut self, state: BlockState) -> (number: u32)
        requires
            palette_ok(old(self)@),
            old(self)@.len() < u32::MAX,
        ensures
            palette_ok(final(self)@),
            final(self)@ == (if old(self)@.contains(state@) {
                old(self)@
            } else {
                old(self)@.push(state@)
            }),
            number < final(self)@.len(),
            final(self)@[number as int] == state@,
    {
        let mut at: usize = 0;
        while at < self.entries.len()
            invariant
                at <= self.entries@.len(),
                self@.len() == self.entries@.len() < u32::MAX,
                *self == *old(self),
                palette_ok(self@),
                forall|i: int| 0 <= i < at ==> #[trigger] self@[i] != state@,
            decreases self.entries@.len() - at,
        {
            if self.entries[at].same(&state) {
                proof {
                    assert(self@[at as int] == state@);
                }
                return at as u32;
            }
            at = at + 1;
        }
        assert(!self@.contains(state@));
        let ghost was = self@;
        let ghost view = state@;
        self.entries.push(state);
        proof {
            assert(self@ =~= was.push(view));
            assert(self@.no_duplicates()) by {
                assert forall|i: int, j: int|
                    0 <= i < self@.len() && 0 <= j < self@.len() && i != j implies self@[i]
                    != self@[j] by {
                    if i == was.len() {
                        assert(was.contains(was[j]));
                    } else if j == was.len() {
                        assert(was.contains(was[i]));
                    }
                }
            }
        }
        at as u32
    }

    pub fn get(&self, number: u32) -> (found: Option<&BlockState>)
        ensures
            match found {
                Some(state) => number < self@.len() && state@ == self@[number as int],
                None => number >= self@.len(),
            },
    {
        if (number as usize) < self.entries.len() {
            Some(&self.entries[number as usize])
        } else {
            None
        }
    }

    pub fn entries(&self) -> (entries: &Vec<BlockState>)
        ensures
            entries@.len() == self@.len(),
            forall|i: int| 0 <= i < entries@.len() ==> (#[trigger] entries@[i])@ == self@[i],
    {
        &self.entries
    }

    pub fn duplicate(&self) -> (copy: Palette)
        ensures
            copy@ == self@,
    {
        let mut entries: Vec<BlockState> = Vec::new();
        let mut at: usize = 0;
        while at < self.entries.len()
            invariant
                at <= self.entries@.len(),
                entries@.len() == at,
                forall|i: int| 0 <= i < at ==> (#[trigger] entries@[i])@ == self.entries@[i]@,
            decreases self.entries@.len() - at,
        {
            entries.push(self.entries[at].clone());
            at = at + 1;
        }
        let copy = Palette { entries };
        assert(copy@ =~= self@);
        copy
    }
}

/// A box of cells. The cells go along `x` first, then `z`, then `y`.
#[derive(Debug)]
pub struct World {
    size_x: i32,
    size_y: i32,
    size_z: i32,
    palette: Palette,
    cells: Vec<u32>,
}

/// Where the cell at `(x, y, z)` stands in the list.
pub open spec fn cell_index(size_x: int, size_z: int, x: int, y: int, z: int) -> int {
    (y * size_z + z) * size_x + x
}

impl World {
    pub closed spec fn sizes(&self) -> (int, int, int) {
        (self.size_x as int, self.size_y as int, self.size_z as int)
    }

    pub closed spec fn states(&self) -> Seq<BlockView> {
        self.palette@
    }

    pub closed spec fn numbers(&self) -> Seq<u32> {
        self.cells@
    }

    /// Whether `(x, y, z)` is inside.
    pub open spec fn holds(&self, x: int, y: int, z: int) -> bool {
        &&& 0 <= x < self.sizes().0
        &&& 0 <= y < self.sizes().1
        &&& 0 <= z < self.sizes().2
    }

    /// The block at `(x, y, z)`; air outside.
    pub open spec fn at(&self, x: int, y: int, z: int) -> BlockView {
        if self.holds(x, y, z) {
            self.states()[self.numbers()[cell_index(
                self.sizes().0,
                self.sizes().2,
                x,
                y,
                z,
            )] as int]
        } else {
            block::air()
        }
    }

    /// Every cell has a number that the palette knows.
    pub open spec fn wf(&self) -> bool {
        let (sx, sy, sz) = self.sizes();
        &&& 0 < sx <= i32::MAX && 0 < sy <= i32::MAX && 0 < sz <= i32::MAX
        &&& palette_ok(self.states())
        &&& self.numbers().len() == sy * sz * sx
        &&& forall|i: int|
            0 <= i < self.numbers().len() ==> (#[trigger] self.numbers()[i]) < self.states().len()
    }

    /// A box full of air.
    pub fn new(size_x: i32, size_y: i32, size_z: i32) -> (world: World)
        requires
            0 < size_x,
            0 < size_y,
            0 < size_z,
            size_y * size_z * size_x <= usize::MAX,
        ensures
            world.wf(),
            world.sizes() == (size_x as int, size_y as int, size_z as int),
            forall|x: int, y: int, z: int| #[trigger] world.at(x, y, z) == block::air(),
    {
        let ghost total = size_y * size_z * size_x;
        proof {
            assert(size_y * size_z <= size_y * size_z * size_x) by (nonlinear_arith)
                requires
                    size_y > 0,
                    size_z > 0,
                    size_x > 0,
            ;
        }
        let layer: usize = size_y as usize * size_z as usize;
        let count: usize = layer * size_x as usize;
        let palette: Palette = Palette::new();
        let cells: Vec<u32> = vec![0u32; count];
        let world = World { size_x, size_y, size_z, palette, cells };
        proof {
            assert forall|x: int, y: int, z: int| #[trigger] world.at(x, y, z) == block::air() by {
                if world.holds(x, y, z) {
                    lemma_cell_inside(size_x as int, size_y as int, size_z as int, x, y, z);
                }
            }
        }
        world
    }

    /// A box with given cells.
    pub fn from_parts(
        size_x: i32,
        size_y: i32,
        size_z: i32,
        palette: Palette,
        cells: Vec<u32>,
    ) -> (world: World)
        requires
            0 < size_x,
            0 < size_y,
            0 < size_z,
            palette_ok(palette@),
            cells@.len() == size_y * size_z * size_x,
            forall|i: int| 0 <= i < cells@.len() ==> (#[trigger] cells@[i]) < palette@.len(),
        ensures
            world.wf(),
            world.sizes() == (size_x as int, size_y as int, size_z as int),
            world.states() == palette@,
            world.numbers() == cells@,
    {
        World { size_x, size_y, size_z, palette, cells }
    }

    pub fn size(&self) -> (sizes: (i32, i32, i32))
        ensures
            (sizes.0 as int, sizes.1 as int, sizes.2 as int) == self.sizes(),
    {
        (self.size_x, self.size_y, self.size_z)
    }

    pub fn palette(&self) -> (palette: &Palette)
        ensures
            palette@ == self.states(),
    {
        &self.palette
    }

    pub fn cells(&self) -> (cells: &Vec<u32>)
        ensures
            cells@ == self.numbers(),
    {
        &self.cells
    }

    fn contains(&self, x: i32, y: i32, z: i32) -> (inside: bool)
        ensures
            inside == self.holds(x as int, y as int, z as int),
    {
        0 <= x && x < self.size_x && 0 <= y && y < self.size_y && 0 <= z && z < self.size_z
    }

    fn index(&self, x: i32, y: i32, z: i32) -> (at: usize)
        requires
            self.wf(),
            self.holds(x as int, y as int, z as int),
        ensures
            at == cell_index(self.sizes().0, self.sizes().2, x as int, y as int, z as int),
            at < self.numbers().len(),
    {
        proof {
            lemma_cell_inside(
                self.size_x as int,
                self.size_y as int,
                self.size_z as int,
                x as int,
                y as int,
                z as int,
            );
            lemma_cell_steps(self.size_x as int, self.size_z as int, x as int, y as int, z as int);
            assert(self.cells.len() == self.cells@.len());
        }
        (y as usize * self.size_z as usize + z as usize) * self.size_x as usize + x as usize
    }

    /// Where the cell at `(x, y, z)` stands in the list, if it is inside.
    pub fn index_of(&self, x: i32, y: i32, z: i32) -> (at: Option<usize>)
        requires
            self.wf(),
        ensures
            match at {
                Some(index) => self.holds(x as int, y as int, z as int) && index == cell_index(
                    self.sizes().0,
                    self.sizes().2,
                    x as int,
                    y as int,
                    z as int,
                ) && index < self.numbers().len(),
                None => !self.holds(x as int, y as int, z as int),
            },
    {
        if self.contains(x, y, z) {
            Some(self.index(x, y, z))
        } else {
            None
        }
    }

    /// The block at `(x, y, z)`; air outside.
    pub fn get(&self, x: i32, y: i32, z: i32) -> (state: &BlockState)
        requires
            self.wf(),
        ensures
            state@ == self.at(x as int, y as int, z as int),
    {
        if !self.contains(x, y, z) {
            return &self.palette.entries[0];
        }
        let at: usize = self.index(x, y, z);
        let number: u32 = self.cells[at];
        assert(self.numbers()[at as int] < self.states().len());
        &self.palette.entries[number as usize]
    }

    /// Puts `state` at `(x, y, z)`.
    pub fn set(&mut self, x: i32, y: i32, z: i32, state: BlockState)
        requires
            old(self).wf(),
            old(self).holds(x as int, y as int, z as int),
            old(self).states().len() < u32::MAX,
        ensures
            final(self).wf(),
            final(self).sizes() == old(self).sizes(),
            final(self).states().len() <= old(self).states().len() + 1,
            forall|i: int, j: int, k: int| #[trigger]
                final(self).at(i, j, k) == (if i == x && j == y && k == z {
                    state@
                } else {
                    old(self).at(i, j, k)
                }),
    {
        let ghost view = state@;
        let at: usize = self.index(x, y, z);
        let number: u32 = self.palette.intern(state);
        self.cells[at] = number;
        proof {
            let (sx, sy, sz) = old(self).sizes();
            assert forall|i: int| 0 <= i < self.numbers().len() implies (
            #[trigger] self.numbers()[i]) < self.states().len() by {
                assert(old(self).numbers()[i] < old(self).states().len());
            }
            assert forall|i: int, j: int, k: int| #[trigger] self.at(i, j, k) == (if i == x && j
                == y && k == z {
                view
            } else {
                old(self).at(i, j, k)
            }) by {
                if self.holds(i, j, k) {
                    lemma_cell_inside(sx, sy, sz, i, j, k);
                    let here = cell_index(sx, sz, i, j, k);
                    assert(old(self).numbers()[here] < old(self).states().len());
                    if here == at {
                        lemma_cell_unique(sx, sz, i, j, k, x as int, y as int, z as int);
                    }
                }
            }
        }
    }

    pub fn duplicate(&self) -> (copy: World)
        ensures
            copy.sizes() == self.sizes(),
            copy.states() == self.states(),
            copy.numbers() == self.numbers(),
    {
        let cells: Vec<u32> = self.cells.clone();
        assert(cells@ =~= self.cells@);
        World {
            size_x: self.size_x,
            size_y: self.size_y,
            size_z: self.size_z,
            palette: self.palette.duplicate(),
            cells,
        }
    }
}

/// A cell inside the box stands inside the list.
pub proof fn lemma_cell_inside(sx: int, sy: int, sz: int, x: int, y: int, z: int)
    requires
        0 <= x < sx,
        0 <= y < sy,
        0 <= z < sz,
    ensures
        0 <= cell_index(sx, sz, x, y, z) < sy * sz * sx,
{
    assert(y * sz + z < sy * sz) by (nonlinear_arith)
        requires
            0 <= y < sy,
            0 <= z < sz,
    ;
    assert(0 <= y * sz + z) by (nonlinear_arith)
        requires
            0 <= y,
            0 <= z < sz,
    ;
    let row = y * sz + z;
    assert(0 <= row * sx + x < (sy * sz) * sx) by (nonlinear_arith)
        requires
            0 <= row < sy * sz,
            0 <= x < sx,
    ;
}

proof fn lemma_cell_steps(sx: int, sz: int, x: int, y: int, z: int)
    requires
        0 <= x < sx,
        0 <= y,
        0 <= z < sz,
    ensures
        0 <= y * sz <= y * sz + z <= (y * sz + z) * sx <= cell_index(sx, sz, x, y, z),
{
    assert(0 <= y * sz) by (nonlinear_arith)
        requires
            0 <= y,
            0 <= z < sz,
    ;
    let row = y * sz + z;
    assert(row <= row * sx) by (nonlinear_arith)
        requires
            0 <= row,
            0 < sx,
    ;
}

proof fn lemma_cell_unique(sx: int, sz: int, x: int, y: int, z: int, a: int, b: int, c: int)
    requires
        0 <= x < sx,
        0 <= a < sx,
        0 <= z < sz,
        0 <= c < sz,
        cell_index(sx, sz, x, y, z) == cell_index(sx, sz, a, b, c),
    ensures
        x == a && y == b && z == c,
{
    let p = y * sz + z;
    let q = b * sz + c;
    assert(p == q && x == a) by (nonlinear_arith)
        requires
            p * sx + x == q * sx + a,
            0 <= x < sx,
            0 <= a < sx,
    ;
    assert(y == b && z == c) by (nonlinear_arith)
        requires
            y * sz + z == b * sz + c,
            0 <= z < sz,
            0 <= c < sz,
    ;
}

} // verus!
