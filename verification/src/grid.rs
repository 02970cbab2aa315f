//! Cell geometry along one axis, and the grid of cells that the shuffle
//! permutes.

use vstd::prelude::*;
use vstd::arithmetic::div_mod::{lemma_fundamental_div_mod, lemma_fundamental_div_mod_converse};
use crate::permutation::rearranged;
use crate::shuffle::{lemma_shuffled_is_permutation, shuffle, shuffle_order, shuffled};

verus! {

/// The number of cells that cover `extent` pixels: `extent / cell_size`,
/// rounded up.
pub open spec fn cell_count(extent: int, cell_size: int) -> int {
    (extent + cell_size - 1) / cell_size
}

/// The pixel at which the last cell begins.
pub open spec fn last_cell_origin(extent: int, cell_size: int) -> int {
    (cell_count(extent, cell_size) - 1) * cell_size
}

/// The number of pixels in the last cell: `cell_size` where the extent is a
/// multiple of it, fewer otherwise.
pub open spec fn last_cell_size(extent: int, cell_size: int) -> int {
    extent - last_cell_origin(extent, cell_size)
}

/// The grid before shuffling: entry `i` is the cell in column `i mod count_x`
/// of row `i div count_x`.
pub open spec fn identity_grid(count_x: int, count_y: int) -> Seq<(usize, usize)> {
    Seq::new((count_x * count_y) as nat, |i: int| ((i % count_x) as usize, (i / count_x) as usize))
}

/// The grid after shuffling with `seed`.
pub open spec fn shuffled_grid(seed: u32, count_x: int, count_y: int) -> Seq<(usize, usize)> {
    shuffled(identity_grid(count_x, count_y), seed)
}

/// `grid` holds every cell of a `count_x` by `count_y` grid exactly once: it
/// has one entry for each cell, every entry is a cell of the grid, no two
/// entries are equal, and every cell is among them.
pub open spec fn is_cell_bijection(grid: Seq<(usize, usize)>, count_x: int, count_y: int) -> bool {
    &&& grid.len() == count_x * count_y
    &&& forall|i: int| 0 <= i < grid.len() ==> (#[trigger] grid[i]).0 < count_x && grid[i].1 < count_y
    &&& forall|i: int, j: int| 0 <= i < j < grid.len() ==> #[trigger] grid[i] != #[trigger] grid[j]
    &&& forall|x: usize, y: usize| x < count_x && y < count_y ==> #[trigger] grid.contains((x, y))
}

/// The cells cover the extent: all but the last are full, and the last holds
/// between one pixel and a full cell's worth.
pub proof fn lemma_cell_geometry(extent: int, cell_size: int)
    requires
        extent >= 1,
        cell_size >= 1,
    ensures
        cell_count(extent, cell_size) == (extent - 1) / cell_size + 1,
        1 <= cell_count(extent, cell_size) <= extent,
        0 <= last_cell_origin(extent, cell_size) < extent,
        1 <= last_cell_size(extent, cell_size) <= cell_size,
        extent % cell_size == 0 <==> last_cell_size(extent, cell_size) == cell_size,
{
    let q = (extent - 1) / cell_size;
    let r = (extent - 1) % cell_size;
    lemma_fundamental_div_mod(extent - 1, cell_size);
    assert(extent - 1 == cell_size * q + r);
    assert(cell_size * q == q * cell_size) by (nonlinear_arith);
    assert((q + 1) * cell_size == q * cell_size + cell_size) by (nonlinear_arith);
    lemma_fundamental_div_mod_converse(extent + cell_size - 1, cell_size, q + 1, r);
    assert(q >= 0 && q <= q * cell_size) by (nonlinear_arith)
        requires
            cell_size >= 1,
            q * cell_size >= 0 - cell_size + 1,
            q * cell_size <= extent - 1,
            extent >= 1,
    ;
    if r + 1 == cell_size {
        lemma_fundamental_div_mod_converse(extent, cell_size, q + 1, 0);
    } else {
        lemma_fundamental_div_mod_converse(extent, cell_size, q, r + 1);
    }
}

/// A pixel lies in the cell that its position divided by the cell size names,
/// and in the last cell exactly when it is at or past that cell's origin.
pub proof fn lemma_cell_of_pixel(extent: int, cell_size: int, pos: int)
    requires
        extent >= 1,
        cell_size >= 1,
        0 <= pos < extent,
    ensures
        0 <= pos / cell_size < cell_count(extent, cell_size),
        0 <= pos % cell_size < cell_size,
        pos >= last_cell_origin(extent, cell_size) <==> pos / cell_size == cell_count(
            extent,
            cell_size,
        ) - 1,
        pos >= last_cell_origin(extent, cell_size) ==> pos % cell_size == pos - last_cell_origin(
            extent,
            cell_size,
        ),
{
    lemma_cell_geometry(extent, cell_size);
    let n = cell_count(extent, cell_size);
    let k = pos / cell_size;
    let o = pos % cell_size;
    lemma_fundamental_div_mod(pos, cell_size);
    assert(pos == cell_size * k + o);
    assert(cell_size * k == k * cell_size) by (nonlinear_arith);
    assert(0 <= k < n && (k == n - 1 <==> pos >= (n - 1) * cell_size)) by (nonlinear_arith)
        requires
            pos == k * cell_size + o,
            0 <= o < cell_size,
            0 <= pos < extent,
            n >= 1,
            (n - 1) * cell_size < extent,
            extent - (n - 1) * cell_size <= cell_size,
    ;
}

/// Entry `y * count_x + x` of the identity grid is the cell `(x, y)`.
pub proof fn lemma_identity_grid_at(count_x: int, count_y: int, x: int, y: int)
    requires
        0 <= x < count_x,
        0 <= y < count_y,
        count_x * count_y <= usize::MAX,
    ensures
        0 <= y * count_x + x < count_x * count_y,
        identity_grid(count_x, count_y)[y * count_x + x] == (x as usize, y as usize),
{
    lemma_fundamental_div_mod_converse(y * count_x + x, count_x, y, x);
    assert(0 <= y * count_x + x < count_x * count_y && x <= count_x * count_y && y <= count_x
        * count_y) by (nonlinear_arith)
        requires
            0 <= x < count_x,
            0 <= y < count_y,
    ;
}

/// The identity grid holds every cell exactly once.
pub proof fn lemma_identity_grid_is_bijection(count_x: int, count_y: int)
    requires
        0 <= count_x,
        0 <= count_y,
        count_x * count_y <= usize::MAX,
    ensures
        is_cell_bijection(identity_grid(count_x, count_y), count_x, count_y),
{
    let grid = identity_grid(count_x, count_y);
    assert(count_x * count_y >= 0) by (nonlinear_arith)
        requires
            0 <= count_x,
            0 <= count_y,
    ;
    assert forall|i: int| 0 <= i < grid.len() implies (#[trigger] grid[i]).0 < count_x
        && grid[i].1 < count_y by {
        lemma_index_splits(count_x, count_y, i);
    }
    assert forall|i: int, j: int| 0 <= i < j < grid.len() implies #[trigger] grid[i]
        != #[trigger] grid[j] by {
        lemma_index_splits(count_x, count_y, i);
        lemma_index_splits(count_x, count_y, j);
    }
    assert forall|x: usize, y: usize| x < count_x && y < count_y implies #[trigger] grid.contains(
        (x, y),
    ) by {
        lemma_identity_grid_at(count_x, count_y, x as int, y as int);
        assert(grid[y * count_x + x] == (x, y));
    }
}

/// An index into a `count_x` by `count_y` grid splits into a column and a row
/// of the grid, and is put together again from them.
pub proof fn lemma_index_splits(count_x: int, count_y: int, i: int)
    requires
        0 <= i < count_x * count_y,
        0 <= count_x,
        0 <= count_y,
    ensures
        0 <= i % count_x < count_x,
        0 <= i / count_x < count_y,
        i == (i / count_x) * count_x + i % count_x,
        i % count_x <= i,
        i / count_x <= i,
{
    assert(count_x > 0) by (nonlinear_arith)
        requires
            0 <= i < count_x * count_y,
            0 <= count_x,
            0 <= count_y,
    ;
    let q = i / count_x;
    let r = i % count_x;
    lemma_fundamental_div_mod(i, count_x);
    assert(i == count_x * q + r);
    assert(count_x * q == q * count_x) by (nonlinear_arith);
    assert(0 <= q < count_y && q <= i) by (nonlinear_arith)
        requires
            i == q * count_x + r,
            0 <= r < count_x,
            0 <= i < count_x * count_y,
            0 <= count_y,
    ;
}

/// Whatever the seed, the shuffled grid holds every cell exactly once, and it
/// holds the cells of the identity grid as often as that grid does.
pub proof fn lemma_shuffled_grid_is_bijection(seed: u32, count_x: int, count_y: int)
    requires
        0 <= count_x,
        0 <= count_y,
        count_x * count_y <= usize::MAX,
    ensures
        is_cell_bijection(shuffled_grid(seed, count_x, count_y), count_x, count_y),
        shuffled_grid(seed, count_x, count_y).to_multiset() == identity_grid(
            count_x,
            count_y,
        ).to_multiset(),
{
    let start = identity_grid(count_x, count_y);
    let grid = shuffled_grid(seed, count_x, count_y);
    let order = shuffle_order(start.len(), seed);
    lemma_identity_grid_is_bijection(count_x, count_y);
    lemma_shuffled_is_permutation(start, seed);
    assert(grid == rearranged(start, order));
    assert forall|i: int, j: int| 0 <= i < j < grid.len() implies #[trigger] grid[i]
        != #[trigger] grid[j] by {
        assert(order[i] != order[j]);
        if order[i] < order[j] {
            assert(start[order[i]] != start[order[j]]);
        } else {
            assert(start[order[j]] != start[order[i]]);
        }
    }
    assert forall|x: usize, y: usize| x < count_x && y < count_y implies #[trigger] grid.contains(
        (x, y),
    ) by {
        assert(start.contains((x, y)));
        let k = choose|k: int| 0 <= k < start.len() && start[k] == (x, y);
        assert(order.contains(k));
        let i = choose|i: int| 0 <= i < order.len() && order[i] == k;
        assert(grid[i] == (x, y));
    }
}

/// The division of one axis of the image into cells.
#[derive(Clone, Copy, Debug, PartialEq, Eq, Structural)]
pub struct AxisLayout {
    /// The number of pixels along the axis.
    pub extent: usize,
    /// The number of pixels in a full cell.
    pub cell_size: usize,
    /// The number of cells, the last one included.
    pub cell_count: usize,
    /// The pixel at which the last cell begins.
    pub last_cell_origin: usize,
    /// The number of pixels in the last cell.
    pub last_cell_size: usize,
}

impl AxisLayout {
    /// The layout is that of its extent and cell size, both at least 1.
    pub open spec fn wf(self) -> bool {
        &&& self.extent >= 1
        &&& self.cell_size >= 1
        &&& self.cell_count == cell_count(self.extent as int, self.cell_size as int)
        &&& self.last_cell_origin == last_cell_origin(self.extent as int, self.cell_size as int)
        &&& self.last_cell_size == last_cell_size(self.extent as int, self.cell_size as int)
    }

    /// Lays out `extent` pixels in cells of `cell_size`.
    pub fn new(extent: usize, cell_size: usize) -> (layout: AxisLayout)
        requires
            extent >= 1,
            cell_size >= 1,
        ensures
            layout.wf(),
            layout.extent == extent,
            layout.cell_size == cell_size,
    {
        proof {
            lemma_cell_geometry(extent as int, cell_size as int);
        }
        let cell_count: usize = (extent - 1) / cell_size + 1;
        assert((cell_count - 1) * cell_size < extent);
        let last_cell_origin: usize = (cell_count - 1) * cell_size;
        AxisLayout {
            extent,
            cell_size,
            cell_count,
            last_cell_origin,
            last_cell_size: extent - last_cell_origin,
        }
    }
}

/// Builds the identity grid of `count_x` by `count_y` cells and shuffles it
/// with `seed`.
pub fn shuffled_cell_grid(seed: u32, count_x: usize, count_y: usize) -> (grid: Vec<(usize, usize)>)
    requires
        count_x * count_y <= usize::MAX,
    ensures
        grid@ == shuffled_grid(seed, count_x as int, count_y as int),
        is_cell_bijection(grid@, count_x as int, count_y as int),
{
    let total: usize = count_x * count_y;
    let mut grid: Vec<(usize, usize)> = Vec::new();
    let mut index: usize = 0;
    while index < total
        invariant
            index <= total,
            total == count_x * count_y,
            grid@.len() == index,
            forall|i: int| 0 <= i < index ==> #[trigger] grid@[i] == identity_grid(
                count_x as int,
                count_y as int,
            )[i],
        decreases total - index,
    {
        proof {
            lemma_index_splits(count_x as int, count_y as int, index as int);
        }
        grid.push((index % count_x, index / count_x));
        index = index + 1;
    }
    proof {
        assert(grid@ =~= identity_grid(count_x as int, count_y as int));
        lemma_shuffled_grid_is_bijection(seed, count_x as int, count_y as int);
    }
    shuffle(grid.as_mut_slice(), seed);
    grid
}

} // verus!
