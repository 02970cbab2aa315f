//! The coordinate field: for every pixel, the position it samples from once
//! the cells are shuffled.
//!
//! A position is kept as the exact integers it is made of. Along one axis a
//! pixel samples from `origin + offset * scale_num / scale_den`, and its
//! normalized coordinate is that position plus one half, divided by the
//! extent of the axis.

use vstd::prelude::*;
use crate::grid::{
    cell_count, identity_grid, is_cell_bijection, last_cell_origin, last_cell_size,
    lemma_cell_geometry, lemma_cell_of_pixel, lemma_index_splits,
    lemma_shuffled_grid_is_bijection, shuffled_cell_grid, shuffled_grid, AxisLayout,
};
use crate::shuffle::lemma_shuffled_single;

verus! {

/// Where a pixel samples from along one axis.
#[derive(Clone, Copy, Debug, PartialEq, Eq, Structural)]
pub struct AxisCoord {
    /// The first pixel of the cell that the pixel's own cell is mapped to.
    pub origin: usize,
    /// The pixel's offset within its own cell.
    pub offset: usize,
    /// Numerator of the factor by which the offset is stretched.
    pub scale_num: usize,
    /// Denominator of that factor.
    pub scale_den: usize,
}

/// Where a pixel samples from: horizontally `u`, vertically `v`.
#[derive(Clone, Copy, Debug, PartialEq, Eq, Structural)]
pub struct PixelCoord {
    pub u: AxisCoord,
    pub v: AxisCoord,
}

impl AxisCoord {
    /// The sampled position times `scale_den`.
    pub open spec fn scaled_position(self) -> int {
        self.origin * self.scale_den + self.offset * self.scale_num
    }

    /// The normalized coordinate lies strictly between 0 and 1: the sampled
    /// position plus one half is more than 0 and less than `extent`.
    pub open spec fn in_unit_interval(self, extent: int) -> bool {
        0 < 2 * self.scaled_position() + self.scale_den < 2 * self.scale_den * extent
    }
}

/// The coordinate along one axis of the pixel at `pos`, whose cell is mapped
/// to the cell `mapped`. A pixel of the last cell has its offset stretched by
/// the ratio of a full cell to the last cell; any other pixel keeps it.
pub open spec fn axis_coord(extent: int, cell_size: int, pos: int, mapped: int) -> AxisCoord {
    let in_last_cell = pos >= last_cell_origin(extent, cell_size);
    AxisCoord {
        origin: (mapped * cell_size) as usize,
        offset: (pos % cell_size) as usize,
        scale_num: if in_last_cell {
            cell_size as usize
        } else {
            1
        },
        scale_den: if in_last_cell {
            last_cell_size(extent, cell_size) as usize
        } else {
            1
        },
    }
}

/// The sample runs past the end of the axis: the pixel's cell is mapped to the
/// last cell, and the pixel's stretched offset does not fit in that cell.
pub open spec fn overshoots(extent: int, cell_size: int, pos: int, mapped: int) -> bool {
    let last_size = last_cell_size(extent, cell_size);
    let offset = pos % cell_size;
    &&& mapped == cell_count(extent, cell_size) - 1
    &&& if pos >= last_cell_origin(extent, cell_size) {
        2 * offset * cell_size + last_size >= 2 * last_size * last_size
    } else {
        offset >= last_size
    }
}

/// The coordinate of the pixel `(x, y)` under `grid`: the pixel's cell is
/// looked up in the grid, row by row, and each axis follows the cell found.
pub open spec fn pixel_coord(
    grid: Seq<(usize, usize)>,
    width: int,
    height: int,
    cell_size_x: int,
    cell_size_y: int,
    x: int,
    y: int,
) -> PixelCoord {
    let cell = grid[(y / cell_size_y) * cell_count(width, cell_size_x) + x / cell_size_x];
    PixelCoord {
        u: axis_coord(width, cell_size_x, x, cell.0 as int),
        v: axis_coord(height, cell_size_y, y, cell.1 as int),
    }
}

/// `field` is the coordinate field of the given seed and geometry: one entry
/// for each pixel, row by row, each the pixel's coordinate under the grid
/// shuffled with `seed`.
pub open spec fn is_uv_field(
    field: Seq<PixelCoord>,
    seed: u32,
    width: int,
    height: int,
    cell_size_x: int,
    cell_size_y: int,
) -> bool {
    let grid = shuffled_grid(
        seed,
        cell_count(width, cell_size_x),
        cell_count(height, cell_size_y),
    );
    &&& field.len() == width * height
    &&& forall|x: int, y: int|
        0 <= x < width && 0 <= y < height ==> field[y * width + x] == #[trigger] pixel_coord(
            grid,
            width,
            height,
            cell_size_x,
            cell_size_y,
            x,
            y,
        )
}

impl AxisLayout {
    /// The coordinate of the pixel at `pos`, whose cell is mapped to `mapped`.
    pub fn coord(&self, pos: usize, mapped: usize) -> (c: AxisCoord)
        requires
            self.wf(),
            pos < self.extent,
            mapped < self.cell_count,
        ensures
            c == axis_coord(self.extent as int, self.cell_size as int, pos as int, mapped as int),
    {
        proof {
            lemma_cell_geometry(self.extent as int, self.cell_size as int);
            assert(mapped * self.cell_size <= (self.cell_count - 1) * self.cell_size)
                by (nonlinear_arith)
                requires
                    mapped <= self.cell_count - 1,
            ;
        }
        if pos >= self.last_cell_origin {
            AxisCoord {
                origin: mapped * self.cell_size,
                offset: pos % self.cell_size,
                scale_num: self.cell_size,
                scale_den: self.last_cell_size,
            }
        } else {
            AxisCoord {
                origin: mapped * self.cell_size,
                offset: pos % self.cell_size,
                scale_num: 1,
                scale_den: 1,
            }
        }
    }
}

/// The pixels of the first `rows` rows, and the first `cols` pixels of the
/// row after them, have their coordinates in `field`.
spec fn is_filled_to(
    field: Seq<PixelCoord>,
    grid: Seq<(usize, usize)>,
    width: int,
    height: int,
    cell_size_x: int,
    cell_size_y: int,
    rows: int,
    cols: int,
) -> bool {
    forall|x: int, y: int|
        0 <= x < width && (0 <= y < rows || (y == rows && x < cols)) ==> field[y * width + x]
            == #[trigger] pixel_coord(grid, width, height, cell_size_x, cell_size_y, x, y)
}

/// Generates the coordinate field of a `width` by `height` image cut into
/// cells of `cell_size_x` by `cell_size_y` and shuffled with `seed`: the
/// entry at `y * width + x` tells where the pixel `(x, y)` samples from.
pub fn generate_uv_map_texture(
    seed: u32,
    width: usize,
    height: usize,
    cell_size_x: usize,
    cell_size_y: usize,
) -> (field: Vec<PixelCoord>)
    requires
        width >= 1,
        height >= 1,
        cell_size_x >= 1,
        cell_size_y >= 1,
        width * height <= usize::MAX,
    ensures
        field@.len() == width * height,
        is_uv_field(
            field@,
            seed,
            width as int,
            height as int,
            cell_size_x as int,
            cell_size_y as int,
        ),
{
    let columns = AxisLayout::new(width, cell_size_x);
    let rows = AxisLayout::new(height, cell_size_y);
    proof {
        lemma_cell_geometry(width as int, cell_size_x as int);
        lemma_cell_geometry(height as int, cell_size_y as int);
        assert(columns.cell_count * rows.cell_count <= width * height) by (nonlinear_arith)
            requires
                0 <= columns.cell_count <= width,
                0 <= rows.cell_count <= height,
        ;
    }
    let mapper = shuffled_cell_grid(seed, columns.cell_count, rows.cell_count);
    let mut field: Vec<PixelCoord> = Vec::new();
    let mut y: usize = 0;
    while y < height
        invariant
            y <= height,
            columns.wf() && columns.extent == width && columns.cell_size == cell_size_x,
            rows.wf() && rows.extent == height && rows.cell_size == cell_size_y,
            width * height <= usize::MAX,
            is_cell_bijection(mapper@, columns.cell_count as int, rows.cell_count as int),
            field@.len() == y * width,
            is_filled_to(
                field@,
                mapper@,
                width as int,
                height as int,
                cell_size_x as int,
                cell_size_y as int,
                y as int,
                0,
            ),
        decreases height - y,
    {
        let cell_y: usize = y / cell_size_y;
        let mut x: usize = 0;
        while x < width
            invariant
                x <= width,
                y < height,
                cell_y == y / cell_size_y,
                columns.wf() && columns.extent == width && columns.cell_size == cell_size_x,
                rows.wf() && rows.extent == height && rows.cell_size == cell_size_y,
                width * height <= usize::MAX,
                is_cell_bijection(mapper@, columns.cell_count as int, rows.cell_count as int),
                field@.len() == y * width + x,
                is_filled_to(
                    field@,
                    mapper@,
                    width as int,
                    height as int,
                    cell_size_x as int,
                    cell_size_y as int,
                    y as int,
                    x as int,
                ),
            decreases width - x,
        {
            let cell_x: usize = x / cell_size_x;
            proof {
                lemma_cell_index(
                    width as int,
                    height as int,
                    cell_size_x as int,
                    cell_size_y as int,
                    x as int,
                    y as int,
                );
                lemma_row_major(width as int, height as int, x as int, y as int);
            }
            let cell: (usize, usize) = mapper[cell_y * columns.cell_count + cell_x];
            let ghost before = field@;
            field.push(PixelCoord { u: columns.coord(x, cell.0), v: rows.coord(y, cell.1) });
            proof {
                assert forall|px: int, py: int|
                    0 <= px < width && (0 <= py < y || (py == y && px < x + 1)) implies field@[py
                    * width + px] == #[trigger] pixel_coord(
                    mapper@,
                    width as int,
                    height as int,
                    cell_size_x as int,
                    cell_size_y as int,
                    px,
                    py,
                ) by {
                    if py < y {
                        lemma_rows_in_order(width as int, px, py, x as int, y as int);
                    }
                    if py < y || px < x {
                        assert(field@[py * width + px] == before[py * width + px]);
                    }
                }
            }
            x = x + 1;
        }
        proof {
            assert((y + 1) * width == y * width + width) by (nonlinear_arith);
        }
        y = y + 1;
    }
    proof {
        assert(height * width == width * height) by (nonlinear_arith);
    }
    field
}

/// The pixel `(x, y)` has the row-major index `y * width + x`, below
/// `width * height`.
pub proof fn lemma_row_major(width: int, height: int, x: int, y: int)
    by (nonlinear_arith)
    requires
        0 <= x < width,
        0 <= y < height,
    ensures
        0 <= y * width <= y * width + x < width * height,
        y * width + width <= width * height,
{
}

/// A pixel of an earlier row has a smaller row-major index.
pub proof fn lemma_rows_in_order(width: int, px: int, py: int, x: int, y: int)
    by (nonlinear_arith)
    requires
        0 <= px < width,
        0 <= x,
        0 <= py < y,
    ensures
        py * width + px < y * width + x,
{
}

/// The cell that the pixel `(x, y)` lies in is an entry of the grid.
pub proof fn lemma_cell_index(
    width: int,
    height: int,
    cell_size_x: int,
    cell_size_y: int,
    x: int,
    y: int,
)
    requires
        cell_size_x >= 1,
        cell_size_y >= 1,
        0 <= x < width,
        0 <= y < height,
    ensures
        0 <= (y / cell_size_y) * cell_count(width, cell_size_x) + x / cell_size_x < cell_count(
            width,
            cell_size_x,
        ) * cell_count(height, cell_size_y),
        cell_count(width, cell_size_x) * cell_count(height, cell_size_y) <= width * height,
{
    lemma_cell_geometry(width, cell_size_x);
    lemma_cell_geometry(height, cell_size_y);
    lemma_cell_of_pixel(width, cell_size_x, x);
    lemma_cell_of_pixel(height, cell_size_y, y);
    let nx = cell_count(width, cell_size_x);
    let ny = cell_count(height, cell_size_y);
    let kx = x / cell_size_x;
    let ky = y / cell_size_y;
    assert(0 <= ky * nx + kx < nx * ny && nx * ny <= width * height) by (nonlinear_arith)
        requires
            0 <= kx < nx <= width,
            0 <= ky < ny <= height,
    ;
}

/// The arguments determine the field: two fields of the same seed and
/// geometry are equal, entry by entry.
pub proof fn lemma_uv_field_is_unique(
    a: Seq<PixelCoord>,
    b: Seq<PixelCoord>,
    seed: u32,
    width: int,
    height: int,
    cell_size_x: int,
    cell_size_y: int,
)
    requires
        width >= 1,
        height >= 1,
        is_uv_field(a, seed, width, height, cell_size_x, cell_size_y),
        is_uv_field(b, seed, width, height, cell_size_x, cell_size_y),
    ensures
        a == b,
{
    let grid = shuffled_grid(
        seed,
        cell_count(width, cell_size_x),
        cell_count(height, cell_size_y),
    );
    assert forall|i: int| 0 <= i < a.len() implies a[i] == b[i] by {
        lemma_index_splits(width, height, i);
        let x = i % width;
        let y = i / width;
        let at = pixel_coord(grid, width, height, cell_size_x, cell_size_y, x, y);
        assert(a[y * width + x] == at);
        assert(b[y * width + x] == at);
    }
    assert(a =~= b);
}

/// Along one axis the normalized coordinate lies strictly between 0 and 1
/// exactly when the sample does not overshoot. It is always more than 0.
pub proof fn lemma_axis_coord_range(extent: int, cell_size: int, pos: int, mapped: int)
    requires
        1 <= extent <= usize::MAX,
        1 <= cell_size <= usize::MAX,
        0 <= pos < extent,
        0 <= mapped < cell_count(extent, cell_size),
    ensures
        0 < 2 * axis_coord(extent, cell_size, pos, mapped).scaled_position() + axis_coord(
            extent,
            cell_size,
            pos,
            mapped,
        ).scale_den,
        axis_coord(extent, cell_size, pos, mapped).in_unit_interval(extent) <==> !overshoots(
            extent,
            cell_size,
            pos,
            mapped,
        ),
{
    lemma_cell_geometry(extent, cell_size);
    lemma_cell_of_pixel(extent, cell_size, pos);
    let n = cell_count(extent, cell_size);
    let l = last_cell_origin(extent, cell_size);
    let s = last_cell_size(extent, cell_size);
    let o = pos % cell_size;
    let c = axis_coord(extent, cell_size, pos, mapped);
    let base = mapped * cell_size;
    assert(0 <= base <= l && (mapped <= n - 2 ==> base + cell_size <= l)) by (nonlinear_arith)
        requires
            0 <= mapped <= n - 1,
            cell_size >= 1,
            l == (n - 1) * cell_size,
            base == mapped * cell_size,
    ;
    assert(c.origin == base);
    assert(0 <= o < cell_size);
    assert(c.offset == o);
    if pos >= l {
        assert(c.scale_num == cell_size);
        assert(c.scale_den == s);
        let p = c.scaled_position();
        assert(p == base * s + o * cell_size);
        assert(p >= 0) by (nonlinear_arith)
            requires
                p == base * s + o * cell_size,
                base >= 0,
                s >= 1,
                o >= 0,
                cell_size >= 1,
        ;
        if mapped == n - 1 {
            assert((2 * p + s < 2 * s * extent) <==> (2 * o * cell_size + s < 2 * s * s))
                by (nonlinear_arith)
                requires
                    p == base * s + o * cell_size,
                    base == l,
                    extent == l + s,
            ;
        } else {
            assert(2 * p + s < 2 * s * extent) by (nonlinear_arith)
                requires
                    p == base * s + o * cell_size,
                    0 <= base,
                    base + cell_size <= l,
                    extent == l + s,
                    0 <= o < s,
                    1 <= s,
                    1 <= cell_size,
            ;
        }
    } else {
        assert(c.scale_num == 1);
        assert(c.scale_den == 1);
        assert(c.scaled_position() == base + o) by (nonlinear_arith)
            requires
                c.scaled_position() == base * 1 + o * 1,
        ;
        assert(2 * 1 * extent == 2 * extent);
    }
}

/// Where the extent is a multiple of the cell size, no sample overshoots.
pub proof fn lemma_even_axis_in_unit_interval(extent: int, cell_size: int, pos: int, mapped: int)
    requires
        1 <= extent <= usize::MAX,
        1 <= cell_size <= usize::MAX,
        extent % cell_size == 0,
        0 <= pos < extent,
        0 <= mapped < cell_count(extent, cell_size),
    ensures
        axis_coord(extent, cell_size, pos, mapped).in_unit_interval(extent),
{
    lemma_cell_geometry(extent, cell_size);
    lemma_cell_of_pixel(extent, cell_size, pos);
    lemma_axis_coord_range(extent, cell_size, pos, mapped);
    let o = pos % cell_size;
    assert(2 * o * cell_size + cell_size < 2 * cell_size * cell_size) by (nonlinear_arith)
        requires
            0 <= o < cell_size,
    ;
}

/// The coordinate of a pixel of the field lies strictly inside the unit
/// square exactly when the sample overshoots on neither axis.
pub proof fn lemma_uv_field_range(
    field: Seq<PixelCoord>,
    seed: u32,
    width: int,
    height: int,
    cell_size_x: int,
    cell_size_y: int,
    x: int,
    y: int,
)
    requires
        width >= 1,
        height >= 1,
        1 <= cell_size_x <= usize::MAX,
        1 <= cell_size_y <= usize::MAX,
        width * height <= usize::MAX,
        is_uv_field(field, seed, width, height, cell_size_x, cell_size_y),
        0 <= x < width,
        0 <= y < height,
    ensures
        ({
            let grid = shuffled_grid(
                seed,
                cell_count(width, cell_size_x),
                cell_count(height, cell_size_y),
            );
            let cell = grid[(y / cell_size_y) * cell_count(width, cell_size_x) + x / cell_size_x];
            let at = field[y * width + x];
            &&& cell.0 < cell_count(width, cell_size_x)
            &&& cell.1 < cell_count(height, cell_size_y)
            &&& at.u.in_unit_interval(width) <==> !overshoots(width, cell_size_x, x, cell.0 as int)
            &&& at.v.in_unit_interval(height) <==> !overshoots(
                height,
                cell_size_y,
                y,
                cell.1 as int,
            )
        }),
{
    let nx = cell_count(width, cell_size_x);
    let ny = cell_count(height, cell_size_y);
    let grid = shuffled_grid(seed, nx, ny);
    lemma_cell_geometry(width, cell_size_x);
    lemma_cell_geometry(height, cell_size_y);
    lemma_cell_index(width, height, cell_size_x, cell_size_y, x, y);
    lemma_shuffled_grid_is_bijection(seed, nx, ny);
    lemma_side_fits(width, height);
    let cell = grid[(y / cell_size_y) * nx + x / cell_size_x];
    assert(field[y * width + x] == pixel_coord(
        grid,
        width,
        height,
        cell_size_x,
        cell_size_y,
        x,
        y,
    ));
    lemma_axis_coord_range(width, cell_size_x, x, cell.0 as int);
    lemma_axis_coord_range(height, cell_size_y, y, cell.1 as int);
}

/// Where both sides of the image are multiples of the cell sizes, the
/// coordinate of every pixel lies strictly inside the unit square.
pub proof fn lemma_even_uv_pixel_in_unit_square(
    field: Seq<PixelCoord>,
    seed: u32,
    width: int,
    height: int,
    cell_size_x: int,
    cell_size_y: int,
    x: int,
    y: int,
)
    requires
        width >= 1,
        height >= 1,
        1 <= cell_size_x <= usize::MAX,
        1 <= cell_size_y <= usize::MAX,
        width * height <= usize::MAX,
        width % cell_size_x == 0,
        height % cell_size_y == 0,
        is_uv_field(field, seed, width, height, cell_size_x, cell_size_y),
        0 <= x < width,
        0 <= y < height,
    ensures
        field[y * width + x].u.in_unit_interval(width),
        field[y * width + x].v.in_unit_interval(height),
{
    let nx = cell_count(width, cell_size_x);
    let ny = cell_count(height, cell_size_y);
    let grid = shuffled_grid(seed, nx, ny);
    lemma_cell_geometry(width, cell_size_x);
    lemma_cell_geometry(height, cell_size_y);
    lemma_cell_index(width, height, cell_size_x, cell_size_y, x, y);
    lemma_shuffled_grid_is_bijection(seed, nx, ny);
    lemma_side_fits(width, height);
    let cell = grid[(y / cell_size_y) * nx + x / cell_size_x];
    assert(field[y * width + x] == pixel_coord(
        grid,
        width,
        height,
        cell_size_x,
        cell_size_y,
        x,
        y,
    ));
    lemma_even_axis_in_unit_interval(width, cell_size_x, x, cell.0 as int);
    lemma_even_axis_in_unit_interval(height, cell_size_y, y, cell.1 as int);
}

/// Where both sides of the image are multiples of the cell sizes, every
/// coordinate of the field lies strictly inside the unit square.
pub proof fn lemma_even_uv_field_in_unit_square(
    field: Seq<PixelCoord>,
    seed: u32,
    width: int,
    height: int,
    cell_size_x: int,
    cell_size_y: int,
)
    requires
        width >= 1,
        height >= 1,
        1 <= cell_size_x <= usize::MAX,
        1 <= cell_size_y <= usize::MAX,
        width * height <= usize::MAX,
        width % cell_size_x == 0,
        height % cell_size_y == 0,
        is_uv_field(field, seed, width, height, cell_size_x, cell_size_y),
    ensures
        forall|i: int|
            0 <= i < field.len() ==> (#[trigger] field[i]).u.in_unit_interval(width)
                && field[i].v.in_unit_interval(height),
{
    assert forall|i: int| 0 <= i < field.len() implies (#[trigger] field[i]).u.in_unit_interval(
        width,
    ) && field[i].v.in_unit_interval(height) by {
        lemma_index_splits(width, height, i);
        lemma_even_uv_pixel_in_unit_square(
            field,
            seed,
            width,
            height,
            cell_size_x,
            cell_size_y,
            i % width,
            i / width,
        );
    }
}

/// Where one cell covers the whole image nothing moves, whatever the seed:
/// every pixel samples from its own offset in the only cell.
pub proof fn lemma_single_cell_field(
    field: Seq<PixelCoord>,
    seed: u32,
    width: int,
    height: int,
    cell_size_x: int,
    cell_size_y: int,
    x: int,
    y: int,
)
    requires
        1 <= width <= cell_size_x <= usize::MAX,
        1 <= height <= cell_size_y <= usize::MAX,
        is_uv_field(field, seed, width, height, cell_size_x, cell_size_y),
        0 <= x < width,
        0 <= y < height,
    ensures
        field[y * width + x] == (PixelCoord {
            u: AxisCoord {
                origin: 0,
                offset: x as usize,
                scale_num: cell_size_x as usize,
                scale_den: width as usize,
            },
            v: AxisCoord {
                origin: 0,
                offset: y as usize,
                scale_num: cell_size_y as usize,
                scale_den: height as usize,
            },
        }),
{
    lemma_single_cell(width, cell_size_x, x);
    lemma_single_cell(height, cell_size_y, y);
    let start = identity_grid(1, 1);
    let grid = shuffled_grid(seed, 1, 1);
    lemma_shuffled_single(start, seed);
    assert(grid[0] == (0usize, 0usize));
    assert(field[y * width + x] == pixel_coord(
        grid,
        width,
        height,
        cell_size_x,
        cell_size_y,
        x,
        y,
    ));
}

/// An extent of at most one cell is covered by a single cell, which is also
/// the last one.
pub proof fn lemma_single_cell(extent: int, cell_size: int, pos: int)
    requires
        1 <= extent <= cell_size,
        0 <= pos < extent,
    ensures
        cell_count(extent, cell_size) == 1,
        last_cell_origin(extent, cell_size) == 0,
        last_cell_size(extent, cell_size) == extent,
        pos / cell_size == 0,
        pos % cell_size == pos,
{
    vstd::arithmetic::div_mod::lemma_fundamental_div_mod_converse(
        extent + cell_size - 1,
        cell_size,
        1,
        extent - 1,
    );
    vstd::arithmetic::div_mod::lemma_fundamental_div_mod_converse(pos, cell_size, 0, pos);
}

/// Each side of an image whose area fits the machine's word fits it too.
pub proof fn lemma_side_fits(width: int, height: int)
    by (nonlinear_arith)
    requires
        width >= 1,
        height >= 1,
        width * height <= usize::MAX,
    ensures
        width <= usize::MAX,
        height <= usize::MAX,
{
}

} // verus!
