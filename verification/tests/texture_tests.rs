use uv_map::generate_uv_map_texture;
use uv_map::grid::{shuffled_cell_grid, AxisLayout};
use uv_map::texture::{AxisCoord, PixelCoord};

fn normalized(coord: &AxisCoord, extent: usize) -> f32 {
    let scale = coord.scale_num as f32 / coord.scale_den as f32;
    let position = coord.origin as f32 + coord.offset as f32 * scale;
    (position + 0.5) / extent as f32
}

fn inside(coord: &AxisCoord, extent: usize) -> bool {
    let twice = 2 * (coord.origin * coord.scale_den + coord.offset * coord.scale_num)
        + coord.scale_den;
    0 < twice && twice < 2 * coord.scale_den * extent
}

#[test]
fn boundary_scaling() {
    let columns = AxisLayout::new(18, 16);
    let rows = AxisLayout::new(18, 16);
    assert_eq!(columns.cell_count, 2);
    assert_eq!(rows.cell_count, 2);
    assert_eq!(columns.last_cell_size, 2);
    assert_eq!(rows.last_cell_size, 2);

    let field = generate_uv_map_texture(0, 18, 18, 16, 16);
    assert_eq!(field.len(), 18 * 18);
    let corner = field[17 * 18 + 17];
    assert_eq!(corner.u.scale_num as f32 / corner.u.scale_den as f32, 8.0);
    assert_eq!(corner.v.scale_num as f32 / corner.v.scale_den as f32, 8.0);

    // The last cell of the grid shuffled with seed 0 is the cell (0, 0):
    // the corner's 2 by 2 pixels spread over that cell's 16 by 16.
    let grid = shuffled_cell_grid(0, 2, 2);
    assert_eq!(grid[3], (0, 0));
    assert_eq!(
        corner,
        PixelCoord {
            u: AxisCoord { origin: 0, offset: 1, scale_num: 16, scale_den: 2 },
            v: AxisCoord { origin: 0, offset: 1, scale_num: 16, scale_den: 2 },
        }
    );
    assert_eq!(normalized(&corner.u, 18), 8.5 / 18.0);
    assert_eq!(normalized(&corner.v, 18), 8.5 / 18.0);
    let first = field[16 * 18 + 16];
    assert_eq!(normalized(&first.u, 18), 0.5 / 18.0);
    assert_eq!(normalized(&first.v, 18), 0.5 / 18.0);
}

#[test]
fn boundary_field_with_seed_zero() {
    let field = generate_uv_map_texture(0, 18, 18, 16, 16);
    assert_eq!(
        field[0],
        PixelCoord {
            u: AxisCoord { origin: 16, offset: 0, scale_num: 1, scale_den: 1 },
            v: AxisCoord { origin: 0, offset: 0, scale_num: 1, scale_den: 1 },
        }
    );
    assert_eq!(
        field[16],
        PixelCoord {
            u: AxisCoord { origin: 0, offset: 0, scale_num: 16, scale_den: 2 },
            v: AxisCoord { origin: 16, offset: 0, scale_num: 1, scale_den: 1 },
        }
    );
    assert_eq!(
        field[17 * 18 + 15],
        PixelCoord {
            u: AxisCoord { origin: 16, offset: 15, scale_num: 1, scale_den: 1 },
            v: AxisCoord { origin: 16, offset: 1, scale_num: 16, scale_den: 2 },
        }
    );
}

#[test]
fn full_cell_mapped_to_a_partial_cell_runs_past_the_edge() {
    // With seed 0 the full cell (0, 0) is mapped to the 2-pixel column: its
    // pixels from offset 2 on sample beyond the image's 18 columns.
    let field = generate_uv_map_texture(0, 18, 18, 16, 16);
    assert!(inside(&field[0].u, 18));
    assert!(inside(&field[1].u, 18));
    assert!(!inside(&field[2].u, 18));
    assert!(normalized(&field[2].u, 18) > 1.0);
    assert!(inside(&field[2].v, 18));
    let outside = field.iter().filter(|p| !(inside(&p.u, 18) && inside(&p.v, 18))).count();
    assert_eq!(outside, 282);
}

#[test]
fn single_cell_is_identity() {
    for seed in [0u32, 1, 42, 0xffff_ffff] {
        let field = generate_uv_map_texture(seed, 16, 16, 16, 16);
        assert_eq!(field.len(), 256);
        for y in 0..16usize {
            for x in 0..16usize {
                let at = field[y * 16 + x];
                assert_eq!(
                    at,
                    PixelCoord {
                        u: AxisCoord { origin: 0, offset: x, scale_num: 16, scale_den: 16 },
                        v: AxisCoord { origin: 0, offset: y, scale_num: 16, scale_den: 16 },
                    }
                );
                assert_eq!(normalized(&at.u, 16), (x as f32 + 0.5) / 16.0);
                assert_eq!(normalized(&at.v, 16), (y as f32 + 0.5) / 16.0);
            }
        }
    }
}

#[test]
fn end_to_end_two_cells() {
    let field = generate_uv_map_texture(42, 32, 16, 16, 16);
    assert_eq!(field.len(), 512);

    let grid = shuffled_cell_grid(42, 2, 1);
    assert!(grid == vec![(0, 0), (1, 0)] || grid == vec![(1, 0), (0, 0)]);
    assert_eq!(grid, vec![(1, 0), (0, 0)]);

    for y in 0..16usize {
        for x in 0..32usize {
            let at = field[y * 32 + x];
            assert!(inside(&at.u, 32));
            assert!(inside(&at.v, 16));
            let u = normalized(&at.u, 32);
            let v = normalized(&at.v, 16);
            assert!(0.0 < u && u < 1.0);
            assert!(0.0 < v && v < 1.0);
            let (mapped_x, mapped_y) = grid[x / 16];
            assert_eq!(u, ((mapped_x * 16 + x % 16) as f32 + 0.5) / 32.0);
            assert_eq!(v, ((mapped_y * 16 + y) as f32 + 0.5) / 16.0);
        }
    }
    assert_eq!(
        field[0],
        PixelCoord {
            u: AxisCoord { origin: 16, offset: 0, scale_num: 1, scale_den: 1 },
            v: AxisCoord { origin: 0, offset: 0, scale_num: 16, scale_den: 16 },
        }
    );
    assert_eq!(
        field[15 * 32 + 31],
        PixelCoord {
            u: AxisCoord { origin: 0, offset: 15, scale_num: 16, scale_den: 16 },
            v: AxisCoord { origin: 0, offset: 15, scale_num: 16, scale_den: 16 },
        }
    );
}

#[test]
fn small_uneven_field() {
    let field = generate_uv_map_texture(5, 5, 3, 2, 2);
    assert_eq!(
        shuffled_cell_grid(5, 3, 2),
        vec![(2, 0), (0, 1), (0, 0), (1, 0), (1, 1), (2, 1)]
    );
    let expected: Vec<((usize, usize, usize, usize), (usize, usize, usize, usize))> = vec![
        ((4, 0, 1, 1), (0, 0, 1, 1)),
        ((4, 1, 1, 1), (0, 0, 1, 1)),
        ((0, 0, 1, 1), (2, 0, 1, 1)),
        ((0, 1, 1, 1), (2, 0, 1, 1)),
        ((0, 0, 2, 1), (0, 0, 1, 1)),
        ((4, 0, 1, 1), (0, 1, 1, 1)),
        ((4, 1, 1, 1), (0, 1, 1, 1)),
        ((0, 0, 1, 1), (2, 1, 1, 1)),
        ((0, 1, 1, 1), (2, 1, 1, 1)),
        ((0, 0, 2, 1), (0, 1, 1, 1)),
        ((2, 0, 1, 1), (0, 0, 2, 1)),
        ((2, 1, 1, 1), (0, 0, 2, 1)),
        ((2, 0, 1, 1), (2, 0, 2, 1)),
        ((2, 1, 1, 1), (2, 0, 2, 1)),
        ((4, 0, 2, 1), (2, 0, 2, 1)),
    ];
    let got: Vec<((usize, usize, usize, usize), (usize, usize, usize, usize))> = field
        .iter()
        .map(|p| {
            (
                (p.u.origin, p.u.offset, p.u.scale_num, p.u.scale_den),
                (p.v.origin, p.v.offset, p.v.scale_num, p.v.scale_den),
            )
        })
        .collect();
    assert_eq!(got, expected);
}

#[test]
fn field_follows_the_shuffled_grid() {
    let (seed, width, height, cell_x, cell_y) = (2023u32, 50usize, 35usize, 8usize, 6usize);
    let columns = AxisLayout::new(width, cell_x);
    let rows = AxisLayout::new(height, cell_y);
    let grid = shuffled_cell_grid(seed, columns.cell_count, rows.cell_count);
    let field = generate_uv_map_texture(seed, width, height, cell_x, cell_y);
    assert_eq!(field.len(), width * height);
    for y in 0..height {
        for x in 0..width {
            let (mapped_x, mapped_y) = grid[(y / cell_y) * columns.cell_count + x / cell_x];
            let at = field[y * width + x];
            assert_eq!(at.u, columns.coord(x, mapped_x));
            assert_eq!(at.v, rows.coord(y, mapped_y));
            assert_eq!(at.u.origin, mapped_x * cell_x);
            assert_eq!(at.u.offset, x % cell_x);
            assert_eq!(at.v.origin, mapped_y * cell_y);
            assert_eq!(at.v.offset, y % cell_y);
            if x >= columns.last_cell_origin {
                assert_eq!((at.u.scale_num, at.u.scale_den), (8, 2));
            } else {
                assert_eq!((at.u.scale_num, at.u.scale_den), (1, 1));
            }
            if y >= rows.last_cell_origin {
                assert_eq!((at.v.scale_num, at.v.scale_den), (6, 5));
            } else {
                assert_eq!((at.v.scale_num, at.v.scale_den), (1, 1));
            }
        }
    }
}

#[test]
fn generation_is_deterministic() {
    let a = generate_uv_map_texture(20231, 64, 48, 16, 16);
    let b = generate_uv_map_texture(20231, 64, 48, 16, 16);
    assert_eq!(a, b);
    let c = generate_uv_map_texture(20232, 64, 48, 16, 16);
    assert_eq!(a.len(), c.len());
    assert_ne!(a, c);
}

#[test]
fn even_geometry_stays_inside_the_unit_square() {
    for seed in [0u32, 1, 42, 99999] {
        let field = generate_uv_map_texture(seed, 64, 48, 16, 8);
        assert_eq!(field.len(), 64 * 48);
        for at in &field {
            assert!(inside(&at.u, 64));
            assert!(inside(&at.v, 48));
            let u = normalized(&at.u, 64);
            let v = normalized(&at.v, 48);
            assert!(0.0 < u && u < 1.0);
            assert!(0.0 < v && v < 1.0);
        }
    }
}

#[test]
fn field_is_a_rearrangement_of_the_pixels_when_even() {
    let field = generate_uv_map_texture(7, 12, 8, 4, 4);
    let mut seen = vec![false; 12 * 8];
    for at in &field {
        assert_eq!((at.u.scale_num, at.v.scale_num), (at.u.scale_den, at.v.scale_den));
        let x = at.u.origin + at.u.offset;
        let y = at.v.origin + at.v.offset;
        assert!(x < 12 && y < 8);
        assert!(!seen[y * 12 + x]);
        seen[y * 12 + x] = true;
    }
    assert!(seen.iter().all(|&s| s));
}

#[test]
fn coord_of_a_pixel() {
    let axis = AxisLayout::new(18, 16);
    assert_eq!(
        axis.coord(17, 1),
        AxisCoord { origin: 16, offset: 1, scale_num: 16, scale_den: 2 }
    );
    assert_eq!(
        axis.coord(16, 0),
        AxisCoord { origin: 0, offset: 0, scale_num: 16, scale_den: 2 }
    );
    assert_eq!(
        axis.coord(15, 1),
        AxisCoord { origin: 16, offset: 15, scale_num: 1, scale_den: 1 }
    );
    assert_eq!(
        axis.coord(0, 0),
        AxisCoord { origin: 0, offset: 0, scale_num: 1, scale_den: 1 }
    );
}

#[test]
fn one_pixel_image() {
    let field = generate_uv_map_texture(123, 1, 1, 1, 1);
    assert_eq!(
        field,
        vec![PixelCoord {
            u: AxisCoord { origin: 0, offset: 0, scale_num: 1, scale_den: 1 },
            v: AxisCoord { origin: 0, offset: 0, scale_num: 1, scale_den: 1 },
        }]
    );
    assert_eq!(normalized(&field[0].u, 1), 0.5);
}

#[test]
fn one_pixel_cells() {
    let field = generate_uv_map_texture(3, 4, 3, 1, 1);
    let grid = shuffled_cell_grid(3, 4, 3);
    for y in 0..3usize {
        for x in 0..4usize {
            let at = field[y * 4 + x];
            assert_eq!((at.u.origin, at.v.origin), grid[y * 4 + x]);
            assert_eq!((at.u.offset, at.v.offset), (0, 0));
        }
    }
}
