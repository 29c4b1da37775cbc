use flowfield::cost::Cost;
use flowfield::debug::DebugPlugin;
use flowfield::field::{FlowField, NavError, WorldPoint};
use flowfield::flow::FlowVec;
use flowfield::grid::GridPos;
use flowfield::obstacle::BoxObstacle;

fn pos(x: usize, y: usize) -> GridPos {
    GridPos { x, y }
}

/// A 10x10-cell grid (50x50 world units at 5 units per cell), no
/// obstacles, one source in the middle.
fn open_field() -> FlowField {
    let mut f = FlowField::new(50, 50).unwrap();
    f.build(&vec![pos(5, 5)], &vec![]).unwrap();
    f
}

fn cost_value(c: &Cost) -> f32 {
    c.ortho as f32 + c.diag as f32 * 2f32.sqrt()
}

#[test]
fn grid_dimensions_round_up() {
    let f = FlowField::new(50, 50).unwrap();
    assert_eq!(f.size_x(), 10);
    assert_eq!(f.size_y(), 10);
    let g = FlowField::new(1280, 720).unwrap();
    assert_eq!(g.size_x(), 256);
    assert_eq!(g.size_y(), 144);
    let h = FlowField::new(101, 99).unwrap();
    assert_eq!(h.size_x(), 21);
    assert_eq!(h.size_y(), 20);
}

#[test]
fn new_rejects_bad_dimensions() {
    assert_eq!(FlowField::new(0, 50).err(), Some(NavError::ZeroDimension));
    assert_eq!(FlowField::new(50, 0).err(), Some(NavError::ZeroDimension));
    assert_eq!(FlowField::new(25000, 50).err(), Some(NavError::WorldTooLarge));
    assert_eq!(FlowField::new(50, 25000).err(), Some(NavError::WorldTooLarge));
    assert!(FlowField::new(20000, 20000).is_ok());
}

#[test]
fn build_rejects_empty_sources() {
    let mut f = FlowField::new(50, 50).unwrap();
    assert_eq!(f.build(&vec![], &vec![]), Err(NavError::NoSources));
}

#[test]
fn build_rejects_out_of_bounds_source_and_keeps_field() {
    let mut f = open_field();
    let before: Vec<Option<Cost>> = (0..10)
        .flat_map(|x| (0..10).map(move |y| (x, y)))
        .map(|(x, y)| f.cost_at(&pos(x, y)))
        .collect();
    assert_eq!(
        f.build(&vec![pos(5, 5), pos(10, 3)], &vec![]),
        Err(NavError::SourceOutOfBounds)
    );
    let after: Vec<Option<Cost>> = (0..10)
        .flat_map(|x| (0..10).map(move |y| (x, y)))
        .map(|(x, y)| f.cost_at(&pos(x, y)))
        .collect();
    assert_eq!(before, after);
}

#[test]
fn source_cell_cost_is_zero() {
    let f = open_field();
    assert_eq!(f.cost_at(&pos(5, 5)), Some(Cost { ortho: 0, diag: 0 }));
}

#[test]
fn open_field_corner_cost_is_discovered_path_length() {
    let f = open_field();
    // The wavefront reaches the corner along the diagonal: five steps of
    // length sqrt(2).
    assert_eq!(f.cost_at(&pos(0, 0)), Some(Cost { ortho: 0, diag: 5 }));
    let v = cost_value(&f.cost_at(&pos(0, 0)).unwrap());
    assert!((v - 5.0 * 2f32.sqrt()).abs() < 1e-5);
}

#[test]
fn open_field_every_cell_reached_and_guided() {
    let f = open_field();
    for x in 0..10 {
        for y in 0..10 {
            let c = f.cost_at(&pos(x, y));
            assert!(c.is_some(), "cell ({x},{y}) unreached");
            let v = f.sample(&pos(x, y));
            assert!(v.dx != 0 || v.dy != 0, "cell ({x},{y}) has no direction");
        }
    }
}

#[test]
fn costs_are_non_negative() {
    let f = open_field();
    for x in 0..10 {
        for y in 0..10 {
            if let Some(c) = f.cost_at(&pos(x, y)) {
                assert!(cost_value(&c) >= 0.0);
            }
        }
    }
}

#[test]
fn non_zero_flow_normalizes_to_unit_length() {
    let f = open_field();
    for x in 0..10 {
        for y in 0..10 {
            let v = f.sample(&pos(x, y));
            if v.dx != 0 || v.dy != 0 {
                let (fx, fy) = (v.dx as f32, v.dy as f32);
                let norm = (fx * fx + fy * fy).sqrt();
                let (ux, uy) = (fx / norm, fy / norm);
                let len = (ux * ux + uy * uy).sqrt();
                assert!((len - 1.0).abs() < 1e-5);
            }
        }
    }
}

#[test]
fn flow_components_stay_in_offset_range() {
    let f = open_field();
    for x in 0..10 {
        for y in 0..10 {
            let v = f.sample(&pos(x, y));
            assert!((-1..=1).contains(&v.dx));
            assert!((-1..=1).contains(&v.dy));
        }
    }
}

#[test]
fn rebuilding_twice_gives_identical_fields() {
    let sources = vec![pos(2, 7), pos(8, 1)];
    let obstacles = vec![BoxObstacle {
        center_x: 25,
        center_y: 25,
        half_width: 4,
        half_height: 9,
    }];
    let mut f1 = FlowField::new(50, 50).unwrap();
    f1.build(&sources, &obstacles).unwrap();
    let mut f2 = FlowField::new(50, 50).unwrap();
    f2.build(&sources, &obstacles).unwrap();
    for x in 0..10 {
        for y in 0..10 {
            assert_eq!(f1.cost_at(&pos(x, y)), f2.cost_at(&pos(x, y)));
            assert_eq!(f1.sample(&pos(x, y)), f2.sample(&pos(x, y)));
        }
    }
    // And rebuilding the same engine once more changes nothing either.
    let snap: Vec<(Option<Cost>, FlowVec)> = (0..10)
        .flat_map(|x| (0..10).map(move |y| (x, y)))
        .map(|(x, y)| (f1.cost_at(&pos(x, y)), f1.sample(&pos(x, y))))
        .collect();
    f1.build(&sources, &obstacles).unwrap();
    let snap2: Vec<(Option<Cost>, FlowVec)> = (0..10)
        .flat_map(|x| (0..10).map(move |y| (x, y)))
        .map(|(x, y)| (f1.cost_at(&pos(x, y)), f1.sample(&pos(x, y))))
        .collect();
    assert_eq!(snap, snap2);
}

#[test]
fn blocked_block_keeps_sentinel() {
    // One obstacle covering exactly the cells (2..=4, 2..=4).
    let mut f = FlowField::new(50, 50).unwrap();
    let block = BoxObstacle {
        center_x: 15,
        center_y: 15,
        half_width: 5,
        half_height: 5,
    };
    f.build(&vec![pos(0, 0)], &vec![block]).unwrap();
    for x in 2..=4 {
        for y in 2..=4 {
            assert_eq!(f.cost_at(&pos(x, y)), None, "cell ({x},{y})");
        }
    }
    // Only the cell strictly inside the block has no costed neighbor at
    // all; the block's rim cells still see the field outside.
    assert_eq!(f.sample(&pos(3, 3)), FlowVec { dx: 0, dy: 0 });
    // Cells outside the block are reached.
    assert!(f.cost_at(&pos(9, 9)).is_some());
    assert!(f.cost_at(&pos(1, 2)).is_some());
}

#[test]
fn walled_off_interior_keeps_sentinel_and_zero_flow() {
    // Four thin walls enclosing cell (3, 3); the ring cells are (2..=4,
    // 2..=4) except the middle, which stays free but unreachable.
    let mut f = FlowField::new(50, 50).unwrap();
    let walls = vec![
        BoxObstacle { center_x: 15, center_y: 10, half_width: 5, half_height: 0 },
        BoxObstacle { center_x: 15, center_y: 20, half_width: 5, half_height: 0 },
        BoxObstacle { center_x: 10, center_y: 15, half_width: 0, half_height: 5 },
        BoxObstacle { center_x: 20, center_y: 15, half_width: 0, half_height: 5 },
    ];
    f.build(&vec![pos(0, 0)], &walls).unwrap();
    assert_eq!(f.cost_at(&pos(3, 3)), None);
    assert_eq!(f.sample(&pos(3, 3)), FlowVec { dx: 0, dy: 0 });
    // The ring itself is blocked and so also unreached.
    assert_eq!(f.cost_at(&pos(2, 3)), None);
    // The outside is reached.
    assert!(f.cost_at(&pos(5, 3)).is_some());
    assert!(f.cost_at(&pos(9, 9)).is_some());
}

#[test]
fn world_to_cell_boundary() {
    // A 100x100-unit world with 5-unit cells: a 20x20 grid.
    let f = FlowField::new(100, 100).unwrap();
    assert_eq!(f.size_x(), 20);
    assert_eq!(f.size_y(), 20);
    assert_eq!(
        f.trans_to_grid(&WorldPoint { x_milli: 99900, y_milli: 99900 }),
        Some(pos(19, 19))
    );
    assert_eq!(f.trans_to_grid(&WorldPoint { x_milli: 100000, y_milli: 0 }), None);
    assert_eq!(f.trans_to_grid(&WorldPoint { x_milli: -100, y_milli: 500 }), None);
    assert_eq!(f.trans_to_grid(&WorldPoint { x_milli: 0, y_milli: 0 }), Some(pos(0, 0)));
    if let Some(p) = f.trans_to_grid(&WorldPoint { x_milli: 42421, y_milli: 7999 }) {
        assert!(f.in_bound(&p));
        assert_eq!(p, pos(8, 1));
    } else {
        panic!("in-world point mapped out of bounds");
    }
    assert!(!f.in_bound(&pos(20, 0)));
    assert!(!f.in_bound(&pos(0, 20)));
    assert!(f.in_bound(&pos(19, 19)));
}

#[test]
fn multiple_sources_cost_from_nearest_wavefront() {
    let mut f = FlowField::new(50, 50).unwrap();
    f.build(&vec![pos(0, 0), pos(9, 9)], &vec![]).unwrap();
    assert_eq!(f.cost_at(&pos(0, 0)), Some(Cost { ortho: 0, diag: 0 }));
    assert_eq!(f.cost_at(&pos(9, 9)), Some(Cost { ortho: 0, diag: 0 }));
    // Each diagonal cell is reached by the wavefront of its nearer source.
    assert_eq!(f.cost_at(&pos(4, 4)), Some(Cost { ortho: 0, diag: 4 }));
    assert_eq!(f.cost_at(&pos(5, 5)), Some(Cost { ortho: 0, diag: 4 }));
}

#[test]
fn reset_replaces_dimensions_and_clears_fields() {
    let mut f = open_field();
    assert!(f.cost_at(&pos(5, 5)).is_some());
    f.reset(100, 25).unwrap();
    assert_eq!(f.size_x(), 20);
    assert_eq!(f.size_y(), 5);
    for x in 0..20 {
        for y in 0..5 {
            assert_eq!(f.cost_at(&pos(x, y)), None);
            assert_eq!(f.sample(&pos(x, y)), FlowVec { dx: 0, dy: 0 });
        }
    }
    assert_eq!(f.reset(0, 10), Err(NavError::ZeroDimension));
    assert_eq!(f.size_x(), 20, "failed reset must leave the engine as it was");
}

#[test]
fn non_square_grid_build_and_query() {
    // A 100x25-unit world: a 20x5 grid, so x and y indexing differ.
    let mut f = FlowField::new(100, 25).unwrap();
    assert_eq!(f.size_x(), 20);
    assert_eq!(f.size_y(), 5);
    f.build(&vec![pos(17, 2)], &vec![]).unwrap();
    assert_eq!(f.cost_at(&pos(17, 2)), Some(Cost { ortho: 0, diag: 0 }));
    for x in 0..20 {
        for y in 0..5 {
            assert!(f.cost_at(&pos(x, y)).is_some(), "cell ({x},{y}) unreached");
        }
    }
    // Two diagonal steps away along both axes.
    assert_eq!(f.cost_at(&pos(15, 4)), Some(Cost { ortho: 0, diag: 2 }));
    let marks = DebugPlugin::cell_marks(&f);
    assert_eq!(marks.len(), 100);
    assert_eq!(marks[17 * 5 + 2], b's');
    // A point three quarters across and near the bottom of the world.
    assert_eq!(
        f.trans_to_grid(&WorldPoint { x_milli: 75000, y_milli: 4999 }),
        Some(pos(15, 0))
    );
    assert_eq!(f.trans_to_grid(&WorldPoint { x_milli: 75000, y_milli: 25000 }), None);
}

#[test]
fn neighbors_of_corner_and_middle() {
    let f = FlowField::new(50, 50).unwrap();
    let mut corner = f.neighbors(&pos(0, 0));
    corner.sort_by_key(|p| (p.x, p.y));
    assert_eq!(corner, vec![pos(0, 1), pos(1, 0), pos(1, 1)]);
    let middle = f.neighbors(&pos(5, 5));
    assert_eq!(middle.len(), 8);
    for p in &middle {
        assert_ne!(*p, pos(5, 5));
        assert!(p.x.abs_diff(5) <= 1 && p.y.abs_diff(5) <= 1);
    }
}

#[test]
fn grid_pos_from_pair() {
    assert_eq!(GridPos::from((3, 4)), pos(3, 4));
    let p: GridPos = (0, 9).into();
    assert_eq!(p, pos(0, 9));
}

#[test]
fn distance_sq_is_euclidean() {
    assert_eq!(pos(0, 0).distance_sq(&pos(3, 4)), 25);
    assert_eq!(pos(7, 7).distance_sq(&pos(6, 6)), 2);
    assert_eq!(pos(7, 7).distance_sq(&pos(7, 6)), 1);
    assert_eq!(pos(2, 9).distance_sq(&pos(2, 9)), 0);
}

#[test]
fn small_obstacle_blocks_only_overlapped_cells() {
    // A 4x4-unit box centered on (25, 0) overlaps only the footprint of
    // cell (5, 0): cell (4, 0) ends at x = 22.5, the box starts at x = 23.
    let mut f = FlowField::new(50, 50).unwrap();
    let o = BoxObstacle { center_x: 25, center_y: 0, half_width: 2, half_height: 2 };
    f.build(&vec![pos(0, 0)], &vec![o]).unwrap();
    assert_eq!(f.cost_at(&pos(5, 0)), None);
    assert!(f.cost_at(&pos(4, 0)).is_some());
    assert!(f.cost_at(&pos(6, 0)).is_some());
    assert!(f.cost_at(&pos(5, 1)).is_some());
}

#[test]
fn diagonal_only_neighbor_gives_no_guidance() {
    // The flow deriver skips the offsets (-1,-1) and (1,1). A cell whose
    // only costed neighbors sit on those diagonals keeps the zero offset
    // even though it was reached: cell (1, 1) is reached diagonally from
    // the source (0, 0), but its six examined offsets are all blocked.
    let mut f = FlowField::new(50, 50).unwrap();
    let block_cell = |x: i64, y: i64| BoxObstacle {
        center_x: 5 * x,
        center_y: 5 * y,
        half_width: 0,
        half_height: 0,
    };
    let walls = vec![
        block_cell(0, 1),
        block_cell(0, 2),
        block_cell(1, 0),
        block_cell(1, 2),
        block_cell(2, 0),
        block_cell(2, 1),
    ];
    f.build(&vec![pos(0, 0)], &walls).unwrap();
    assert_eq!(f.cost_at(&pos(1, 1)), Some(Cost { ortho: 0, diag: 1 }));
    assert_eq!(f.sample(&pos(1, 1)), FlowVec { dx: 0, dy: 0 });
    let marks = DebugPlugin::cell_marks(&f);
    assert_eq!(marks[1 * 10 + 1], b'o');
    assert_eq!(marks[0], b's');
}

#[test]
fn debug_marks_single_source() {
    let f = open_field();
    let marks = DebugPlugin::cell_marks(&f);
    assert_eq!(marks.len(), 100);
    for (i, m) in marks.iter().enumerate() {
        if i == 5 * 10 + 5 {
            assert_eq!(*m, b's');
        } else {
            assert_eq!(*m, b'+');
        }
    }
}
