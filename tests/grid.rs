use kahuna::cube_grid::{invert_delta, CubeGrid};

#[test]
fn invert_delta_negates_each_axis() {
    assert_eq!(invert_delta((1, -2, 0)), (-1, 2, 0));
}

#[test]
fn new_calls_init_in_storage_order() {
    let grid = CubeGrid::new(2, 3, 2, |x, y, z| (x, y, z));
    let coords = grid.coordinate_list();
    assert_eq!(coords.len(), 12);
    assert_eq!(coords[0], (0, 0, 0));
    assert_eq!(coords[1], (1, 0, 0));
    assert_eq!(coords[2], (0, 0, 1));
    assert_eq!(coords[6], (0, 1, 0));
    for c in coords {
        assert_eq!(*grid.index(c), c);
    }
}

#[test]
fn empty_grid_has_no_coordinates() {
    let grid = CubeGrid::new(0, 4, 4, |x, _y, _z| x);
    assert!(grid.coordinate_list().is_empty());
}

#[test]
fn set_replaces_one_cell() {
    let mut grid = CubeGrid::new(2, 2, 2, |_x, _y, _z| 0u32);
    grid.set((1, 1, 0), 7);
    assert_eq!(*grid.index((1, 1, 0)), 7);
    assert_eq!(*grid.index((0, 1, 0)), 0);
    assert_eq!(*grid.index((1, 0, 0)), 0);
}

#[test]
fn neighbors_out_of_bounds_are_none() {
    let grid = CubeGrid::new(3, 3, 3, |_x, _y, _z| 0u8);
    let dirs = vec![(1, 0, 0), (-1, 0, 0), (0, 1, 0), (0, 0, -1)];
    let mut out = vec![None; 5];
    out[4] = Some((9, 9, 9));
    grid.neighbors((2, 0, 1), &dirs, &mut out);
    assert_eq!(out[0], None);
    assert_eq!(out[1], Some((1, 0, 1)));
    assert_eq!(out[2], Some((2, 1, 1)));
    assert_eq!(out[3], Some((2, 0, 0)));
    assert_eq!(out[4], Some((9, 9, 9)));
}

#[test]
fn neighbors_far_offset_does_not_overflow() {
    let grid = CubeGrid::new(1, 1, 1, |_x, _y, _z| 0u8);
    let dirs = vec![(isize::MAX, 0, 0)];
    let mut out = vec![None; 1];
    grid.neighbors((0, 0, 0), &dirs, &mut out);
    assert_eq!(out[0], None);
}

#[test]
fn neighbor_and_inverse_return_to_start() {
    let grid = CubeGrid::new(3, 2, 4, |_x, _y, _z| 0u8);
    let deltas = vec![(1, 0, 0), (0, 0, -1), (-1, 1, 1), (2, 0, 3)];
    for c in grid.coordinate_list() {
        for d in deltas.iter() {
            let mut out = vec![None; 1];
            grid.neighbors(c, &vec![*d], &mut out);
            if let Some(n) = out[0] {
                let mut back = vec![None; 1];
                grid.neighbors(n, &vec![invert_delta(*d)], &mut back);
                assert_eq!(back[0], Some(c));
            }
        }
    }
}
