use grid_rs::grid::{Grid, GridError};
use grid_rs::grid::cell::{Cell, GridCoords};
use grid_rs::mazes::binarytree;
use grid_rs::mazes::sidewinder;
use grid_rs::mazes::solutions::Dijkstra;
use rand::SeedableRng;
use rand::rngs::StdRng;

fn at(col: usize, row: usize) -> GridCoords {
    GridCoords { col_index: col, row_index: row }
}

/// Counts all directed links of a grid and checks each has its reverse.
fn directed_links_all_paired(grid: &Grid) -> usize {
    let mut total = 0;
    for coords in grid.coords() {
        let cell = grid.cell_at(&coords).unwrap();
        for target in grid.links(&cell) {
            total += 1;
            assert!(grid.is_linked(&target.coords(), &coords));
        }
    }
    total
}

/// Checks that a generated maze is a spanning tree over the grid graph:
/// symmetric links, exactly `cells - 1` undirected corridors, no list
/// repeating a target, and every cell reachable from every other.
fn assert_spanning_tree(grid: &Grid) {
    let cells = grid.height() * grid.width();
    assert_eq!(2 * (cells - 1), directed_links_all_paired(grid));
    for coords in grid.coords() {
        let cell = grid.cell_at(&coords).unwrap();
        let targets: Vec<GridCoords> =
            grid.links(&cell).iter().map(|c| c.coords()).collect();
        for i in 0..targets.len() {
            for j in 0..targets.len() {
                if i != j {
                    assert_ne!(targets[i], targets[j]);
                }
            }
        }
    }
    for origin in grid.coords() {
        let field = Dijkstra::new(grid, &origin);
        for coords in grid.coords() {
            assert!(field.distance(&coords).is_some());
        }
    }
}

#[test]
fn grid_new_has_all_cells_and_rows() {
    let grid = Grid::new(4, 7);
    assert_eq!(28, grid.cells().len());
    for col in 0..7 {
        for row in 0..4 {
            assert!(grid.cell_at(&at(col, row)).is_some());
        }
    }
    assert!(grid.cell_at(&at(7, 0)).is_none());
    assert!(grid.cell_at(&at(0, 4)).is_none());
    let rows = grid.rows();
    assert_eq!(4, rows.len());
    for (r, row) in rows.iter().enumerate() {
        assert_eq!(7, row.len());
        for (c, coords) in row.iter().enumerate() {
            assert_eq!(at(c, r), *coords);
        }
    }
    let reversed = grid.rows_reverse();
    assert_eq!(3, reversed[0][0].row_index);
    assert_eq!(0, reversed[3][0].row_index);
}

#[test]
fn neighbors_absent_exactly_at_edges() {
    let grid = Grid::new(10, 10);
    let origin_cell = grid.cell_at(&at(0, 0)).unwrap();
    assert!(grid.south(&origin_cell).is_none());
    assert!(grid.west(&origin_cell).is_none());
    assert_eq!(at(0, 1), grid.north(&origin_cell).unwrap().coords());
    assert_eq!(at(1, 0), grid.east(&origin_cell).unwrap().coords());
    let far_cell = grid.cell_at(&at(9, 9)).unwrap();
    assert!(grid.north(&far_cell).is_none());
    assert!(grid.east(&far_cell).is_none());
    assert_eq!(at(9, 8), grid.south(&far_cell).unwrap().coords());
    assert_eq!(at(8, 9), grid.west(&far_cell).unwrap().coords());
}

#[test]
fn cell_neighbor_coords() {
    let cell = Cell::new(&at(3, 5));
    assert_eq!(at(3, 5), cell.coords());
    assert_eq!(Some(at(3, 6)), cell.north_coords());
    assert_eq!(Some(at(4, 5)), cell.east_coords());
    assert_eq!(Some(at(3, 4)), cell.south_coords());
    assert_eq!(Some(at(2, 5)), cell.west_coords());
    let corner = Cell::new(&at(0, 0));
    assert_eq!(None, corner.south_coords());
    assert_eq!(None, corner.west_coords());
}

#[test]
fn link_bidi_links_both_ways() {
    let mut grid = Grid::new(3, 3);
    grid.link_bidi(&at(1, 1), &at(2, 1)).unwrap();
    assert!(grid.is_linked(&at(1, 1), &at(2, 1)));
    assert!(grid.is_linked(&at(2, 1), &at(1, 1)));
    let links_a: Vec<GridCoords> = grid
        .links(&grid.cell_at(&at(1, 1)).unwrap())
        .iter()
        .map(|c| c.coords())
        .collect();
    assert!(links_a.contains(&at(2, 1)));
    let links_b: Vec<GridCoords> = grid
        .links(&grid.cell_at(&at(2, 1)).unwrap())
        .iter()
        .map(|c| c.coords())
        .collect();
    assert!(links_b.contains(&at(1, 1)));
}

#[test]
fn link_out_of_bounds_fails() {
    let mut grid = Grid::new(2, 2);
    assert_eq!(Err(GridError::OutOfBounds), grid.link(&at(0, 0), &at(2, 0)));
    assert_eq!(Err(GridError::OutOfBounds), grid.link_bidi(&at(5, 5), &at(0, 0)));
    assert_eq!(0, directed_links_all_paired(&grid));
}

#[test]
fn binary_tree_makes_spanning_trees() {
    for seed in 0..5u64 {
        let mut rng = StdRng::seed_from_u64(seed);
        let grid = binarytree::apply_to(Grid::new(6, 4), &mut rng);
        assert_spanning_tree(&grid);
    }
}

#[test]
fn sidewinder_makes_spanning_trees() {
    for seed in 0..5u64 {
        let mut rng = StdRng::seed_from_u64(seed);
        let grid = sidewinder::apply_to(Grid::new(4, 6), &mut rng);
        assert_spanning_tree(&grid);
    }
}

#[test]
fn sidewinder_top_row_is_one_corridor() {
    let mut rng = StdRng::seed_from_u64(11);
    let grid = sidewinder::apply_to(Grid::new(5, 5), &mut rng);
    for col in 0..4 {
        assert!(grid.is_linked(&at(col, 4), &at(col + 1, 4)));
        assert!(grid.is_linked(&at(col + 1, 4), &at(col, 4)));
    }
}

#[test]
fn degenerate_grids_stay_valid() {
    let mut rng = StdRng::seed_from_u64(3);
    let empty = binarytree::apply_to(Grid::new(0, 0), &mut rng);
    assert_eq!(0, empty.cells().len());
    let single = sidewinder::apply_to(Grid::new(1, 1), &mut rng);
    assert_eq!(0, single.links(&single.cell_at(&at(0, 0)).unwrap()).len());
    let line = binarytree::apply_to(Grid::new(1, 5), &mut rng);
    assert_eq!(2 * 4, directed_links_all_paired(&line));
}

#[test]
fn distance_field_counts_hops() {
    let mut grid = Grid::new(1, 3);
    grid.link_bidi(&at(0, 0), &at(1, 0)).unwrap();
    grid.link_bidi(&at(1, 0), &at(2, 0)).unwrap();
    let field = Dijkstra::new(&grid, &at(0, 0));
    assert_eq!(Some(0), field.distance(&at(0, 0)));
    assert_eq!(Some(1), field.distance(&at(1, 0)));
    assert_eq!(Some(2), field.distance(&at(2, 0)));
    assert_eq!(2, field.max_distance());
}

#[test]
fn distance_is_one_more_than_closest_neighbor() {
    let mut rng = StdRng::seed_from_u64(21);
    let grid = sidewinder::apply_to(Grid::new(8, 8), &mut rng);
    let origin = at(3, 2);
    let field = Dijkstra::new(&grid, &origin);
    assert_eq!(Some(0), field.distance(&origin));
    for coords in grid.coords() {
        let d = field.distance(&coords).expect("maze is connected");
        if coords != origin {
            let cell = grid.cell_at(&coords).unwrap();
            let mut closest = None;
            for neighbor in grid.links(&cell) {
                let nd = field.distance(&neighbor.coords()).unwrap();
                if closest.map_or(true, |m| nd < m) {
                    closest = Some(nd);
                }
            }
            assert_eq!(d, closest.unwrap() + 1);
        }
    }
}

#[test]
fn path_to_origin_is_the_origin_alone() {
    let mut rng = StdRng::seed_from_u64(9);
    let grid = binarytree::apply_to(Grid::new(4, 4), &mut rng);
    let origin = at(2, 2);
    let field = Dijkstra::new(&grid, &origin);
    let path = field.shortest_path_to(&grid, &origin).unwrap();
    assert_eq!(vec![origin], path);
}

#[test]
fn unreachable_destination_reports_failure() {
    let grid = Grid::new(2, 2);
    let field = Dijkstra::new(&grid, &at(0, 0));
    assert_eq!(Err(GridError::Unreachable), field.shortest_path_to(&grid, &at(1, 1)));
    assert_eq!(Err(GridError::Unreachable), field.shortest_path_to(&grid, &at(9, 9)));
}

#[test]
fn stale_field_reports_inconsistency() {
    let mut linked = Grid::new(1, 2);
    linked.link_bidi(&at(0, 0), &at(1, 0)).unwrap();
    let field = Dijkstra::new(&linked, &at(0, 0));
    let unlinked = Grid::new(1, 2);
    assert_eq!(
        Err(GridError::InconsistentState),
        field.shortest_path_to(&unlinked, &at(1, 0))
    );
}

#[test]
fn solved_maze_end_to_end() {
    let mut rng = StdRng::seed_from_u64(1234);
    let grid = sidewinder::apply_to(Grid::new(10, 10), &mut rng);
    let start = at(0, 0);
    let goal = at(9, 9);
    let field = Dijkstra::new(&grid, &start);
    let path = field.shortest_path_to(&grid, &goal).unwrap();
    assert_eq!(goal, path[0]);
    assert_eq!(start, path[path.len() - 1]);
    for pair in path.windows(2) {
        assert!(grid.is_linked(&pair[0], &pair[1]));
        assert!(grid.is_linked(&pair[1], &pair[0]));
    }
    let goal_distance = field.distance(&goal).unwrap();
    assert_eq!(goal_distance + 1, path.len());
}

#[test]
fn rand_cell_stays_in_bounds() {
    let grid = Grid::new(3, 5);
    let mut rng = StdRng::seed_from_u64(77);
    for _ in 0..20 {
        let cell = grid.rand_cell(&mut rng);
        assert!(cell.coords().col_index < 5);
        assert!(cell.coords().row_index < 3);
    }
}

#[test]
fn text_rendering_draws_walls_and_openings() {
    let single = Grid::new(1, 1);
    assert_eq!("+---+\n|   |\n+---+\n", single.to_text());

    let mut grid = Grid::new(2, 2);
    grid.link_bidi(&at(0, 0), &at(0, 1)).unwrap();
    assert_eq!(
        "+---+---+\n|   |   |\n+   +---+\n|   |   |\n+---+---+\n",
        grid.to_text()
    );

    let mut wide = Grid::new(1, 2);
    wide.link_bidi(&at(0, 0), &at(1, 0)).unwrap();
    assert_eq!("+---+---+\n|       |\n+---+---+\n", wide.to_text());
}

#[test]
fn linking_twice_stores_one_link() {
    let mut grid = Grid::new(3, 3);
    grid.link(&at(0, 0), &at(1, 0)).unwrap();
    grid.link(&at(0, 0), &at(1, 0)).unwrap();
    assert_eq!(1, grid.links(&grid.cell_at(&at(0, 0)).unwrap()).len());
    grid.link_bidi(&at(0, 0), &at(1, 0)).unwrap();
    grid.link_bidi(&at(0, 0), &at(1, 0)).unwrap();
    assert_eq!(1, grid.links(&grid.cell_at(&at(0, 0)).unwrap()).len());
    assert_eq!(1, grid.links(&grid.cell_at(&at(1, 0)).unwrap()).len());
    assert_eq!(2, directed_links_all_paired(&grid));

    let mut single = Grid::new(1, 1);
    single.link_bidi(&at(0, 0), &at(0, 0)).unwrap();
    single.link_bidi(&at(0, 0), &at(0, 0)).unwrap();
    assert_eq!(1, single.links(&single.cell_at(&at(0, 0)).unwrap()).len());
}
