use maze_progs::carving::{
    can_build_new_square, carve_path_walls, generate_direction, is_square_within_perimeter_walls,
    join_squares,
};
use maze_progs::grid::{
    fill_maze_with_walls, Maze, Point, BUILDER_BIT, EAST_WALL, NORTH_WALL, PATH_BIT, SOUTH_WALL,
    WEST_WALL,
};
use maze_progs::hunt_kill::{generate_maze, start_point, BuildStep, HuntKill, Phase};

fn walled(rows: i32, cols: i32) -> Maze {
    let mut m = Maze::new(rows, cols);
    fill_maze_with_walls(&mut m);
    m
}

fn is_path(m: &Maze, r: i32, c: i32) -> bool {
    m.get(r, c) & PATH_BIT != 0
}

fn is_built(m: &Maze, r: i32, c: i32) -> bool {
    m.get(r, c) & BUILDER_BIT != 0
}

/// Checks what every generated maze must satisfy; returns the number of lattice squares.
fn check_perfect(m: &Maze) -> usize {
    let rows = m.row_size();
    let cols = m.col_size();
    let mut cells = 0;
    let mut passages = 0;
    for r in 0..rows {
        for c in 0..cols {
            let inside = r > 0 && r < rows - 1 && c > 0 && c < cols - 1;
            let cell = inside && r % 2 == 1 && c % 2 == 1;
            assert_eq!(is_path(m, r, c), is_built(m, r, c));
            if cell {
                cells += 1;
                assert!(is_path(m, r, c), "cell {} {} not carved", r, c);
            } else if is_path(m, r, c) {
                assert!(inside);
                assert!(r % 2 == 1 || c % 2 == 1);
                passages += 1;
            }
        }
    }
    assert_eq!(passages + 1, cells);
    cells
}

#[test]
fn fill_walls_joins_every_square_to_its_neighbours() {
    let mut m = Maze::new(3, 4);
    m.set(1, 1, PATH_BIT | BUILDER_BIT | 0xF0);
    fill_maze_with_walls(&mut m);
    assert_eq!(m.get(0, 0), SOUTH_WALL | EAST_WALL);
    assert_eq!(m.get(0, 3), SOUTH_WALL | WEST_WALL);
    assert_eq!(m.get(1, 1), NORTH_WALL | SOUTH_WALL | EAST_WALL | WEST_WALL);
    assert_eq!(m.get(2, 2), NORTH_WALL | EAST_WALL | WEST_WALL);
    assert_eq!(m.get(1, 0), NORTH_WALL | SOUTH_WALL | EAST_WALL);
}

#[test]
fn single_square_fill_has_no_walls() {
    let mut m = Maze::new(1, 1);
    fill_maze_with_walls(&mut m);
    assert_eq!(m.get(0, 0), 0);
}

#[test]
fn carving_opens_neighbour_walls() {
    let mut m = walled(3, 3);
    carve_path_walls(&mut m, Point { row: 1, col: 1 });
    assert_eq!(m.get(1, 1), 0b1111 | PATH_BIT | BUILDER_BIT);
    assert_eq!(m.get(0, 1), EAST_WALL | WEST_WALL);
    assert_eq!(m.get(2, 1), EAST_WALL | WEST_WALL);
    assert_eq!(m.get(1, 0), NORTH_WALL | SOUTH_WALL);
    assert_eq!(m.get(1, 2), NORTH_WALL | SOUTH_WALL);
    assert_eq!(m.get(0, 0), SOUTH_WALL | EAST_WALL);
}

#[test]
fn joining_carves_the_wall_between() {
    let mut m = walled(5, 7);
    join_squares(&mut m, Point { row: 1, col: 1 }, Point { row: 1, col: 3 });
    for c in 1..4 {
        assert!(is_path(&m, 1, c) && is_built(&m, 1, c));
    }
    assert!(!is_path(&m, 1, 4));
    assert!(!is_path(&m, 2, 1));
    join_squares(&mut m, Point { row: 3, col: 5 }, Point { row: 1, col: 5 });
    assert!(is_path(&m, 2, 5) && is_path(&m, 3, 5) && is_path(&m, 1, 5));
    assert!(!is_path(&m, 1, 4));
}

#[test]
fn perimeter_and_build_checks() {
    let mut m = walled(5, 5);
    assert!(is_square_within_perimeter_walls(&m, Point { row: 1, col: 3 }));
    assert!(!is_square_within_perimeter_walls(&m, Point { row: 4, col: 3 }));
    assert!(!is_square_within_perimeter_walls(&m, Point { row: -1, col: 3 }));
    assert!(can_build_new_square(&m, Point { row: 3, col: 3 }));
    carve_path_walls(&mut m, Point { row: 3, col: 3 });
    assert!(!can_build_new_square(&m, Point { row: 3, col: 3 }));
    assert!(!can_build_new_square(&m, Point { row: 0, col: 3 }));
}

#[test]
fn directions_are_north_east_south_west() {
    assert_eq!(generate_direction(0), Point { row: -2, col: 0 });
    assert_eq!(generate_direction(1), Point { row: 0, col: 2 });
    assert_eq!(generate_direction(2), Point { row: 2, col: 0 });
    assert_eq!(generate_direction(3), Point { row: 0, col: -2 });
}

#[test]
fn start_point_rounds_to_odd() {
    assert_eq!(start_point(1, 2), Point { row: 1, col: 3 });
    assert_eq!(start_point(4, 5), Point { row: 5, col: 5 });
}

#[test]
fn walk_takes_first_open_direction() {
    let mut m = walled(5, 5);
    let mut b = HuntKill::new(Point { row: 1, col: 1 });
    // north and west lead out of the perimeter; east is tried before south
    let s = b.step(&mut m, &vec![0, 3, 1, 2]);
    assert_eq!(s, BuildStep::Carved { from: Point { row: 1, col: 1 }, to: Point { row: 1, col: 3 } });
    assert_eq!(b.cur, Point { row: 1, col: 3 });
    assert_eq!(b.phase, Phase::Walking);
    assert!(is_path(&m, 1, 2));
    let s = b.step(&mut m, &vec![2, 0, 1, 3]);
    assert_eq!(s, BuildStep::Carved { from: Point { row: 1, col: 3 }, to: Point { row: 3, col: 3 } });
    let s = b.step(&mut m, &vec![0, 1, 2, 3]);
    assert_eq!(s, BuildStep::Carved { from: Point { row: 3, col: 3 }, to: Point { row: 3, col: 1 } });
    // every neighbour of (3, 1) is built or outside
    let s = b.step(&mut m, &vec![0, 1, 2, 3]);
    assert_eq!(s, BuildStep::Stuck);
    assert_eq!(b.phase, Phase::Hunting { row: 1, highest_set: false });
    let s = b.step(&mut m, &vec![0, 1, 2, 3]);
    assert_eq!(s, BuildStep::RowScanned { row: 1 });
    assert_eq!(b.phase, Phase::Hunting { row: 3, highest_set: false });
    let s = b.step(&mut m, &vec![0, 1, 2, 3]);
    assert_eq!(s, BuildStep::RowScanned { row: 3 });
    let s = b.step(&mut m, &vec![0, 1, 2, 3]);
    assert_eq!(s, BuildStep::Done);
    assert_eq!(b.phase, Phase::Finished);
    check_perfect(&m);
}

#[test]
fn hunt_joins_first_uncarved_square_to_a_carved_neighbour() {
    let mut m = walled(5, 7);
    let mut b = HuntKill::new(Point { row: 3, col: 5 });
    // carve (3,5) -> (1,5), then get stuck there
    let s = b.step(&mut m, &vec![0, 1, 2, 3]);
    assert_eq!(s, BuildStep::Carved { from: Point { row: 3, col: 5 }, to: Point { row: 1, col: 5 } });
    b.phase = Phase::Hunting { row: 1, highest_set: false };
    let s = b.step(&mut m, &vec![0, 1, 2, 3]);
    // (1,1) is uncarved but cut off; (1,3) has the carved (1,5) to its east
    assert_eq!(s, BuildStep::HuntJoined { from: Point { row: 1, col: 3 }, to: Point { row: 1, col: 5 } });
    assert_eq!(b.cur, Point { row: 1, col: 3 });
    assert_eq!(b.highest_completed_row, 1);
    assert_eq!(b.phase, Phase::Walking);
    assert!(is_path(&m, 1, 4) && is_path(&m, 1, 3));
}

#[test]
fn hunt_moves_highest_completed_row() {
    let mut m = walled(7, 5);
    // carve all of row 1 and the square (3, 3)
    join_squares(&mut m, Point { row: 1, col: 1 }, Point { row: 1, col: 3 });
    join_squares(&mut m, Point { row: 1, col: 3 }, Point { row: 3, col: 3 });
    let mut b = HuntKill { cur: Point { row: 3, col: 3 }, highest_completed_row: 1, phase: Phase::Hunting { row: 1, highest_set: false } };
    assert_eq!(b.step(&mut m, &vec![0, 1, 2, 3]), BuildStep::RowScanned { row: 1 });
    assert_eq!(b.highest_completed_row, 1);
    let s = b.step(&mut m, &vec![0, 1, 2, 3]);
    assert_eq!(s, BuildStep::HuntJoined { from: Point { row: 3, col: 1 }, to: Point { row: 1, col: 1 } });
    assert_eq!(b.highest_completed_row, 3);
}

#[test]
fn generated_mazes_are_perfect() {
    for &(rows, cols) in &[(5, 5), (7, 9), (11, 21), (6, 6), (5, 8), (31, 71)] {
        for _ in 0..5 {
            let mut m = Maze::new(rows, cols);
            generate_maze(&mut m);
            assert_eq!(m.row_size(), rows);
            assert_eq!(m.col_size(), cols);
            let cells = check_perfect(&m);
            assert_eq!(cells as i32, ((rows - 1) / 2) * ((cols - 1) / 2));
        }
    }
}

#[test]
fn single_square_lattice_stays_walled() {
    let mut m = Maze::new(4, 4);
    m.set(2, 2, PATH_BIT);
    generate_maze(&mut m);
    for r in 0..4 {
        for c in 0..4 {
            assert!(!is_path(&m, r, c));
        }
    }
}

#[test]
fn generation_is_random() {
    let mut first = Maze::new(11, 11);
    generate_maze(&mut first);
    let mut differs = false;
    for _ in 0..20 {
        let mut m = Maze::new(11, 11);
        generate_maze(&mut m);
        for r in 0..11 {
            for c in 0..11 {
                if m.get(r, c) != first.get(r, c) {
                    differs = true;
                }
            }
        }
    }
    assert!(differs);
}

#[test]
fn generation_starts_on_an_odd_square_inside() {
    // a lattice of two rows of six: whatever the start, every square ends up carved
    for _ in 0..20 {
        let mut m = Maze::new(5, 13);
        generate_maze(&mut m);
        assert_eq!(check_perfect(&m), 12);
    }
}
