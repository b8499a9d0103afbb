use maze_progs::display::{
    hunter_laser_pieces, mini_carver_above_is_path, mini_laser_row, mini_partner_row,
    WALL_LEFT_RIGHT, WALL_UP_DOWN_LEFT, WALL_UP_DOWN_RIGHT,
};
use maze_progs::distance::{breadth_first, center_start, measure_distances};
use maze_progs::grid::{fill_maze_with_walls, Maze, Point, MEASURE, PATH_BIT};
use maze_progs::hunt_kill::generate_maze;

/// A maze from a picture: `#` wall, anything else path.
fn maze_of(rows: &[&str]) -> Maze {
    let mut m = Maze::new(rows.len() as i32, rows[0].len() as i32);
    fill_maze_with_walls(&mut m);
    for (r, line) in rows.iter().enumerate() {
        for (c, ch) in line.chars().enumerate() {
            if ch != '#' {
                let v = m.get(r as i32, c as i32);
                m.set(r as i32, c as i32, v | PATH_BIT);
            }
        }
    }
    m
}

#[test]
fn center_start_is_odd_and_central() {
    assert_eq!(center_start(&Maze::new(2, 2)), Point { row: 1, col: 1 });
    assert_eq!(center_start(&Maze::new(11, 21)), Point { row: 5, col: 11 });
    assert_eq!(center_start(&Maze::new(9, 4)), Point { row: 5, col: 3 });
}

#[test]
fn distances_follow_the_corridors() {
    let mut m = maze_of(&[
        "#######",
        "#.....#",
        "#.###.#",
        "#.#...#",
        "#######",
    ]);
    let map = measure_distances(&mut m, Point { row: 1, col: 1 });
    assert_eq!(map.distances[1][1], Some(0));
    assert_eq!(map.distances[1][5], Some(4));
    assert_eq!(map.distances[3][1], Some(2));
    assert_eq!(map.distances[3][3], Some(8));
    assert_eq!(map.distances[0][0], None);
    assert_eq!(map.distances[2][2], None);
    assert_eq!(map.max, 8);
    assert!(m.get(3, 3) & MEASURE != 0);
    assert!(m.get(1, 1) & MEASURE != 0);
    assert!(m.get(2, 2) & MEASURE == 0);
}

#[test]
fn measured_squares_are_not_measured_again() {
    let mut m = maze_of(&["#####", "#...#", "#####"]);
    let v = m.get(1, 2);
    m.set(1, 2, v | MEASURE);
    let map = measure_distances(&mut m, Point { row: 1, col: 1 });
    assert_eq!(map.distances[1][2], None);
    assert_eq!(map.distances[1][3], None);
    assert_eq!(map.max, 0);
}

#[test]
fn shortest_route_wins_around_a_loop() {
    let mut m = maze_of(&[
        "#####",
        "#...#",
        "#.#.#",
        "#...#",
        "#####",
    ]);
    let map = measure_distances(&mut m, Point { row: 1, col: 1 });
    assert_eq!(map.distances[3][3], Some(4));
    assert_eq!(map.distances[1][3], Some(2));
    assert_eq!(map.distances[3][1], Some(2));
    assert_eq!(map.max, 4);
}

#[test]
fn traversal_order_follows_bias() {
    let m = maze_of(&["#####", "#...#", "#.#.#", "#...#", "#####"]);
    let (order, dist) = breadth_first(&m, Point { row: 2, col: 1 }, 0, 0);
    assert_eq!(order[0], Point { row: 2, col: 1 });
    assert_eq!(order[1], Point { row: 1, col: 1 });
    assert_eq!(order[2], Point { row: 3, col: 1 });
    assert_eq!(order.len(), 8);
    assert_eq!(dist[2][3], Some(4));
    let (order, _) = breadth_first(&m, Point { row: 2, col: 1 }, 0, 2);
    assert_eq!(order[1], Point { row: 3, col: 1 });
    assert_eq!(order[2], Point { row: 1, col: 1 });
}

#[test]
fn every_square_of_a_generated_maze_is_measured() {
    let mut m = Maze::new(15, 31);
    generate_maze(&mut m);
    let start = center_start(&m);
    let map = measure_distances(&mut m, start);
    let mut count = 0u64;
    for r in 0..15 {
        for c in 0..31 {
            let path = m.get(r, c) & PATH_BIT != 0;
            assert_eq!(path, map.distances[r as usize][c as usize].is_some());
            if path {
                count += 1;
            }
        }
    }
    // a tree: the farthest square is nearer than the number of squares
    assert!(map.max < count);
}

#[test]
fn hunter_laser_pieces_span_the_row() {
    assert_eq!(hunter_laser_pieces(1), vec![WALL_UP_DOWN_LEFT]);
    assert_eq!(
        hunter_laser_pieces(4),
        vec![WALL_UP_DOWN_RIGHT, WALL_LEFT_RIGHT, WALL_LEFT_RIGHT, WALL_UP_DOWN_LEFT]
    );
}

#[test]
fn mini_rendering_decisions() {
    let m = maze_of(&["#####", "#.#.#", "#...#", "#####"]);
    assert_eq!(mini_laser_row(&m, 1), vec![false, true, true, true, false]);
    assert!(!mini_carver_above_is_path(&m, Point { row: 1, col: 2 }));
    assert!(mini_carver_above_is_path(&m, Point { row: 2, col: 1 }));
    assert_eq!(mini_partner_row(4), 5);
    assert_eq!(mini_partner_row(5), 4);
}

#[test]
fn bias_does_not_change_distances() {
    let mut m = Maze::new(21, 41);
    generate_maze(&mut m);
    let start = center_start(&m);
    let (order0, dist0) = breadth_first(&m, start, 0, 0);
    for bias in 1..4 {
        let (order, dist) = breadth_first(&m, start, 0, bias);
        assert_eq!(dist, dist0);
        assert_eq!(order.len(), order0.len());
        let mut sorted = order.clone();
        let mut sorted0 = order0.clone();
        sorted.sort_by_key(|p| (p.row, p.col));
        sorted0.sort_by_key(|p| (p.row, p.col));
        assert_eq!(sorted, sorted0);
    }
}
