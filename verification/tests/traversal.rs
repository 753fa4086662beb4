use gridmat::directions;
use gridmat::Matrix;

#[test]
fn neighbour_counts_by_position() {
    let m = Matrix::new(3, 3, 0u8);
    assert_eq!(m.neighbours((0, 0), true).len(), 3);
    assert_eq!(m.neighbours((0, 0), false).len(), 2);
    assert_eq!(m.neighbours((2, 2), true).len(), 3);
    assert_eq!(m.neighbours((2, 2), false).len(), 2);
    assert_eq!(m.neighbours((1, 1), true).len(), 8);
    assert_eq!(m.neighbours((1, 1), false).len(), 4);
    assert_eq!(m.neighbours((3, 1), true).len(), 0);
    assert_eq!(m.neighbours((1, 3), false).len(), 0);
}

#[test]
fn neighbours_come_in_row_major_order() {
    let m = Matrix::new(3, 3, 0u8);
    assert_eq!(
        m.neighbours((1, 1), true),
        vec![(0, 0), (0, 1), (0, 2), (1, 0), (1, 2), (2, 0), (2, 1), (2, 2)]
    );
    assert_eq!(m.neighbours((1, 1), false), vec![(0, 1), (1, 0), (1, 2), (2, 1)]);
    assert_eq!(m.neighbours((0, 0), false), vec![(0, 1), (1, 0)]);
}

#[test]
fn knight_moves_by_any_delta() {
    let m = Matrix::new_square(8, '.');
    assert_eq!(m.move_in_direction((1, 1), (2, 1)), Some((3, 2)));
    assert_eq!(m.move_in_direction((1, 1), (0, 0)), None);
    assert_eq!(m.move_in_direction((8, 1), (1, 0)), None);
    assert_eq!(m.move_in_direction((0, 0), (-1, 0)), None);
    assert_eq!(m.move_in_direction((7, 7), (1, 0)), None);
}

#[test]
fn rays_stop_at_the_boundary() {
    let m = Matrix::new_square(8, '.');
    assert_eq!(m.in_direction((1, 1), (2, 1)), vec![(3, 2), (5, 3), (7, 4)]);
    assert_eq!(m.in_direction((3, 2), directions::NW), vec![(2, 1), (1, 0)]);
    assert_eq!(m.in_direction((0, 0), (0, 0)), Vec::<(usize, usize)>::new());
    assert_eq!(m.in_direction((9, 9), directions::N), Vec::<(usize, usize)>::new());
}

#[test]
fn direction_constants() {
    assert_eq!(directions::E, (0, 1));
    assert_eq!(directions::S, (1, 0));
    assert_eq!(directions::W, (0, -1));
    assert_eq!(directions::N, (-1, 0));
    assert_eq!(directions::NE, (-1, 1));
    assert_eq!(directions::SE, (1, 1));
    assert_eq!(directions::NW, (-1, -1));
    assert_eq!(directions::SW, (1, -1));
    assert_eq!(directions::DIRECTIONS_4.len(), 4);
    assert_eq!(directions::DIRECTIONS_8.len(), 8);
}

#[test]
fn bfs_and_dfs_agree_on_the_reachable_set() {
    // a wall of zeroes splits the grid; only the left side is reachable
    let m = Matrix::from_rows(vec![
        vec![1, 1, 0, 1],
        vec![1, 0, 0, 1],
        vec![1, 1, 0, 1],
    ])
    .unwrap();
    let open = |c: (usize, usize)| *m.get(c).unwrap() == 1;
    let bfs = m.bfs_reachable((0, 0), false, open);
    let dfs = m.dfs_reachable((0, 0), false, open);
    assert_eq!(bfs, dfs);
    let expected: Vec<(usize, usize)> = vec![(0, 0), (0, 1), (1, 0), (2, 0), (2, 1)];
    assert_eq!(bfs.iter().copied().collect::<Vec<_>>(), expected);

    let bfs8 = m.bfs_reachable((0, 0), true, open);
    let dfs8 = m.dfs_reachable((0, 0), true, open);
    assert_eq!(bfs8, dfs8);
}

#[test]
fn reachability_includes_the_start() {
    let m = Matrix::new(2, 2, 0u8);
    // the predicate admits nothing, yet the start is reached
    let r = m.bfs_reachable((1, 1), true, |_c: (usize, usize)| false);
    assert_eq!(r.iter().copied().collect::<Vec<_>>(), vec![(1, 1)]);
    // an out-of-bounds start is reported alone
    let r2 = m.dfs_reachable((5, 5), true, |_c: (usize, usize)| true);
    assert_eq!(r2.iter().copied().collect::<Vec<_>>(), vec![(5, 5)]);
}

#[test]
fn reachable_forwards_to_bfs() {
    let m = Matrix::new(3, 3, 1u8);
    let all = |_c: (usize, usize)| true;
    assert_eq!(m.reachable((1, 1), true, all), m.bfs_reachable((1, 1), true, all));
    assert_eq!(m.reachable((1, 1), true, all).len(), 9);
}

#[test]
fn flood_fill_respects_connectivity_mode() {
    // two regions touching only diagonally
    let m = Matrix::from_rows(vec![vec![1, 0], vec![0, 1]]).unwrap();
    let open = |c: (usize, usize)| *m.get(c).unwrap() == 1;
    let four = m.bfs_reachable((0, 0), false, open);
    assert_eq!(four.len(), 1);
    let eight = m.bfs_reachable((0, 0), true, open);
    assert_eq!(eight.len(), 2);
}
