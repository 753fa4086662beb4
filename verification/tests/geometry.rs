use gridmat::Matrix;

fn grid3() -> Matrix<i32> {
    Matrix::from_vec(3, 3, vec![1, 2, 3, 4, 5, 6, 7, 8, 9]).unwrap()
}

fn grid23() -> Matrix<i32> {
    Matrix::from_vec(2, 3, vec![1, 2, 3, 4, 5, 6]).unwrap()
}

#[test]
fn quarter_turn_clockwise_concrete() {
    let m = grid3().rotated_cw(1);
    assert_eq!(m.values().as_slice(), &[7, 4, 1, 8, 5, 2, 9, 6, 3]);
    let mut n = grid3();
    n.rotate_cw(1);
    assert_eq!(n, m);
}

#[test]
fn rotation_in_place_all_amounts() {
    let mut half = grid3();
    half.rotate_cw(2);
    assert_eq!(half.values().as_slice(), &[9, 8, 7, 6, 5, 4, 3, 2, 1]);
    let mut ccw = grid3();
    ccw.rotate_ccw(1);
    assert_eq!(ccw.values().as_slice(), &[3, 6, 9, 2, 5, 8, 1, 4, 7]);
    let mut full = grid3();
    full.rotate_cw(4);
    assert_eq!(full, grid3());
}

#[test]
fn rotation_round_trips() {
    for k in 0..9 {
        let mut m = grid3();
        m.rotate_cw(k);
        m.rotate_ccw(k);
        assert_eq!(m, grid3(), "round trip of {} quarter turns", k);
        let c = grid3().rotated_cw(k).rotated_ccw(k);
        assert_eq!(c, grid3(), "copy round trip of {} quarter turns", k);
    }
}

#[test]
fn flips_are_involutions() {
    let mut m = grid23();
    m.flip_lr();
    assert_eq!(m.values().as_slice(), &[3, 2, 1, 6, 5, 4]);
    m.flip_lr();
    assert_eq!(m, grid23());
    m.flip_ud();
    assert_eq!(m.values().as_slice(), &[4, 5, 6, 1, 2, 3]);
    m.flip_ud();
    assert_eq!(m, grid23());
    assert_eq!(grid23().flipped_lr().flipped_lr(), grid23());
    assert_eq!(grid23().flipped_ud().flipped_ud(), grid23());
}

#[test]
fn transpose_swaps_shape_and_cells() {
    let t = grid23().transposed();
    assert_eq!(t.rows, 3);
    assert_eq!(t.columns, 2);
    assert_eq!(t.values().as_slice(), &[1, 4, 2, 5, 3, 6]);
    assert_eq!(t.transposed(), grid23());
}

#[test]
fn non_square_rotation_matches_transpose_and_flips() {
    let g = grid23();

    let quarter = g.rotated_cw(1);
    let mut tf = g.transposed();
    tf.flip_lr();
    assert_eq!(quarter, tf);
    assert_eq!(quarter.rows, 3);
    assert_eq!(quarter.columns, 2);
    assert_eq!(quarter.values().as_slice(), &[4, 1, 5, 2, 6, 3]);

    let half = g.rotated_cw(2);
    let mut reversed: Vec<i32> = g.values().clone();
    reversed.reverse();
    assert_eq!(half.values().as_slice(), reversed.as_slice());

    let three = g.rotated_cw(3);
    let mut tf3 = g.transposed();
    tf3.flip_ud();
    assert_eq!(three, tf3);
    assert_eq!(three.values().as_slice(), &[3, 6, 2, 5, 1, 4]);

    assert_eq!(g.rotated_cw(0), g);
    assert_eq!(g.rotated_ccw(1), three);
    assert_eq!(g.rotated_ccw(3), quarter);
}

#[test]
fn slice_then_set_slice_restores() {
    let g = grid3();
    let s = g.slice(1..3, 0..2).unwrap();
    let mut g2 = g.clone();
    g2.set_slice((1, 0), &s);
    assert_eq!(g2, g);
    let whole = g.slice(0..3, 0..3).unwrap();
    let mut g3 = g.clone();
    g3.set_slice((0, 0), &whole);
    assert_eq!(g3, g);
}
