use gridmat::{Matrix, MatrixFormatError};

#[test]
fn new_fills_every_cell() {
    let m = Matrix::new(2, 3, 7u32);
    assert_eq!(m.rows, 2);
    assert_eq!(m.columns, 3);
    for r in 0..2 {
        for c in 0..3 {
            assert_eq!(m.get((r, c)), Some(&7));
        }
    }
}

#[test]
fn new_square_is_square() {
    let m = Matrix::new_square(4, 'x');
    assert_eq!(m.rows, 4);
    assert_eq!(m.columns, 4);
    assert!(m.is_square());
    assert!(!m.is_empty());
}

#[test]
fn new_zero_rows_any_columns() {
    let m = Matrix::new(0, 0, 1u8);
    assert!(m.is_empty());
    assert_eq!(m.values().len(), 0);
}

#[test]
fn from_vec_checks_length() {
    assert!(Matrix::from_vec(2, 2, vec![1, 2, 3, 4]).is_ok());
    assert_eq!(
        Matrix::from_vec(2, 2, vec![1, 2, 3]).unwrap_err(),
        MatrixFormatError::WrongLength
    );
    assert_eq!(
        Matrix::from_vec(2, 0, vec![1, 2, 3]).unwrap_err(),
        MatrixFormatError::EmptyRow
    );
    assert!(Matrix::from_vec(0, 5, Vec::<i32>::new()).is_ok());
}

#[test]
fn square_from_vec_wants_a_perfect_square() {
    let m = Matrix::square_from_vec(vec![1, 2, 3, 4, 5, 6, 7, 8, 9]).unwrap();
    assert_eq!(m.rows, 3);
    assert_eq!(m.columns, 3);
    assert_eq!(m.get((1, 1)), Some(&5));
    assert_eq!(
        Matrix::square_from_vec(vec![1, 2, 3, 4, 5]).unwrap_err(),
        MatrixFormatError::WrongLength
    );
    let empty = Matrix::square_from_vec(Vec::<i32>::new()).unwrap();
    assert_eq!(empty.rows, 0);
}

#[test]
fn from_rows_builds_row_major() {
    let m = Matrix::from_rows(vec![vec![1, 2, 3], vec![4, 5, 6]]).unwrap();
    assert_eq!(m.rows, 2);
    assert_eq!(m.columns, 3);
    assert_eq!(m.values().as_slice(), &[1, 2, 3, 4, 5, 6]);
}

#[test]
fn from_rows_rejects_differing_lengths() {
    let r = Matrix::from_rows(vec![vec![1, 2, 3], vec![4, 5]]);
    assert_eq!(r.unwrap_err(), MatrixFormatError::WrongLength);
}

#[test]
fn from_rows_of_nothing_is_empty() {
    let m = Matrix::from_rows(Vec::<Vec<i32>>::new()).unwrap();
    assert_eq!(m.rows, 0);
    assert_eq!(m.columns, 0);
}

#[test]
fn from_rows_of_empty_rows_fails() {
    let r = Matrix::from_rows(vec![Vec::<i32>::new(), Vec::<i32>::new()]);
    assert_eq!(r.unwrap_err(), MatrixFormatError::EmptyRow);
}

#[test]
fn extend_grows_row_by_row() {
    let mut m = Matrix::new_empty(3);
    assert_eq!(m.rows, 0);
    assert_eq!(m.columns, 3);
    m.extend(&[1, 2, 3]).unwrap();
    assert_eq!(m.rows, 1);
    assert_eq!(
        m.extend(&[]).unwrap_err(),
        MatrixFormatError::EmptyRow
    );
    assert_eq!(m.rows, 1);
    assert_eq!(
        m.extend(&[4, 5]).unwrap_err(),
        MatrixFormatError::WrongLength
    );
    assert_eq!(m.rows, 1);
    assert_eq!(m.values().as_slice(), &[1, 2, 3]);
}

#[test]
fn fill_replaces_every_cell() {
    let mut m = Matrix::from_vec(2, 2, vec![1, 2, 3, 4]).unwrap();
    m.fill(9);
    assert_eq!(m.values().as_slice(), &[9, 9, 9, 9]);
}

#[test]
fn indexing_is_row_major() {
    let m = Matrix::from_vec(2, 3, vec![10, 20, 30, 40, 50, 60]).unwrap();
    assert_eq!(m.idx((0, 0)), 0);
    assert_eq!(m.idx((1, 2)), 5);
    assert_eq!(m.idx_unchecked((1, 0)), 3);
    assert!(m.within_bounds((1, 2)));
    assert!(!m.within_bounds((2, 0)));
    assert!(!m.within_bounds((0, 3)));
    assert_eq!(m.get((1, 2)), Some(&60));
    assert_eq!(m.get((2, 0)), None);
}

#[test]
fn slice_copies_a_sub_region() {
    let m = Matrix::from_vec(3, 3, vec![1, 2, 3, 4, 5, 6, 7, 8, 9]).unwrap();
    let s = m.slice(1..3, 0..2).unwrap();
    assert_eq!(s.rows, 2);
    assert_eq!(s.columns, 2);
    assert_eq!(s.values().as_slice(), &[4, 5, 7, 8]);
    assert_eq!(m.slice(0..4, 0..2).unwrap_err(), MatrixFormatError::WrongIndex);
    assert_eq!(m.slice(0..2, 0..4).unwrap_err(), MatrixFormatError::WrongIndex);
    assert_eq!(m.slice(0..2, 1..1).unwrap_err(), MatrixFormatError::EmptyRow);
    let none = m.slice(1..1, 0..2).unwrap();
    assert_eq!(none.rows, 0);
}

#[test]
fn set_slice_clips_to_the_target() {
    let mut m = Matrix::new(3, 3, 0);
    let s = Matrix::from_vec(2, 2, vec![1, 2, 3, 4]).unwrap();
    m.set_slice((2, 2), &s);
    assert_eq!(m.values().as_slice(), &[0, 0, 0, 0, 0, 0, 0, 0, 1]);
    let mut m2 = Matrix::new(3, 3, 0);
    m2.set_slice((1, 1), &s);
    assert_eq!(m2.values().as_slice(), &[0, 0, 0, 0, 1, 2, 0, 3, 4]);
}

#[test]
fn map_transforms_every_element() {
    let m = Matrix::from_vec(2, 2, vec![1, 2, 3, 4]).unwrap();
    let d = m.map(|x: i32| x * 10);
    assert_eq!(d.rows, 2);
    assert_eq!(d.columns, 2);
    assert_eq!(d.values().as_slice(), &[10, 20, 30, 40]);
}

#[test]
fn iter_yields_rows_in_order() {
    let m = Matrix::from_vec(2, 3, vec![1, 2, 3, 4, 5, 6]).unwrap();
    let mut it = m.iter();
    assert_eq!(it.next(), Some(&[1, 2, 3][..]));
    assert_eq!(it.next(), Some(&[4, 5, 6][..]));
    assert_eq!(it.next(), None);
}

#[test]
fn indices_walk_row_major() {
    let m = Matrix::new(2, 2, 0u8);
    assert_eq!(m.indices(), vec![(0, 0), (0, 1), (1, 0), (1, 1)]);
}

#[test]
fn error_messages_describe_the_failure() {
    assert_eq!(MatrixFormatError::EmptyRow.message(), "matrix rows cannot be empty");
    assert_eq!(
        MatrixFormatError::WrongIndex.message(),
        "index does not point to data inside the matrix"
    );
    assert_eq!(
        MatrixFormatError::WrongLength.message(),
        "provided data does not correspond to the expected length"
    );
}

#[test]
fn get_mut_writes_in_place() {
    let mut m = Matrix::from_vec(2, 2, vec![1, 2, 3, 4]).unwrap();
    if let Some(v) = m.get_mut((0, 1)) {
        *v = 20;
    }
    assert_eq!(m.values().as_slice(), &[1, 20, 3, 4]);
    assert!(m.get_mut((2, 0)).is_none());
}

#[test]
fn values_mut_edits_the_flat_view() {
    let mut m = Matrix::from_vec(2, 2, vec![1, 2, 3, 4]).unwrap();
    for x in m.values_mut() {
        *x += 1;
    }
    assert_eq!(m.values().as_slice(), &[2, 3, 4, 5]);
}
