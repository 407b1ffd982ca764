use yatyat::vec2::Vec2;

#[test]
fn initialisation() {
    let vec = Vec2::<usize>::new(5, 6);
    assert!(vec.n_rows() == 5);
    assert!(vec.n_cols() == 6);
}

#[test]
fn setting() {
    let rows = 2;
    let cols = 4;
    let mut vec = Vec2::<usize>::new(rows, cols);
    for i in 0..rows {
        for j in 0..cols {
            assert!(*vec.get(i, j) == 0);
        }
    }
    for i in 0..rows {
        for j in 0..cols {
            vec.set(i, j, 1);
            assert!(*vec.get(i, j) == 1);
        }
    }
}

#[test]
fn add_row() {
    let mut vec = Vec2::<usize>::new(3, 3);
    assert!(vec.n_rows() == 3);
    assert!(vec.n_cols() == 3);
    vec.add_row();
    assert!(vec.n_rows() == 4);
    assert!(vec.n_cols() == 3);
}

#[test]
fn add_col() {
    let mut vec = Vec2::<usize>::new(3, 3);
    assert!(vec.n_rows() == 3);
    assert!(vec.n_cols() == 3);
    vec.set(1, 2, 5);
    vec.set(0, 1, 3);
    vec.set(2, 0, 1);
    vec.add_col();
    vec.set(1, 3, 7);
    vec.set(2, 3, 6);
    assert!(vec.n_rows() == 3);
    assert!(vec.n_cols() == 4);
    assert!(vec.get_row(1) == &[0, 0, 5, 7]);
    assert!(vec.get_row(0) == &[0, 3, 0, 0]);
    assert!(vec.get_row(2) == &[1, 0, 0, 6]);
}

#[test]
fn get_row() {
    let mut vec = Vec2::<usize>::new(3, 3);
    assert!(vec.get_row(2) == &[0, 0, 0]);
    vec.set(2, 0, 5);
    vec.set(2, 1, 4);
    vec.set(2, 2, 6);
    assert!(vec.get_row(2) == &[5, 4, 6]);
}

#[test]
fn add_rows_and_cols_keep_cells() {
    let mut vec = Vec2::<Option<usize>>::new(2, 2);
    vec.set(1, 1, Some(9));
    vec.add_rows(2);
    vec.add_cols(3);
    assert_eq!(vec.n_rows(), 4);
    assert_eq!(vec.n_cols(), 5);
    assert_eq!(vec.get_row(1), &[None, Some(9), None, None, None]);
    assert_eq!(vec.get_row(3), &[None, None, None, None, None]);
}

#[test]
fn empty_table() {
    let mut vec = Vec2::<bool>::new(0, 0);
    vec.add_col();
    vec.add_row();
    assert_eq!(vec.n_rows(), 1);
    assert_eq!(vec.n_cols(), 1);
    assert!(!*vec.get(0, 0));
}
