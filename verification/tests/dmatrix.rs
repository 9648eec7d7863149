use hopfield::dmatrix::DMatrix;

fn sample() -> DMatrix<i32> {
    let mut m: DMatrix<i32> = DMatrix::new(1, 3, 0);
    m.set(0, 0, 1);
    m.set(0, 1, 2);
    m.set(0, 2, 3);
    m.add_row(&[4, 5, 6]);
    m
}

#[test]
fn new_fills_with_the_default() {
    let m: DMatrix<i32> = DMatrix::new(2, 3, 7);
    assert_eq!(m.rows(), 2);
    assert_eq!(m.cols(), 3);
    for r in 0..2 {
        for c in 0..3 {
            assert_eq!(*m.get(r, c), 7);
        }
    }
}

#[test]
fn set_changes_one_entry() {
    let mut m: DMatrix<i32> = DMatrix::new(3, 2, 0);
    m.set(2, 1, 9);
    for r in 0..3 {
        for c in 0..2 {
            assert_eq!(*m.get(r, c), if r == 2 && c == 1 { 9 } else { 0 });
        }
    }
}

#[test]
fn add_row_grows_by_one_row() {
    let m = sample();
    assert_eq!(m.rows(), 2);
    assert_eq!(m.cols(), 3);
    assert_eq!(*m.get(0, 2), 3);
    assert_eq!(*m.get(1, 0), 4);
    assert_eq!(*m.get(1, 2), 6);
}

#[test]
fn add_row_to_an_empty_matrix() {
    let mut m: DMatrix<i32> = DMatrix::new(0, 2, 0);
    m.add_row(&[1, 2]);
    m.add_row(&[3, 4]);
    assert_eq!(m.rows(), 2);
    assert_eq!(*m.get(1, 1), 4);
    assert_eq!(*m.get(0, 0), 1);
}

#[test]
fn mul_vec_scores_every_row() {
    let m = sample();
    let mut out = vec![0; 2];
    m.mul_vec(&[1, 1, 1], &mut out);
    assert_eq!(out, vec![6, 15]);
    m.mul_vec(&[1, 0, -1], &mut out);
    assert_eq!(out, vec![-2, -2]);
}

#[test]
fn trans_mul_vec_recombines_the_rows() {
    let m = sample();
    let mut out = vec![0; 3];
    m.trans_mul_vec(&[1, 2], &mut out);
    assert_eq!(out, vec![9, 12, 15]);
    m.trans_mul_vec(&[0, -1], &mut out);
    assert_eq!(out, vec![-4, -5, -6]);
}
