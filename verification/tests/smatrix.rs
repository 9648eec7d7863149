use hopfield::smatrix::SMatrix;
use rand::Rng;
use std::cell::RefCell;

#[test]
fn get_the_right_row() {
    let mat: SMatrix<usize> = SMatrix::from_fn2(8, &mut |r, _c| r);

    for r in 0..8 {
        for c in 0..8 {
            if r <= c {
                assert_eq!(*mat.get(r, c), r);
            } else {
                assert_eq!(*mat.get(r, c), c);
            }
        }
    }
}

#[test]
fn row_mul_zero_matrix() {
    let mat: SMatrix<i32> = SMatrix::from_fn0(8, &mut || 0);
    let v: Vec<i32> = vec![0; 8];

    for r in 0..8 {
        assert_eq!(mat.row_mul(r, &v, 0), 0);
    }
}

#[test]
fn random_matrix_is_symmetric() {
    let rng = RefCell::new(rand::rng());
    let mat: SMatrix<f64> = SMatrix::from_fn0(8, &|| rng.borrow_mut().random_range(-1. ..1.));

    for r in 0..8 {
        for c in 0..8 {
            assert_eq!(*mat.get(r, c), *mat.get(c, r));
        }
    }
}

#[test]
fn row_mul_nonzero() {
    let mat: SMatrix<i32> = SMatrix::from_fn2(8, &mut |r, c| (r + c) as i32);
    let v: Vec<i32> = vec![0, 1, 2, 3, 4, 5, 6, 7];

    for i in 0..8 {
        let expect = 140 + (i as i32) * 28;
        assert_eq!(mat.row_mul(i, &v, 0), expect);
    }
}

#[test]
fn add_zero_matrix() {
    let mut m1: SMatrix<i32> = SMatrix::from_fn2(8, &mut |r, c| (r + c) as i32);
    let m2: SMatrix<i32> = SMatrix::new(8, 0);

    m1.add_matrix(&m2);

    for r in 0..8 {
        for c in 0..8 {
            assert_eq!(*m1.get(r, c), (r + c) as i32);
        }
    }
}

#[test]
fn add_nonzero_matrix() {
    let mut m1: SMatrix<i32> = SMatrix::from_fn2(8, &mut |r, c| (r + c) as i32);
    let m2: SMatrix<i32> = SMatrix::from_fn2(8, &mut |r, c| (2 * r + 2 * c) as i32);

    m1.add_matrix(&m2);

    for r in 0..8 {
        for c in 0..8 {
            let expected = (r as i32) * 3 + (c as i32) * 3;
            assert_eq!(*m1.get(r, c), expected);
        }
    }
}

#[test]
fn dimensions_are_reported() {
    let mat: SMatrix<i64> = SMatrix::new(5, 7);
    assert_eq!(mat.rows(), 5);
    assert_eq!(mat.cols(), 5);
    let empty: SMatrix<i64> = SMatrix::new(0, 7);
    assert_eq!(empty.rows(), 0);
}

#[test]
fn packed_slots_run_row_by_row() {
    let mat: SMatrix<u8> = SMatrix::new(4, 0);
    let mut expected = 0;
    for r in 0..4 {
        for c in r..4 {
            assert_eq!(mat.row_col_to_index(r, c), expected);
            assert_eq!(mat.row_col_to_index(c, r), expected);
            expected += 1;
        }
    }
    assert_eq!(expected, 10);
}

#[test]
fn packed_slots_match_a_dense_reference() {
    for n in 1..12usize {
        let mut dense = vec![vec![usize::MAX; n]; n];
        let mut next = 0;
        for r in 0..n {
            for c in r..n {
                dense[r][c] = next;
                dense[c][r] = next;
                next += 1;
            }
        }
        let mat: SMatrix<u8> = SMatrix::new(n, 0);
        for r in 0..n {
            for c in 0..n {
                assert_eq!(mat.row_col_to_index(r, c), dense[r][c]);
            }
        }
    }
}

#[test]
fn set_writes_both_mirror_entries_and_nothing_else() {
    let mut mat: SMatrix<i32> = SMatrix::new(5, 0);
    mat.set(3, 1, 42);
    for r in 0..5 {
        for c in 0..5 {
            let want = if (r == 3 && c == 1) || (r == 1 && c == 3) { 42 } else { 0 };
            assert_eq!(*mat.get(r, c), want);
        }
    }
}

#[test]
fn symmetry_survives_adding_matrices() {
    let mut m1: SMatrix<i64> = SMatrix::from_fn2(6, &|r, c| (r * 10 + c) as i64);
    let m2: SMatrix<i64> = SMatrix::from_fn2(6, &|r, c| (c * 7 + r) as i64);
    m1.add_matrix(&m2);
    m1.add_matrix(&m2);
    for r in 0..6 {
        for c in 0..6 {
            assert_eq!(*m1.get(r, c), *m1.get(c, r));
        }
    }
    assert_eq!(*m1.get(1, 4), 14 + 2 * 29);
}

#[test]
fn row_mul_stops_at_the_shorter_length() {
    let mat: SMatrix<i32> = SMatrix::from_fn2(4, &|r, c| (r + c) as i32);
    let short: Vec<i32> = vec![1, 1];
    let long: Vec<i32> = vec![1, 1, 1, 1, 100, 100];
    assert_eq!(mat.row_mul(2, &short, 5), 5 + 2 + 3);
    assert_eq!(mat.row_mul(2, &long, 5), 5 + 2 + 3 + 4 + 5);
    let none: Vec<i32> = Vec::new();
    assert_eq!(mat.row_mul(0, &none, 9), 9);
}
