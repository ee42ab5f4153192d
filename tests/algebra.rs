use matrix::{Compressed, Dense, Diagonal, Major, Shape};

#[test]
fn multiply_self_diagonal() {
    let mut matrix = Compressed {
        rows: 3, columns: 2, nonzeros: 3, format: Major::Column,
        values: vec![1i64, 2, 3], indices: vec![1, 0, 2], offsets: vec![0, 1, 3],
    };

    let right = Diagonal::make(vec![4i64, 5], Shape::Rectangular(2, 4));

    matrix.multiply_self(&right);

    assert_eq!(matrix, Compressed {
        rows: 3, columns: 4, nonzeros: 3, format: Major::Column,
        values: vec![4, 10, 15], indices: vec![1, 0, 2], offsets: vec![0, 1, 3, 3, 3],
    });
}

#[test]
fn multiply_self_drops_columns_beyond_a_narrow_diagonal() {
    let mut matrix = Compressed {
        rows: 2, columns: 3, nonzeros: 3, format: Major::Column,
        values: vec![1i32, 2, 3], indices: vec![0, 1, 0], offsets: vec![0, 1, 2, 3],
    };
    let right = Diagonal::make(vec![10i32, 20], Shape::Rectangular(3, 2));
    matrix.multiply_self(&right);
    assert_eq!(matrix, Compressed {
        rows: 2, columns: 2, nonzeros: 2, format: Major::Column,
        values: vec![10, 40], indices: vec![0, 1], offsets: vec![0, 1, 2],
    });
}

#[test]
fn multiply_into_conventional() {
    let matrix = Compressed::from_dense(&Dense { rows: 4, columns: 3, values: vec![
        1i64, 2, 3, 4,
        5, 6, 6, 5,
        4, 3, 2, 1,
    ] });

    let right = Dense { rows: 3, columns: 2, values: vec![
        1i64, 2, 3,
        4, 5, 6,
    ] };

    let mut result = Dense { rows: 4, columns: 2, values: vec![
        1i64, 1, 1, 1,
        1, 1, 1, 1,
    ] };

    matrix.multiply_into(&right, &mut result);

    assert_eq!(&result.values, &vec![
        24, 24, 22, 18,
        54, 57, 55, 48,
    ]);
}

fn dense_product(a: &Dense<i64>, b: &Dense<i64>) -> Vec<i64> {
    let mut c = vec![0i64; a.rows * b.columns];
    for t in 0..b.columns {
        for i in 0..a.rows {
            for j in 0..a.columns {
                c[t * a.rows + i] += a.values[j * a.rows + i] * b.values[t * b.rows + j];
            }
        }
    }
    c
}

#[test]
fn multiply_into_zeroed_matches_dense_product() {
    let a = Dense { rows: 4, columns: 3, values: vec![
        0i64, 2, 0, -1,
        3, 0, 0, 0,
        0, 0, 7, 4,
    ] };
    let b = Dense { rows: 3, columns: 2, values: vec![2i64, -3, 5, 1, 0, 8] };
    let sparse = Compressed::from_dense(&a);
    assert_eq!(sparse.nonzeros, 5);
    assert_eq!(&sparse.indices, &[1, 3, 0, 2, 3]);
    assert_eq!(&sparse.offsets, &[0, 2, 3, 5]);
    let mut result = Dense { rows: 4, columns: 2, values: vec![0i64; 8] };
    sparse.multiply_into(&b, &mut result);
    assert_eq!(result.values, dense_product(&a, &b));
    assert_eq!(result.values, vec![-9, 4, 35, 18, 0, 2, 56, 31]);
}

#[test]
fn multiply_into_wraps_on_overflow() {
    let sparse = Compressed::from_dense(&Dense { rows: 1, columns: 1, values: vec![200u8] });
    let right = Dense { rows: 1, columns: 1, values: vec![2u8] };
    let mut result = Dense { rows: 1, columns: 1, values: vec![1u8] };
    sparse.multiply_into(&right, &mut result);
    assert_eq!(result.values, vec![145]);
}

#[test]
fn from_dense_skips_zeros() {
    let dense = Dense { rows: 2, columns: 2, values: vec![0u16, 0, 0, 0] };
    let sparse = Compressed::from_dense(&dense);
    assert_eq!(sparse.nonzeros, 0);
    assert_eq!(&sparse.offsets, &[0, 0, 0]);
    assert!(sparse.values.is_empty());
}

#[test]
fn compressed_dense_round_trip() {
    let dense = Dense { rows: 3, columns: 2, values: vec![0i64, 4, 0, -1, 0, 2] };
    let sparse = Compressed::from_dense(&dense);
    assert_eq!(sparse.to_dense(), dense);
}

#[test]
fn row_major_to_dense_places_by_rows() {
    let sparse = Compressed {
        rows: 2, columns: 3, nonzeros: 3, format: Major::Row,
        values: vec![1u32, 2, 3], indices: vec![2, 0, 1], offsets: vec![0, 1, 3],
    };
    let dense = sparse.to_dense();
    assert_eq!(dense.values, vec![0, 2, 0, 3, 1, 0]);
}

#[test]
fn to_dense_keeps_the_last_of_repeated_positions() {
    let sparse = Compressed {
        rows: 2, columns: 1, nonzeros: 2, format: Major::Column,
        values: vec![5i8, 6], indices: vec![1, 1], offsets: vec![0, 2],
    };
    assert_eq!(sparse.to_dense().values, vec![0, 6]);
}

#[test]
fn dense_make_reads_the_shape() {
    let dense = Dense::make(vec![1i64, 2, 3, 4, 5, 6], Shape::Rectangular(2, 3));
    assert_eq!((dense.rows, dense.columns), (2, 3));
    let square = Dense::make(vec![0u8; 4], Shape::Square(2));
    assert_eq!((square.rows, square.columns), (2, 2));
}

#[test]
fn canonical_compressed_survives_dense_round_trip() {
    let sparse = Compressed {
        rows: 3, columns: 4, nonzeros: 4, format: Major::Column,
        values: vec![4i64, 10, 15, -2], indices: vec![1, 0, 2, 1], offsets: vec![0, 1, 3, 3, 4],
    };
    assert_eq!(Compressed::from_dense(&sparse.to_dense()), sparse);
}

#[test]
fn validity_checks_match_the_invariants() {
    let good = Compressed {
        rows: 3, columns: 2, nonzeros: 3, format: Major::Column,
        values: vec![1i64, 2, 3], indices: vec![1, 0, 2], offsets: vec![0, 1, 3],
    };
    assert!(good.is_valid());
    let mut decreasing = good.clone();
    decreasing.offsets = vec![0, 2, 1];
    assert!(!decreasing.is_valid());
    let mut outside = good.clone();
    outside.indices = vec![1, 0, 3];
    assert!(!outside.is_valid());
    let mut short = good.clone();
    short.offsets = vec![0, 3];
    assert!(!short.is_valid());
    let row_major = Compressed {
        rows: 2, columns: 3, nonzeros: 3, format: Major::Row,
        values: vec![1u32, 2, 3], indices: vec![2, 0, 1], offsets: vec![0, 1, 3],
    };
    assert!(row_major.is_valid());
    assert!(Dense { rows: 2, columns: 3, values: vec![0u8; 6] }.is_valid());
    assert!(!Dense { rows: 2, columns: 3, values: vec![0u8; 5] }.is_valid());
    assert!(!Dense { rows: usize::MAX, columns: 2, values: vec![0u8; 2] }.is_valid());
}
