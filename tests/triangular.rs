use matrix::{Dense, Part, Triangular};

#[test]
fn into_dense_lower() {
    let triangular = Triangular {
        size: 4,
        format: Part::Lower,
        values: vec![1i64, 2, 3, 4, 5, 6, 7, 8, 9, 10],
    };

    let dense: Dense<i64> = triangular.into_dense();

    assert_eq!(&dense.values[..], &[
        1, 2, 3,  4,
        0, 5, 6,  7,
        0, 0, 8,  9,
        0, 0, 0, 10,
    ]);
}

#[test]
fn into_dense_upper() {
    let triangular = Triangular {
        size: 4,
        format: Part::Upper,
        values: vec![1i64, 2, 3, 4, 5, 6, 7, 8, 9, 10],
    };

    let dense: Dense<i64> = triangular.into_dense();

    assert_eq!(&dense.values[..], &[
        1, 0, 0,  0,
        2, 3, 0,  0,
        4, 5, 6,  0,
        7, 8, 9, 10,
    ]);
}

#[test]
fn triangular_nonzeros_counts_the_stored_half() {
    let triangular = Triangular { size: 4, format: Part::Upper, values: vec![0u8; 10] };
    assert_eq!(triangular.nonzeros(), 10);
    let empty: Triangular<u8> = Triangular { size: 0, format: Part::Lower, values: vec![] };
    assert_eq!(empty.nonzeros(), 0);
    assert!(empty.to_dense().values.is_empty());
}

#[test]
fn triangular_size_one() {
    let triangular = Triangular { size: 1, format: Part::Lower, values: vec![-3i32] };
    let dense = triangular.to_dense();
    assert_eq!((dense.rows, dense.columns), (1, 1));
    assert_eq!(&dense.values, &[-3]);
}

#[test]
fn dense_round_trip_recovers_packed_values() {
    for part in [Part::Lower, Part::Upper] {
        let triangular = Triangular { size: 4, format: part, values: (1i64..=10).collect() };
        let back = Triangular::from_dense(&triangular.to_dense(), part);
        assert_eq!(back, triangular);
    }
}

#[test]
fn from_dense_packs_the_chosen_half() {
    let dense = Dense { rows: 3, columns: 3, values: vec![1i64, 2, 3, 4, 5, 6, 7, 8, 9] };
    assert_eq!(Triangular::from_dense(&dense, Part::Lower).values, vec![1, 2, 3, 5, 6, 9]);
    assert_eq!(Triangular::from_dense(&dense, Part::Upper).values, vec![1, 4, 5, 7, 8, 9]);
}

#[test]
fn triangular_validity() {
    assert!(Triangular { size: 4, format: Part::Lower, values: vec![0i64; 10] }.is_valid());
    assert!(Triangular { size: 3, format: Part::Upper, values: vec![0i64; 6] }.is_valid());
    assert!(!Triangular { size: 3, format: Part::Upper, values: vec![0i64; 5] }.is_valid());
    assert!(!Triangular { size: usize::MAX, format: Part::Lower, values: vec![0u8; 1] }.is_valid());
}
