use matrix::{Band, Compressed, Dense, Diagonal, Major, Shape};

#[test]
fn into_band_tall() {
    let diagonal = Diagonal { rows: 5, columns: 3, values: vec![1i64, 2, 3] };
    let band: Band<i64> = diagonal.into_band();
    assert_eq!(&band.values, &[1, 2, 3]);
}

#[test]
fn into_band_wide() {
    let diagonal = Diagonal { rows: 3, columns: 5, values: vec![1i64, 2, 3] };
    let band: Band<i64> = diagonal.into_band();
    assert_eq!(&band.values, &[1, 2, 3, 0, 0]);
}

#[test]
fn into_compressed() {
    let diagonal = Diagonal { rows: 5, columns: 3, values: vec![1i64, 2, 0] };

    let compressed: Compressed<i64> = diagonal.into_compressed();

    assert_eq!(compressed, Compressed {
        rows: 5, columns: 3, nonzeros: 3, format: Major::Column, values: vec![1, 2, 0],
        indices: vec![0, 1, 2], offsets: vec![0, 1, 2, 3]
    });
}

#[test]
fn into_dense() {
    let diagonal = Diagonal { rows: 3, columns: 5, values: vec![1i64, 2, 3] };

    let dense: Dense<i64> = diagonal.into_dense();

    assert_eq!(dense.rows, 3);
    assert_eq!(dense.columns, 5);
    assert_eq!(&dense.values, &[
        1, 0, 0,
        0, 2, 0,
        0, 0, 3,
        0, 0, 0,
        0, 0, 0,
    ]);
}

#[test]
fn into_dense_tall_places_values_on_the_diagonal() {
    let diagonal = Diagonal { rows: 4, columns: 2, values: vec![7u32, 9] };
    let dense = diagonal.to_dense();
    assert_eq!((dense.rows, dense.columns), (4, 2));
    assert_eq!(&dense.values, &[7, 0, 0, 0, 0, 9, 0, 0]);
}

#[test]
fn into_dense_empty() {
    let diagonal: Diagonal<i64> = Diagonal { rows: 0, columns: 3, values: vec![] };
    let dense = diagonal.to_dense();
    assert_eq!((dense.rows, dense.columns), (0, 3));
    assert!(dense.values.is_empty());
}

#[test]
fn to_band_keeps_source_and_pads_square() {
    let diagonal = Diagonal { rows: 2, columns: 2, values: vec![true, false] };
    let band = diagonal.to_band();
    assert_eq!((band.superdiagonals, band.subdiagonals), (0, 0));
    assert_eq!(&band.values, &[true, false]);
    assert_eq!(&diagonal.values, &[true, false]);
}

#[test]
fn to_compressed_wide_lists_positions() {
    let diagonal = Diagonal { rows: 2, columns: 4, values: vec![5i8, -6] };
    let compressed = diagonal.to_compressed();
    assert_eq!(compressed.nonzeros, 2);
    assert_eq!(&compressed.values, &[5, -6]);
    assert_eq!(&compressed.indices, &[0, 1]);
    assert_eq!(&compressed.offsets, &[0, 1, 2]);
}

#[test]
fn make_reads_the_shape() {
    let square = Diagonal::make(vec![1u64, 2, 3], Shape::Square(3));
    assert_eq!((square.rows, square.columns), (3, 3));
    let wide = Diagonal::make_from_slice(&[4i16, 5], Shape::Rectangular(2, 7));
    assert_eq!((wide.rows, wide.columns), (2, 7));
    assert_eq!(wide.as_slice(), &[4, 5]);
    assert_eq!(wide.nonzeros(), 2);
    assert_eq!(Diagonal::make(vec![1i32], Shape::Rectangular(5, 1)).nonzeros(), 1);
    assert_eq!(wide.into_values(), vec![4, 5]);
}

#[test]
fn dense_round_trip_recovers_diagonal() {
    let diagonal = Diagonal { rows: 3, columns: 5, values: vec![1i64, -2, 3] };
    let back = Diagonal::from_dense(&diagonal.to_dense());
    assert_eq!(back, diagonal);
    let tall = Diagonal { rows: 4, columns: 2, values: vec![0u8, 9] };
    assert_eq!(Diagonal::from_dense(&tall.to_dense()), tall);
}

#[test]
fn from_dense_reads_the_main_diagonal() {
    let dense = Dense { rows: 2, columns: 3, values: vec![1i32, 2, 3, 4, 5, 6] };
    let diagonal = Diagonal::from_dense(&dense);
    assert_eq!((diagonal.rows, diagonal.columns), (2, 3));
    assert_eq!(diagonal.values, vec![1, 4]);
}

#[test]
fn diagonal_validity() {
    assert!(Diagonal { rows: 3, columns: 5, values: vec![1i64, 2, 3] }.is_valid());
    assert!(!Diagonal { rows: 3, columns: 5, values: vec![1i64, 2] }.is_valid());
}
