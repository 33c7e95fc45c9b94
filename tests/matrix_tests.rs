use lexparse::Matrix;

#[test]
fn shape_counts_rows_and_columns() {
    let m = Matrix(vec![vec![1, 2, 3], vec![4, 5, 6]]);
    assert_eq!(m.shape(), (2, 3));
}

#[test]
fn map_applies_to_every_entry() {
    let m = Matrix(vec![vec![1, 2], vec![3, 4], vec![5, 6]]);
    let doubled = m.map(|x: &i32| x * 2);
    assert_eq!(doubled, Matrix(vec![vec![2, 4], vec![6, 8], vec![10, 12]]));
    assert_eq!(doubled.shape(), (3, 2));
}
