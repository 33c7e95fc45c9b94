use lexparse::inv;

#[test]
fn test_inv() {
    assert_eq!(inv(vec![1, 2, 3, 4].as_slice()), 0);
    assert_eq!(inv(vec![4, 3, 2, 1].as_slice()), 6);
    assert_eq!(inv((1..=1000).collect::<Vec<i64>>().as_slice()), 0);
    assert_eq!(inv((1..=1000).rev().collect::<Vec<i64>>().as_slice()), 1000 * 999 / 2);
}

#[test]
fn inversions_with_equal_and_negative_values() {
    assert_eq!(inv(&[]), 0);
    assert_eq!(inv(&[5]), 0);
    assert_eq!(inv(&[2, 2, 1]), 2);
    assert_eq!(inv(&[3, -1, 2, -5]), 5);
}
