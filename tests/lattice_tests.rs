use lexparse::lattice::{greatest_lower_bound, least_upper_bound};
use lexparse::Matrix;

fn divides_matrix(values: &[u32]) -> Matrix<bool> {
    Matrix(
        values
            .iter()
            .map(|x| values.iter().map(|y| y % x == 0).collect())
            .collect(),
    )
}

#[test]
fn bounds_in_divisibility_lattice() {
    let m = divides_matrix(&[1, 2, 3, 6]);
    assert_eq!(least_upper_bound(&m, 1, 2), Some(3));
    assert_eq!(greatest_lower_bound(&m, 1, 2), Some(0));
    assert_eq!(least_upper_bound(&m, 0, 1), Some(1));
    assert_eq!(greatest_lower_bound(&m, 3, 3), Some(3));
}

#[test]
fn bounds_found_whatever_the_order_of_elements() {
    let m = divides_matrix(&[6, 3, 1, 2, 12]);
    assert_eq!(least_upper_bound(&m, 1, 3), Some(0));
    assert_eq!(greatest_lower_bound(&m, 1, 3), Some(2));
    assert_eq!(least_upper_bound(&m, 4, 2), Some(4));
}

#[test]
fn incomparable_elements_have_no_bounds() {
    let m = Matrix(vec![vec![true, false], vec![false, true]]);
    assert_eq!(least_upper_bound(&m, 0, 1), None);
    assert_eq!(greatest_lower_bound(&m, 0, 1), None);
}
