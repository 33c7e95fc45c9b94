//! Least upper and greatest lower bounds in a relation given as a boolean
//! matrix, where `m[x][y]` reads "x precedes y".

use vstd::prelude::*;
use crate::matrix::Matrix;

verus! {

/// `m` has `n > 0` rows, each of length `n`.
pub open spec fn is_square(m: &Matrix<bool>) -> bool {
    &&& m.0@.len() > 0
    &&& forall|i: int| 0 <= i < m.0@.len() ==> #[trigger] m.0@[i]@.len() == m.0@.len()
}

/// `x` precedes `y`.
pub open spec fn precedes(m: &Matrix<bool>, x: int, y: int) -> bool {
    m.0@[x]@[y]
}

/// The relation is reflexive, antisymmetric and transitive.
pub open spec fn is_partial_order(m: &Matrix<bool>) -> bool {
    let n = m.0@.len() as int;
    &&& forall|x: int| 0 <= x < n ==> precedes(m, x, x)
    &&& forall|x: int, y: int|
        0 <= x < n && 0 <= y < n && #[trigger] precedes(m, x, y) && #[trigger] precedes(m, y, x)
            ==> x == y
    &&& forall|x: int, y: int, z: int|
        0 <= x < n && 0 <= y < n && 0 <= z < n && #[trigger] precedes(m, x, y) && #[trigger] precedes(
            m,
            y,
            z,
        ) ==> precedes(m, x, z)
}

pub open spec fn is_upper_bound(m: &Matrix<bool>, a: int, b: int, c: int) -> bool {
    precedes(m, a, c) && precedes(m, b, c)
}

pub open spec fn is_lower_bound(m: &Matrix<bool>, a: int, b: int, c: int) -> bool {
    precedes(m, c, a) && precedes(m, c, b)
}

/// `c` is an upper bound of `a` and `b` that precedes every other one.
pub open spec fn is_least_upper_bound(m: &Matrix<bool>, a: int, b: int, c: int) -> bool {
    &&& 0 <= c < m.0@.len()
    &&& is_upper_bound(m, a, b, c)
    &&& forall|j: int| 0 <= j < m.0@.len() && #[trigger] is_upper_bound(m, a, b, j) ==> precedes(m, c, j)
}

/// `c` is a lower bound of `a` and `b` that every other one precedes.
pub open spec fn is_greatest_lower_bound(m: &Matrix<bool>, a: int, b: int, c: int) -> bool {
    &&& 0 <= c < m.0@.len()
    &&& is_lower_bound(m, a, b, c)
    &&& forall|j: int| 0 <= j < m.0@.len() && #[trigger] is_lower_bound(m, a, b, j) ==> precedes(m, j, c)
}

/// Scans the elements in order and keeps an upper bound of `a` and `b`,
/// moving to a later one that precedes it. The result is `None` exactly
/// when `a` and `b` have no upper bound; otherwise it is one, and it is the
/// least upper bound wherever the relation is a partial order that has one.
pub fn least_upper_bound(matrix: &Matrix<bool>, a: usize, b: usize) -> (r: Option<usize>)
    requires
        is_square(matrix),
        a < matrix.0@.len(),
        b < matrix.0@.len(),
    ensures
        r is None <==> !exists|c: int| 0 <= c < matrix.0@.len() && #[trigger] is_upper_bound(matrix, a as int, b as int, c),
        r matches Some(c) ==> c < matrix.0@.len() && is_upper_bound(matrix, a as int, b as int, c as int),
        forall|l: int|
            is_partial_order(matrix) && #[trigger] is_least_upper_bound(matrix, a as int, b as int, l)
                ==> r == Some(l as usize),
{
    let m = matrix.shape().0;
    let mut bound: Option<usize> = None;
    let mut i: usize = 0;
    while i < m
        invariant
            is_square(matrix),
            m == matrix.0@.len(),
            a < m,
            b < m,
            i <= m,
            bound is None <==> forall|j: int| 0 <= j < i ==> !#[trigger] is_upper_bound(matrix, a as int, b as int, j),
            bound matches Some(c) ==> c < i && is_upper_bound(matrix, a as int, b as int, c as int),
            forall|l: int|
                0 <= l < i && is_partial_order(matrix) && #[trigger] is_least_upper_bound(
                    matrix,
                    a as int,
                    b as int,
                    l,
                ) ==> bound == Some(l as usize),
        decreases m - i,
    {
        assert(matrix.0@[a as int]@.len() == m && matrix.0@[b as int]@.len() == m);
        let ghost old_bound = bound;
        let ghost here = is_upper_bound(matrix, a as int, b as int, i as int);
        if matrix.0[a][i] && matrix.0[b][i] {
            match bound {
                Some(c) => {
                    assert(matrix.0@[i as int]@.len() == m);
                    if matrix.0[i][c] {
                        bound = Some(i);
                    }
                },
                None => {
                    bound = Some(i);
                },
            }
        }
        proof {
            assert forall|l: int|
                0 <= l < i + 1 && is_partial_order(matrix) && #[trigger] is_least_upper_bound(
                    matrix,
                    a as int,
                    b as int,
                    l,
                ) implies bound == Some(l as usize) by {
                if l < i {
                    if here && precedes(matrix, i as int, l) {
                        assert(precedes(matrix, l, i as int));
                    }
                } else if let Some(c) = old_bound {
                    assert(is_upper_bound(matrix, a as int, b as int, c as int));
                    assert(precedes(matrix, l, c as int));
                }
            }
        }
        i = i + 1;
    }
    bound
}

/// Scans the elements in order and keeps a lower bound of `a` and `b`,
/// moving to a later one that it precedes. The result is `None` exactly
/// when `a` and `b` have no lower bound; otherwise it is one, and it is the
/// greatest lower bound wherever the relation is a partial order that has
/// one.
pub fn greatest_lower_bound(matrix: &Matrix<bool>, a: usize, b: usize) -> (r: Option<usize>)
    requires
        is_square(matrix),
        a < matrix.0@.len(),
        b < matrix.0@.len(),
    ensures
        r is None <==> !exists|c: int| 0 <= c < matrix.0@.len() && #[trigger] is_lower_bound(matrix, a as int, b as int, c),
        r matches Some(c) ==> c < matrix.0@.len() && is_lower_bound(matrix, a as int, b as int, c as int),
        forall|g: int|
            is_partial_order(matrix) && #[trigger] is_greatest_lower_bound(matrix, a as int, b as int, g)
                ==> r == Some(g as usize),
{
    let m = matrix.shape().0;
    let mut bound: Option<usize> = None;
    let mut i: usize = 0;
    while i < m
        invariant
            is_square(matrix),
            m == matrix.0@.len(),
            a < m,
            b < m,
            i <= m,
            bound is None <==> forall|j: int| 0 <= j < i ==> !#[trigger] is_lower_bound(matrix, a as int, b as int, j),
            bound matches Some(c) ==> c < i && is_lower_bound(matrix, a as int, b as int, c as int),
            forall|g: int|
                0 <= g < i && is_partial_order(matrix) && #[trigger] is_greatest_lower_bound(
                    matrix,
                    a as int,
                    b as int,
                    g,
                ) ==> bound == Some(g as usize),
        decreases m - i,
    {
        assert(matrix.0@[i as int]@.len() == m);
        let ghost old_bound = bound;
        let ghost here = is_lower_bound(matrix, a as int, b as int, i as int);
        if matrix.0[i][a] && matrix.0[i][b] {
            match bound {
                Some(c) => {
                    assert(matrix.0@[c as int]@.len() == m);
                    if matrix.0[c][i] {
                        bound = Some(i);
                    }
                },
                None => {
                    bound = Some(i);
                },
            }
        }
        proof {
            assert forall|l: int|
                0 <= l < i + 1 && is_partial_order(matrix) && #[trigger] is_greatest_lower_bound(
                    matrix,
                    a as int,
                    b as int,
                    l,
                ) implies bound == Some(l as usize) by {
                if l < i {
                    if here && precedes(matrix, l, i as int) {
                        assert(precedes(matrix, i as int, l));
                    }
                } else if let Some(c) = old_bound {
                    assert(is_lower_bound(matrix, a as int, b as int, c as int));
                    assert(precedes(matrix, c as int, l));
                }
            }
        }
        i = i + 1;
    }
    bound
}

} // verus!
