//! A matrix stored as a vector of rows.

use vstd::prelude::*;

verus! {

/// A matrix as its rows; every row is expected to have the same length.
#[derive(Clone, Debug, PartialEq)]
pub struct Matrix<T>(pub Vec<Vec<T>>);

impl<T> Matrix<T> {
    /// The number of rows and the length of the first row.
    pub fn shape(&self) -> (r: (usize, usize))
        requires
            self.0@.len() > 0,
        ensures
            r.0 == self.0@.len(),
            r.1 == self.0@[0]@.len(),
    {
        (self.0.len(), self.0[0].len())
    }

    /// The matrix of the same shape whose entries are `f` of the entries.
    pub fn map<F, U>(&self, f: F) -> (r: Matrix<U>) where F: Fn(&T) -> U
        requires
            forall|i: int, j: int|
                0 <= i < self.0@.len() && 0 <= j < self.0@[i]@.len() ==> f.requires(
                    (&self.0@[i]@[j],),
                ),
        ensures
            r.0@.len() == self.0@.len(),
            forall|i: int| 0 <= i < self.0@.len() ==> #[trigger] r.0@[i]@.len() == self.0@[i]@.len(),
            forall|i: int, j: int|
                0 <= i < self.0@.len() && 0 <= j < self.0@[i]@.len() ==> f.ensures(
                    (&self.0@[i]@[j],),
                    #[trigger] r.0@[i]@[j],
                ),
    {
        let mut rows: Vec<Vec<U>> = Vec::new();
        let mut i: usize = 0;
        while i < self.0.len()
            invariant
                i <= self.0@.len(),
                rows@.len() == i,
                forall|a: int, b: int|
                    0 <= a < self.0@.len() && 0 <= b < self.0@[a]@.len() ==> f.requires(
                        (&self.0@[a]@[b],),
                    ),
                forall|a: int| 0 <= a < i ==> #[trigger] rows@[a]@.len() == self.0@[a]@.len(),
                forall|a: int, b: int|
                    0 <= a < i && 0 <= b < self.0@[a]@.len() ==> f.ensures(
                        (&self.0@[a]@[b],),
                        #[trigger] rows@[a]@[b],
                    ),
            decreases self.0@.len() - i,
        {
            let source = &self.0[i];
            let mut row: Vec<U> = Vec::new();
            let mut j: usize = 0;
            while j < source.len()
                invariant
                    j <= source@.len(),
                    source == &self.0@[i as int],
                    row@.len() == j,
                    forall|b: int| 0 <= b < source@.len() ==> f.requires((&source@[b],)),
                    forall|b: int| 0 <= b < j ==> f.ensures((&source@[b],), #[trigger] row@[b]),
                decreases source@.len() - j,
            {
                let x = f(&source[j]);
                row.push(x);
                j = j + 1;
            }
            rows.push(row);
            i = i + 1;
        }
        Matrix(rows)
    }
}

} // verus!
