//! The inversion number of a sequence.

use vstd::prelude::*;

verus! {

/// How many elements of `s` are smaller than `x`.
pub open spec fn smaller_count(x: i64, s: Seq<i64>) -> nat
    decreases s.len(),
{
    if s.len() == 0 {
        0
    } else {
        smaller_count(x, s.drop_last()) + if s.last() < x {
            1nat
        } else {
            0nat
        }
    }
}

/// The number of pairs `i < j` with `s[i] > s[j]` and `k <= i`.
pub open spec fn inversions_from(s: Seq<i64>, k: int) -> nat
    decreases s.len() - k,
{
    if k < 0 || k >= s.len() {
        0
    } else {
        smaller_count(s[k], s.subrange(k + 1, s.len() as int)) + inversions_from(s, k + 1)
    }
}

/// The inversion number of `s`: the number of pairs `i < j` with `s[i] > s[j]`.
pub open spec fn inversion_number(s: Seq<i64>) -> nat {
    inversions_from(s, 0)
}

proof fn lemma_smaller_count_bound(x: i64, s: Seq<i64>)
    ensures
        smaller_count(x, s) <= s.len(),
    decreases s.len(),
{
    if s.len() > 0 {
        lemma_smaller_count_bound(x, s.drop_last());
    }
}

/// The inversion number of `numbers`.
pub fn inv(numbers: &[i64]) -> (r: u128)
    ensures
        r == inversion_number(numbers@),
{
    let l = numbers.len();
    let mut ans: u128 = 0;
    let mut i: usize = 0;
    while i < l
        invariant
            i <= l,
            l == numbers@.len(),
            ans + inversions_from(numbers@, i as int) == inversion_number(numbers@),
            ans <= i * l,
        decreases l - i,
    {
        let ghost rest = numbers@.subrange(i + 1, l as int);
        let mut smaller: u128 = 0;
        let mut j: usize = i + 1;
        while j < l
            invariant
                i < l,
                i + 1 <= j <= l,
                l == numbers@.len(),
                smaller == smaller_count(numbers@[i as int], numbers@.subrange(i + 1, j as int)),
                smaller <= j - i - 1,
            decreases l - j,
        {
            assert(numbers@.subrange(i + 1, j + 1).drop_last() =~= numbers@.subrange(i + 1, j as int));
            if numbers[i] > numbers[j] {
                smaller = smaller + 1;
            }
            j = j + 1;
        }
        assert(numbers@.subrange(i + 1, l as int) =~= rest);
        assert(ans + smaller <= (i + 1) * l) by (nonlinear_arith)
            requires
                ans <= i * l,
                smaller <= l,
        ;
        assert((i + 1) * l <= l * l) by (nonlinear_arith)
            requires
                i < l,
        ;
        assert(l * l <= 0xffff_ffff_ffff_ffffu128 * 0xffff_ffff_ffff_ffffu128) by (nonlinear_arith)
            requires
                l <= 0xffff_ffff_ffff_ffffu128,
        ;
        ans = ans + smaller;
        i = i + 1;
    }
    ans
}

} // verus!
