//! Adding up the answers of the lines of an input.
use vstd::prelude::*;

verus! {

/// The sum of the first `k` values.
pub open spec fn sum_upto(v: Seq<i64>, k: int) -> int
    decreases k,
{
    if k <= 0 {
        0
    } else {
        sum_upto(v, k - 1) + v[k - 1]
    }
}

/// Every partial sum of `v` fits in an `i64`.
pub open spec fn sums_fit(v: Seq<i64>) -> bool {
    forall|k: int| 0 <= k <= v.len() ==> i64::MIN <= #[trigger] sum_upto(v, k) <= i64::MAX
}

/// The sum of `values`; `None` when a partial sum leaves the range of `i64`.
pub fn sum_all(values: &Vec<i64>) -> (r: Option<i64>)
    ensures
        r == (if sums_fit(values@) { Some(sum_upto(values@, values@.len() as int) as i64) } else { None }),
{
    let mut sum: i64 = 0;
    let mut i: usize = 0;
    while i < values.len()
        invariant
            i <= values.len(),
            sum == sum_upto(values@, i as int),
            forall|k: int| 0 <= k <= i ==> i64::MIN <= #[trigger] sum_upto(values@, k) <= i64::MAX,
        decreases values.len() - i,
    {
        match sum.checked_add(values[i]) {
            Some(s) => sum = s,
            None => {
                assert(!(i64::MIN <= sum_upto(values@, i + 1) <= i64::MAX));
                return None;
            },
        }
        i = i + 1;
    }
    Some(sum)
}

} // verus!
