//! Extrapolating a sequence of readings forwards or backwards through its
//! table of successive differences.
use itertools::Itertools;
use vstd::prelude::*;

verus! {

pub open spec fn ints(v: Seq<i64>) -> Seq<int> {
    v.map_values(|x: i64| x as int)
}

pub open spec fn in_i64(x: int) -> bool {
    i64::MIN <= x <= i64::MAX
}

/// Every element of `s` is the same.
pub open spec fn all_same(s: Seq<int>) -> bool {
    forall|i: int, j: int| 0 <= i < s.len() && 0 <= j < s.len() ==> s[i] == s[j]
}

/// The differences of neighbouring elements of `s`.
pub open spec fn diffs(s: Seq<int>) -> Seq<int> {
    Seq::new((s.len() - 1) as nat, |i: int| s[i + 1] - s[i])
}

/// The value that extends `s` by one element at its end (`prev` false) or at
/// its start (`prev` true), found by descending the difference table until a
/// row is constant.
pub open spec fn extrapolate(s: Seq<int>, prev: bool) -> int
    decreases s.len(),
{
    if s.len() == 0 {
        0
    } else if s.len() == 1 || all_same(s) {
        if prev { s[0] } else { s.last() }
    } else if prev {
        s[0] - extrapolate(diffs(s), prev)
    } else {
        s.last() + extrapolate(diffs(s), prev)
    }
}

/// Every row of the difference table that the extrapolation descends, and
/// every value it computes on the way back, fits in an `i64`.
pub open spec fn fits(s: Seq<int>, prev: bool) -> bool
    decreases s.len(),
{
    &&& in_i64(extrapolate(s, prev))
    &&& (s.len() <= 1 || all_same(s) || {
        &&& forall|i: int| 0 <= i < diffs(s).len() ==> in_i64(#[trigger] diffs(s)[i])
        &&& fits(diffs(s), prev)
    })
}

/// Relies on itertools' `Itertools::all_equal`: true exactly when no two
/// elements differ.
#[verifier::external_body]
fn all_equal(v: &Vec<i64>) -> (r: bool)
    ensures
        r == all_same(ints(v@)),
{
    v.iter().all_equal()
}

/// The differences of neighbouring elements, or `None` when one of them
/// does not fit in an `i64`.
fn differences(v: &Vec<i64>) -> (r: Option<Vec<i64>>)
    requires
        v.len() >= 1,
    ensures
        match r {
            Some(d) => ints(d@) == diffs(ints(v@)),
            None => exists|i: int|
                0 <= i < diffs(ints(v@)).len() && !in_i64(#[trigger] diffs(ints(v@))[i]),
        },
{
    let mut d: Vec<i64> = Vec::new();
    let mut i: usize = 0;
    while i + 1 < v.len()
        invariant
            v.len() >= 1,
            i + 1 <= v.len(),
            d.len() == i,
            forall|k: int| 0 <= k < i ==> (#[trigger] d@[k]) as int == v@[k + 1] - v@[k],
        decreases v.len() - i,
    {
        match v[i + 1].checked_sub(v[i]) {
            Some(x) => d.push(x),
            None => {
                assert(diffs(ints(v@))[i as int] == v@[i + 1] - v@[i as int]);
                return None;
            },
        }
        i = i + 1;
    }
    assert(ints(d@) =~= diffs(ints(v@)));
    Some(d)
}

/// Extends `history` by one value at its end, or at its start when `prev`
/// holds; `None` when a step of the computation leaves the range of `i64`.
pub fn get_next_sequence_value(history: &Vec<i64>, prev: bool) -> (r: Option<i64>)
    requires
        history.len() > 0,
    ensures
        r == (if fits(ints(history@), prev) {
            Some(extrapolate(ints(history@), prev) as i64)
        } else {
            None
        }),
    decreases history.len(),
{
    let ghost s = ints(history@);
    let n = history.len();
    if n == 1 || all_equal(history) {
        return Some(if prev { history[0] } else { history[n - 1] });
    }
    let d = match differences(history) {
        Some(d) => d,
        None => return None,
    };
    assert(d@.len() == ints(d@).len());
    let e = match get_next_sequence_value(&d, prev) {
        Some(e) => e,
        None => return None,
    };
    assert(!all_same(s));
    assert(s[0] == history@[0] && s.last() == history@[n - 1]);
    if prev {
        history[0].checked_sub(e)
    } else {
        history[n - 1].checked_add(e)
    }
}

} // verus!
