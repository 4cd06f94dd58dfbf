//! Counting the ways to beat a boat race record: holding the button for `h`
//! of the race's `time` milliseconds moves the boat `h * (time - h)`.
use vstd::prelude::*;

use crate::text::{int_value, parse_all, parse_int, push_char, reads_as, split_words, views, words};

verus! {

/// How far the boat goes when the button is held `hold` of `time` milliseconds.
pub open spec fn travelled(hold: int, time: int) -> int {
    hold * (time - hold)
}

/// The number of hold times `h` with `0 <= h < n` that go further than `distance`.
pub open spec fn wins_below(distance: int, time: int, n: int) -> int
    decreases n,
{
    if n <= 0 {
        0
    } else if travelled(n - 1, time) > distance {
        wins_below(distance, time, n - 1) + 1
    } else {
        wins_below(distance, time, n - 1)
    }
}

/// The number of hold times, from `0` to `time` inclusive, that beat the record.
pub open spec fn winning_ways(distance: int, time: int) -> int {
    wins_below(distance, time, time + 1)
}

proof fn lemma_wins_below_bounds(distance: int, time: int, n: int)
    ensures
        0 <= wins_below(distance, time, n),
        n >= 0 ==> wins_below(distance, time, n) <= n,
    decreases n,
{
    if n > 0 {
        lemma_wins_below_bounds(distance, time, n - 1);
    }
}

/// The number of ways to hold the button so that the boat goes further than
/// the record `distance` in a race of `time` milliseconds.
pub fn get_winning_ways(distance: i64, time: i64) -> (r: i64)
    requires
        distance >= 0,
    ensures
        r == winning_ways(distance as int, time as int),
{
    if time < 0 {
        return 0;
    }
    let mut ways: i64 = 0;
    let mut h: i64 = 0;
    while h < time
        invariant
            0 <= h <= time,
            distance >= 0,
            ways == wins_below(distance as int, time as int, h as int),
        decreases time - h,
    {
        proof {
            lemma_wins_below_bounds(distance as int, time as int, h as int);
        }
        proof {
            assert(0 <= h * (time - h) <= time * time) by (nonlinear_arith)
                requires
                    0 <= h <= time,
            ;
            assert(time * time <= i64::MAX * i64::MAX) by (nonlinear_arith)
                requires
                    0 <= time <= i64::MAX,
            ;
        }
        let travelled_now = (h as i128) * ((time - h) as i128);
        if travelled_now > distance as i128 {
            ways = ways + 1;
        }
        h = h + 1;
    }
    proof {
        assert(travelled(time as int, time as int) == 0);
    }
    ways
}

/// The characters of all of `ps`, one after the other.
pub open spec fn concat_all(ps: Seq<Seq<char>>) -> Seq<char>
    decreases ps.len(),
{
    if ps.len() == 0 {
        seq![]
    } else {
        concat_all(ps.drop_last()) + ps.last()
    }
}

/// Reads the numbers after the label of a line `Label: n1 n2 ...`.
pub fn race_numbers(line: &str) -> (r: Option<Vec<i64>>)
    ensures
        match r {
            Some(v) => words(line@).len() >= 1 && reads_as(words(line@).skip(1), v@),
            None => words(line@).len() == 0 || exists|i: int|
                1 <= i < words(line@).len() && #[trigger] int_value(words(line@)[i]) is None,
        },
{
    let ws = split_words(line);
    if ws.len() == 0 {
        return None;
    }
    let mut rest: Vec<String> = Vec::new();
    let mut i: usize = 1;
    while i < ws.len()
        invariant
            1 <= i <= ws.len(),
            views(rest@) == views(ws@).subrange(1, i as int),
        decreases ws.len() - i,
    {
        let ghost before = views(rest@);
        let c = ws[i].clone();
        assert(c == ws@[i as int]);
        rest.push(c);
        assert(views(rest@) =~= before.push(ws@[i as int]@));
        assert(views(rest@) =~= views(ws@).subrange(1, i + 1));
        i = i + 1;
    }
    assert(views(ws@).subrange(1, ws.len() as int) == words(line@).skip(1));
    let r = parse_all(&rest);
    proof {
        if r is None {
            let k = choose|k: int| 0 <= k < rest.len() && #[trigger] int_value(rest@[k]@) is None;
            assert(views(rest@)[k] == rest@[k]@);
            assert(words(line@)[k + 1] == rest@[k]@);
        }
    }
    r
}

/// Reads the number that the words after the label of `line` make when
/// written one after the other, as for `Time:  7  15  30`, which reads 71530.
pub fn joined_number(line: &str) -> (r: Option<i64>)
    ensures
        r == (if words(line@).len() >= 1 {
            int_value(concat_all(words(line@).skip(1)))
        } else {
            None
        }),
{
    let ws = split_words(line);
    if ws.len() == 0 {
        return None;
    }
    let ghost rest = views(ws@).skip(1);
    let mut joined = String::new();
    let mut i: usize = 1;
    while i < ws.len()
        invariant
            1 <= i <= ws.len(),
            rest == views(ws@).skip(1),
            joined@ == concat_all(rest.take(i - 1)),
        decreases ws.len() - i,
    {
        let w = ws[i].as_str();
        let n = w.unicode_len();
        let ghost start = joined@;
        let mut k: usize = 0;
        while k < n
            invariant
                n == w@.len(),
                k <= n,
                joined@ == start + w@.take(k as int),
            decreases n - k,
        {
            push_char(&mut joined, w.get_char(k));
            assert(joined@ =~= start + w@.take(k + 1));
            k = k + 1;
        }
        proof {
            assert(w@.take(n as int) == w@);
            assert(rest.take(i as int).drop_last() == rest.take(i - 1));
            assert(rest.take(i as int).last() == ws@[i as int]@);
        }
        i = i + 1;
    }
    assert(rest.take(ws.len() - 1) == rest);
    parse_int(joined.as_str())
}

} // verus!
