//! Reading an almanac: a `seeds:` line of start and length pairs, then
//! stages, each a header line ending in ` map:` followed by lines of three
//! numbers, destination start, source start and length. Blank lines are
//! skipped.
use vstd::prelude::*;

use crate::almanac::{
    Interval, Rule, get_seed_range_location, map_pipeline, min_start, rules_wf, stages_wf,
};
use crate::text::{ends_with, has_prefix, has_suffix, numbers_in, numbers_of, starts_with, views};

verus! {

pub open spec fn seeds_tag() -> Seq<char> {
    seq!['s', 'e', 'e', 'd', 's', ':']
}

pub open spec fn map_tag() -> Seq<char> {
    seq![' ', 'm', 'a', 'p', ':']
}

/// Each pair of numbers is a start and a length that is not negative, and
/// their sum fits in an `i64`.
pub open spec fn pairs_ok(v: Seq<i64>) -> bool {
    &&& v.len() % 2 == 0
    &&& forall|i: int|
        0 <= i < v.len() / 2 ==> #[trigger] v[2 * i + 1] >= 0 && v[2 * i] + v[2 * i + 1] <= i64::MAX
}

/// The intervals `[start, start + length)` of the pairs of `v`.
pub open spec fn seed_pairs(v: Seq<i64>) -> Seq<Interval> {
    Seq::new(
        (v.len() / 2) as nat,
        |i: int| Interval { start: v[2 * i], end: (v[2 * i] + v[2 * i + 1]) as i64 },
    )
}

/// The seed ranges of a line that begins with `seeds:`.
pub open spec fn seed_ranges_of(line: Seq<char>) -> Option<Seq<Interval>> {
    match numbers_of(line.skip(6)) {
        Some(v) => if pairs_ok(v) { Some(seed_pairs(v)) } else { None },
        None => None,
    }
}

/// The rule of a line `dest source length`: `None` unless the line's words
/// are numbers, at least three, the length is not negative and both ends fit.
pub open spec fn rule_of(line: Seq<char>) -> Option<Rule> {
    match numbers_of(line) {
        Some(v) => if v.len() >= 3 && v[2] >= 0 && v[0] + v[2] <= i64::MAX && v[1] + v[2] <= i64::MAX {
            Some(
                Rule {
                    source: Interval { start: v[1], end: (v[1] + v[2]) as i64 },
                    dest: Interval { start: v[0], end: (v[0] + v[2]) as i64 },
                },
            )
        } else {
            None
        },
        None => None,
    }
}

/// The seeds and the stages read from `lines`, each stage in the order of
/// its header; `None` when a line cannot be read or a rule comes before any
/// header.
pub open spec fn almanac_of(lines: Seq<Seq<char>>) -> Option<(Seq<Interval>, Seq<Seq<Rule>>)>
    decreases lines.len(),
{
    if lines.len() == 0 {
        Some((seq![], seq![]))
    } else {
        match almanac_of(lines.drop_last()) {
            None => None,
            Some((seeds, stages)) => {
                let l = lines.last();
                if l.len() == 0 {
                    Some((seeds, stages))
                } else if starts_with(l, seeds_tag()) {
                    match seed_ranges_of(l) {
                        Some(v) => Some((seeds + v, stages)),
                        None => None,
                    }
                } else if ends_with(l, map_tag()) {
                    Some((seeds, stages.push(seq![])))
                } else if stages.len() == 0 {
                    None
                } else {
                    match rule_of(l) {
                        Some(r) => Some((seeds, stages.update(stages.len() - 1, stages.last().push(r)))),
                        None => None,
                    }
                }
            },
        }
    }
}

pub open spec fn rule_lists(st: Seq<Vec<Rule>>) -> Seq<Seq<Rule>> {
    st.map_values(|v: Vec<Rule>| v@)
}

/// The seed ranges of a line that begins with `seeds:`.
pub fn parse_seed_ranges(line: &str) -> (r: Option<Vec<Interval>>)
    requires
        starts_with(line@, seeds_tag()),
    ensures
        match r {
            Some(v) => seed_ranges_of(line@) == Some(v@),
            None => seed_ranges_of(line@) is None,
        },
{
    let n = line.unicode_len();
    let rest = line.substring_char(6, n);
    assert(rest@ == line@.skip(6));
    let nums = match numbers_in(rest) {
        Some(v) => v,
        None => return None,
    };
    if nums.len() % 2 != 0 {
        return None;
    }
    let mut out: Vec<Interval> = Vec::new();
    let mut i: usize = 0;
    while i < nums.len() / 2
        invariant
            numbers_of(line@.skip(6)) == Some(nums@),
            nums.len() % 2 == 0,
            i <= nums.len() / 2,
            out.len() == i,
            forall|k: int|
                0 <= k < i ==> #[trigger] nums@[2 * k + 1] >= 0 && nums@[2 * k] + nums@[2 * k + 1]
                    <= i64::MAX,
            forall|k: int| 0 <= k < i ==> #[trigger] out@[k] == seed_pairs(nums@)[k],
        decreases nums.len() / 2 - i,
    {
        let a = nums[2 * i];
        let l = nums[2 * i + 1];
        if l < 0 || a > i64::MAX - l {
            proof {
                assert(!pairs_ok(nums@)) by {
                    let k = i as int;
                    assert(0 <= k < nums@.len() / 2);
                    assert(nums@[2 * k + 1] == l);
                }
            }
            return None;
        }
        out.push(Interval { start: a, end: a + l });
        i = i + 1;
    }
    assert(out@ =~= seed_pairs(nums@));
    Some(out)
}

/// The rule of a line `dest source length`.
pub fn parse_rule(line: &str) -> (r: Option<Rule>)
    ensures
        r == rule_of(line@),
{
    let v = match numbers_in(line) {
        Some(v) => v,
        None => return None,
    };
    if v.len() < 3 || v[2] < 0 || v[0] > i64::MAX - v[2] || v[1] > i64::MAX - v[2] {
        return None;
    }
    Some(
        Rule {
            source: Interval { start: v[1], end: v[1] + v[2] },
            dest: Interval { start: v[0], end: v[0] + v[2] },
        },
    )
}

proof fn lemma_rule_of_wf(line: Seq<char>)
    requires
        rule_of(line) is Some,
    ensures
        rule_of(line)->Some_0.wf(),
{
}

/// Once a prefix of the lines cannot be read, neither can the whole.
proof fn lemma_almanac_fails_on(lines: Seq<Seq<char>>, k: int)
    requires
        0 <= k <= lines.len(),
        almanac_of(lines.take(k)) is None,
    ensures
        almanac_of(lines) is None,
    decreases lines.len() - k,
{
    if k == lines.len() {
        assert(lines.take(k) == lines);
    } else {
        assert(lines.take(k + 1).drop_last() == lines.take(k));
        lemma_almanac_fails_on(lines, k + 1);
    }
}

/// Every rule of every stage keeps the length of its source.
pub open spec fn all_rules_wf(stages: Seq<Seq<Rule>>) -> bool {
    forall|i: int| 0 <= i < stages.len() ==> rules_wf(#[trigger] stages[i])
}

/// Reads the seeds and stages of an almanac from its lines.
pub fn parse_almanac(lines: &Vec<String>) -> (r: Option<(Vec<Interval>, Vec<Vec<Rule>>)>)
    ensures
        match r {
            Some((seeds, stages)) => almanac_of(views(lines@)) == Some((seeds@, rule_lists(stages@)))
                && stages_wf(stages@),
            None => almanac_of(views(lines@)) is None,
        },
{
    let seeds_word = "seeds:";
    let map_word = " map:";
    proof {
        reveal_strlit("seeds:");
        reveal_strlit(" map:");
        assert(seeds_word@ == seeds_tag());
        assert(map_word@ == map_tag());
    }
    let mut seeds: Vec<Interval> = Vec::new();
    let mut stages: Vec<Vec<Rule>> = Vec::new();
    let mut current: Vec<Rule> = Vec::new();
    let mut open = false;
    let mut i: usize = 0;
    while i < lines.len()
        invariant
            i <= lines.len(),
            seeds_word@ == seeds_tag(),
            map_word@ == map_tag(),
            almanac_of(views(lines@).take(i as int)) == Some(
                (
                    seeds@,
                    if open {
                        rule_lists(stages@).push(current@)
                    } else {
                        rule_lists(stages@)
                    },
                ),
            ),
            !open ==> stages.len() == 0,
            stages_wf(stages@),
            rules_wf(current@),
        decreases lines.len() - i,
    {
        let line = lines[i].as_str();
        let ghost before = views(lines@).take(i as int);
        proof {
            assert(views(lines@).take(i + 1).drop_last() == before);
            assert(views(lines@).take(i + 1).last() == line@);
        }
        let ghost state = if open {
            rule_lists(stages@).push(current@)
        } else {
            rule_lists(stages@)
        };
        if line.unicode_len() == 0 {
        } else if has_prefix(line, seeds_word) {
            match parse_seed_ranges(line) {
                Some(v) => {
                    let ghost old_seeds = seeds@;
                    let mut v = v;
                    seeds.append(&mut v);
                    assert(seeds@ == old_seeds + seed_ranges_of(line@)->Some_0);
                },
                None => {
                    proof {
                        lemma_almanac_fails_on(views(lines@), i + 1);
                    }
                    return None;
                },
            }
        } else if has_suffix(line, map_word) {
            if open {
                let done = current;
                stages.push(done);
                proof {
                    assert(rule_lists(stages@) =~= state);
                    assert(stages_wf(stages@)) by {
                        assert forall|k: int| 0 <= k < stages@.len() implies rules_wf(
                            (#[trigger] stages@[k])@,
                        ) by {}
                    }
                }
            }
            current = Vec::new();
            open = true;
            proof {
                assert(rule_lists(stages@).push(current@) =~= state.push(seq![]));
            }
        } else if !open {
            proof {
                lemma_almanac_fails_on(views(lines@), i + 1);
            }
            return None;
        } else {
            match parse_rule(line) {
                Some(rule) => {
                    proof {
                        lemma_rule_of_wf(line@);
                    }
                    current.push(rule);
                    proof {
                        assert(rule_lists(stages@).push(current@) =~= state.update(
                            state.len() - 1,
                            state.last().push(rule),
                        ));
                    }
                },
                None => {
                    proof {
                        lemma_almanac_fails_on(views(lines@), i + 1);
                    }
                    return None;
                },
            }
        }
        i = i + 1;
    }
    proof {
        assert(views(lines@).take(lines.len() as int) == views(lines@));
    }
    if open {
        let ghost state = rule_lists(stages@).push(current@);
        stages.push(current);
        assert(rule_lists(stages@) =~= state);
    } else {
        assert(rule_lists(stages@) =~= rule_lists(stages@));
    }
    Some((seeds, stages))
}

/// The smallest location over the seed ranges of `seeds`, in order.
pub open spec fn lowest_of(seeds: Seq<Interval>, maps: Seq<Vec<Rule>>) -> Option<i64>
    decreases seeds.len(),
{
    if seeds.len() == 0 {
        None
    } else {
        let here = min_start(map_pipeline(maps, seq![seeds.last()]));
        match (lowest_of(seeds.drop_last(), maps), here) {
            (None, h) => h,
            (m, None) => m,
            (Some(a), Some(b)) => Some(if a <= b { a } else { b }),
        }
    }
}

/// The smallest value that any of the seed ranges reaches through all stages.
pub fn lowest_location(seeds: &Vec<Interval>, maps: &Vec<Vec<Rule>>) -> (r: Option<i64>)
    requires
        stages_wf(maps@),
    ensures
        r == lowest_of(seeds@, maps@),
{
    let mut best: Option<i64> = None;
    let mut i: usize = 0;
    while i < seeds.len()
        invariant
            i <= seeds.len(),
            stages_wf(maps@),
            best == lowest_of(seeds@.take(i as int), maps@),
        decreases seeds.len() - i,
    {
        proof {
            assert(seeds@.take(i + 1).drop_last() == seeds@.take(i as int));
            assert(seeds@.take(i + 1).last() == seeds@[i as int]);
        }
        let here = get_seed_range_location(&seeds[i], maps);
        best = match (best, here) {
            (None, h) => h,
            (m, None) => m,
            (Some(a), Some(b)) => Some(if a <= b { a } else { b }),
        };
        i = i + 1;
    }
    assert(seeds@.take(seeds.len() as int) == seeds@);
    best
}

} // verus!
