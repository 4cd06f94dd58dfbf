//! Mapping half-open integer intervals through an ordered chain of stages,
//! each stage a list of fixed-offset rules from a source interval to a
//! destination interval of equal length.
use vstd::prelude::*;

use crate::almanac_values::lemma_lowest_reachable;

verus! {

/// The half-open interval `[start, end)`.
#[derive(Clone, Copy, Debug, PartialEq, Eq, Structural)]
pub struct Interval {
    pub start: i64,
    pub end: i64,
}

/// Maps every value `v` of `source` to `dest.start + (v - source.start)`.
#[derive(Clone, Copy, Debug, PartialEq, Eq, Structural)]
pub struct Rule {
    pub source: Interval,
    pub dest: Interval,
}

impl Interval {
    pub open spec fn len(self) -> int {
        self.end - self.start
    }

    pub open spec fn wf(self) -> bool {
        self.start <= self.end
    }

    pub open spec fn is_empty(self) -> bool {
        self.end <= self.start
    }

    pub open spec fn contains(self, v: int) -> bool {
        self.start <= v < self.end
    }
}

impl Rule {
    /// Source and destination have the same length.
    pub open spec fn wf(self) -> bool {
        &&& self.source.wf()
        &&& self.dest.len() == self.source.len()
    }

    /// Where the rule sends a value of its source.
    pub open spec fn shift(self, v: int) -> int {
        self.dest.start + (v - self.source.start)
    }
}

pub open spec fn max_i64(a: i64, b: i64) -> i64 {
    if a >= b { a } else { b }
}

pub open spec fn min_i64(a: i64, b: i64) -> i64 {
    if a <= b { a } else { b }
}

/// The common part of two intervals, if it holds any value.
pub open spec fn overlap(a: Interval, b: Interval) -> Option<Interval> {
    let s = max_i64(a.start, b.start);
    let e = min_i64(a.end, b.end);
    if s < e {
        Some(Interval { start: s, end: e })
    } else {
        None
    }
}

/// Computes the common part of `r1` and `r2`: `None` when they share no value.
pub fn get_overlapping_range(r1: &Interval, r2: &Interval) -> (r: Option<Interval>)
    ensures
        r == overlap(*r1, *r2),
{
    let start = if r1.start >= r2.start { r1.start } else { r2.start };
    let end = if r1.end <= r2.end { r1.end } else { r2.end };
    if start < end {
        Some(Interval { start, end })
    } else {
        None
    }
}

/// The image under `r` of a part of its source.
pub open spec fn shift_piece(r: Rule, piece: Interval) -> Interval {
    Interval { start: r.shift(piece.start as int) as i64, end: r.shift(piece.end as int) as i64 }
}

/// The parts of `u` before and after the interval `o`, each only if it holds a value.
pub open spec fn leftovers(u: Interval, o: Interval) -> Seq<Interval> {
    let before: Seq<Interval> = if u.start < o.start {
        seq![Interval { start: u.start, end: o.start }]
    } else {
        seq![]
    };
    let after: Seq<Interval> = if o.end < u.end {
        seq![Interval { start: o.end, end: u.end }]
    } else {
        seq![]
    };
    before + after
}

/// The pieces that rule `r` claims from the unclaimed pieces `us`, shifted, in order.
pub open spec fn rule_claims(r: Rule, us: Seq<Interval>) -> Seq<Interval>
    decreases us.len(),
{
    if us.len() == 0 {
        seq![]
    } else {
        let prev = rule_claims(r, us.drop_last());
        match overlap(us.last(), r.source) {
            Some(o) => prev.push(shift_piece(r, o)),
            None => prev,
        }
    }
}

/// What remains of the unclaimed pieces `us` once rule `r` has claimed its part.
pub open spec fn rule_leaves(r: Rule, us: Seq<Interval>) -> Seq<Interval>
    decreases us.len(),
{
    if us.len() == 0 {
        seq![]
    } else {
        let prev = rule_leaves(r, us.drop_last());
        match overlap(us.last(), r.source) {
            Some(o) => prev + leftovers(us.last(), o),
            None => prev.push(us.last()),
        }
    }
}

/// The pieces of `us` that no rule of `rules` claims, after all of them in order.
pub open spec fn unclaimed(rules: Seq<Rule>, us: Seq<Interval>) -> Seq<Interval>
    decreases rules.len(),
{
    if rules.len() == 0 {
        us
    } else {
        rule_leaves(rules.last(), unclaimed(rules.drop_last(), us))
    }
}

/// The shifted pieces that the rules of `rules` claim from `us`, rule by rule.
pub open spec fn claimed(rules: Seq<Rule>, us: Seq<Interval>) -> Seq<Interval>
    decreases rules.len(),
{
    if rules.len() == 0 {
        seq![]
    } else {
        claimed(rules.drop_last(), us) + rule_claims(rules.last(), unclaimed(rules.drop_last(), us))
    }
}

/// One interval through one stage: the claimed pieces, then what passes unchanged.
pub open spec fn map_interval(rules: Seq<Rule>, w: Interval) -> Seq<Interval> {
    claimed(rules, seq![w]) + unclaimed(rules, seq![w])
}

/// A working set through one stage.
pub open spec fn map_stage(rules: Seq<Rule>, ws: Seq<Interval>) -> Seq<Interval>
    decreases ws.len(),
{
    if ws.len() == 0 {
        seq![]
    } else {
        map_stage(rules, ws.drop_last()) + map_interval(rules, ws.last())
    }
}

/// A working set through every stage of `stages`, in order.
pub open spec fn map_pipeline(stages: Seq<Vec<Rule>>, ws: Seq<Interval>) -> Seq<Interval>
    decreases stages.len(),
{
    if stages.len() == 0 {
        ws
    } else {
        map_stage(stages.last()@, map_pipeline(stages.drop_last(), ws))
    }
}

pub open spec fn rules_wf(rules: Seq<Rule>) -> bool {
    forall|i: int| 0 <= i < rules.len() ==> (#[trigger] rules[i]).wf()
}

pub open spec fn stages_wf(stages: Seq<Vec<Rule>>) -> bool {
    forall|i: int| 0 <= i < stages.len() ==> rules_wf((#[trigger] stages[i])@)
}

/// The smallest start among the intervals of `ws` that hold a value.
pub open spec fn min_start(ws: Seq<Interval>) -> Option<i64>
    decreases ws.len(),
{
    if ws.len() == 0 {
        None
    } else {
        let w = ws.last();
        match min_start(ws.drop_last()) {
            None => if w.is_empty() { None } else { Some(w.start) },
            Some(m) => if w.is_empty() || m <= w.start { Some(m) } else { Some(w.start) },
        }
    }
}

/// The image under `r` of a part of its source, computed.
fn shift_interval(r: &Rule, piece: &Interval) -> (t: Interval)
    requires
        r.wf(),
        r.source.start <= piece.start <= piece.end <= r.source.end,
    ensures
        t == shift_piece(*r, *piece),
{
    let s = (r.dest.start as i128 + (piece.start as i128 - r.source.start as i128)) as i64;
    let e = (r.dest.start as i128 + (piece.end as i128 - r.source.start as i128)) as i64;
    Interval { start: s, end: e }
}

/// Applies one rule to the unclaimed pieces `us`: the claimed pieces are
/// appended to `out` and what remains is returned.
fn apply_rule(r: &Rule, us: &Vec<Interval>, out: &mut Vec<Interval>) -> (rest: Vec<Interval>)
    requires
        r.wf(),
    ensures
        final(out)@ == old(out)@ + rule_claims(*r, us@),
        rest@ == rule_leaves(*r, us@),
{
    let mut rest: Vec<Interval> = Vec::new();
    let ghost out0 = out@;
    let mut i: usize = 0;
    while i < us.len()
        invariant
            r.wf(),
            i <= us.len(),
            out@ == out0 + rule_claims(*r, us@.take(i as int)),
            rest@ == rule_leaves(*r, us@.take(i as int)),
        decreases us.len() - i,
    {
        let u = us[i];
        proof {
            assert(us@.take(i + 1).drop_last() == us@.take(i as int));
        }
        match get_overlapping_range(&u, &r.source) {
            Some(o) => {
                out.push(shift_interval(r, &o));
                if u.start < o.start {
                    rest.push(Interval { start: u.start, end: o.start });
                }
                if o.end < u.end {
                    rest.push(Interval { start: o.end, end: u.end });
                }
                proof {
                    let lo = leftovers(u, o);
                    assert(rule_leaves(*r, us@.take(i + 1)) == rule_leaves(*r, us@.take(i as int)) + lo);
                    assert(rest@ =~= rule_leaves(*r, us@.take(i as int)) + lo);
                }
            },
            None => {
                rest.push(u);
            },
        }
        i = i + 1;
    }
    assert(us@.take(us.len() as int) == us@);
    rest
}

/// Sends one interval through a stage, appending the resulting pieces to `out`:
/// first those the rules claim, rule by rule, then those that pass unchanged.
fn map_interval_into(w: Interval, rules: &Vec<Rule>, out: &mut Vec<Interval>)
    requires
        rules_wf(rules@),
    ensures
        final(out)@ == old(out)@ + map_interval(rules@, w),
{
    let ghost out0 = out@;
    let mut pending: Vec<Interval> = vec![w];
    let mut k: usize = 0;
    while k < rules.len()
        invariant
            rules_wf(rules@),
            k <= rules.len(),
            out@ == out0 + claimed(rules@.take(k as int), seq![w]),
            pending@ == unclaimed(rules@.take(k as int), seq![w]),
        decreases rules.len() - k,
    {
        proof {
            assert(rules@.take(k + 1).drop_last() == rules@.take(k as int));
            assert(rules@[k as int].wf());
        }
        let ghost before = out@;
        pending = apply_rule(&rules[k], &pending, out);
        proof {
            assert(out@ =~= out0 + claimed(rules@.take(k + 1), seq![w]));
        }
        k = k + 1;
    }
    assert(rules@.take(rules.len() as int) == rules@);
    out.append(&mut pending);
    assert(out@ =~= out0 + map_interval(rules@, w));
}

/// Sends a working set through one stage and returns the new working set.
pub fn map_through_stage(ws: &Vec<Interval>, rules: &Vec<Rule>) -> (r: Vec<Interval>)
    requires
        rules_wf(rules@),
    ensures
        r@ == map_stage(rules@, ws@),
{
    let mut out: Vec<Interval> = Vec::new();
    let mut i: usize = 0;
    while i < ws.len()
        invariant
            rules_wf(rules@),
            i <= ws.len(),
            out@ == map_stage(rules@, ws@.take(i as int)),
        decreases ws.len() - i,
    {
        proof {
            assert(ws@.take(i + 1).drop_last() == ws@.take(i as int));
        }
        map_interval_into(ws[i], rules, &mut out);
        i = i + 1;
    }
    assert(ws@.take(ws.len() as int) == ws@);
    out
}

/// The smallest start among the intervals of `ws` that hold a value.
pub fn lowest_start(ws: &Vec<Interval>) -> (r: Option<i64>)
    ensures
        r == min_start(ws@),
{
    let mut best: Option<i64> = None;
    let mut i: usize = 0;
    while i < ws.len()
        invariant
            i <= ws.len(),
            best == min_start(ws@.take(i as int)),
        decreases ws.len() - i,
    {
        proof {
            assert(ws@.take(i + 1).drop_last() == ws@.take(i as int));
        }
        let w = ws[i];
        if w.start < w.end {
            best = match best {
                None => Some(w.start),
                Some(m) => if m <= w.start { Some(m) } else { Some(w.start) },
            };
        }
        i = i + 1;
    }
    assert(ws@.take(ws.len() as int) == ws@);
    best
}

/// Sends `seed` through every stage of `maps` in order and returns the
/// smallest value that the final working set holds, which is the smallest
/// value that the stages send any value of `seed` to; `None` when `seed` is
/// empty.
pub fn get_seed_range_location(seed: &Interval, maps: &Vec<Vec<Rule>>) -> (r: Option<i64>)
    requires
        stages_wf(maps@),
    ensures
        r == min_start(map_pipeline(maps@, seq![*seed])),
        match r {
            Some(m) => (exists|v: int|
                seed.contains(v) && #[trigger] map_point_pipeline(maps@, v) == m) && forall|v: int|
                seed.contains(v) ==> m <= #[trigger] map_point_pipeline(maps@, v),
            None => seed.start >= seed.end,
        },
{
    proof {
        lemma_lowest_reachable(maps@, *seed);
    }
    let mut current: Vec<Interval> = vec![*seed];
    let mut i: usize = 0;
    while i < maps.len()
        invariant
            stages_wf(maps@),
            i <= maps.len(),
            current@ == map_pipeline(maps@.take(i as int), seq![*seed]),
        decreases maps.len() - i,
    {
        proof {
            assert(maps@.take(i + 1).drop_last() == maps@.take(i as int));
            assert(rules_wf(maps@[i as int]@));
        }
        current = map_through_stage(&current, &maps[i]);
        i = i + 1;
    }
    assert(maps@.take(maps.len() as int) == maps@);
    lowest_start(&current)
}

/// Where a stage sends the value `v`: the first rule whose source holds it
/// shifts it; a value that no source holds stays as it is.
pub open spec fn map_point(rules: Seq<Rule>, v: int) -> int
    decreases rules.len(),
{
    if rules.len() == 0 {
        v
    } else if rules[0].source.contains(v) {
        rules[0].shift(v)
    } else {
        map_point(rules.drop_first(), v)
    }
}

/// Where every stage of `stages`, in order, sends the value `v`.
pub open spec fn map_point_pipeline(stages: Seq<Vec<Rule>>, v: int) -> int
    decreases stages.len(),
{
    if stages.len() == 0 {
        v
    } else {
        map_point(stages.last()@, map_point_pipeline(stages.drop_last(), v))
    }
}

/// Where a stage sends the value `v`.
fn map_value(v: i64, rules: &Vec<Rule>) -> (r: i64)
    requires
        rules_wf(rules@),
    ensures
        r == map_point(rules@, v as int),
{
    let mut j: usize = 0;
    assert(rules@.skip(0) == rules@);
    while j < rules.len()
        invariant
            rules_wf(rules@),
            j <= rules.len(),
            map_point(rules@, v as int) == map_point(rules@.skip(j as int), v as int),
        decreases rules.len() - j,
    {
        let r = rules[j];
        proof {
            assert(rules@.skip(j as int)[0] == r);
            assert(rules@.skip(j as int).drop_first() == rules@.skip(j + 1));
            assert(rules@[j as int].wf());
        }
        if r.source.start <= v && v < r.source.end {
            return (r.dest.start as i128 + (v as i128 - r.source.start as i128)) as i64;
        }
        j = j + 1;
    }
    v
}

/// Sends the single value `seed` through every stage of `maps` in order.
pub fn get_seed_location(seed: i64, maps: &Vec<Vec<Rule>>) -> (r: i64)
    requires
        stages_wf(maps@),
    ensures
        r == map_point_pipeline(maps@, seed as int),
{
    let mut current = seed;
    let mut i: usize = 0;
    while i < maps.len()
        invariant
            stages_wf(maps@),
            i <= maps.len(),
            current == map_point_pipeline(maps@.take(i as int), seed as int),
        decreases maps.len() - i,
    {
        proof {
            assert(maps@.take(i + 1).drop_last() == maps@.take(i as int));
            assert(rules_wf(maps@[i as int]@));
        }
        current = map_value(current, &maps[i]);
        i = i + 1;
    }
    assert(maps@.take(maps.len() as int) == maps@);
    current
}

} // verus!
