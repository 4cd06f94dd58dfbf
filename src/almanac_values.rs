//! What the interval pipeline computes, value by value: the intervals that
//! come out of a stage hold exactly the images of the values that went in,
//! each sent by the first rule whose source holds it.
use vstd::prelude::*;

use crate::almanac::{
    Interval, Rule, claimed, leftovers, map_interval, map_pipeline, map_point, map_point_pipeline,
    map_stage, min_start, overlap, rule_claims, rule_leaves, rules_wf, stages_wf, shift_piece,
    unclaimed,
};

verus! {

/// Some interval of `ws` holds `v`.
pub open spec fn covers(ws: Seq<Interval>, v: int) -> bool {
    exists|i: int| 0 <= i < ws.len() && (#[trigger] ws[i]).contains(v)
}

/// The amount by which a rule moves the values of its source.
pub open spec fn offset(r: Rule) -> int {
    r.dest.start - r.source.start
}

/// The position of the first rule whose source holds `v`; `rules.len()` if none does.
pub open spec fn first_hit(rules: Seq<Rule>, v: int) -> int
    decreases rules.len(),
{
    if rules.len() == 0 {
        0
    } else if rules[0].source.contains(v) {
        0
    } else {
        1 + first_hit(rules.drop_first(), v)
    }
}

proof fn lemma_first_hit(rules: Seq<Rule>, v: int)
    ensures
        0 <= first_hit(rules, v) <= rules.len(),
        first_hit(rules, v) < rules.len() ==> rules[first_hit(rules, v)].source.contains(v),
        forall|j: int| 0 <= j < first_hit(rules, v) ==> !(#[trigger] rules[j]).source.contains(v),
        map_point(rules, v) == if first_hit(rules, v) < rules.len() {
            v + offset(rules[first_hit(rules, v)])
        } else {
            v
        },
    decreases rules.len(),
{
    if rules.len() > 0 && !rules[0].source.contains(v) {
        let rest = rules.drop_first();
        lemma_first_hit(rest, v);
        assert forall|j: int| 0 <= j < first_hit(rules, v) implies !(#[trigger] rules[j]).source.contains(v) by {
            if j > 0 {
                assert(rules[j] == rest[j - 1]);
            }
        }
        if first_hit(rules, v) < rules.len() {
            assert(rules[first_hit(rules, v)] == rest[first_hit(rest, v)]);
        }
    }
}

proof fn lemma_covers_push(ws: Seq<Interval>, x: Interval, v: int)
    ensures
        covers(ws.push(x), v) <==> (covers(ws, v) || x.contains(v)),
{
    if covers(ws.push(x), v) {
        let i = choose|i: int| 0 <= i < ws.push(x).len() && (#[trigger] ws.push(x)[i]).contains(v);
        if i < ws.len() {
            assert(ws[i] == ws.push(x)[i]);
        }
    }
    if covers(ws, v) {
        let i = choose|i: int| 0 <= i < ws.len() && (#[trigger] ws[i]).contains(v);
        assert(ws.push(x)[i] == ws[i]);
    }
    if x.contains(v) {
        assert(ws.push(x)[ws.len() as int] == x);
    }
}

proof fn lemma_covers_concat(a: Seq<Interval>, b: Seq<Interval>, v: int)
    ensures
        covers(a + b, v) <==> (covers(a, v) || covers(b, v)),
{
    if covers(a + b, v) {
        let i = choose|i: int| 0 <= i < (a + b).len() && (#[trigger] (a + b)[i]).contains(v);
        if i < a.len() {
            assert(a[i] == (a + b)[i]);
        } else {
            assert(b[i - a.len()] == (a + b)[i]);
        }
    }
    if covers(a, v) {
        let i = choose|i: int| 0 <= i < a.len() && (#[trigger] a[i]).contains(v);
        assert((a + b)[i] == a[i]);
    }
    if covers(b, v) {
        let i = choose|i: int| 0 <= i < b.len() && (#[trigger] b[i]).contains(v);
        assert((a + b)[a.len() + i] == b[i]);
    }
}

proof fn lemma_covers_single(x: Interval, v: int)
    ensures
        covers(seq![x], v) <==> x.contains(v),
{
    if x.contains(v) {
        assert(seq![x][0] == x);
    }
}

/// What one rule claims from the pieces `us`, and what it leaves of them.
proof fn lemma_rule_values(r: Rule, us: Seq<Interval>, v: int)
    requires
        r.wf(),
    ensures
        covers(rule_claims(r, us), v) <==> (covers(us, v - offset(r)) && r.source.contains(
            v - offset(r),
        )),
        covers(rule_leaves(r, us), v) <==> (covers(us, v) && !r.source.contains(v)),
    decreases us.len(),
{
    if us.len() > 0 {
        let u = us.last();
        let prev = us.drop_last();
        lemma_rule_values(r, prev, v);
        assert(prev.push(u) == us);
        lemma_covers_push(prev, u, v - offset(r));
        lemma_covers_push(prev, u, v);
        match overlap(u, r.source) {
            Some(o) => {
                lemma_covers_push(rule_claims(r, prev), shift_piece(r, o), v);
                lemma_covers_concat(rule_leaves(r, prev), leftovers(u, o), v);
                let before = Interval { start: u.start, end: o.start };
                let after = Interval { start: o.end, end: u.end };
                if u.start < o.start {
                    lemma_covers_single(before, v);
                }
                if o.end < u.end {
                    lemma_covers_single(after, v);
                }
                if u.start < o.start && o.end < u.end {
                    lemma_covers_concat(seq![before], seq![after], v);
                    assert(leftovers(u, o) == seq![before] + seq![after]);
                } else if u.start < o.start {
                    assert(leftovers(u, o) =~= seq![before]);
                } else if o.end < u.end {
                    assert(leftovers(u, o) =~= seq![after]);
                } else {
                    assert(leftovers(u, o) =~= Seq::<Interval>::empty());
                }
            },
            None => {
                lemma_covers_push(rule_leaves(r, prev), u, v);
            },
        }
    }
}

/// `v` is claimed by the rule at `j`: its preimage under that rule lies in
/// `w`, and that rule is the first whose source holds it.
pub open spec fn claimed_by(rules: Seq<Rule>, w: Interval, y: int, j: int) -> bool {
    &&& 0 <= j < rules.len()
    &&& w.contains(y - offset(rules[j]))
    &&& first_hit(rules, y - offset(rules[j])) == j
}

proof fn lemma_prefix_values(rules: Seq<Rule>, w: Interval, k: int, y: int)
    requires
        rules_wf(rules),
        0 <= k <= rules.len(),
    ensures
        covers(unclaimed(rules.take(k), seq![w]), y) <==> (w.contains(y) && first_hit(rules, y) >= k),
        covers(claimed(rules.take(k), seq![w]), y) <==> exists|j: int|
            j < k && #[trigger] claimed_by(rules, w, y, j),
    decreases k,
{
    lemma_first_hit(rules, y);
    if k == 0 {
        assert(rules.take(0) == Seq::<Rule>::empty());
        lemma_covers_single(w, y);
    } else {
        lemma_prefix_values(rules, w, k - 1, y);
        let r = rules[k - 1];
        assert(rules.take(k).drop_last() == rules.take(k - 1));
        assert(rules.take(k).last() == r);
        assert(r.wf());
        let us = unclaimed(rules.take(k - 1), seq![w]);
        let v = y - offset(r);
        lemma_rule_values(r, us, y);
        lemma_prefix_values(rules, w, k - 1, v);
        lemma_first_hit(rules, v);
        lemma_covers_concat(claimed(rules.take(k - 1), seq![w]), rule_claims(r, us), y);
        if first_hit(rules, y) >= k - 1 && !r.source.contains(y) {
            assert(first_hit(rules, y) != k - 1);
        }
        if first_hit(rules, y) >= k {
            assert(!rules[k - 1].source.contains(y));
        }
        if exists|j: int| j < k && #[trigger] claimed_by(rules, w, y, j) {
            let j = choose|j: int| j < k && #[trigger] claimed_by(rules, w, y, j);
            if j == k - 1 {
                assert(w.contains(v) && first_hit(rules, v) >= k - 1 && r.source.contains(v));
            }
        }
        if covers(rule_claims(r, us), y) {
            assert(first_hit(rules, v) >= k - 1 && r.source.contains(v));
            if first_hit(rules, v) > k - 1 {
                assert(!rules[k - 1].source.contains(v));
            }
            assert(claimed_by(rules, w, y, k - 1));
        }
    }
}

/// The intervals that one interval becomes in a stage hold exactly the
/// values that the stage sends its values to.
pub proof fn lemma_interval_values(rules: Seq<Rule>, w: Interval, y: int)
    requires
        rules_wf(rules),
    ensures
        covers(map_interval(rules, w), y) <==> exists|v: int|
            w.contains(v) && #[trigger] map_point(rules, v) == y,
{
    let n = rules.len() as int;
    assert(rules.take(n) == rules);
    lemma_prefix_values(rules, w, n, y);
    lemma_covers_concat(claimed(rules, seq![w]), unclaimed(rules, seq![w]), y);
    lemma_first_hit(rules, y);
    if covers(map_interval(rules, w), y) {
        if covers(unclaimed(rules, seq![w]), y) {
            assert(map_point(rules, y) == y);
        } else {
            let j = choose|j: int| j < n && #[trigger] claimed_by(rules, w, y, j);
            let v = y - offset(rules[j]);
            lemma_first_hit(rules, v);
            assert(map_point(rules, v) == y);
        }
    }
    if exists|v: int| w.contains(v) && #[trigger] map_point(rules, v) == y {
        let v = choose|v: int| w.contains(v) && #[trigger] map_point(rules, v) == y;
        lemma_first_hit(rules, v);
        if first_hit(rules, v) < n {
            assert(claimed_by(rules, w, y, first_hit(rules, v)));
        }
    }
}

/// A stage sends the values of the working set, and only those, to the
/// values of the new working set: each value goes where the first rule whose
/// source holds it sends it, or stays if no source holds it.
pub proof fn lemma_stage_values(rules: Seq<Rule>, ws: Seq<Interval>, y: int)
    requires
        rules_wf(rules),
    ensures
        covers(map_stage(rules, ws), y) <==> exists|v: int|
            covers(ws, v) && #[trigger] map_point(rules, v) == y,
    decreases ws.len(),
{
    if ws.len() > 0 {
        let prev = ws.drop_last();
        let w = ws.last();
        lemma_stage_values(rules, prev, y);
        lemma_interval_values(rules, w, y);
        lemma_covers_concat(map_stage(rules, prev), map_interval(rules, w), y);
        assert(prev.push(w) == ws);
        if exists|v: int| covers(ws, v) && #[trigger] map_point(rules, v) == y {
            let v = choose|v: int| covers(ws, v) && #[trigger] map_point(rules, v) == y;
            lemma_covers_push(prev, w, v);
        }
        if exists|v: int| covers(prev, v) && #[trigger] map_point(rules, v) == y {
            let v = choose|v: int| covers(prev, v) && #[trigger] map_point(rules, v) == y;
            lemma_covers_push(prev, w, v);
        }
        if exists|v: int| w.contains(v) && #[trigger] map_point(rules, v) == y {
            let v = choose|v: int| w.contains(v) && #[trigger] map_point(rules, v) == y;
            lemma_covers_push(prev, w, v);
        }
    }
}

/// The working set after every stage holds exactly the values to which the
/// pipeline sends the values of the first working set.
pub proof fn lemma_pipeline_values(stages: Seq<Vec<Rule>>, ws: Seq<Interval>, y: int)
    requires
        stages_wf(stages),
    ensures
        covers(map_pipeline(stages, ws), y) <==> exists|v: int|
            covers(ws, v) && #[trigger] map_point_pipeline(stages, v) == y,
    decreases stages.len(),
{
    if stages.len() > 0 {
        let prev = stages.drop_last();
        let last = stages.last()@;
        assert(stages_wf(prev)) by {
            assert forall|i: int| 0 <= i < prev.len() implies rules_wf((#[trigger] prev[i])@) by {
                assert(prev[i] == stages[i]);
            }
        }
        assert(rules_wf(stages[stages.len() - 1]@));
        lemma_stage_values(last, map_pipeline(prev, ws), y);
        if covers(map_pipeline(stages, ws), y) {
            let u = choose|u: int| covers(map_pipeline(prev, ws), u) && #[trigger] map_point(last, u) == y;
            lemma_pipeline_values(prev, ws, u);
            let v = choose|v: int| covers(ws, v) && #[trigger] map_point_pipeline(prev, v) == u;
            assert(map_point_pipeline(stages, v) == y);
        }
        if exists|v: int| covers(ws, v) && #[trigger] map_point_pipeline(stages, v) == y {
            let v = choose|v: int| covers(ws, v) && #[trigger] map_point_pipeline(stages, v) == y;
            let u = map_point_pipeline(prev, v);
            lemma_pipeline_values(prev, ws, u);
            assert(covers(map_pipeline(prev, ws), u));
            assert(map_point(last, u) == y);
        }
    } else {
        assert(map_point_pipeline(stages, y) == y);
    }
}

/// The smallest start among the intervals that hold a value is the
/// smallest value that the working set holds.
pub proof fn lemma_min_start(ws: Seq<Interval>)
    ensures
        match min_start(ws) {
            Some(m) => covers(ws, m as int) && forall|v: int| #[trigger] covers(ws, v) ==> m <= v,
            None => forall|v: int| !#[trigger] covers(ws, v),
        },
    decreases ws.len(),
{
    if ws.len() > 0 {
        let prev = ws.drop_last();
        let w = ws.last();
        lemma_min_start(prev);
        assert(prev.push(w) == ws);
        assert forall|v: int| #[trigger] covers(ws, v) <==> (covers(prev, v) || w.contains(v)) by {
            lemma_covers_push(prev, w, v);
        }
        if !w.is_empty() {
            assert(w.contains(w.start as int));
        }
    }
}

/// The lowest location of a seed range is the smallest value to which the
/// stages send any of its values; there is none only for an empty range.
pub proof fn lemma_lowest_reachable(maps: Seq<Vec<Rule>>, seed: Interval)
    requires
        stages_wf(maps),
    ensures
        match min_start(map_pipeline(maps, seq![seed])) {
            Some(m) => (exists|v: int| seed.contains(v) && #[trigger] map_point_pipeline(maps, v) == m)
                && forall|v: int| seed.contains(v) ==> m <= #[trigger] map_point_pipeline(maps, v),
            None => seed.start >= seed.end,
        },
{
    let out = map_pipeline(maps, seq![seed]);
    lemma_min_start(out);
    assert forall|v: int| seed.contains(v) implies covers(out, #[trigger] map_point_pipeline(maps, v)) by {
        lemma_covers_single(seed, v);
        lemma_pipeline_values(maps, seq![seed], map_point_pipeline(maps, v));
    }
    match min_start(out) {
        Some(m) => {
            lemma_pipeline_values(maps, seq![seed], m as int);
            let v = choose|v: int| covers(seq![seed], v) && #[trigger] map_point_pipeline(maps, v) == m;
            lemma_covers_single(seed, v);
        },
        None => {
            if seed.start < seed.end {
                assert(seed.contains(seed.start as int));
                assert(covers(out, map_point_pipeline(maps, seed.start as int)));
            }
        },
    }
}

} // verus!
