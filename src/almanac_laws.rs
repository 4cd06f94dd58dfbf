//! What a stage does to particular intervals, and what it keeps of every
//! working set.
use vstd::prelude::*;

use crate::almanac::{
    Interval, Rule, claimed, leftovers, map_interval, map_pipeline, map_stage, overlap, rule_claims,
    rule_leaves, rules_wf, stages_wf, shift_piece, unclaimed,
};

verus! {

/// No two sources of `rules` share a value.
pub open spec fn sources_disjoint(rules: Seq<Rule>) -> bool {
    forall|i: int, j: int|
        0 <= i < rules.len() && 0 <= j < rules.len() && i != j ==> overlap(
            #[trigger] rules[i].source,
            #[trigger] rules[j].source,
        ) is None
}

/// `a` lies within `b`.
pub open spec fn within(a: Interval, b: Interval) -> bool {
    b.start <= a.start && a.end <= b.end
}

/// The sum of the lengths of the intervals of `ws`.
pub open spec fn total_len(ws: Seq<Interval>) -> int
    decreases ws.len(),
{
    if ws.len() == 0 {
        0
    } else {
        total_len(ws.drop_last()) + ws.last().len()
    }
}

proof fn lemma_total_len_concat(a: Seq<Interval>, b: Seq<Interval>)
    ensures
        total_len(a + b) == total_len(a) + total_len(b),
    decreases b.len(),
{
    if b.len() > 0 {
        lemma_total_len_concat(a, b.drop_last());
        assert((a + b).drop_last() == a + b.drop_last());
    }
}

proof fn lemma_total_len_single(w: Interval)
    ensures
        total_len(seq![w]) == w.len(),
{
    assert(seq![w].drop_last() =~= Seq::<Interval>::empty());
    assert(total_len(Seq::<Interval>::empty()) == 0);
}

/// A rule whose source shares no value with any of the pieces claims none of them.
proof fn lemma_rule_misses(r: Rule, ps: Seq<Interval>)
    requires
        forall|i: int| 0 <= i < ps.len() ==> overlap(#[trigger] ps[i], r.source) is None,
    ensures
        rule_claims(r, ps) == Seq::<Interval>::empty(),
        rule_leaves(r, ps) == ps,
    decreases ps.len(),
{
    if ps.len() > 0 {
        lemma_rule_misses(r, ps.drop_last());
        assert(overlap(ps[ps.len() - 1], r.source) is None);
        assert(ps.drop_last().push(ps.last()) == ps);
    }
}

/// What one rule does to a single piece.
proof fn lemma_rule_single(r: Rule, u: Interval)
    ensures
        rule_claims(r, seq![u]) == (match overlap(u, r.source) {
            Some(o) => seq![shift_piece(r, o)],
            None => Seq::<Interval>::empty(),
        }),
        rule_leaves(r, seq![u]) == (match overlap(u, r.source) {
            Some(o) => leftovers(u, o),
            None => seq![u],
        }),
{
    let us = seq![u];
    assert(us.drop_last() == Seq::<Interval>::empty());
    assert(us.last() == u);
    assert(rule_claims(r, Seq::<Interval>::empty()) == Seq::<Interval>::empty());
    assert(rule_leaves(r, Seq::<Interval>::empty()) == Seq::<Interval>::empty());
    match overlap(u, r.source) {
        Some(o) => {
            assert(rule_claims(r, us) =~= seq![shift_piece(r, o)]);
            assert(rule_leaves(r, us) =~= leftovers(u, o));
        },
        None => {
            assert(rule_claims(r, us) =~= Seq::<Interval>::empty());
            assert(rule_leaves(r, us) =~= seq![u]);
        },
    }
}

/// Rules `m..n` that miss every piece left after rules `0..m` change nothing.
proof fn lemma_rules_miss(rules: Seq<Rule>, us: Seq<Interval>, m: int, n: int)
    requires
        0 <= m <= n <= rules.len(),
        forall|i: int, j: int|
            0 <= i < unclaimed(rules.take(m), us).len() && m <= j < n ==> overlap(
                #[trigger] unclaimed(rules.take(m), us)[i],
                #[trigger] rules[j].source,
            ) is None,
    ensures
        claimed(rules.take(n), us) == claimed(rules.take(m), us),
        unclaimed(rules.take(n), us) == unclaimed(rules.take(m), us),
    decreases n - m,
{
    if n > m {
        lemma_rules_miss(rules, us, m, n - 1);
        let ps = unclaimed(rules.take(m), us);
        let r = rules[n - 1];
        assert(rules.take(n).drop_last() == rules.take(n - 1));
        assert(rules.take(n).last() == r);
        assert forall|i: int| 0 <= i < ps.len() implies overlap(#[trigger] ps[i], r.source) is None by {
            assert(overlap(ps[i], rules[n - 1].source) is None);
        }
        lemma_rule_misses(r, ps);
        assert(claimed(rules.take(n), us) == claimed(rules.take(n - 1), us) + rule_claims(r, ps));
        assert(claimed(rules.take(n), us) =~= claimed(rules.take(m), us));
    }
}

/// What the rule at `k` does, once the rules before it have missed `w`.
proof fn lemma_one_rule(rules: Seq<Rule>, w: Interval, k: int)
    requires
        0 <= k < rules.len(),
        forall|j: int| 0 <= j < k ==> overlap(w, #[trigger] rules[j].source) is None,
    ensures
        claimed(rules.take(k + 1), seq![w]) == rule_claims(rules[k], seq![w]),
        unclaimed(rules.take(k + 1), seq![w]) == rule_leaves(rules[k], seq![w]),
{
    assert(rules.take(0) == Seq::<Rule>::empty());
    assert(unclaimed(rules.take(0), seq![w]) == seq![w]);
    assert(claimed(rules.take(0), seq![w]) == Seq::<Interval>::empty());
    assert forall|i: int, j: int|
        0 <= i < unclaimed(rules.take(0), seq![w]).len() && 0 <= j < k implies overlap(
        #[trigger] unclaimed(rules.take(0), seq![w])[i],
        #[trigger] rules[j].source,
    ) is None by {
        assert(unclaimed(rules.take(0), seq![w])[i] == w);
    }
    lemma_rules_miss(rules, seq![w], 0, k);
    assert(rules.take(k + 1).drop_last() == rules.take(k));
    assert(rules.take(k + 1).last() == rules[k]);
    assert(seq![w].drop_last() == Seq::<Interval>::empty());
    assert(claimed(rules.take(k + 1), seq![w]) =~= rule_claims(rules[k], seq![w]));
}

/// After the rule at `k`, later rules that miss every piece left change nothing.
proof fn lemma_rest_miss(rules: Seq<Rule>, w: Interval, k: int)
    requires
        0 <= k < rules.len(),
        forall|i: int, j: int|
            0 <= i < unclaimed(rules.take(k + 1), seq![w]).len() && k < j < rules.len()
                ==> overlap(
                #[trigger] unclaimed(rules.take(k + 1), seq![w])[i],
                #[trigger] rules[j].source,
            ) is None,
    ensures
        map_interval(rules, w) == claimed(rules.take(k + 1), seq![w]) + unclaimed(
            rules.take(k + 1),
            seq![w],
        ),
{
    lemma_rules_miss(rules, seq![w], k + 1, rules.len() as int);
    assert(rules.take(rules.len() as int) == rules);
}

/// A non-empty interval wholly inside the source of one rule, among rules
/// whose sources are disjoint, comes out as that interval shifted by the
/// rule's offset, in one piece.
pub proof fn lemma_inside_one_rule(rules: Seq<Rule>, w: Interval, k: int)
    requires
        rules_wf(rules),
        sources_disjoint(rules),
        0 <= k < rules.len(),
        w.start < w.end,
        within(w, rules[k].source),
    ensures
        map_interval(rules, w) == seq![shift_piece(rules[k], w)],
        shift_piece(rules[k], w).start == w.start + (rules[k].dest.start - rules[k].source.start),
        shift_piece(rules[k], w).len() == w.len(),
{
    let src = rules[k].source;
    assert forall|j: int| 0 <= j < k implies overlap(w, #[trigger] rules[j].source) is None by {
        assert(overlap(rules[j].source, src) is None);
    }
    lemma_one_rule(rules, w, k);
    assert(overlap(w, src) == Some(w));
    lemma_rule_single(rules[k], w);
    assert(leftovers(w, w) =~= Seq::<Interval>::empty());
    lemma_rest_miss(rules, w, k);
    assert(rules[k].wf());
}

/// An interval that shares no value with any rule's source passes the stage unchanged.
pub proof fn lemma_outside_all_rules(rules: Seq<Rule>, w: Interval)
    requires
        forall|j: int| 0 <= j < rules.len() ==> overlap(w, #[trigger] rules[j].source) is None,
    ensures
        map_interval(rules, w) == seq![w],
{
    assert(rules.take(0) == Seq::<Rule>::empty());
    assert forall|i: int, j: int|
        0 <= i < unclaimed(rules.take(0), seq![w]).len() && 0 <= j < rules.len() implies overlap(
        #[trigger] unclaimed(rules.take(0), seq![w])[i],
        #[trigger] rules[j].source,
    ) is None by {
        assert(unclaimed(rules.take(0), seq![w])[i] == w);
    }
    lemma_rules_miss(rules, seq![w], 0, rules.len() as int);
    assert(rules.take(rules.len() as int) == rules);
    assert(map_interval(rules, w) =~= seq![w]);
}

/// The part of `w` outside `src`, for a `w` that crosses exactly one end of `src`.
pub open spec fn outside_part(w: Interval, src: Interval) -> Interval {
    if w.start < src.start {
        Interval { start: w.start, end: src.start }
    } else {
        Interval { start: src.end, end: w.end }
    }
}

proof fn lemma_within_misses(a: Interval, b: Interval, s: Interval)
    requires
        within(a, b),
        overlap(b, s) is None,
    ensures
        overlap(a, s) is None,
{
}

/// An interval that crosses exactly one end of one rule's source, and shares
/// no value with any other source, comes out as two pieces: the shared part
/// shifted by that rule, then the rest unchanged; together they are as
/// long as the interval.
pub proof fn lemma_straddles_one_boundary(rules: Seq<Rule>, w: Interval, k: int)
    requires
        rules_wf(rules),
        0 <= k < rules.len(),
        forall|j: int|
            0 <= j < rules.len() && j != k ==> overlap(w, #[trigger] rules[j].source) is None,
        (w.start < rules[k].source.start < w.end <= rules[k].source.end) || (rules[k].source.start
            <= w.start < rules[k].source.end < w.end),
    ensures
        overlap(w, rules[k].source) is Some,
        map_interval(rules, w) == seq![
            shift_piece(rules[k], overlap(w, rules[k].source)->Some_0),
            outside_part(w, rules[k].source),
        ],
        within(outside_part(w, rules[k].source), w),
        shift_piece(rules[k], overlap(w, rules[k].source)->Some_0).len() + outside_part(
            w,
            rules[k].source,
        ).len() == w.len(),
{
    let r = rules[k];
    let src = r.source;
    let o = overlap(w, src)->Some_0;
    let l = outside_part(w, src);
    lemma_one_rule(rules, w, k);
    lemma_rule_single(r, w);
    assert(leftovers(w, o) =~= seq![l]);
    assert forall|i: int, j: int|
        0 <= i < unclaimed(rules.take(k + 1), seq![w]).len() && k < j < rules.len() implies overlap(
        #[trigger] unclaimed(rules.take(k + 1), seq![w])[i],
        #[trigger] rules[j].source,
    ) is None by {
        assert(unclaimed(rules.take(k + 1), seq![w])[i] == l);
        lemma_within_misses(l, w, rules[j].source);
    }
    lemma_rest_miss(rules, w, k);
    assert(map_interval(rules, w) =~= seq![shift_piece(r, o), l]);
    assert(r.wf());
}

proof fn lemma_rule_keeps_length(r: Rule, us: Seq<Interval>)
    requires
        r.wf(),
    ensures
        total_len(rule_claims(r, us)) + total_len(rule_leaves(r, us)) == total_len(us),
    decreases us.len(),
{
    if us.len() > 0 {
        let u = us.last();
        lemma_rule_keeps_length(r, us.drop_last());
        let pc = rule_claims(r, us.drop_last());
        let pl = rule_leaves(r, us.drop_last());
        match overlap(u, r.source) {
            Some(o) => {
                assert(pc.push(shift_piece(r, o)).drop_last() == pc);
                assert(r.source.start <= o.start <= o.end <= r.source.end);
                assert(shift_piece(r, o).len() == o.len());
                assert(total_len(rule_claims(r, us)) == total_len(pc) + o.len());
                lemma_total_len_concat(pl, leftovers(u, o));
                let before: Seq<Interval> = if u.start < o.start {
                    seq![Interval { start: u.start, end: o.start }]
                } else {
                    seq![]
                };
                let after: Seq<Interval> = if o.end < u.end {
                    seq![Interval { start: o.end, end: u.end }]
                } else {
                    seq![]
                };
                lemma_total_len_concat(before, after);
                lemma_total_len_single(Interval { start: u.start, end: o.start });
                lemma_total_len_single(Interval { start: o.end, end: u.end });
                assert(total_len(Seq::<Interval>::empty()) == 0);
                assert(total_len(before) == o.start - u.start);
                assert(total_len(after) == u.end - o.end);
            },
            None => {
                assert(pl.push(u).drop_last() == pl);
                assert(total_len(rule_leaves(r, us)) == total_len(pl) + u.len());
            },
        }
    }
}

proof fn lemma_rules_keep_length(rules: Seq<Rule>, us: Seq<Interval>)
    requires
        rules_wf(rules),
    ensures
        total_len(claimed(rules, us)) + total_len(unclaimed(rules, us)) == total_len(us),
    decreases rules.len(),
{
    if rules.len() > 0 {
        let prev = rules.drop_last();
        assert(rules_wf(prev)) by {
            assert forall|i: int| 0 <= i < prev.len() implies (#[trigger] prev[i]).wf() by {
                assert(prev[i] == rules[i]);
            }
        }
        lemma_rules_keep_length(prev, us);
        assert(rules.last() == rules[rules.len() - 1]);
        lemma_rule_keeps_length(rules.last(), unclaimed(prev, us));
        lemma_total_len_concat(
            claimed(prev, us),
            rule_claims(rules.last(), unclaimed(prev, us)),
        );
    }
}

/// A stage neither creates nor destroys values: the lengths of the working set
/// add up to the same total before and after it, whatever its rules.
pub proof fn lemma_stage_keeps_length(rules: Seq<Rule>, ws: Seq<Interval>)
    requires
        rules_wf(rules),
    ensures
        total_len(map_stage(rules, ws)) == total_len(ws),
    decreases ws.len(),
{
    if ws.len() > 0 {
        let w = ws.last();
        lemma_stage_keeps_length(rules, ws.drop_last());
        lemma_rules_keep_length(rules, seq![w]);
        lemma_total_len_concat(claimed(rules, seq![w]), unclaimed(rules, seq![w]));
        lemma_total_len_concat(map_stage(rules, ws.drop_last()), map_interval(rules, w));
        lemma_total_len_single(w);
    }
}

/// The whole pipeline keeps the total length of the working set as well.
pub proof fn lemma_pipeline_keeps_length(stages: Seq<Vec<Rule>>, ws: Seq<Interval>)
    requires
        stages_wf(stages),
    ensures
        total_len(map_pipeline(stages, ws)) == total_len(ws),
    decreases stages.len(),
{
    if stages.len() > 0 {
        let prev = stages.drop_last();
        assert(stages_wf(prev)) by {
            assert forall|i: int| 0 <= i < prev.len() implies rules_wf((#[trigger] prev[i])@) by {
                assert(prev[i] == stages[i]);
            }
        }
        lemma_pipeline_keeps_length(prev, ws);
        assert(rules_wf(stages[stages.len() - 1]@));
        lemma_stage_keeps_length(stages.last()@, map_pipeline(prev, ws));
    }
}

/// A stage without rules leaves the working set as it is.
pub proof fn lemma_empty_stage(ws: Seq<Interval>)
    ensures
        map_stage(Seq::<Rule>::empty(), ws) == ws,
    decreases ws.len(),
{
    if ws.len() > 0 {
        lemma_empty_stage(ws.drop_last());
        let w = ws.last();
        assert(map_interval(Seq::<Rule>::empty(), w) =~= seq![w]);
        assert(ws.drop_last() + seq![w] =~= ws);
    }
}

} // verus!
