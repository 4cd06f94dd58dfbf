//! Scoring and ranking hands of camel cards. A hand is written in normalised
//! form, where the order of the characters is the order of the cards and
//! `_` stands for the joker.
use itertools::Itertools;
use vstd::prelude::*;

use crate::text::{int_value, parse_int, push_char, split_at_char, views, pieces};

verus! {

/// How many times `c` occurs in `s`.
pub open spec fn count_of(s: Seq<char>, c: char) -> nat
    decreases s.len(),
{
    if s.len() == 0 {
        0
    } else {
        count_of(s.drop_last(), c) + (if s.last() == c { 1nat } else { 0nat })
    }
}

/// The number of different cards in `s`.
pub open spec fn distinct(s: Seq<char>) -> nat {
    s.to_set().len()
}

/// Some card of `s` occurs at least `k` times.
pub open spec fn some_count_reaches(s: Seq<char>, k: int) -> bool {
    exists|c: char| s.contains(c) && count_of(s, c) >= k
}

/// Some card of `s` occurs exactly `k` times.
pub open spec fn some_count_is(s: Seq<char>, k: int) -> bool {
    exists|c: char| s.contains(c) && count_of(s, c) == k
}

/// The type of a hand, from 6 (five of a kind) down to 0 (high card).
pub open spec fn hand_type(s: Seq<char>) -> i32 {
    let d = distinct(s);
    if d == 1 {
        6
    } else if d == 2 {
        if some_count_is(s, 4) { 5 } else { 4 }
    } else if d == 3 {
        if some_count_is(s, 3) { 3 } else { 2 }
    } else if d == 4 {
        1
    } else {
        0
    }
}

/// The type of a hand when each joker `_` may stand for any card.
pub open spec fn hand_type_with_jokers(s: Seq<char>) -> i32 {
    let d = distinct(s);
    let j = count_of(s, '_') as int;
    if d == 1 || (d == 2 && j > 0) {
        6
    } else if d == 2 || (d == 3 && j > 0) {
        if some_count_reaches(s, 4 - j) { 5 } else { 4 }
    } else if d == 3 || (d == 4 && j > 0) {
        if some_count_reaches(s, 3 - j) { 3 } else { 2 }
    } else if d == 4 || (d == 5 && j > 0) {
        1
    } else {
        0
    }
}

/// Relies on itertools' `Itertools::counts`: one entry for each different
/// character of `cards`, with the number of times it occurs.
#[verifier::external_body]
fn card_counts(cards: &str) -> (r: Vec<(char, usize)>)
    ensures
        r@.len() == distinct(cards@),
        forall|i: int|
            0 <= i < r@.len() ==> cards@.contains((#[trigger] r@[i]).0) && r@[i].1 == count_of(
                cards@,
                r@[i].0,
            ),
        forall|c: char| cards@.contains(c) ==> exists|i: int| 0 <= i < r@.len() && (#[trigger] r@[i]).0 == c,
{
    cards.chars().counts().into_iter().collect()
}

proof fn lemma_count_absent(s: Seq<char>, c: char)
    requires
        !s.contains(c),
    ensures
        count_of(s, c) == 0,
    decreases s.len(),
{
    if s.len() > 0 {
        assert(!s.drop_last().contains(c)) by {
            if s.drop_last().contains(c) {
                let i = choose|i: int| 0 <= i < s.drop_last().len() && s.drop_last()[i] == c;
                assert(s[i] == c);
            }
        }
        lemma_count_absent(s.drop_last(), c);
        assert(s[s.len() - 1] != c);
    }
}

/// Whether some entry of `counts` has a count of at least `k` (exactly `k`
/// when `exact` holds).
fn any_count(counts: &Vec<(char, usize)>, k: usize, exact: bool) -> (r: bool)
    ensures
        r == exists|i: int|
            0 <= i < counts@.len() && (if exact {
                (#[trigger] counts@[i]).1 == k
            } else {
                counts@[i].1 >= k
            }),
{
    let mut i: usize = 0;
    while i < counts.len()
        invariant
            i <= counts.len(),
            forall|m: int|
                0 <= m < i ==> !(if exact {
                    (#[trigger] counts@[m]).1 == k
                } else {
                    counts@[m].1 >= k
                }),
        decreases counts.len() - i,
    {
        let n = counts[i].1;
        if (exact && n == k) || (!exact && n >= k) {
            return true;
        }
        i = i + 1;
    }
    false
}

/// How many jokers the counts record.
fn jokers(counts: &Vec<(char, usize)>, cards: Ghost<Seq<char>>) -> (r: usize)
    requires
        forall|i: int|
            0 <= i < counts@.len() ==> cards@.contains((#[trigger] counts@[i]).0) && counts@[i].1
                == count_of(cards@, counts@[i].0),
        forall|c: char|
            cards@.contains(c) ==> exists|i: int| 0 <= i < counts@.len() && (#[trigger] counts@[i]).0 == c,
    ensures
        r == count_of(cards@, '_'),
{
    let mut i: usize = 0;
    while i < counts.len()
        invariant
            i <= counts.len(),
            forall|m: int| 0 <= m < i ==> (#[trigger] counts@[m]).0 != '_',
            forall|m: int|
                0 <= m < counts@.len() ==> (#[trigger] counts@[m]).1 == count_of(
                    cards@,
                    counts@[m].0,
                ),
            forall|c: char|
                cards@.contains(c) ==> exists|m: int|
                    0 <= m < counts@.len() && (#[trigger] counts@[m]).0 == c,
        decreases counts.len() - i,
    {
        if counts[i].0 == '_' {
            return counts[i].1;
        }
        i = i + 1;
    }
    proof {
        if cards@.contains('_') {
            let i = choose|i: int| 0 <= i < counts@.len() && (#[trigger] counts@[i]).0 == '_';
            assert(false);
        } else {
            lemma_count_absent(cards@, '_');
            assert(count_of(cards@, '_') == 0);
        }
    }
    0
}

/// The type of the hand `cards`, from 6 (five of a kind) down to 0 (high card).
pub fn get_hand_score(cards: &String) -> (r: i32)
    ensures
        r == hand_type(cards@),
{
    let counts = card_counts(cards.as_str());
    let d = counts.len();
    if d == 1 {
        6
    } else if d == 2 {
        let four = any_count(&counts, 4, true);
        assert(four == some_count_is(cards@, 4)) by {
            if some_count_is(cards@, 4) {
                let c = choose|c: char| cards@.contains(c) && count_of(cards@, c) == 4;
                let i = choose|i: int| 0 <= i < counts@.len() && (#[trigger] counts@[i]).0 == c;
            }
        }
        if four { 5 } else { 4 }
    } else if d == 3 {
        let three = any_count(&counts, 3, true);
        assert(three == some_count_is(cards@, 3)) by {
            if some_count_is(cards@, 3) {
                let c = choose|c: char| cards@.contains(c) && count_of(cards@, c) == 3;
                let i = choose|i: int| 0 <= i < counts@.len() && (#[trigger] counts@[i]).0 == c;
            }
        }
        if three { 3 } else { 2 }
    } else if d == 4 {
        1
    } else {
        0
    }
}

/// The type of the hand `cards` when each joker `_` may stand for any card.
pub fn get_hand_score_2(cards: &String) -> (r: i32)
    ensures
        r == hand_type_with_jokers(cards@),
{
    let counts = card_counts(cards.as_str());
    let j = jokers(&counts, Ghost(cards@));
    let d = counts.len();
    if d == 1 || (d == 2 && j > 0) {
        6
    } else if d == 2 || (d == 3 && j > 0) {
        let k: usize = if j >= 4 { 0 } else { 4 - j };
        let four = any_count(&counts, k, false);
        assert(four == some_count_reaches(cards@, 4 - j)) by {
            if some_count_reaches(cards@, 4 - j) {
                let c = choose|c: char| cards@.contains(c) && count_of(cards@, c) >= 4 - j;
                let i = choose|i: int| 0 <= i < counts@.len() && (#[trigger] counts@[i]).0 == c;
            }
            if four {
                let i = choose|i: int| 0 <= i < counts@.len() && (#[trigger] counts@[i]).1 >= k;
                assert(cards@.contains(counts@[i].0));
            }
        }
        if four { 5 } else { 4 }
    } else if d == 3 || (d == 4 && j > 0) {
        let k: usize = if j >= 3 { 0 } else { 3 - j };
        let three = any_count(&counts, k, false);
        assert(three == some_count_reaches(cards@, 3 - j)) by {
            if some_count_reaches(cards@, 3 - j) {
                let c = choose|c: char| cards@.contains(c) && count_of(cards@, c) >= 3 - j;
                let i = choose|i: int| 0 <= i < counts@.len() && (#[trigger] counts@[i]).0 == c;
            }
            if three {
                let i = choose|i: int| 0 <= i < counts@.len() && (#[trigger] counts@[i]).1 >= k;
                assert(cards@.contains(counts@[i].0));
            }
        }
        if three { 3 } else { 2 }
    } else if d == 4 || (d == 5 && j > 0) {
        1
    } else {
        0
    }
}

/// `a` comes before `b` in character order, or is a proper prefix of it.
pub open spec fn lex_lt(a: Seq<char>, b: Seq<char>) -> bool
    decreases a.len(),
{
    if a.len() == 0 {
        b.len() > 0
    } else if b.len() == 0 {
        false
    } else if a[0] != b[0] {
        (a[0] as u32) < (b[0] as u32)
    } else {
        lex_lt(a.drop_first(), b.drop_first())
    }
}

/// Hand `a` ranks strictly below hand `b`: a lower type with jokers, or the
/// same type and a hand that comes first in character order.
pub open spec fn ranks_below(a: Seq<char>, b: Seq<char>) -> bool {
    hand_type_with_jokers(a) < hand_type_with_jokers(b) || (hand_type_with_jokers(a)
        == hand_type_with_jokers(b) && lex_lt(a, b))
}

proof fn lemma_lex_lt_asym(a: Seq<char>, b: Seq<char>)
    ensures
        lex_lt(a, b) ==> !lex_lt(b, a),
    decreases a.len(),
{
    if a.len() > 0 && b.len() > 0 && a[0] == b[0] {
        lemma_lex_lt_asym(a.drop_first(), b.drop_first());
    }
}

proof fn lemma_lex_lt_irrefl(a: Seq<char>)
    ensures
        !lex_lt(a, a),
    decreases a.len(),
{
    if a.len() > 0 {
        lemma_lex_lt_irrefl(a.drop_first());
    }
}

/// `idx` sends each position of `sorted` to the position of `hands` that the
/// entry came from: every position once, and equal hands in their order.
pub open spec fn stable_arrangement(sorted: Seq<(String, i32)>, hands: Seq<(String, i32)>, idx: Seq<int>) -> bool {
    &&& idx.len() == sorted.len()
    &&& sorted.len() == hands.len()
    &&& idx.no_duplicates()
    &&& forall|k: int| 0 <= k < idx.len() ==> 0 <= #[trigger] idx[k] < hands.len()
    &&& forall|k: int| 0 <= k < idx.len() ==> #[trigger] sorted[k] == hands[idx[k]]
    &&& forall|a: int, b: int|
        0 <= a < b < sorted.len() && (#[trigger] sorted[a]).0@ == (#[trigger] sorted[b]).0@ ==> idx[a]
            < idx[b]
}

/// Whether `a` comes before `b` in character order.
fn str_lt(a: &String, b: &String) -> (r: bool)
    ensures
        r == lex_lt(a@, b@),
{
    let sa = a.as_str();
    let sb = b.as_str();
    let na = sa.unicode_len();
    let nb = sb.unicode_len();
    let mut i: usize = 0;
    assert(a@.skip(0) == a@ && b@.skip(0) == b@);
    while i < na && i < nb
        invariant
            na == sa@.len(),
            nb == sb@.len(),
            sa@ == a@,
            sb@ == b@,
            i <= na,
            i <= nb,
            lex_lt(a@, b@) == lex_lt(a@.skip(i as int), b@.skip(i as int)),
        decreases na - i,
    {
        let ca = sa.get_char(i);
        let cb = sb.get_char(i);
        proof {
            assert(a@.skip(i as int)[0] == ca);
            assert(b@.skip(i as int)[0] == cb);
            assert(a@.skip(i as int).drop_first() == a@.skip(i + 1));
            assert(b@.skip(i as int).drop_first() == b@.skip(i + 1));
        }
        if ca != cb {
            return (ca as u32) < (cb as u32);
        }
        i = i + 1;
    }
    i < nb
}

/// Whether hand `a` ranks strictly below hand `b`.
fn hand_below(a: &String, b: &String) -> (r: bool)
    ensures
        r == ranks_below(a@, b@),
{
    let ta = get_hand_score_2(a);
    let tb = get_hand_score_2(b);
    ta < tb || (ta == tb && str_lt(a, b))
}

/// The pairs of hand and bid that the ranked triples hold.
pub open spec fn hands_of(r: Seq<(String, i32, i32)>) -> Seq<(String, i32)> {
    r.map_values(|t: (String, i32, i32)| (t.0, t.1))
}

/// No hand ranks below the hand just before it.
pub open spec fn in_rank_order(h: Seq<(String, i32)>) -> bool {
    forall|i: int| 0 <= i < h.len() - 1 ==> !ranks_below((#[trigger] h[i + 1]).0@, h[i].0@)
}

/// Orders the hands from the lowest to the highest (type with jokers first,
/// then character order; equal hands keep their order) and gives each hand,
/// with its bid, its rank from 1 upwards.
pub fn get_hands_ranked(hands: Vec<(String, i32)>) -> (r: Vec<(String, i32, i32)>)
    requires
        hands.len() < i32::MAX,
    ensures
        r.len() == hands.len(),
        hands_of(r@).to_multiset() == hands@.to_multiset(),
        in_rank_order(hands_of(r@)),
        exists|idx: Seq<int>| stable_arrangement(hands_of(r@), hands@, idx),
        forall|i: int| 0 <= i < r.len() ==> (#[trigger] r@[i]).2 == i + 1,
{
    broadcast use vstd::seq_lib::group_to_multiset_ensures;

    let mut sorted: Vec<(String, i32)> = Vec::new();
    let ghost mut idx: Seq<int> = seq![];
    let mut i: usize = 0;
    while i < hands.len()
        invariant
            i <= hands.len(),
            sorted.len() == i,
            sorted@.to_multiset() == hands@.take(i as int).to_multiset(),
            in_rank_order(sorted@),
            stable_arrangement(sorted@, hands@.take(i as int), idx),
        decreases hands.len() - i,
    {
        let x: (String, i32) = (hands[i].0.clone(), hands[i].1);
        let mut j: usize = sorted.len();
        let mut scanning = true;
        while scanning
            invariant
                j <= sorted.len(),
                forall|q: int| j <= q < sorted.len() ==> ranks_below(x.0@, (#[trigger] sorted@[q]).0@),
                !scanning ==> j == 0 || !ranks_below(x.0@, sorted@[j - 1].0@),
            decreases j + (if scanning { 1int } else { 0int }),
        {
            if j == 0 {
                scanning = false;
            } else if hand_below(&x.0, &sorted[j - 1].0) {
                j = j - 1;
            } else {
                scanning = false;
            }
        }
        proof {
            if j < sorted.len() {
                lemma_lex_lt_asym(x.0@, sorted@[j as int].0@);
            }
            assert(hands@.take(i + 1) == hands@.take(i as int).push(hands@[i as int]));
        }
        let ghost old_sorted = sorted@;
        assert(x == hands@[i as int]);
        sorted.insert(j, x);
        proof {
            assert(sorted@ == old_sorted.insert(j as int, x));
            vstd::seq_lib::to_multiset_insert(old_sorted, j as int, x);
            vstd::seq_lib::to_multiset_build(hands@.take(i as int), x);
            assert forall|q: int| 0 <= q < sorted@.len() - 1 implies !ranks_below(
                (#[trigger] sorted@[q + 1]).0@,
                sorted@[q].0@,
            ) by {
                if q + 1 < j {
                    assert(sorted@[q + 1] == old_sorted[q + 1]);
                    assert(sorted@[q] == old_sorted[q]);
                    assert(!ranks_below(old_sorted[q + 1].0@, old_sorted[q].0@));
                } else if q + 1 == j {
                    assert(sorted@[q + 1] == x);
                    assert(sorted@[q] == old_sorted[q]);
                } else if q == j as int {
                    assert(sorted@[q] == x);
                    assert(sorted@[q + 1] == old_sorted[q]);
                    assert(ranks_below(x.0@, old_sorted[q].0@));
                    lemma_lex_lt_asym(x.0@, old_sorted[q].0@);
                } else {
                    assert(sorted@[q + 1] == old_sorted[q]);
                    assert(sorted@[q] == old_sorted[q - 1]);
                    assert(!ranks_below(old_sorted[(q - 1) + 1].0@, old_sorted[q - 1].0@));
                }
            }
            let old_idx = idx;
            let before = hands@.take(i as int);
            let after = hands@.take(i + 1);
            idx = old_idx.insert(j as int, i as int);
            assert forall|k: int| 0 <= k < old_idx.len() implies #[trigger] before[old_idx[k]]
                == after[old_idx[k]] by {
                assert(0 <= old_idx[k] < i);
            }
            assert forall|k: int| 0 <= k < idx.len() implies #[trigger] sorted@[k] == after[idx[k]] by {
                if k < j {
                    assert(idx[k] == old_idx[k]);
                    assert(sorted@[k] == old_sorted[k]);
                    assert(old_sorted[k] == before[old_idx[k]]);
                } else if k > j {
                    assert(idx[k] == old_idx[k - 1]);
                    assert(sorted@[k] == old_sorted[k - 1]);
                    assert(old_sorted[k - 1] == before[old_idx[k - 1]]);
                }
            }
            assert forall|a: int, b: int|
                0 <= a < b < sorted@.len() && (#[trigger] sorted@[a]).0@ == (#[trigger] sorted@[b]).0@
                    implies idx[a] < idx[b] by {
                if a == j {
                    assert(sorted@[b] == old_sorted[b - 1]);
                    assert(ranks_below(x.0@, old_sorted[b - 1].0@));
                    lemma_lex_lt_irrefl(x.0@);
                } else if b == j {
                    assert(0 <= old_idx[a] < i);
                } else {
                    let a0 = if a < j { a } else { a - 1 };
                    let b0 = if b < j { b } else { b - 1 };
                    assert(sorted@[a] == old_sorted[a0]);
                    assert(sorted@[b] == old_sorted[b0]);
                    assert(old_idx[a0] < old_idx[b0]);
                }
            }
            assert(idx.no_duplicates()) by {
                assert forall|a: int, b: int| 0 <= a < b < idx.len() implies idx[a] != idx[b] by {
                    if a == j {
                        assert(0 <= old_idx[b - 1] < i);
                    } else if b == j {
                        assert(0 <= old_idx[a] < i);
                    } else {
                        let a0 = if a < j { a } else { a - 1 };
                        let b0 = if b < j { b } else { b - 1 };
                        assert(old_idx[a0] != old_idx[b0]);
                    }
                }
            }
        }
        i = i + 1;
    }
    assert(hands@.take(hands.len() as int) == hands@);
    let mut r: Vec<(String, i32, i32)> = Vec::new();
    let mut k: usize = 0;
    while k < sorted.len()
        invariant
            k <= sorted.len(),
            sorted.len() < i32::MAX,
            r.len() == k,
            forall|q: int| 0 <= q < k ==> (#[trigger] r@[q]).2 == q + 1,
            forall|q: int| 0 <= q < k ==> (#[trigger] r@[q]).0 == sorted@[q].0 && r@[q].1 == sorted@[q].1,
        decreases sorted.len() - k,
    {
        r.push((sorted[k].0.clone(), sorted[k].1, (k + 1) as i32));
        k = k + 1;
    }
    assert(hands_of(r@) =~= sorted@);
    assert(stable_arrangement(hands_of(r@), hands@, idx));
    r
}

/// The normalised form of a card: the joker `J` becomes `_`, the others
/// `a` (for `2`) to `m` (for `A`) in order of strength; other characters stay.
pub open spec fn normal_card(c: char) -> char {
    if c == 'J' {
        '_'
    } else if c == '2' {
        'a'
    } else if c == '3' {
        'b'
    } else if c == '4' {
        'c'
    } else if c == '5' {
        'd'
    } else if c == '6' {
        'e'
    } else if c == '7' {
        'f'
    } else if c == '8' {
        'g'
    } else if c == '9' {
        'h'
    } else if c == 'T' {
        'i'
    } else if c == 'Q' {
        'k'
    } else if c == 'K' {
        'l'
    } else if c == 'A' {
        'm'
    } else {
        c
    }
}

/// The normalised form of one card.
fn normalize_card(c: char) -> (r: char)
    ensures
        r == normal_card(c),
{
    if c == 'J' {
        '_'
    } else if c == '2' {
        'a'
    } else if c == '3' {
        'b'
    } else if c == '4' {
        'c'
    } else if c == '5' {
        'd'
    } else if c == '6' {
        'e'
    } else if c == '7' {
        'f'
    } else if c == '8' {
        'g'
    } else if c == '9' {
        'h'
    } else if c == 'T' {
        'i'
    } else if c == 'Q' {
        'k'
    } else if c == 'K' {
        'l'
    } else if c == 'A' {
        'm'
    } else {
        c
    }
}

/// The hand with each card in normalised form, so that character order is
/// the order of strength and `_` marks the jokers.
pub fn normalize_hand(hand: &str) -> (r: String)
    ensures
        r@ == hand@.map_values(|c: char| normal_card(c)),
{
    let n = hand.unicode_len();
    let mut r = String::new();
    let mut i: usize = 0;
    while i < n
        invariant
            n == hand@.len(),
            i <= n,
            r@ == hand@.take(i as int).map_values(|c: char| normal_card(c)),
        decreases n - i,
    {
        let c = normalize_card(hand.get_char(i));
        push_char(&mut r, c);
        assert(r@ =~= hand@.take(i + 1).map_values(|c: char| normal_card(c)));
        i = i + 1;
    }
    assert(hand@.take(n as int) == hand@);
    r
}

/// The hand and bid of a line `hand bid`, the hand normalised.
pub open spec fn hand_line(line: Seq<char>) -> Option<(Seq<char>, i32)> {
    let p = pieces(line, ' ');
    if p.len() == 2 && int_value(p[1]) is Some && i32::MIN <= int_value(p[1])->Some_0 <= i32::MAX {
        Some((p[0].map_values(|c: char| normal_card(c)), int_value(p[1])->Some_0 as i32))
    } else {
        None
    }
}

/// Reads a line `hand bid`: exactly one space, and a bid that fits an `i32`.
pub fn parse_hand_line(line: &str) -> (r: Option<(String, i32)>)
    ensures
        match r {
            Some((h, b)) => hand_line(line@) == Some((h@, b)),
            None => hand_line(line@) is None,
        },
{
    let parts = split_at_char(line, ' ');
    if parts.len() != 2 {
        return None;
    }
    proof {
        assert(views(parts@)[0] == parts@[0]@);
        assert(views(parts@)[1] == parts@[1]@);
    }
    let bid = match parse_int(parts[1].as_str()) {
        Some(b) => b,
        None => return None,
    };
    if bid < i32::MIN as i64 || bid > i32::MAX as i64 {
        return None;
    }
    Some((normalize_hand(parts[0].as_str()), bid as i32))
}

/// The total winnings: the sum of each bid times its rank.
pub open spec fn winnings(r: Seq<(String, i32, i32)>) -> int
    decreases r.len(),
{
    if r.len() == 0 {
        0
    } else {
        winnings(r.drop_last()) + r.last().1 * r.last().2
    }
}

/// The total winnings of ranked hands; `None` when a partial sum leaves
/// the range of `i64`.
pub fn total_winnings(ranked: &Vec<(String, i32, i32)>) -> (r: Option<i64>)
    ensures
        match r {
            Some(v) => v == winnings(ranked@),
            None => exists|k: int|
                0 < k <= ranked.len() && !(i64::MIN <= #[trigger] winnings(ranked@.take(k)) <= i64::MAX),
        },
{
    let mut total: i64 = 0;
    let mut i: usize = 0;
    while i < ranked.len()
        invariant
            i <= ranked.len(),
            total == winnings(ranked@.take(i as int)),
        decreases ranked.len() - i,
    {
        proof {
            assert(ranked@.take(i + 1).drop_last() == ranked@.take(i as int));
            assert(ranked@.take(i + 1).last() == ranked@[i as int]);
        }
        proof {
            let b = ranked@[i as int].1 as int;
            let k = ranked@[i as int].2 as int;
            assert(-0x4000_0000_0000_0000 <= b * k <= 0x4000_0000_0000_0000) by (nonlinear_arith)
                requires
                    i32::MIN <= b <= i32::MAX,
                    i32::MIN <= k <= i32::MAX,
            ;
        }
        let prize = (ranked[i].1 as i64) * (ranked[i].2 as i64);
        match total.checked_add(prize) {
            Some(t) => total = t,
            None => {
                assert(!(i64::MIN <= winnings(ranked@.take(i + 1)) <= i64::MAX));
                return None;
            },
        }
        i = i + 1;
    }
    assert(ranked@.take(ranked.len() as int) == ranked@);
    Some(total)
}

} // verus!
