//! Scratchcards: each card shows winning numbers and the numbers it holds;
//! a card with `m` matches wins one copy of each of the next `m` cards, and
//! copies win in the same way.
use vstd::prelude::*;

use crate::text::{
    int_value, numbers_in, numbers_of, parse_int, pieces, split_at_char, split_words, views, words,
};

verus! {

/// The number of different numbers among `w[0..k]` that `h` holds.
pub open spec fn matches_upto(w: Seq<i64>, h: Seq<i64>, k: int) -> nat
    decreases k,
{
    if k <= 0 {
        0
    } else {
        matches_upto(w, h, k - 1) + (if h.contains(w[k - 1]) && !w.take(k - 1).contains(w[k - 1]) {
            1nat
        } else {
            0nat
        })
    }
}

/// The number of different winning numbers that the card holds.
pub open spec fn matches(w: Seq<i64>, h: Seq<i64>) -> nat {
    matches_upto(w, h, w.len() as int)
}

proof fn lemma_matches_upto_le(w: Seq<i64>, h: Seq<i64>, k: int)
    requires
        k >= 0,
    ensures
        matches_upto(w, h, k) <= k,
    decreases k,
{
    if k > 0 {
        lemma_matches_upto_le(w, h, k - 1);
    }
}

/// Whether `v` holds `x`.
fn holds(v: &Vec<i64>, x: i64, upto: usize) -> (r: bool)
    requires
        upto <= v.len(),
    ensures
        r == v@.take(upto as int).contains(x),
{
    let mut i: usize = 0;
    while i < upto
        invariant
            upto <= v.len(),
            i <= upto,
            forall|k: int| 0 <= k < i ==> v@[k] != x,
        decreases upto - i,
    {
        if v[i] == x {
            assert(v@.take(upto as int)[i as int] == x);
            return true;
        }
        i = i + 1;
    }
    proof {
        if v@.take(upto as int).contains(x) {
            let k = choose|k: int| 0 <= k < upto && v@.take(upto as int)[k] == x;
            assert(v@[k] == x);
        }
    }
    false
}

/// The number of different winning numbers that the card holds.
pub fn count_matches(winning: &Vec<i64>, have: &Vec<i64>) -> (r: usize)
    ensures
        r == matches(winning@, have@),
{
    let mut n: usize = 0;
    let mut i: usize = 0;
    while i < winning.len()
        invariant
            i <= winning.len(),
            n == matches_upto(winning@, have@, i as int),
        decreases winning.len() - i,
    {
        proof {
            lemma_matches_upto_le(winning@, have@, i as int);
        }
        let x = winning[i];
        let held = holds(have, x, have.len());
        assert(have@.take(have.len() as int) == have@);
        if held && !holds(winning, x, i) {
            n = n + 1;
        }
        i = i + 1;
    }
    n
}

/// The copies of card `q` that one ends up with: the card itself, plus one for
/// each copy of an earlier card `j` whose matches reach it.
pub open spec fn copies(m: Seq<usize>, q: int) -> int
    decreases q, 1int,
{
    won_from(m, q, q)
}

/// One plus the copies of card `q` won by the cards before `k` (and before `q`).
pub open spec fn won_from(m: Seq<usize>, q: int, k: int) -> int
    decreases k, 0int,
{
    if k <= 0 {
        1
    } else {
        won_from(m, q, k - 1) + (if k - 1 < m.len() && k - 1 < q && q <= k - 1 + m[k - 1] {
            copies(m, k - 1)
        } else {
            0
        })
    }
}

/// How many cards there are: the given ones, and those past the end that a
/// card wins.
pub open spec fn extent(m: Seq<usize>) -> int
    decreases m.len(),
{
    if m.len() == 0 {
        0
    } else {
        let e = extent(m.drop_last());
        let reach = m.len() + m.last();
        if e >= reach { e } else { reach as int }
    }
}

/// The number of cards, each card with its copies, among cards `0..k`.
pub open spec fn cards_upto(m: Seq<usize>, k: int) -> int
    decreases k,
{
    if k <= 0 {
        0
    } else {
        cards_upto(m, k - 1) + copies(m, k - 1)
    }
}

/// The total number of cards one ends up with.
pub open spec fn total(m: Seq<usize>) -> int {
    cards_upto(m, extent(m))
}

proof fn lemma_won_from_pos(m: Seq<usize>, q: int, k: int)
    ensures
        won_from(m, q, k) >= 1,
    decreases k, 0int,
{
    if k > 0 {
        lemma_won_from_pos(m, q, k - 1);
        if k - 1 < m.len() && k - 1 < q && q <= k - 1 + m[k - 1] {
            lemma_won_from_pos(m, k - 1, k - 1);
            assert(copies(m, k - 1) == won_from(m, k - 1, k - 1));
        }
    }
}

proof fn lemma_won_from_mono(m: Seq<usize>, q: int, a: int, b: int)
    requires
        0 <= a <= b,
    ensures
        won_from(m, q, a) <= won_from(m, q, b),
    decreases b - a,
{
    if a < b {
        lemma_won_from_mono(m, q, a, b - 1);
        if b - 1 < m.len() && b - 1 < q && q <= b - 1 + m[b - 1] {
            lemma_won_from_pos(m, b - 1, b - 1);
            assert(copies(m, b - 1) == won_from(m, b - 1, b - 1));
        }
    }
}

proof fn lemma_cards_upto_mono(m: Seq<usize>, a: int, b: int)
    requires
        0 <= a <= b,
    ensures
        cards_upto(m, a) <= cards_upto(m, b),
        a < b ==> cards_upto(m, a) + copies(m, a) <= cards_upto(m, b),
    decreases b,
{
    if a < b {
        lemma_cards_upto_mono(m, a, b - 1);
        lemma_won_from_pos(m, b - 1, b - 1);
    }
}

proof fn lemma_extent(m: Seq<usize>)
    ensures
        extent(m) >= m.len(),
        forall|j: int| 0 <= j < m.len() ==> j + 1 + m[j] <= extent(m),
    decreases m.len(),
{
    if m.len() > 0 {
        lemma_extent(m.drop_last());
        assert forall|j: int| 0 <= j < m.len() implies j + 1 + m[j] <= extent(m) by {
            if j < m.len() - 1 {
                assert(m.drop_last()[j] == m[j]);
            }
        }
    }
}

/// The total number of cards, each card with its copies, for cards with the
/// match counts `matches`; `None` when it does not fit in a `u64`.
pub fn total_cards(matches: &Vec<usize>) -> (r: Option<u64>)
    requires
        forall|i: int| 0 <= i < matches.len() ==> i + 1 + #[trigger] matches@[i] <= usize::MAX,
    ensures
        r == (if total(matches@) <= u64::MAX { Some(total(matches@) as u64) } else { None }),
{
    let ghost m = matches@;
    proof {
        lemma_extent(m);
    }
    let mut ext: usize = 0;
    let mut i: usize = 0;
    while i < matches.len()
        invariant
            m == matches@,
            i <= matches.len(),
            forall|k: int| 0 <= k < matches.len() ==> k + 1 + #[trigger] matches@[k] <= usize::MAX,
            ext == extent(m.take(i as int)),
        decreases matches.len() - i,
    {
        proof {
            assert(m.take(i + 1).drop_last() == m.take(i as int));
            assert(m.take(i + 1).last() == m[i as int]);
        }
        let reach = i + 1 + matches[i];
        if reach > ext {
            ext = reach;
        }
        i = i + 1;
    }
    assert(m.take(matches.len() as int) == m);
    let mut counts: Vec<u64> = Vec::new();
    let mut q: usize = 0;
    while q < ext
        invariant
            q <= ext,
            counts.len() == q,
            forall|k: int| 0 <= k < q ==> #[trigger] counts@[k] == 1,
        decreases ext - q,
    {
        counts.push(1);
        q = q + 1;
    }
    let mut i: usize = 0;
    while i < matches.len()
        invariant
            m == matches@,
            ext == extent(m),
            ext >= m.len(),
            forall|j: int| 0 <= j < m.len() ==> j + 1 + m[j] <= ext,
            i <= matches.len(),
            counts.len() == ext,
            forall|k: int| 0 <= k < ext ==> #[trigger] counts@[k] == won_from(m, k, i as int),
        decreases matches.len() - i,
    {
        let c = counts[i];
        proof {
            lemma_won_from_mono(m, i as int, i as int, i as int);
            assert(c == copies(m, i as int));
        }
        let mut t: usize = 1;
        while t <= matches[i]
            invariant
                m == matches@,
                i < matches.len(),
                i + 1 + m[i as int] <= ext,
                ext == extent(m),
                counts.len() == ext,
                c == copies(m, i as int),
                1 <= t <= m[i as int] + 1,
                forall|k: int|
                    0 <= k < ext ==> #[trigger] counts@[k] == if i < k < i + t {
                        won_from(m, k, i + 1)
                    } else {
                        won_from(m, k, i as int)
                    },
            decreases m[i as int] + 1 - t,
        {
            let k = i + t;
            let cur = counts[k];
            match cur.checked_add(c) {
                Some(v) => {
                    counts.set(k, v);
                },
                None => {
                    proof {
                        lemma_total_exceeds(m, k as int, i + 1);
                    }
                    return None;
                },
            }
            t = t + 1;
        }
        proof {
            assert forall|k: int| 0 <= k < ext implies #[trigger] counts@[k] == won_from(m, k, i + 1) by {
                if !(i < k < i + t) {
                    assert(won_from(m, k, i + 1) == won_from(m, k, i as int));
                }
            }
        }
        i = i + 1;
    }
    assert forall|k: int| 0 <= k < ext implies #[trigger] counts@[k] == copies(m, k) by {
        lemma_won_from_settled(m, k, m.len() as int);
    }
    let mut sum: u64 = 0;
    let mut q: usize = 0;
    while q < ext
        invariant
            m == matches@,
            ext == extent(m),
            q <= ext,
            counts.len() == ext,
            forall|k: int| 0 <= k < ext ==> #[trigger] counts@[k] == copies(m, k),
            sum == cards_upto(m, q as int),
        decreases ext - q,
    {
        match sum.checked_add(counts[q]) {
            Some(v) => sum = v,
            None => {
                proof {
                    lemma_cards_upto_mono(m, q + 1, ext as int);
                }
                return None;
            },
        }
        q = q + 1;
    }
    Some(sum)
}

/// Cards at or past `n` win nothing, so after the first `n` cards every
/// count is settled.
proof fn lemma_won_from_settled(m: Seq<usize>, q: int, k: int)
    requires
        m.len() <= k,
    ensures
        won_from(m, q, k) == copies(m, q),
    decreases k,
{
    if k < q {
        lemma_won_from_settled_up(m, q, k, q);
    } else if k > q {
        lemma_won_from_settled_down(m, q, k);
    }
}

proof fn lemma_won_from_settled_up(m: Seq<usize>, q: int, k: int, b: int)
    requires
        m.len() <= k <= b,
    ensures
        won_from(m, q, k) == won_from(m, q, b),
    decreases b - k,
{
    if k < b {
        lemma_won_from_settled_up(m, q, k, b - 1);
    }
}

proof fn lemma_won_from_settled_down(m: Seq<usize>, q: int, k: int)
    requires
        q <= k,
    ensures
        won_from(m, q, k) == won_from(m, q, q),
    decreases k - q,
{
    if k > q {
        lemma_won_from_settled_down(m, q, k - 1);
    }
}

/// When a running count passes `u64::MAX`, so does the total.
proof fn lemma_total_exceeds(m: Seq<usize>, q: int, k: int)
    requires
        0 <= q < extent(m),
        0 <= k,
    ensures
        won_from(m, q, k) <= total(m),
{
    lemma_won_from_mono(m, q, k, k + q + m.len());
    lemma_won_from_settled(m, q, k + q + m.len());
    lemma_cards_upto_mono(m, q, extent(m));
    lemma_cards_upto_nonneg(m, q);
}

proof fn lemma_cards_upto_nonneg(m: Seq<usize>, k: int)
    ensures
        cards_upto(m, k) >= 0,
    decreases k,
{
    if k > 0 {
        lemma_cards_upto_nonneg(m, k - 1);
        lemma_won_from_pos(m, k - 1, k - 1);
    }
}

/// The winning numbers and the held numbers of a line
/// `Card N: w1 w2 ... | h1 h2 ...`.
pub open spec fn card_line(line: Seq<char>) -> Option<(Seq<i64>, Seq<i64>)> {
    let halves = pieces(line, ':');
    if halves.len() == 2 {
        let head = words(halves[0]);
        let body = pieces(halves[1], '|');
        if head.len() == 2 && head[0] == seq!['C', 'a', 'r', 'd'] && int_value(head[1]) is Some
            && body.len() == 2 {
            match (numbers_of(body[0]), numbers_of(body[1])) {
                (Some(w), Some(h)) => Some((w, h)),
                _ => None,
            }
        } else {
            None
        }
    } else {
        None
    }
}

/// Reads a line `Card N: w1 w2 ... | h1 h2 ...` into its winning numbers and
/// the numbers it holds.
pub fn parse_card(line: &str) -> (r: Option<(Vec<i64>, Vec<i64>)>)
    ensures
        match r {
            Some((w, h)) => card_line(line@) == Some((w@, h@)),
            None => card_line(line@) is None,
        },
{
    let halves = split_at_char(line, ':');
    if halves.len() != 2 {
        return None;
    }
    proof {
        assert(views(halves@)[0] == halves@[0]@);
        assert(views(halves@)[1] == halves@[1]@);
    }
    let head = split_words(halves[0].as_str());
    let body = split_at_char(halves[1].as_str(), '|');
    if head.len() != 2 || body.len() != 2 {
        return None;
    }
    proof {
        assert(views(head@)[0] == head@[0]@);
        assert(views(head@)[1] == head@[1]@);
        assert(views(body@)[0] == body@[0]@);
        assert(views(body@)[1] == body@[1]@);
    }
    let tag = head[0].as_str();
    if !(tag.unicode_len() == 4 && tag.get_char(0) == 'C' && tag.get_char(1) == 'a' && tag.get_char(2)
        == 'r' && tag.get_char(3) == 'd') {
        proof {
            if tag@ == seq!['C', 'a', 'r', 'd'] {
                assert(tag@[0] == 'C' && tag@[1] == 'a' && tag@[2] == 'r' && tag@[3] == 'd');
            }
        }
        return None;
    }
    assert(tag@ =~= seq!['C', 'a', 'r', 'd']);
    if parse_int(head[1].as_str()).is_none() {
        return None;
    }
    let w = match numbers_in(body[0].as_str()) {
        Some(w) => w,
        None => return None,
    };
    let h = match numbers_in(body[1].as_str()) {
        Some(h) => h,
        None => return None,
    };
    Some((w, h))
}

} // verus!
