//! Games of coloured cubes drawn from a bag: whether a game fits a given
//! bag, and the power of the smallest bag that fits it. A game is a list of
//! draws; a draw is a list of `(count, colour)` pairs.
use vstd::prelude::*;

use crate::text::{int_value, parse_int, pieces, split_at_char, split_words, views, words};

verus! {

/// The count that `config` gives to `color`: its first entry with that name.
pub open spec fn lookup(config: Seq<(String, i32)>, color: Seq<char>) -> Option<i32>
    decreases config.len(),
{
    if config.len() == 0 {
        None
    } else if config[0].0@ == color {
        Some(config[0].1)
    } else {
        lookup(config.drop_first(), color)
    }
}

/// Every colour drawn in the game has an entry in `config`.
pub open spec fn colors_known(config: Seq<(String, i32)>, game: Seq<Vec<(i32, String)>>) -> bool {
    forall|i: int, j: int|
        0 <= i < game.len() && 0 <= j < game[i]@.len() ==> lookup(config, (#[trigger] game[i]@[j]).1@) is Some
}

/// No draw shows more cubes of a colour than the bag holds.
pub open spec fn possible(config: Seq<(String, i32)>, game: Seq<Vec<(i32, String)>>) -> bool {
    forall|i: int, j: int|
        0 <= i < game.len() && 0 <= j < game[i]@.len() ==> (#[trigger] game[i]@[j]).0 <= lookup(
            config,
            game[i]@[j].1@,
        )->Some_0
}

/// The count of the first entry for `color` in a draw.
pub open spec fn draw_count(draw: Seq<(i32, String)>, color: Seq<char>) -> Option<i32>
    decreases draw.len(),
{
    if draw.len() == 0 {
        None
    } else if draw[0].1@ == color {
        Some(draw[0].0)
    } else {
        draw_count(draw.drop_first(), color)
    }
}

/// The largest count of `color` over the draws of a game that show it.
pub open spec fn max_count(game: Seq<Vec<(i32, String)>>, color: Seq<char>) -> Option<i32>
    decreases game.len(),
{
    if game.len() == 0 {
        None
    } else {
        match (max_count(game.drop_last(), color), draw_count(game.last()@, color)) {
            (None, d) => d,
            (m, None) => m,
            (Some(a), Some(b)) => Some(if a >= b { a } else { b }),
        }
    }
}

/// The product, over the first `k` colours of `config`, of the largest count
/// of that colour in the game.
pub open spec fn power_upto(config: Seq<(String, i32)>, game: Seq<Vec<(i32, String)>>, k: int) -> int
    decreases k,
{
    if k <= 0 {
        1
    } else {
        power_upto(config, game, k - 1) * max_count(game, config[k - 1].0@)->Some_0 as int
    }
}

/// Every colour of `config` shows in some draw, and every partial product of
/// the power fits in an `i32`.
pub open spec fn power_defined(config: Seq<(String, i32)>, game: Seq<Vec<(i32, String)>>) -> bool {
    &&& forall|k: int| 0 <= k < config.len() ==> max_count(game, (#[trigger] config[k]).0@) is Some
    &&& forall|k: int|
        0 <= k <= config.len() ==> i32::MIN <= #[trigger] power_upto(config, game, k) <= i32::MAX
}

/// The count that `config` gives to `color`.
fn lookup_count(config: &Vec<(String, i32)>, color: &String) -> (r: Option<i32>)
    ensures
        r == lookup(config@, color@),
{
    let mut i: usize = 0;
    assert(config@.skip(0) == config@);
    while i < config.len()
        invariant
            i <= config.len(),
            lookup(config@, color@) == lookup(config@.skip(i as int), color@),
        decreases config.len() - i,
    {
        proof {
            assert(config@.skip(i as int)[0] == config@[i as int]);
            assert(config@.skip(i as int).drop_first() == config@.skip(i + 1));
        }
        if config[i].0 == *color {
            return Some(config[i].1);
        }
        i = i + 1;
    }
    None
}

/// Whether every draw of the game fits the bag `game_config`.
pub fn is_game_possible(game_config: &Vec<(String, i32)>, game_subsets: &Vec<Vec<(i32, String)>>) -> (r: bool)
    requires
        colors_known(game_config@, game_subsets@),
    ensures
        r == possible(game_config@, game_subsets@),
{
    let mut i: usize = 0;
    while i < game_subsets.len()
        invariant
            i <= game_subsets.len(),
            colors_known(game_config@, game_subsets@),
            forall|a: int, b: int|
                0 <= a < i && 0 <= b < game_subsets@[a]@.len() ==> (#[trigger] game_subsets@[a]@[b]).0
                    <= lookup(game_config@, game_subsets@[a]@[b].1@)->Some_0,
        decreases game_subsets.len() - i,
    {
        let subset = &game_subsets[i];
        let mut j: usize = 0;
        while j < subset.len()
            invariant
                i < game_subsets.len(),
                subset == game_subsets@[i as int],
                j <= subset.len(),
                colors_known(game_config@, game_subsets@),
                forall|a: int, b: int|
                    0 <= a < i && 0 <= b < game_subsets@[a]@.len() ==> (#[trigger] game_subsets@[a]@[b]).0
                        <= lookup(game_config@, game_subsets@[a]@[b].1@)->Some_0,
                forall|b: int|
                    0 <= b < j ==> (#[trigger] subset@[b]).0 <= lookup(game_config@, subset@[b].1@)->Some_0,
            decreases subset.len() - j,
        {
            let allowed = lookup_count(game_config, &subset[j].1);
            assert(lookup(game_config@, game_subsets@[i as int]@[j as int].1@) is Some);
            match allowed {
                Some(m) => {
                    if subset[j].0 > m {
                        return false;
                    }
                },
                None => {},
            }
            j = j + 1;
        }
        i = i + 1;
    }
    true
}

/// The count of the first entry for `color` in `draw`.
fn draw_count_of(draw: &Vec<(i32, String)>, color: &String) -> (r: Option<i32>)
    ensures
        r == draw_count(draw@, color@),
{
    let mut i: usize = 0;
    assert(draw@.skip(0) == draw@);
    while i < draw.len()
        invariant
            i <= draw.len(),
            draw_count(draw@, color@) == draw_count(draw@.skip(i as int), color@),
        decreases draw.len() - i,
    {
        proof {
            assert(draw@.skip(i as int)[0] == draw@[i as int]);
            assert(draw@.skip(i as int).drop_first() == draw@.skip(i + 1));
        }
        if draw[i].1 == *color {
            return Some(draw[i].0);
        }
        i = i + 1;
    }
    None
}

/// The largest count of `color` over the draws that show it.
fn max_count_of(game: &Vec<Vec<(i32, String)>>, color: &String) -> (r: Option<i32>)
    ensures
        r == max_count(game@, color@),
{
    let mut best: Option<i32> = None;
    let mut i: usize = 0;
    while i < game.len()
        invariant
            i <= game.len(),
            best == max_count(game@.take(i as int), color@),
        decreases game.len() - i,
    {
        proof {
            assert(game@.take(i + 1).drop_last() == game@.take(i as int));
            assert(game@.take(i + 1).last() == game@[i as int]);
        }
        let d = draw_count_of(&game[i], color);
        best = match (best, d) {
            (None, d) => d,
            (m, None) => m,
            (Some(a), Some(b)) => Some(if a >= b { a } else { b }),
        };
        i = i + 1;
    }
    assert(game@.take(game.len() as int) == game@);
    best
}

/// The power of the smallest bag that fits the game: the product, over the
/// colours of `game_config`, of the largest count of each drawn.
pub fn get_game_power(game_config: &Vec<(String, i32)>, game_subsets: &Vec<Vec<(i32, String)>>) -> (r: i32)
    requires
        power_defined(game_config@, game_subsets@),
    ensures
        r == power_upto(game_config@, game_subsets@, game_config@.len() as int),
{
    let mut power: i32 = 1;
    let mut k: usize = 0;
    while k < game_config.len()
        invariant
            k <= game_config.len(),
            power_defined(game_config@, game_subsets@),
            power == power_upto(game_config@, game_subsets@, k as int),
        decreases game_config.len() - k,
    {
        let m = max_count_of(game_subsets, &game_config[k].0);
        proof {
            assert(max_count(game_subsets@, game_config@[k as int].0@) is Some);
            assert(i32::MIN <= power_upto(game_config@, game_subsets@, k + 1) <= i32::MAX);
        }
        match m {
            Some(v) => {
                power = power * v;
            },
            None => {},
        }
        k = k + 1;
    }
    power
}

/// A pair `count colour`, the count fitting an `i32`.
pub open spec fn item_of(s: Seq<char>) -> Option<(i32, Seq<char>)> {
    let w = words(s);
    if w.len() == 2 && int_value(w[0]) is Some && i32::MIN <= int_value(w[0])->Some_0 <= i32::MAX {
        Some((int_value(w[0])->Some_0 as i32, w[1]))
    } else {
        None
    }
}

/// The pairs of a draw, if each of its comma-separated parts is one.
pub open spec fn items_of(ps: Seq<Seq<char>>) -> Option<Seq<(i32, Seq<char>)>>
    decreases ps.len(),
{
    if ps.len() == 0 {
        Some(seq![])
    } else {
        match (items_of(ps.drop_last()), item_of(ps.last())) {
            (Some(v), Some(x)) => Some(v.push(x)),
            _ => None,
        }
    }
}

/// The draws of a game, each the pairs between commas, the draws between
/// semicolons.
pub open spec fn draws_of(ds: Seq<Seq<char>>) -> Option<Seq<Seq<(i32, Seq<char>)>>>
    decreases ds.len(),
{
    if ds.len() == 0 {
        Some(seq![])
    } else {
        match (draws_of(ds.drop_last()), items_of(pieces(ds.last(), ','))) {
            (Some(v), Some(x)) => Some(v.push(x)),
            _ => None,
        }
    }
}

/// The number and draws of a line `Game N: c colour, ...; ...`.
pub open spec fn game_line(line: Seq<char>) -> Option<(i32, Seq<Seq<(i32, Seq<char>)>>)> {
    let halves = pieces(line, ':');
    if halves.len() == 2 {
        let head = words(halves[0]);
        if head.len() == 2 && head[0] == seq!['G', 'a', 'm', 'e'] && int_value(head[1]) is Some
            && i32::MIN <= int_value(head[1])->Some_0 <= i32::MAX {
            match draws_of(pieces(halves[1], ';')) {
                Some(d) => Some((int_value(head[1])->Some_0 as i32, d)),
                None => None,
            }
        } else {
            None
        }
    } else {
        None
    }
}

pub open spec fn item_views(d: Seq<(i32, String)>) -> Seq<(i32, Seq<char>)> {
    d.map_values(|x: (i32, String)| (x.0, x.1@))
}

pub open spec fn game_views(g: Seq<Vec<(i32, String)>>) -> Seq<Seq<(i32, Seq<char>)>> {
    g.map_values(|d: Vec<(i32, String)>| item_views(d@))
}

/// Reads a pair `count colour`.
fn parse_item(s: &str) -> (r: Option<(i32, String)>)
    ensures
        match r {
            Some(x) => item_of(s@) == Some((x.0, x.1@)),
            None => item_of(s@) is None,
        },
{
    let w = split_words(s);
    if w.len() != 2 {
        return None;
    }
    proof {
        assert(views(w@)[0] == w@[0]@);
        assert(views(w@)[1] == w@[1]@);
    }
    let n = match parse_int(w[0].as_str()) {
        Some(n) => n,
        None => return None,
    };
    if n < i32::MIN as i64 || n > i32::MAX as i64 {
        return None;
    }
    Some((n as i32, w[1].clone()))
}

/// Reads the comma-separated pairs of a draw.
fn parse_draw(s: &str) -> (r: Option<Vec<(i32, String)>>)
    ensures
        match r {
            Some(v) => items_of(pieces(s@, ',')) == Some(item_views(v@)),
            None => items_of(pieces(s@, ',')) is None,
        },
{
    let parts = split_at_char(s, ',');
    let ghost ps = pieces(s@, ',');
    let mut v: Vec<(i32, String)> = Vec::new();
    let mut i: usize = 0;
    while i < parts.len()
        invariant
            i <= parts.len(),
            views(parts@) == ps,
            ps == pieces(s@, ','),
            items_of(ps.take(i as int)) == Some(item_views(v@)),
        decreases parts.len() - i,
    {
        proof {
            assert(ps.take(i + 1).drop_last() == ps.take(i as int));
            assert(ps.take(i + 1).last() == parts@[i as int]@);
        }
        match parse_item(parts[i].as_str()) {
            Some(x) => {
                let ghost before = item_views(v@);
                v.push(x);
                assert(item_views(v@) =~= before.push((x.0, x.1@)));
            },
            None => {
                proof {
                    assert(items_of(ps.take(i + 1)) is None);
                    lemma_items_fail(ps, i + 1);
                }
                return None;
            },
        }
        i = i + 1;
    }
    assert(ps.take(parts.len() as int) == ps);
    Some(v)
}

proof fn lemma_items_fail(ps: Seq<Seq<char>>, k: int)
    requires
        0 <= k <= ps.len(),
        items_of(ps.take(k)) is None,
    ensures
        items_of(ps) is None,
    decreases ps.len() - k,
{
    if k == ps.len() {
        assert(ps.take(k) == ps);
    } else {
        assert(ps.take(k + 1).drop_last() == ps.take(k));
        lemma_items_fail(ps, k + 1);
    }
}

proof fn lemma_draws_fail(ds: Seq<Seq<char>>, k: int)
    requires
        0 <= k <= ds.len(),
        draws_of(ds.take(k)) is None,
    ensures
        draws_of(ds) is None,
    decreases ds.len() - k,
{
    if k == ds.len() {
        assert(ds.take(k) == ds);
    } else {
        assert(ds.take(k + 1).drop_last() == ds.take(k));
        lemma_draws_fail(ds, k + 1);
    }
}

/// Reads a line `Game N: c colour, ...; ...` into the game's number and draws.
pub fn parse_game(line: &str) -> (r: Option<(i32, Vec<Vec<(i32, String)>>)>)
    ensures
        match r {
            Some((id, g)) => game_line(line@) == Some((id, game_views(g@))),
            None => game_line(line@) is None,
        },
{
    let halves = split_at_char(line, ':');
    if halves.len() != 2 {
        return None;
    }
    proof {
        assert(views(halves@)[0] == halves@[0]@);
        assert(views(halves@)[1] == halves@[1]@);
    }
    let head = split_words(halves[0].as_str());
    if head.len() != 2 {
        return None;
    }
    proof {
        assert(views(head@)[0] == head@[0]@);
        assert(views(head@)[1] == head@[1]@);
    }
    let tag = head[0].as_str();
    if !(tag.unicode_len() == 4 && tag.get_char(0) == 'G' && tag.get_char(1) == 'a' && tag.get_char(2)
        == 'm' && tag.get_char(3) == 'e') {
        proof {
            if tag@ == seq!['G', 'a', 'm', 'e'] {
                assert(tag@[0] == 'G' && tag@[1] == 'a' && tag@[2] == 'm' && tag@[3] == 'e');
            }
        }
        return None;
    }
    assert(tag@ =~= seq!['G', 'a', 'm', 'e']);
    let id = match parse_int(head[1].as_str()) {
        Some(n) => n,
        None => return None,
    };
    if id < i32::MIN as i64 || id > i32::MAX as i64 {
        return None;
    }
    let parts = split_at_char(halves[1].as_str(), ';');
    let ghost ds = pieces(halves@[1]@, ';');
    assert(game_line(line@) == match draws_of(ds) {
        Some(d) => Some((id as i32, d)),
        None => None,
    });
    let mut g: Vec<Vec<(i32, String)>> = Vec::new();
    let mut i: usize = 0;
    while i < parts.len()
        invariant
            i <= parts.len(),
            views(parts@) == ds,
            game_line(line@) == match draws_of(ds) {
                Some(d) => Some((id as i32, d)),
                None => None,
            },
            draws_of(ds.take(i as int)) == Some(game_views(g@)),
        decreases parts.len() - i,
    {
        proof {
            assert(ds.take(i + 1).drop_last() == ds.take(i as int));
            assert(ds.take(i + 1).last() == parts@[i as int]@);
        }
        match parse_draw(parts[i].as_str()) {
            Some(d) => {
                let ghost before = game_views(g@);
                let ghost dv = item_views(d@);
                g.push(d);
                assert(game_views(g@) =~= before.push(dv));
            },
            None => {
                proof {
                    assert(draws_of(ds.take(i + 1)) is None);
                    lemma_draws_fail(ds, i + 1);
                }
                return None;
            },
        }
        i = i + 1;
    }
    assert(ds.take(parts.len() as int) == ds);
    Some((id as i32, g))
}

/// Whether every colour drawn in the game has an entry in `game_config`.
pub fn colors_are_known(game_config: &Vec<(String, i32)>, game_subsets: &Vec<Vec<(i32, String)>>) -> (r: bool)
    ensures
        r == colors_known(game_config@, game_subsets@),
{
    let mut i: usize = 0;
    while i < game_subsets.len()
        invariant
            i <= game_subsets.len(),
            forall|a: int, b: int|
                0 <= a < i && 0 <= b < game_subsets@[a]@.len() ==> lookup(
                    game_config@,
                    (#[trigger] game_subsets@[a]@[b]).1@,
                ) is Some,
        decreases game_subsets.len() - i,
    {
        let subset = &game_subsets[i];
        let mut j: usize = 0;
        while j < subset.len()
            invariant
                i < game_subsets.len(),
                subset == game_subsets@[i as int],
                j <= subset.len(),
                forall|a: int, b: int|
                    0 <= a < i && 0 <= b < game_subsets@[a]@.len() ==> lookup(
                        game_config@,
                        (#[trigger] game_subsets@[a]@[b]).1@,
                    ) is Some,
                forall|b: int| 0 <= b < j ==> lookup(game_config@, (#[trigger] subset@[b]).1@) is Some,
            decreases subset.len() - j,
        {
            if lookup_count(game_config, &subset[j].1).is_none() {
                assert(!colors_known(game_config@, game_subsets@)) by {
                    assert(game_subsets@[i as int]@[j as int] == subset@[j as int]);
                }
                return false;
            }
            j = j + 1;
        }
        i = i + 1;
    }
    true
}

/// The power of the smallest bag that fits the game, as `get_game_power`
/// gives it; `None` when a colour of `game_config` is never drawn or a
/// partial product leaves the range of `i32`.
pub fn checked_game_power(game_config: &Vec<(String, i32)>, game_subsets: &Vec<Vec<(i32, String)>>) -> (r: Option<i32>)
    ensures
        r == (if power_defined(game_config@, game_subsets@) {
            Some(power_upto(game_config@, game_subsets@, game_config@.len() as int) as i32)
        } else {
            None
        }),
{
    let mut power: i32 = 1;
    let mut k: usize = 0;
    while k < game_config.len()
        invariant
            k <= game_config.len(),
            power == power_upto(game_config@, game_subsets@, k as int),
            forall|q: int| 0 <= q < k ==> max_count(game_subsets@, (#[trigger] game_config@[q]).0@) is Some,
            forall|q: int|
                0 <= q <= k ==> i32::MIN <= #[trigger] power_upto(game_config@, game_subsets@, q) <= i32::MAX,
        decreases game_config.len() - k,
    {
        match max_count_of(game_subsets, &game_config[k].0) {
            Some(v) => match power.checked_mul(v) {
                Some(p) => {
                    power = p;
                },
                None => {
                    assert(!power_defined(game_config@, game_subsets@)) by {
                        assert(!(i32::MIN <= power_upto(game_config@, game_subsets@, k + 1) <= i32::MAX));
                    }
                    return None;
                },
            },
            None => {
                return None;
            },
        }
        k = k + 1;
    }
    Some(power)
}

} // verus!
