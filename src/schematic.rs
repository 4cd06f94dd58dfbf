//! An engine schematic: a rectangular grid of characters in which runs of
//! digits are numbers, `.` is empty, and any other character is a symbol.
//! Points are `(row, column)`; the grid is read row by row.
use vstd::prelude::*;

use crate::text::{int_value, is_digit, parse_int, push_char, views};

verus! {

/// All rows have the same, non-zero length, and the sizes fit an `i32`.
pub open spec fn grid_wf(grid: Seq<Vec<char>>) -> bool {
    &&& grid.len() > 0
    &&& grid.len() < i32::MAX
    &&& grid[0]@.len() > 0
    &&& grid[0]@.len() < i32::MAX
    &&& forall|r: int| 0 <= r < grid.len() ==> (#[trigger] grid[r])@.len() == grid[0]@.len()
}

pub open spec fn in_bounds(p: (i32, i32), max_x: i32, max_y: i32) -> bool {
    0 <= p.0 <= max_x && 0 <= p.1 <= max_y
}

/// `q` is one of the eight points around `p`.
pub open spec fn is_neighbour(p: (i32, i32), q: (i32, i32)) -> bool {
    &&& -1 <= q.0 - p.0 <= 1
    &&& -1 <= q.1 - p.1 <= 1
    &&& q != p
}

/// The points around `point` that lie in `[0, max_x] x [0, max_y]`, each once.
pub fn get_border_points(point: &(i32, i32), max_x: &i32, max_y: &i32) -> (r: Vec<(i32, i32)>)
    requires
        in_bounds(*point, *max_x, *max_y),
        *max_x < i32::MAX,
        *max_y < i32::MAX,
    ensures
        forall|q: (i32, i32)|
            #[trigger] r@.contains(q) <==> (is_neighbour(*point, q) && in_bounds(q, *max_x, *max_y)),
        r@.no_duplicates(),
{
    let (x, y) = *point;
    let mut r: Vec<(i32, i32)> = Vec::new();
    let mut dx: i32 = -1;
    while dx <= 1
        invariant
            in_bounds(*point, *max_x, *max_y),
            *max_x < i32::MAX,
            *max_y < i32::MAX,
            (x, y) == *point,
            -1 <= dx <= 2,
            r@.no_duplicates(),
            forall|q: (i32, i32)|
                #[trigger] r@.contains(q) <==> (is_neighbour(*point, q) && in_bounds(q, *max_x, *max_y)
                    && q.0 - x < dx),
        decreases 2 - dx,
    {
        let mut dy: i32 = -1;
        while dy <= 1
            invariant
                in_bounds(*point, *max_x, *max_y),
                *max_x < i32::MAX,
                *max_y < i32::MAX,
                (x, y) == *point,
                -1 <= dx <= 1,
                -1 <= dy <= 2,
                r@.no_duplicates(),
                forall|q: (i32, i32)|
                    #[trigger] r@.contains(q) <==> (is_neighbour(*point, q) && in_bounds(
                        q,
                        *max_x,
                        *max_y,
                    ) && (q.0 - x < dx || (q.0 - x == dx && q.1 - y < dy))),
            decreases 2 - dy,
        {
            let ghost before = r@;
            if (dx != 0 || dy != 0) && 0 <= x + dx && x + dx <= *max_x && 0 <= y + dy && y + dy
                <= *max_y {
                let q = (x + dx, y + dy);
                proof {
                    assert(!before.contains(q));
                }
                r.push(q);
                proof {
                    assert forall|a: int, b: int| 0 <= a < b < r@.len() implies r@[a] != r@[b] by {
                        if b == r@.len() - 1 {
                            assert(before.contains(r@[a]));
                        } else {
                            assert(before[a] == r@[a] && before[b] == r@[b]);
                        }
                    }
                    assert forall|p: (i32, i32)|
                        #[trigger] r@.contains(p) <==> (before.contains(p) || p == q) by {
                        if r@.contains(p) {
                            let k = choose|k: int| 0 <= k < r@.len() && r@[k] == p;
                            if k < before.len() {
                                assert(before[k] == p);
                            }
                        }
                        if before.contains(p) {
                            let k = choose|k: int| 0 <= k < before.len() && before[k] == p;
                            assert(r@[k] == p);
                        }
                        if p == q {
                            assert(r@[r@.len() - 1] == q);
                        }
                    }
                }
            }
            assert forall|q: (i32, i32)|
                #[trigger] r@.contains(q) <==> (is_neighbour(*point, q) && in_bounds(
                    q,
                    *max_x,
                    *max_y,
                ) && (q.0 - x < dx || (q.0 - x == dx && q.1 - y < dy + 1))) by {
                assert(before.contains(q) <==> (is_neighbour(*point, q) && in_bounds(q, *max_x, *max_y)
                    && (q.0 - x < dx || (q.0 - x == dx && q.1 - y < dy))));
            }
            dy = dy + 1;
        }
        dx = dx + 1;
    }
    r
}

/// The character at `p`.
pub open spec fn cell(grid: Seq<Vec<char>>, p: (i32, i32)) -> char {
    grid[p.0 as int]@[p.1 as int]
}

/// Neither a digit nor `.`.
pub open spec fn is_symbol(c: char) -> bool {
    !is_digit(c) && c != '.'
}

pub open spec fn max_x(grid: Seq<Vec<char>>) -> i32 {
    (grid.len() - 1) as i32
}

pub open spec fn max_y(grid: Seq<Vec<char>>) -> i32 {
    (grid[0]@.len() - 1) as i32
}

/// Some point around `p` in the grid holds a symbol.
pub open spec fn touches_symbol(grid: Seq<Vec<char>>, p: (i32, i32)) -> bool {
    exists|q: (i32, i32)|
        is_neighbour(p, q) && in_bounds(q, max_x(grid), max_y(grid)) && is_symbol(
            #[trigger] cell(grid, q),
        )
}

/// Whether the cell at `point` is a digit, and whether it then touches a symbol.
pub fn is_part_number(grid: &Vec<Vec<char>>, point: &(i32, i32)) -> (r: (bool, bool))
    requires
        grid_wf(grid@),
        in_bounds(*point, max_x(grid@), max_y(grid@)),
    ensures
        r.0 == is_digit(cell(grid@, *point)),
        r.1 == (r.0 && touches_symbol(grid@, *point)),
{
    let mx = (grid.len() - 1) as i32;
    let my = (grid[0].len() - 1) as i32;
    let c = grid[point.0 as usize][point.1 as usize];
    if !('0' <= c && c <= '9') {
        return (false, false);
    }
    assert(mx == max_x(grid@) && my == max_y(grid@));
    let around = get_border_points(point, &mx, &my);
    assert(forall|q: (i32, i32)|
        #[trigger] around@.contains(q) <==> (is_neighbour(*point, q) && in_bounds(q, mx, my)));
    let mut i: usize = 0;
    while i < around.len()
        invariant
            grid_wf(grid@),
            mx == max_x(grid@),
            my == max_y(grid@),
            in_bounds(*point, max_x(grid@), max_y(grid@)),
            is_digit(cell(grid@, *point)),
            i <= around.len(),
            forall|q: (i32, i32)|
                #[trigger] around@.contains(q) <==> (is_neighbour(*point, q) && in_bounds(q, mx, my)),
            forall|k: int| 0 <= k < i ==> !is_symbol(#[trigger] cell(grid@, around@[k])),
        decreases around.len() - i,
    {
        let q = around[i];
        proof {
            assert(around@.contains(q));
            assert(grid@[q.0 as int]@.len() == grid@[0]@.len());
        }
        let d = grid[q.0 as usize][q.1 as usize];
        if !('0' <= d && d <= '9') && d != '.' {
            assert(is_symbol(cell(grid@, q)));
            return (true, true);
        }
        i = i + 1;
    }
    proof {
        if touches_symbol(grid@, *point) {
            let q = choose|q: (i32, i32)|
                is_neighbour(*point, q) && in_bounds(q, max_x(grid@), max_y(grid@)) && is_symbol(
                    #[trigger] cell(grid@, q),
                );
            assert(around@.contains(q));
            let k = choose|k: int| 0 <= k < around@.len() && around@[k] == q;
        }
    }
    (true, false)
}

pub open spec fn rows(grid: Seq<Vec<char>>) -> int {
    grid.len() as int
}

pub open spec fn cols(grid: Seq<Vec<char>>) -> int {
    grid[0]@.len() as int
}

/// The `k`-th point in reading order, row by row.
pub open spec fn point_at(grid: Seq<Vec<char>>, k: int) -> (i32, i32) {
    ((k / cols(grid)) as i32, (k % cols(grid)) as i32)
}

/// The part numbers met in the first `k` cells, the digits of the number
/// being read, and whether one of them touches a symbol. A number ends at the
/// first cell that is not a digit, even on a later row; one still open after
/// the last cell is not counted.
pub open spec fn parts_scan(grid: Seq<Vec<char>>, k: int) -> (Seq<Seq<char>>, Seq<char>, bool)
    decreases k,
{
    if k <= 0 {
        (seq![], seq![], false)
    } else {
        let (ps, cur, valid) = parts_scan(grid, k - 1);
        let p = point_at(grid, k - 1);
        let c = cell(grid, p);
        if is_digit(c) {
            (ps, cur.push(c), valid || touches_symbol(grid, p))
        } else if cur.len() > 0 {
            (if valid { ps.push(cur) } else { ps }, seq![], false)
        } else {
            (ps, cur, valid)
        }
    }
}

proof fn lemma_point_at(grid: Seq<Vec<char>>, k: int)
    requires
        grid_wf(grid),
        0 <= k < rows(grid) * cols(grid),
    ensures
        in_bounds(point_at(grid, k), max_x(grid), max_y(grid)),
        point_at(grid, k).0 as int == k / cols(grid),
        point_at(grid, k).1 as int == k % cols(grid),
{
    let c = cols(grid);
    let r = rows(grid);
    assert(0 <= k / c < r) by (nonlinear_arith)
        requires
            0 <= k < r * c,
            c > 0,
    ;
    assert(0 <= k % c < c) by (nonlinear_arith)
        requires
            c > 0,
    ;
}

/// The numbers of the grid that touch a symbol, in reading order.
pub fn get_parts(grid: &Vec<Vec<char>>) -> (r: Vec<String>)
    requires
        grid_wf(grid@),
        grid@.len() * grid@[0]@.len() <= usize::MAX,
    ensures
        views(r@) == parts_scan(grid@, rows(grid@) * cols(grid@)).0,
{
    let nr = grid.len();
    let nc = grid[0].len();
    let n = nr * nc;
    let mut result: Vec<String> = Vec::new();
    let mut current = String::new();
    let mut valid = false;
    let mut k: usize = 0;
    while k < n
        invariant
            grid_wf(grid@),
            nr == rows(grid@),
            nc == cols(grid@),
            n == nr * nc,
            k <= n,
            parts_scan(grid@, k as int) == (views(result@), current@, valid),
        decreases n - k,
    {
        proof {
            lemma_point_at(grid@, k as int);
        }
        let point = ((k / nc) as i32, (k % nc) as i32);
        assert(point == point_at(grid@, k as int));
        let (is_number, has_symbol) = is_part_number(grid, &point);
        if is_number {
            proof {
                assert(grid@[point.0 as int]@.len() == nc);
            }
            push_char(&mut current, grid[k / nc][k % nc]);
            if has_symbol {
                valid = true;
            }
        } else if current.as_str().unicode_len() > 0 {
            if valid {
                let ghost before = views(result@);
                result.push(current);
                assert(views(result@) =~= before.push(parts_scan(grid@, k as int).1));
            }
            current = String::new();
            valid = false;
        }
        k = k + 1;
    }
    result
}

/// A gear: the position of a `*` and the different part numbers next to it.
#[derive(Debug)]
pub struct Gear {
    pub pos: (i32, i32),
    pub parts: Vec<String>,
}

/// The positions of the `*` cells among the first `k`, in reading order.
pub open spec fn stars_upto(grid: Seq<Vec<char>>, k: int) -> Seq<(i32, i32)>
    decreases k,
{
    if k <= 0 {
        seq![]
    } else if cell(grid, point_at(grid, k - 1)) == '*' {
        stars_upto(grid, k - 1).push(point_at(grid, k - 1))
    } else {
        stars_upto(grid, k - 1)
    }
}

pub open spec fn positions(gs: Seq<Gear>) -> Seq<(i32, i32)> {
    gs.map_values(|g: Gear| g.pos)
}

/// One gear, with no parts yet, for each `*` of the grid, in reading order.
pub fn get_gears(grid: &Vec<Vec<char>>) -> (r: Vec<Gear>)
    requires
        grid_wf(grid@),
        grid@.len() * grid@[0]@.len() <= usize::MAX,
    ensures
        positions(r@) == stars_upto(grid@, rows(grid@) * cols(grid@)),
        forall|i: int| 0 <= i < r.len() ==> (#[trigger] r@[i]).parts@.len() == 0,
{
    let nr = grid.len();
    let nc = grid[0].len();
    let n = nr * nc;
    let mut gears: Vec<Gear> = Vec::new();
    let mut k: usize = 0;
    while k < n
        invariant
            grid_wf(grid@),
            nr == rows(grid@),
            nc == cols(grid@),
            n == nr * nc,
            k <= n,
            positions(gears@) == stars_upto(grid@, k as int),
            forall|i: int| 0 <= i < gears.len() ==> (#[trigger] gears@[i]).parts@.len() == 0,
        decreases n - k,
    {
        proof {
            lemma_point_at(grid@, k as int);
            assert(grid@[(k / nc) as int]@.len() == nc);
        }
        let point = ((k / nc) as i32, (k % nc) as i32);
        if grid[k / nc][k % nc] == '*' {
            let ghost before = positions(gears@);
            gears.push(Gear { pos: point, parts: Vec::new() });
            assert(positions(gears@) =~= before.push(point));
        }
        k = k + 1;
    }
    gears
}

/// The points around `p`, in the grid, that are gear positions.
pub open spec fn gears_near(grid: Seq<Vec<char>>, pos: Seq<(i32, i32)>, p: (i32, i32)) -> Set<(i32, i32)> {
    Set::new(
        |q: (i32, i32)| is_neighbour(p, q) && in_bounds(q, max_x(grid), max_y(grid)) && pos.contains(q),
    )
}

/// The part sets of the gears after the first `k` cells, the number being
/// read, and the gears next to its digits. When a number ends, it joins the
/// set of every gear next to it.
pub open spec fn gear_scan(
    grid: Seq<Vec<char>>,
    pos: Seq<(i32, i32)>,
    init: Seq<Set<Seq<char>>>,
    k: int,
) -> (Seq<Set<Seq<char>>>, Seq<char>, Set<(i32, i32)>)
    decreases k,
{
    if k <= 0 {
        (init, seq![], Set::empty())
    } else {
        let (sets, cur, near) = gear_scan(grid, pos, init, k - 1);
        let p = point_at(grid, k - 1);
        let c = cell(grid, p);
        if is_digit(c) {
            (sets, cur.push(c), near.union(gears_near(grid, pos, p)))
        } else if cur.len() > 0 {
            (
                Seq::new(
                    sets.len(),
                    |i: int| if near.contains(pos[i]) { sets[i].insert(cur) } else { sets[i] },
                ),
                seq![],
                Set::empty(),
            )
        } else {
            (sets, cur, near)
        }
    }
}

pub open spec fn part_sets(gs: Seq<Gear>) -> Seq<Set<Seq<char>>> {
    gs.map_values(|g: Gear| views(g.parts@).to_set())
}

pub open spec fn parts_distinct(gs: Seq<Gear>) -> bool {
    forall|i: int| 0 <= i < gs.len() ==> views((#[trigger] gs[i]).parts@).no_duplicates()
}

/// Whether `v` holds `s`.
fn holds_string(v: &Vec<String>, s: &String) -> (r: bool)
    ensures
        r == views(v@).contains(s@),
{
    let mut i: usize = 0;
    while i < v.len()
        invariant
            i <= v.len(),
            forall|k: int| 0 <= k < i ==> v@[k]@ != s@,
        decreases v.len() - i,
    {
        if v[i] == *s {
            assert(views(v@)[i as int] == s@);
            return true;
        }
        i = i + 1;
    }
    proof {
        if views(v@).contains(s@) {
            let k = choose|k: int| 0 <= k < views(v@).len() && views(v@)[k] == s@;
            assert(v@[k]@ == s@);
        }
    }
    false
}

/// Whether some gear stands at `p`.
fn is_gear(gears: &Vec<Gear>, p: (i32, i32)) -> (r: bool)
    ensures
        r == positions(gears@).contains(p),
{
    let mut i: usize = 0;
    while i < gears.len()
        invariant
            i <= gears.len(),
            forall|k: int| 0 <= k < i ==> gears@[k].pos != p,
        decreases gears.len() - i,
    {
        if gears[i].pos.0 == p.0 && gears[i].pos.1 == p.1 {
            assert(positions(gears@)[i as int] == p);
            return true;
        }
        i = i + 1;
    }
    proof {
        if positions(gears@).contains(p) {
            let k = choose|k: int| 0 <= k < positions(gears@).len() && positions(gears@)[k] == p;
            assert(gears@[k].pos == p);
        }
    }
    false
}

/// A copy of the part list of a gear, with `s` added if `add` holds and it
/// is not there yet.
fn parts_with(parts: &Vec<String>, s: &String, add: bool) -> (r: Vec<String>)
    requires
        views(parts@).no_duplicates(),
    ensures
        views(r@).no_duplicates(),
        views(r@).to_set() == if add {
            views(parts@).to_set().insert(s@)
        } else {
            views(parts@).to_set()
        },
{
    let mut r: Vec<String> = Vec::new();
    let mut i: usize = 0;
    while i < parts.len()
        invariant
            i <= parts.len(),
            views(r@) == views(parts@).take(i as int),
        decreases parts.len() - i,
    {
        let c = parts[i].clone();
        assert(c == parts@[i as int]);
        let ghost before = views(r@);
        r.push(c);
        assert(views(r@) =~= before.push(parts@[i as int]@));
        assert(views(r@) =~= views(parts@).take(i + 1));
        i = i + 1;
    }
    assert(views(parts@).take(parts.len() as int) == views(parts@));
    if add && !holds_string(parts, s) {
        let ghost before = views(r@);
        r.push(s.clone());
        proof {
            assert(views(r@) =~= before.push(s@));
            assert(views(r@).to_set() =~= before.to_set().insert(s@)) by {
                assert forall|x: Seq<char>| views(r@).contains(x) <==> before.contains(x) || x == s@ by {
                    if views(r@).contains(x) {
                        let k = choose|k: int| 0 <= k < views(r@).len() && views(r@)[k] == x;
                        if k < before.len() {
                            assert(before[k] == x);
                        }
                    }
                    if before.contains(x) {
                        let k = choose|k: int| 0 <= k < before.len() && before[k] == x;
                        assert(views(r@)[k] == x);
                    }
                    if x == s@ {
                        assert(views(r@)[before.len() as int] == x);
                    }
                }
            }
        }
    } else {
        proof {
            if add {
                assert(views(parts@).to_set().insert(s@) =~= views(parts@).to_set());
            }
        }
    }
    r
}

/// Whether `v` holds `p`.
fn holds_point(v: &Vec<(i32, i32)>, p: (i32, i32)) -> (r: bool)
    ensures
        r == v@.contains(p),
{
    let mut i: usize = 0;
    while i < v.len()
        invariant
            i <= v.len(),
            forall|k: int| 0 <= k < i ==> v@[k] != p,
        decreases v.len() - i,
    {
        if v[i].0 == p.0 && v[i].1 == p.1 {
            assert(v@[i as int] == p);
            return true;
        }
        i = i + 1;
    }
    false
}

/// The gears with `part` added to those next to it.
fn add_part(gears: &Vec<Gear>, part: &String, near: &Vec<(i32, i32)>) -> (r: Vec<Gear>)
    requires
        parts_distinct(gears@),
    ensures
        positions(r@) == positions(gears@),
        parts_distinct(r@),
        part_sets(r@) == Seq::new(
            gears@.len(),
            |i: int|
                if near@.to_set().contains(positions(gears@)[i]) {
                    part_sets(gears@)[i].insert(part@)
                } else {
                    part_sets(gears@)[i]
                },
        ),
{
    let ghost target = Seq::new(
        gears@.len(),
        |i: int|
            if near@.to_set().contains(positions(gears@)[i]) {
                part_sets(gears@)[i].insert(part@)
            } else {
                part_sets(gears@)[i]
            },
    );
    let mut r: Vec<Gear> = Vec::new();
    let mut i: usize = 0;
    while i < gears.len()
        invariant
            i <= gears.len(),
            parts_distinct(gears@),
            parts_distinct(r@),
            target == Seq::new(
                gears@.len(),
                |i: int|
                    if near@.to_set().contains(positions(gears@)[i]) {
                        part_sets(gears@)[i].insert(part@)
                    } else {
                        part_sets(gears@)[i]
                    },
            ),
            positions(r@) == positions(gears@).take(i as int),
            part_sets(r@) == target.take(i as int),
        decreases gears.len() - i,
    {
        let g = &gears[i];
        let add = holds_point(near, g.pos);
        proof {
            assert(views(gears@[i as int].parts@).no_duplicates());
        }
        let parts = parts_with(&g.parts, part, add);
        let ghost before_pos = positions(r@);
        let ghost before_sets = part_sets(r@);
        r.push(Gear { pos: g.pos, parts });
        proof {
            assert(positions(r@) =~= before_pos.push(g.pos));
            assert(positions(r@) =~= positions(gears@).take(i + 1));
            assert(part_sets(r@) =~= before_sets.push(views(parts@).to_set()));
            assert(part_sets(gears@)[i as int] == views(g.parts@).to_set());
            assert(positions(gears@)[i as int] == g.pos);
            assert(part_sets(r@) =~= target.take(i + 1));
            assert forall|k: int| 0 <= k < r@.len() implies views((#[trigger] r@[k]).parts@).no_duplicates() by {
                if k < i {
                }
            }
        }
        i = i + 1;
    }
    assert(positions(gears@).take(gears.len() as int) == positions(gears@));
    assert(target.take(gears.len() as int) == target);
    r
}

/// Adds each number of the grid to the part sets of the gears next to any of
/// its digits, reading the grid row by row.
pub fn update_gear_parts(grid: &Vec<Vec<char>>, gears: &mut Vec<Gear>)
    requires
        grid_wf(grid@),
        grid@.len() * grid@[0]@.len() <= usize::MAX,
        parts_distinct(old(gears)@),
    ensures
        positions(final(gears)@) == positions(old(gears)@),
        parts_distinct(final(gears)@),
        part_sets(final(gears)@) == gear_scan(
            grid@,
            positions(old(gears)@),
            part_sets(old(gears)@),
            rows(grid@) * cols(grid@),
        ).0,
{
    let ghost pos = positions(gears@);
    let ghost init = part_sets(gears@);
    let nr = grid.len();
    let nc = grid[0].len();
    let mx = (nr - 1) as i32;
    let my = (nc - 1) as i32;
    let n = nr * nc;
    let mut current = String::new();
    let mut near: Vec<(i32, i32)> = Vec::new();
    let mut k: usize = 0;
    assert(near@.to_set() =~= Set::<(i32, i32)>::empty());
    while k < n
        invariant
            grid_wf(grid@),
            nr == rows(grid@),
            nc == cols(grid@),
            mx == max_x(grid@),
            my == max_y(grid@),
            n == nr * nc,
            k <= n,
            positions(gears@) == pos,
            parts_distinct(gears@),
            gear_scan(grid@, pos, init, k as int) == (part_sets(gears@), current@, near@.to_set()),
        decreases n - k,
    {
        proof {
            lemma_point_at(grid@, k as int);
        }
        let point = ((k / nc) as i32, (k % nc) as i32);
        assert(point == point_at(grid@, k as int));
        let (is_number, _) = is_part_number(grid, &point);
        if is_number {
            proof {
                assert(grid@[point.0 as int]@.len() == nc);
            }
            push_char(&mut current, grid[k / nc][k % nc]);
            let around = get_border_points(&point, &mx, &my);
            let ghost start = near@.to_set();
            let mut j: usize = 0;
            while j < around.len()
                invariant
                    j <= around.len(),
                    positions(gears@) == pos,
                    forall|q: (i32, i32)|
                        #[trigger] around@.contains(q) <==> (is_neighbour(point, q) && in_bounds(q, mx, my)),
                    near@.to_set() == start.union(
                        Set::new(|q: (i32, i32)| around@.take(j as int).contains(q) && pos.contains(q)),
                    ),
                decreases around.len() - j,
            {
                let q = around[j];
                let ghost before = near@;
                let gear_here = is_gear(gears, q);
                let known = holds_point(&near, q);
                if gear_here && !known {
                    near.push(q);
                    proof {
                        assert forall|x: (i32, i32)| #[trigger] near@.contains(x) <==> (before.contains(x) || x == q) by {
                            if near@.contains(x) {
                                let t = choose|t: int| 0 <= t < near@.len() && near@[t] == x;
                                if t < before.len() {
                                    assert(before[t] == x);
                                }
                            }
                            if before.contains(x) {
                                let t = choose|t: int| 0 <= t < before.len() && before[t] == x;
                                assert(near@[t] == x);
                            }
                            if x == q {
                                assert(near@[before.len() as int] == x);
                            }
                        }
                    }
                }
                proof {
                    assert forall|x: (i32, i32)|
                        around@.take(j + 1).contains(x) <==> (around@.take(j as int).contains(x) || x == q) by {
                        if around@.take(j + 1).contains(x) {
                            let t = choose|t: int| 0 <= t < j + 1 && #[trigger] around@.take(j + 1)[t] == x;
                            if t < j {
                                assert(around@.take(j as int)[t] == x);
                            }
                        }
                        if around@.take(j as int).contains(x) {
                            let t = choose|t: int| 0 <= t < j && #[trigger] around@.take(j as int)[t] == x;
                            assert(around@.take(j + 1)[t] == x);
                        }
                        if x == q {
                            assert(around@.take(j + 1)[j as int] == x);
                        }
                    }
                    let s_old = Set::new(|x: (i32, i32)| around@.take(j as int).contains(x) && pos.contains(x));
                    let s_new = Set::new(|x: (i32, i32)| around@.take(j + 1).contains(x) && pos.contains(x));
                    assert(before.to_set() == start.union(s_old));
                    assert forall|x: (i32, i32)| near@.to_set().contains(x) <==> start.union(s_new).contains(x) by {
                        assert(before.to_set().contains(x) <==> before.contains(x));
                        assert(near@.to_set().contains(x) <==> near@.contains(x));
                        if !(gear_here && !known) {
                            assert(near@ == before);
                        }
                    }
                    assert(near@.to_set() =~= start.union(s_new));
                }
                j = j + 1;
            }
            proof {
                assert(around@.take(around.len() as int) == around@);
                assert(near@.to_set() =~= start.union(gears_near(grid@, pos, point)));
            }
        } else if current.as_str().unicode_len() > 0 {
            let updated = add_part(gears, &current, &near);
            *gears = updated;
            proof {
                assert(part_sets(gears@) =~= gear_scan(grid@, pos, init, k + 1).0);
            }
            current = String::new();
            near = Vec::new();
            assert(near@.to_set() =~= Set::<(i32, i32)>::empty());
        }
        k = k + 1;
    }
}

/// The product of the two numbers next to a gear, when exactly two different
/// numbers are.
pub open spec fn gear_ratio(g: Gear) -> Option<int> {
    if g.parts@.len() == 2 {
        match (int_value(g.parts@[0]@), int_value(g.parts@[1]@)) {
            (Some(a), Some(b)) => Some(a * b),
            _ => None,
        }
    } else {
        Some(0)
    }
}

/// The sum of the gear ratios of the first `k` gears, every step within `i64`.
pub open spec fn ratio_sum(gs: Seq<Gear>, k: int) -> Option<int>
    decreases k,
{
    if k <= 0 {
        Some(0)
    } else {
        match (ratio_sum(gs, k - 1), gear_ratio(gs[k - 1])) {
            (Some(s), Some(g)) => if i64::MIN <= g <= i64::MAX && i64::MIN <= s + g <= i64::MAX {
                Some(s + g)
            } else {
                None
            },
            _ => None,
        }
    }
}

/// The sum, over the gears next to exactly two numbers, of their product;
/// `None` when a number does not read as an `i64` or a step overflows.
pub fn gear_ratio_sum(gears: &Vec<Gear>) -> (r: Option<i64>)
    ensures
        r == match ratio_sum(gears@, gears@.len() as int) {
            Some(v) => Some(v as i64),
            None => None::<i64>,
        },
{
    let mut sum: i64 = 0;
    let mut i: usize = 0;
    while i < gears.len()
        invariant
            i <= gears.len(),
            ratio_sum(gears@, i as int) == Some(sum as int),
        decreases gears.len() - i,
    {
        let g = &gears[i];
        let mut ratio: i64 = 0;
        if g.parts.len() == 2 {
            let a = match parse_int(g.parts[0].as_str()) {
                Some(a) => a,
                None => {
                    proof { lemma_ratio_sum_fails(gears@, i + 1); }
                    return None;
                },
            };
            let b = match parse_int(g.parts[1].as_str()) {
                Some(b) => b,
                None => {
                    proof { lemma_ratio_sum_fails(gears@, i + 1); }
                    return None;
                },
            };
            ratio = match a.checked_mul(b) {
                Some(x) => x,
                None => {
                    proof { lemma_ratio_sum_fails(gears@, i + 1); }
                    return None;
                },
            };
        }
        sum = match sum.checked_add(ratio) {
            Some(x) => x,
            None => {
                proof { lemma_ratio_sum_fails(gears@, i + 1); }
                return None;
            },
        };
        i = i + 1;
    }
    Some(sum)
}

proof fn lemma_ratio_sum_fails(gs: Seq<Gear>, k: int)
    requires
        0 <= k <= gs.len(),
        ratio_sum(gs, k) is None,
    ensures
        ratio_sum(gs, gs.len() as int) is None,
    decreases gs.len() - k,
{
    if k < gs.len() {
        lemma_ratio_sum_fails(gs, k + 1);
    }
}

} // verus!
