//! Walking a network of named nodes, each with a left and a right successor,
//! by a repeating list of `L` / `R` instructions; and the first step at
//! which every walk from a start node stands on an end node, found through
//! the least common multiple of the walks' periods.
use vstd::prelude::*;

use crate::text::{pieces, same_text, split_at_char, views};

verus! {

/// A node: its name and the positions of its left and right successors.
#[derive(Debug)]
pub struct Node {
    pub name: String,
    pub left: usize,
    pub right: usize,
}

/// Every successor is a node of the network.
pub open spec fn network_wf(net: Seq<Node>) -> bool {
    forall|i: int| 0 <= i < net.len() ==> (#[trigger] net[i]).left < net.len() && net[i].right < net.len()
}

pub open spec fn name_ends_with(n: Node, c: char) -> bool {
    n.name@.len() > 0 && n.name@.last() == c
}

/// Where the walk that starts at `start` stands after `k` steps.
pub open spec fn walk(net: Seq<Node>, instr: Seq<char>, start: int, k: nat) -> int
    decreases k,
{
    if k == 0 || instr.len() == 0 {
        start
    } else {
        let prev = walk(net, instr, start, (k - 1) as nat);
        if instr[(k - 1) % instr.len() as int] == 'L' {
            net[prev].left as int
        } else {
            net[prev].right as int
        }
    }
}

pub open spec fn at_end(net: Seq<Node>, instr: Seq<char>, start: int, k: nat) -> bool {
    name_ends_with(net[walk(net, instr, start, k)], 'Z')
}

/// The walk from `start` meets no end node within `instr.len() * net.len()`
/// steps (nor within `i64::MAX` steps).
pub open spec fn no_end_within(net: Seq<Node>, instr: Seq<char>, start: int) -> bool {
    forall|j: nat|
        1 <= j <= instr.len() * net.len() && j <= i64::MAX ==> !#[trigger] at_end(
            net,
            instr,
            start,
            j,
        )
}

proof fn lemma_walk_in_range(net: Seq<Node>, instr: Seq<char>, start: int, k: nat)
    requires
        network_wf(net),
        0 <= start < net.len(),
    ensures
        0 <= walk(net, instr, start, k) < net.len(),
    decreases k,
{
    if k > 0 {
        lemma_walk_in_range(net, instr, start, (k - 1) as nat);
    }
}

pub open spec fn gcd(a: nat, b: nat) -> nat
    decreases b,
{
    if b == 0 {
        a
    } else {
        gcd(b, a % b)
    }
}

/// The least common multiple of two positive numbers.
pub open spec fn lcm(a: int, b: int) -> int {
    (a * b) / gcd(a as nat, b as nat) as int
}

/// Relies on num's `integer::lcm`: the least common multiple, which for two
/// positive numbers is positive and at most their product.
#[verifier::external_body]
fn lcm_of(a: i128, b: i128) -> (r: i128)
    requires
        0 < a <= i64::MAX,
        0 < b <= i64::MAX,
    ensures
        r == lcm(a as int, b as int),
        0 < r <= a * b,
{
    num::integer::lcm(a, b)
}

/// Where a walk is headed: any node whose name ends in `Z`, or one node.
#[derive(Clone, Copy, Debug, PartialEq, Eq, Structural)]
pub enum Goal {
    EndNode,
    Node(usize),
}

/// The walk from `start` stands on the goal after `k` steps.
pub open spec fn reached(net: Seq<Node>, instr: Seq<char>, start: int, k: nat, goal: Goal) -> bool {
    match goal {
        Goal::EndNode => at_end(net, instr, start, k),
        Goal::Node(g) => walk(net, instr, start, k) == g,
    }
}

/// The first step, from the first on, at which the walk from `start`
/// reaches `goal`; `None` when that does not happen within
/// `instructions.len() * net.len()` steps, after which the walk only
/// repeats itself.
fn walk_until(instructions: &Vec<char>, net: &Vec<Node>, start: usize, goal: Goal) -> (r: Option<i64>)
    requires
        network_wf(net@),
        start < net.len(),
        instructions.len() > 0,
    ensures
        match r {
            Some(k) => k >= 1 && reached(net@, instructions@, start as int, k as nat, goal) && forall|
                j: nat,
            | 1 <= j < k ==> !#[trigger] reached(net@, instructions@, start as int, j, goal),
            None => forall|j: nat|
                1 <= j <= instructions.len() * net.len() && j <= i64::MAX ==> !#[trigger] reached(
                    net@,
                    instructions@,
                    start as int,
                    j,
                    goal,
                ),
        },
{
    assert((instructions.len() as int) * (net.len() as int) <= (usize::MAX as int) * (
    usize::MAX as int)) by (nonlinear_arith)
        requires
            instructions.len() <= usize::MAX,
            net.len() <= usize::MAX,
    ;
    let product: u128 = (instructions.len() as u128) * (net.len() as u128);
    let bound: u128 = if product < i64::MAX as u128 { product } else { i64::MAX as u128 };
    let mut node: usize = start;
    let mut t: usize = 0;
    let mut k: u128 = 0;
    while k < bound
        invariant
            network_wf(net@),
            start < net.len(),
            instructions.len() > 0,
            bound <= i64::MAX,
            bound == if instructions.len() * net.len() < i64::MAX {
                instructions.len() * net.len()
            } else {
                i64::MAX as int
            },
            k <= bound,
            t < instructions.len(),
            t == (k as int) % (instructions.len() as int),
            node == walk(net@, instructions@, start as int, k as nat),
            node < net.len(),
            forall|j: nat| 1 <= j <= k ==> !#[trigger] reached(net@, instructions@, start as int, j, goal),
        decreases bound - k,
    {
        let ghost old_k = k;
        let go_left = instructions[t] == 'L';
        node = if go_left { net[node].left } else { net[node].right };
        k = k + 1;
        t = if t + 1 == instructions.len() { 0 } else { t + 1 };
        proof {
            let n = instructions.len() as int;
            assert(t == (k as int) % n) by {
                let kk = old_k as int;
                let tt = if (kk % n) + 1 == n { 0 } else { (kk % n) + 1 };
                assert((kk + 1) % n == tt) by (nonlinear_arith)
                    requires
                        n > 0,
                        kk >= 0,
                        tt == if (kk % n) + 1 == n { 0 } else { (kk % n) + 1 },
                ;
            }
            assert(node == walk(net@, instructions@, start as int, k as nat));
            lemma_walk_in_range(net@, instructions@, start as int, k as nat);
        }
        let hit = match goal {
            Goal::EndNode => {
                let name = &net[node].name;
                let n = name.as_str().unicode_len();
                n > 0 && name.as_str().get_char(n - 1) == 'Z'
            },
            Goal::Node(g) => node == g,
        };
        if hit {
            return Some(k as i64);
        }
        assert(!reached(net@, instructions@, start as int, k as nat, goal));
    }
    None
}

/// The first step, from the first on, at which the walk from `start` stands
/// on a node whose name ends in `Z`; `None` when that does not happen within
/// `instructions.len() * net.len()` steps, after which the walk only
/// repeats itself.
pub fn steps_to_first_end(instructions: &Vec<char>, net: &Vec<Node>, start: usize) -> (r: Option<i64>)
    requires
        network_wf(net@),
        start < net.len(),
        instructions.len() > 0,
    ensures
        match r {
            Some(k) => k >= 1 && at_end(net@, instructions@, start as int, k as nat) && forall|
                j: nat,
            | 1 <= j < k ==> !#[trigger] at_end(net@, instructions@, start as int, j),
            None => no_end_within(net@, instructions@, start as int),
        },
{
    let r = walk_until(instructions, net, start, Goal::EndNode);
    proof {
        match r {
            Some(k) => {
                assert forall|j: nat| 1 <= j < k implies !#[trigger] at_end(net@, instructions@, start as int, j) by {
                    assert(!reached(net@, instructions@, start as int, j, Goal::EndNode));
                }
            },
            None => {
                assert forall|j: nat|
                    1 <= j <= instructions.len() * net.len() && j <= i64::MAX implies !#[trigger] at_end(
                    net@,
                    instructions@,
                    start as int,
                    j,
                ) by {
                    assert(!reached(net@, instructions@, start as int, j, Goal::EndNode));
                }
            },
        }
    }
    r
}

/// The number of steps that the walk from `start` takes to first reach the
/// node `goal`; `None` when it does not within `instructions.len() *
/// network.len()` steps, after which the walk only repeats itself.
pub fn get_steps_between(instructions: &Vec<char>, network: &Vec<Node>, start: usize, goal: usize) -> (r: Option<i64>)
    requires
        network_wf(network@),
        start < network.len(),
        instructions.len() > 0,
    ensures
        match r {
            Some(k) => k >= 1 && walk(network@, instructions@, start as int, k as nat) == goal
                && forall|j: nat|
                1 <= j < k ==> #[trigger] walk(network@, instructions@, start as int, j) != goal,
            None => forall|j: nat|
                1 <= j <= instructions.len() * network.len() && j <= i64::MAX ==> #[trigger] walk(
                    network@,
                    instructions@,
                    start as int,
                    j,
                ) != goal,
        },
{
    let r = walk_until(instructions, network, start, Goal::Node(goal));
    proof {
        match r {
            Some(k) => {
                assert forall|j: nat| 1 <= j < k implies #[trigger] walk(network@, instructions@, start as int, j) != goal by {
                    assert(!reached(network@, instructions@, start as int, j, Goal::Node(goal)));
                }
            },
            None => {
                assert forall|j: nat|
                    1 <= j <= instructions.len() * network.len() && j <= i64::MAX implies #[trigger] walk(
                    network@,
                    instructions@,
                    start as int,
                    j,
                ) != goal by {
                    assert(!reached(network@, instructions@, start as int, j, Goal::Node(goal)));
                }
            },
        }
    }
    r
}

/// The least common multiple of all of `ds`, taken from the left.
pub open spec fn lcm_fold(ds: Seq<i64>) -> int
    decreases ds.len(),
{
    if ds.len() <= 1 {
        if ds.len() == 0 { 0 } else { ds[0] as int }
    } else {
        lcm(lcm_fold(ds.drop_last()), ds.last() as int)
    }
}

/// Every partial result of `lcm_fold(ds)` fits in an `i64`.
pub open spec fn lcm_fits(ds: Seq<i64>) -> bool {
    forall|k: int| 1 <= k <= ds.len() ==> #[trigger] lcm_fold(ds.take(k)) <= i64::MAX
}

/// The least common multiple of the positive numbers `ds`; `None` when a
/// partial result leaves the range of `i64`.
pub fn lcm_all(ds: &Vec<i64>) -> (r: Option<i64>)
    requires
        ds.len() > 0,
        forall|i: int| 0 <= i < ds.len() ==> #[trigger] ds@[i] > 0,
    ensures
        r == (if lcm_fits(ds@) { Some(lcm_fold(ds@) as i64) } else { None }),
        r is Some ==> r->Some_0 == lcm_fold(ds@),
{
    let mut acc: i64 = ds[0];
    let mut i: usize = 1;
    assert(ds@.take(1).drop_last().len() == 0);
    assert(lcm_fold(ds@.take(1)) == ds@[0]);
    while i < ds.len()
        invariant
            1 <= i <= ds.len(),
            forall|q: int| 0 <= q < ds.len() ==> #[trigger] ds@[q] > 0,
            acc > 0,
            acc == lcm_fold(ds@.take(i as int)),
            forall|k: int| 1 <= k <= i ==> #[trigger] lcm_fold(ds@.take(k)) <= i64::MAX,
        decreases ds.len() - i,
    {
        let l = lcm_of(acc as i128, ds[i] as i128);
        proof {
            assert(ds@.take(i + 1).drop_last() == ds@.take(i as int));
            assert(ds@.take(i + 1).last() == ds@[i as int]);
        }
        if l > i64::MAX as i128 {
            proof {
                assert(!lcm_fits(ds@)) by {
                    assert(lcm_fold(ds@.take(i + 1)) > i64::MAX);
                }
            }
            return None;
        }
        acc = l as i64;
        i = i + 1;
    }
    assert(ds@.take(ds.len() as int) == ds@);
    Some(acc)
}

/// The positions of the nodes whose names end in `A`, in order.
pub open spec fn start_nodes(net: Seq<Node>) -> Seq<int>
    decreases net.len(),
{
    if net.len() == 0 {
        seq![]
    } else if name_ends_with(net.last(), 'A') {
        start_nodes(net.drop_last()).push(net.len() - 1)
    } else {
        start_nodes(net.drop_last())
    }
}

/// `k` is the first step, from the first on, at which the walk from `start`
/// stands on an end node.
pub open spec fn first_end(net: Seq<Node>, instr: Seq<char>, start: int, k: int) -> bool {
    &&& k >= 1
    &&& at_end(net, instr, start, k as nat)
    &&& forall|j: nat| 1 <= j < k ==> !#[trigger] at_end(net, instr, start, j)
}

/// `ds` holds, for each start node in order, the first step at which its walk
/// stands on an end node.
pub open spec fn first_ends(net: Seq<Node>, instr: Seq<char>, ds: Seq<i64>) -> bool {
    &&& ds.len() == start_nodes(net).len()
    &&& forall|i: int|
        0 <= i < ds.len() ==> first_end(net, instr, #[trigger] start_nodes(net)[i], ds[i] as int)
}

proof fn lemma_start_nodes(net: Seq<Node>)
    ensures
        forall|i: int|
            0 <= i < start_nodes(net).len() ==> 0 <= #[trigger] start_nodes(net)[i] < net.len(),
    decreases net.len(),
{
    if net.len() > 0 {
        let p = net.drop_last();
        lemma_start_nodes(p);
        assert forall|i: int|
            0 <= i < start_nodes(net).len() implies 0 <= #[trigger] start_nodes(net)[i] < net.len() by {
            if i < start_nodes(p).len() {
                assert(start_nodes(net)[i] == start_nodes(p)[i]);
            }
        }
    }
}

/// The number of steps after which the walks from all start nodes (names
/// ending in `A`) first stand on end nodes (names ending in `Z`) together,
/// taken as the least common multiple of each walk's first end step. `None`
/// when there is no start node, when a walk reaches no end node within
/// `instructions.len() * network.len()` steps, or when the result does not
/// fit in an `i64`.
pub fn get_steps_to_end(instructions: &Vec<char>, network: &Vec<Node>) -> (r: Option<i64>)
    requires
        network_wf(network@),
        instructions.len() > 0,
    ensures
        match r {
            Some(v) => exists|ds: Seq<i64>|
                first_ends(network@, instructions@, ds) && ds.len() > 0 && lcm_fits(ds) && v
                    == lcm_fold(ds),
            None => start_nodes(network@).len() == 0 || (exists|i: int|
                0 <= i < start_nodes(network@).len() && no_end_within(
                    network@,
                    instructions@,
                    #[trigger] start_nodes(network@)[i],
                )) || exists|ds: Seq<i64>|
                first_ends(network@, instructions@, ds) && !lcm_fits(ds),
        },
{
    proof {
        lemma_start_nodes(network@);
    }
    let ghost starts = start_nodes(network@);
    let mut ds: Vec<i64> = Vec::new();
    let mut i: usize = 0;
    let mut seen: usize = 0;
    while i < network.len()
        invariant
            network_wf(network@),
            instructions.len() > 0,
            i <= network.len(),
            starts == start_nodes(network@),
            seen == start_nodes(network@.take(i as int)).len(),
            seen <= i,
            ds.len() == seen,
            start_nodes(network@.take(i as int)) == starts.take(seen as int),
            seen <= starts.len(),
            forall|q: int| 0 <= q < seen ==> #[trigger] ds@[q] > 0,
            forall|q: int|
                0 <= q < seen ==> first_end(network@, instructions@, #[trigger] starts[q], ds@[q] as int),
        decreases network.len() - i,
    {
        proof {
            assert(network@.take(i + 1).drop_last() == network@.take(i as int));
            assert(network@.take(i + 1).last() == network@[i as int]);
            lemma_start_prefix(network@, i + 1);
        }
        let name = &network[i].name;
        let n = name.as_str().unicode_len();
        if n > 0 && name.as_str().get_char(n - 1) == 'A' {
            proof {
                assert(name_ends_with(network@[i as int], 'A'));
                assert(start_nodes(network@.take(i + 1)) == starts.take(seen as int).push(i as int));
                assert(starts[seen as int] == start_nodes(network@.take(i + 1))[seen as int]);
            }
            match steps_to_first_end(instructions, network, i) {
                Some(k) => {
                    ds.push(k);
                },
                None => {
                    return None;
                },
            }
            proof {
                assert(starts.take(seen + 1) == starts.take(seen as int).push(i as int));
            }
            seen = seen + 1;
        }
        i = i + 1;
    }
    proof {
        assert(network@.take(network.len() as int) == network@);
        assert(starts.take(seen as int) == starts);
        assert(first_ends(network@, instructions@, ds@));
    }
    if ds.len() == 0 {
        return None;
    }
    let r = lcm_all(&ds);
    proof {
        if lcm_fits(ds@) {
            assert(first_ends(network@, instructions@, ds@) && ds@.len() > 0 && lcm_fits(ds@));
        } else {
            assert(first_ends(network@, instructions@, ds@) && !lcm_fits(ds@));
        }
    }
    r
}

/// The start nodes among the first `j` nodes begin the list of all of them.
proof fn lemma_start_prefix(net: Seq<Node>, j: int)
    requires
        0 <= j <= net.len(),
    ensures
        start_nodes(net.take(j)).len() <= start_nodes(net).len(),
        start_nodes(net).take(start_nodes(net.take(j)).len() as int) == start_nodes(net.take(j)),
    decreases net.len(),
{
    if j == net.len() {
        assert(net.take(j) == net);
    } else {
        let p = net.drop_last();
        assert(net.take(j) == p.take(j));
        lemma_start_prefix(p, j);
        let a = start_nodes(p.take(j));
        let b = start_nodes(p);
        assert(start_nodes(net).take(b.len() as int) == b);
        assert(start_nodes(net).take(a.len() as int) == b.take(a.len() as int));
    }
}

/// The name and the two successor names of a line `NAME = (LEFT, RIGHT)`.
pub open spec fn node_line(line: Seq<char>) -> Option<(Seq<char>, Seq<char>, Seq<char>)> {
    let p = pieces(line, ' ');
    if p.len() == 4 && p[1] == seq!['='] && p[2].len() >= 2 && p[2][0] == '(' && p[2].last() == ','
        && p[3].len() >= 1 && p[3].last() == ')' {
        Some((p[0], p[2].subrange(1, p[2].len() - 1), p[3].drop_last()))
    } else {
        None
    }
}

/// Reads a line `NAME = (LEFT, RIGHT)`.
pub fn parse_node_line(line: &str) -> (r: Option<(String, String, String)>)
    ensures
        match r {
            Some((n, a, b)) => node_line(line@) == Some((n@, a@, b@)),
            None => node_line(line@) is None,
        },
{
    let p = split_at_char(line, ' ');
    if p.len() != 4 {
        return None;
    }
    proof {
        assert(views(p@)[0] == p@[0]@);
        assert(views(p@)[1] == p@[1]@);
        assert(views(p@)[2] == p@[2]@);
        assert(views(p@)[3] == p@[3]@);
    }
    let eq = p[1].as_str();
    let l = p[2].as_str();
    let r = p[3].as_str();
    let nl = l.unicode_len();
    let nr = r.unicode_len();
    if eq.unicode_len() != 1 || eq.get_char(0) != '=' {
        proof {
            if eq@.len() == 1 {
                assert(eq@[0] != '=');
            }
            assert(p@[1]@ != seq!['=']);
        }
        return None;
    }
    assert(eq@ =~= seq!['=']);
    if nl < 2 || l.get_char(0) != '(' || l.get_char(nl - 1) != ',' || nr < 1 || r.get_char(nr - 1)
        != ')' {
        return None;
    }
    let left = l.substring_char(1, nl - 1);
    let right = r.substring_char(0, nr - 1);
    assert(right@ =~= r@.drop_last());
    Some((p[0].clone(), left.to_owned(), right.to_owned()))
}

/// The first position in `entries` whose name is `name`.
pub open spec fn find_name(entries: Seq<(String, String, String)>, name: Seq<char>) -> Option<int>
    decreases entries.len(),
{
    if entries.len() == 0 {
        None
    } else if entries[0].0@ == name {
        Some(0)
    } else {
        match find_name(entries.drop_first(), name) {
            Some(i) => Some(i + 1),
            None => None,
        }
    }
}

proof fn lemma_find_name_range(entries: Seq<(String, String, String)>, name: Seq<char>)
    ensures
        find_name(entries, name) is Some ==> 0 <= find_name(entries, name)->Some_0 < entries.len(),
    decreases entries.len(),
{
    if entries.len() > 0 {
        lemma_find_name_range(entries.drop_first(), name);
    }
}

/// The position of the first node named `name`.
pub fn node_named(network: &Vec<Node>, name: &str) -> (r: Option<usize>)
    ensures
        match r {
            Some(i) => i < network.len() && network@[i as int].name@ == name@ && forall|k: int|
                0 <= k < i ==> (#[trigger] network@[k]).name@ != name@,
            None => forall|k: int| 0 <= k < network.len() ==> (#[trigger] network@[k]).name@ != name@,
        },
{
    let mut i: usize = 0;
    while i < network.len()
        invariant
            i <= network.len(),
            forall|k: int| 0 <= k < i ==> (#[trigger] network@[k]).name@ != name@,
        decreases network.len() - i,
    {
        if same_text(network[i].name.as_str(), name) {
            return Some(i);
        }
        i = i + 1;
    }
    None
}

/// The position of the first entry named `name`.
fn position_of(entries: &Vec<(String, String, String)>, name: &String) -> (r: Option<usize>)
    ensures
        match r {
            Some(i) => find_name(entries@, name@) == Some(i as int),
            None => find_name(entries@, name@) is None,
        },
{
    let mut i: usize = 0;
    assert(entries@.skip(0) == entries@);
    while i < entries.len()
        invariant
            i <= entries.len(),
            find_name(entries@, name@) == match find_name(entries@.skip(i as int), name@) {
                Some(k) => Some(k + i),
                None => None,
            },
        decreases entries.len() - i,
    {
        proof {
            assert(entries@.skip(i as int)[0] == entries@[i as int]);
            assert(entries@.skip(i as int).drop_first() == entries@.skip(i + 1));
        }
        if entries[i].0 == *name {
            return Some(i);
        }
        i = i + 1;
    }
    None
}

/// The nodes that `entries` describe, each successor given by the position
/// of the first entry with its name.
pub open spec fn links_to(net: Seq<Node>, entries: Seq<(String, String, String)>) -> bool {
    &&& net.len() == entries.len()
    &&& forall|i: int|
        0 <= i < net.len() ==> (#[trigger] net[i]).name == entries[i].0 && find_name(
            entries,
            entries[i].1@,
        ) == Some(net[i].left as int) && find_name(entries, entries[i].2@) == Some(
            net[i].right as int,
        )
}

/// Every successor named in `entries` is the name of an entry.
pub open spec fn names_resolve(entries: Seq<(String, String, String)>) -> bool {
    forall|i: int|
        0 <= i < entries.len() ==> find_name(entries, (#[trigger] entries[i]).1@) is Some
            && find_name(entries, entries[i].2@) is Some
}

/// Builds the network of `(name, left, right)` entries; `None` when a
/// successor names no entry.
pub fn build_network(entries: &Vec<(String, String, String)>) -> (r: Option<Vec<Node>>)
    ensures
        match r {
            Some(net) => links_to(net@, entries@) && network_wf(net@),
            None => !names_resolve(entries@),
        },
{
    let mut net: Vec<Node> = Vec::new();
    let mut i: usize = 0;
    while i < entries.len()
        invariant
            i <= entries.len(),
            net.len() == i,
            forall|k: int|
                0 <= k < i ==> (#[trigger] net@[k]).name == entries@[k].0 && find_name(
                    entries@,
                    entries@[k].1@,
                ) == Some(net@[k].left as int) && find_name(entries@, entries@[k].2@) == Some(
                    net@[k].right as int,
                ),
        decreases entries.len() - i,
    {
        let left = match position_of(entries, &entries[i].1) {
            Some(x) => x,
            None => return None,
        };
        let right = match position_of(entries, &entries[i].2) {
            Some(x) => x,
            None => return None,
        };
        net.push(Node { name: entries[i].0.clone(), left, right });
        i = i + 1;
    }
    proof {
        assert forall|k: int| 0 <= k < net@.len() implies (#[trigger] net@[k]).left < net@.len()
            && net@[k].right < net@.len() by {
            lemma_find_name_range(entries@, entries@[k].1@);
            lemma_find_name_range(entries@, entries@[k].2@);
        }
    }
    Some(net)
}

} // verus!
