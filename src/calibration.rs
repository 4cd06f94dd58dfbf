//! Calibration values: the number made of the first and the last digit of a
//! line, where digits may also be spelled out as words.
use vstd::prelude::*;

use crate::text::{digit_value, is_digit, push_char};

verus! {

/// The first digit of `s`, if any.
pub open spec fn first_digit(s: Seq<char>) -> Option<char>
    decreases s.len(),
{
    if s.len() == 0 {
        None
    } else if is_digit(s[0]) {
        Some(s[0])
    } else {
        first_digit(s.drop_first())
    }
}

/// The last digit of `s`, if any.
pub open spec fn last_digit(s: Seq<char>) -> Option<char>
    decreases s.len(),
{
    if s.len() == 0 {
        None
    } else if is_digit(s.last()) {
        Some(s.last())
    } else {
        last_digit(s.drop_last())
    }
}

pub open spec fn has_digit(s: Seq<char>) -> bool {
    exists|i: int| 0 <= i < s.len() && is_digit(#[trigger] s[i])
}

proof fn lemma_first_digit_some(s: Seq<char>)
    requires
        has_digit(s),
    ensures
        first_digit(s) is Some,
        is_digit(first_digit(s)->Some_0),
        last_digit(s) is Some,
        is_digit(last_digit(s)->Some_0),
    decreases s.len(),
{
    let i = choose|i: int| 0 <= i < s.len() && is_digit(#[trigger] s[i]);
    if !is_digit(s[0]) {
        assert(s.drop_first()[i - 1] == s[i]);
        lemma_first_digit_some(s.drop_first());
    }
    if !is_digit(s.last()) {
        assert(s.drop_last()[i] == s[i]);
        lemma_first_digit_some(s.drop_last());
    }
}

/// The calibration value of a line: ten times its first digit plus its last.
pub open spec fn calibration_value(s: Seq<char>) -> int {
    10 * digit_value(first_digit(s)->Some_0) + digit_value(last_digit(s)->Some_0)
}

/// The calibration value of `line`, which holds at least one digit.
pub fn get_calib(line: String) -> (r: u32)
    requires
        has_digit(line@),
    ensures
        r == calibration_value(line@),
{
    proof {
        lemma_first_digit_some(line@);
    }
    let s = line.as_str();
    let n = s.unicode_len();
    let mut i: usize = 0;
    assert(line@.skip(0) == line@);
    while i < n && !('0' <= s.get_char(i) && s.get_char(i) <= '9')
        invariant
            n == s@.len(),
            s@ == line@,
            i <= n,
            first_digit(line@) == first_digit(line@.skip(i as int)),
        decreases n - i,
    {
        proof {
            assert(line@.skip(i as int).drop_first() == line@.skip(i + 1));
        }
        i = i + 1;
    }
    if i == n {
        assert(line@.skip(i as int).len() == 0);
        return 0;
    }
    let first = s.get_char(i);
    let mut j: usize = n;
    assert(line@.take(n as int) == line@);
    while j > 0 && !('0' <= s.get_char(j - 1) && s.get_char(j - 1) <= '9')
        invariant
            n == s@.len(),
            s@ == line@,
            j <= n,
            last_digit(line@) == last_digit(line@.take(j as int)),
        decreases j,
    {
        proof {
            assert(line@.take(j as int).drop_last() == line@.take(j - 1));
        }
        j = j - 1;
    }
    if j == 0 {
        assert(line@.take(0).len() == 0);
        return 0;
    }
    let last = s.get_char(j - 1);
    proof {
        assert(line@.take(j as int).last() == last);
    }
    10 * (first as u32 - '0' as u32) + (last as u32 - '0' as u32)
}

/// `s` with every match of `from`, taken from the left without overlaps,
/// replaced by `to`.
pub open spec fn replaced(s: Seq<char>, from: Seq<char>, to: Seq<char>) -> Seq<char>
    decreases s.len(),
{
    if from.len() == 0 || s.len() < from.len() {
        s
    } else if s.take(from.len() as int) == from {
        to + replaced(s.skip(from.len() as int), from, to)
    } else {
        seq![s[0]] + replaced(s.skip(1), from, to)
    }
}

/// Relies on std's `str::replace`: every match of `from`, found from the
/// left without overlaps, is replaced by `to`.
#[verifier::external_body]
fn replace_all(s: &str, from: &str, to: &str) -> (r: String)
    requires
        from@.len() > 0,
    ensures
        r@ == replaced(s@, from@, to@),
{
    s.replace(from, to)
}

/// The word that spells the digit `d`, for `1 <= d <= 9`.
pub open spec fn digit_word(d: int) -> Seq<char> {
    if d == 1 {
        seq!['o', 'n', 'e']
    } else if d == 2 {
        seq!['t', 'w', 'o']
    } else if d == 3 {
        seq!['t', 'h', 'r', 'e', 'e']
    } else if d == 4 {
        seq!['f', 'o', 'u', 'r']
    } else if d == 5 {
        seq!['f', 'i', 'v', 'e']
    } else if d == 6 {
        seq!['s', 'i', 'x']
    } else if d == 7 {
        seq!['s', 'e', 'v', 'e', 'n']
    } else if d == 8 {
        seq!['e', 'i', 'g', 'h', 't']
    } else {
        seq!['n', 'i', 'n', 'e']
    }
}

/// What replaces the word for `d`: its first letter, the digit, its last
/// letter, so that words sharing a letter with it are still found.
pub open spec fn digit_patch(d: int) -> Seq<char> {
    seq![digit_word(d)[0], ('0' as int + d) as char, digit_word(d).last()]
}

/// `s` after replacing the words for the digits `1` to `k` in turn.
pub open spec fn expand_upto(s: Seq<char>, k: int) -> Seq<char>
    decreases k,
{
    if k <= 0 {
        s
    } else {
        replaced(expand_upto(s, k - 1), digit_word(k), digit_patch(k))
    }
}

/// `s` after two passes over the digit words one to nine.
pub open spec fn expand_words(s: Seq<char>) -> Seq<char> {
    expand_upto(expand_upto(s, 9), 9)
}

/// The word for the digit `d`.
fn word_for(d: u32) -> (r: &'static str)
    requires
        1 <= d <= 9,
    ensures
        r@ == digit_word(d as int),
{
    if d == 1 {
        proof { reveal_strlit("one"); }
        "one"
    } else if d == 2 {
        proof { reveal_strlit("two"); }
        "two"
    } else if d == 3 {
        proof { reveal_strlit("three"); }
        "three"
    } else if d == 4 {
        proof { reveal_strlit("four"); }
        "four"
    } else if d == 5 {
        proof { reveal_strlit("five"); }
        "five"
    } else if d == 6 {
        proof { reveal_strlit("six"); }
        "six"
    } else if d == 7 {
        proof { reveal_strlit("seven"); }
        "seven"
    } else if d == 8 {
        proof { reveal_strlit("eight"); }
        "eight"
    } else {
        proof { reveal_strlit("nine"); }
        "nine"
    }
}

/// The character of the digit `d`.
fn digit_char(d: u32) -> (c: char)
    requires
        1 <= d <= 9,
    ensures
        c == ('0' as int + d) as char,
{
    if d == 1 {
        '1'
    } else if d == 2 {
        '2'
    } else if d == 3 {
        '3'
    } else if d == 4 {
        '4'
    } else if d == 5 {
        '5'
    } else if d == 6 {
        '6'
    } else if d == 7 {
        '7'
    } else if d == 8 {
        '8'
    } else {
        '9'
    }
}

/// One pass over the digit words one to nine.
fn expand_pass(line: &str) -> (r: String)
    ensures
        r@ == expand_upto(line@, 9),
{
    let mut cur = line.to_owned();
    let mut d: u32 = 1;
    while d <= 9
        invariant
            1 <= d <= 10,
            cur@ == expand_upto(line@, d - 1),
        decreases 10 - d,
    {
        let w = word_for(d);
        let n = w.unicode_len();
        let mut patch = String::new();
        push_char(&mut patch, w.get_char(0));
        push_char(&mut patch, digit_char(d));
        push_char(&mut patch, w.get_char(n - 1));
        assert(patch@ =~= digit_patch(d as int));
        cur = replace_all(cur.as_str(), w, patch.as_str());
        d = d + 1;
    }
    cur
}

/// `line` with the digit words written as digits (each keeping its first and
/// last letter), in two passes over the words one to nine.
pub fn expand_digit_words(line: &str) -> (r: String)
    ensures
        r@ == expand_words(line@),
{
    let once = expand_pass(line);
    expand_pass(once.as_str())
}

/// Whether `s` holds a digit.
pub fn contains_digit(s: &str) -> (r: bool)
    ensures
        r == has_digit(s@),
{
    let n = s.unicode_len();
    let mut i: usize = 0;
    while i < n
        invariant
            n == s@.len(),
            i <= n,
            forall|k: int| 0 <= k < i ==> !is_digit(#[trigger] s@[k]),
        decreases n - i,
    {
        let c = s.get_char(i);
        if '0' <= c && c <= '9' {
            return true;
        }
        i = i + 1;
    }
    false
}

/// The calibration value of `line` once its digit words are written as
/// digits; `None` when it then holds no digit.
pub fn get_calib_with_words(line: &str) -> (r: Option<u32>)
    ensures
        r == (if has_digit(expand_words(line@)) {
            Some(calibration_value(expand_words(line@)) as u32)
        } else {
            None
        }),
{
    let expanded = expand_digit_words(line);
    if contains_digit(expanded.as_str()) {
        proof {
            lemma_first_digit_some(expanded@);
        }
        Some(get_calib(expanded))
    } else {
        None
    }
}

} // verus!
