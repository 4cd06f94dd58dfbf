//! Small helpers on text: building strings, reading decimal numbers.
use vstd::prelude::*;

verus! {

pub open spec fn is_digit(c: char) -> bool {
    '0' <= c <= '9'
}

pub open spec fn digit_value(c: char) -> int {
    c as int - '0' as int
}

/// Relies on std's `String::push`: appends one character.
#[verifier::external_body]
pub(crate) fn push_char(s: &mut String, c: char)
    ensures
        final(s)@ == old(s)@.push(c),
{
    s.push(c)
}

/// The pieces of `s` between the separators `sep`, empty ones included.
pub open spec fn pieces(s: Seq<char>, sep: char) -> Seq<Seq<char>>
    decreases s.len(),
{
    if s.len() == 0 {
        seq![Seq::<char>::empty()]
    } else {
        let p = pieces(s.drop_last(), sep);
        if s.last() == sep {
            p.push(Seq::<char>::empty())
        } else {
            p.update(p.len() - 1, p.last().push(s.last()))
        }
    }
}

proof fn lemma_pieces_len(s: Seq<char>, sep: char)
    ensures
        pieces(s, sep).len() >= 1,
    decreases s.len(),
{
    if s.len() > 0 {
        lemma_pieces_len(s.drop_last(), sep);
    }
}

/// The pieces of `ps` that are not empty, in order.
pub open spec fn non_empty(ps: Seq<Seq<char>>) -> Seq<Seq<char>>
    decreases ps.len(),
{
    if ps.len() == 0 {
        seq![]
    } else if ps.last().len() == 0 {
        non_empty(ps.drop_last())
    } else {
        non_empty(ps.drop_last()).push(ps.last())
    }
}

/// The words of `s`: its pieces between spaces that are not empty.
pub open spec fn words(s: Seq<char>) -> Seq<Seq<char>> {
    non_empty(pieces(s, ' '))
}

pub open spec fn views(v: Seq<String>) -> Seq<Seq<char>> {
    v.map_values(|x: String| x@)
}

/// Splits `s` at each `sep`, as `str::split` does with one character: empty
/// pieces are kept, and there is one more piece than there are separators.
pub fn split_at_char(s: &str, sep: char) -> (r: Vec<String>)
    ensures
        views(r@) == pieces(s@, sep),
{
    let n = s.unicode_len();
    let mut done: Vec<String> = Vec::new();
    let mut cur = String::new();
    let mut i: usize = 0;
    while i < n
        invariant
            n == s@.len(),
            i <= n,
            views(done@).push(cur@) == pieces(s@.take(i as int), sep),
        decreases n - i,
    {
        let c = s.get_char(i);
        proof {
            assert(s@.take(i + 1).drop_last() == s@.take(i as int));
            assert(s@.take(i + 1).last() == c);
            lemma_pieces_len(s@.take(i as int), sep);
        }
        let ghost before = views(done@);
        if c == sep {
            done.push(cur);
            cur = String::new();
            proof {
                assert(views(done@) == before.push(views(done@).last()));
                assert(views(done@).push(cur@) =~= pieces(s@.take(i + 1), sep));
            }
        } else {
            push_char(&mut cur, c);
            proof {
                assert(views(done@).push(cur@) =~= pieces(s@.take(i + 1), sep));
            }
        }
        i = i + 1;
    }
    assert(s@.take(n as int) == s@);
    done.push(cur);
    assert(views(done@) =~= pieces(s@, sep));
    done
}

/// The words of `s`, as `str::split_whitespace` gives them for text whose
/// only blanks are spaces.
pub fn split_words(s: &str) -> (r: Vec<String>)
    ensures
        views(r@) == words(s@),
{
    let all = split_at_char(s, ' ');
    let mut r: Vec<String> = Vec::new();
    let mut i: usize = 0;
    while i < all.len()
        invariant
            i <= all.len(),
            views(all@) == pieces(s@, ' '),
            views(r@) == non_empty(views(all@).take(i as int)),
        decreases all.len() - i,
    {
        proof {
            assert(views(all@).take(i + 1).drop_last() == views(all@).take(i as int));
            assert(views(all@).take(i + 1).last() == all@[i as int]@);
        }
        if all[i].as_str().unicode_len() > 0 {
            let ghost before = views(r@);
            r.push(all[i].clone());
            proof {
                assert(views(r@) =~= before.push(all@[i as int]@));
            }
        }
        i = i + 1;
    }
    assert(views(all@).take(all.len() as int) == views(all@));
    r
}

/// The number that the decimal digits `s` write.
pub open spec fn digits_value(s: Seq<char>) -> int
    decreases s.len(),
{
    if s.len() == 0 {
        0
    } else {
        digits_value(s.drop_last()) * 10 + digit_value(s.last())
    }
}

pub open spec fn all_digits(s: Seq<char>) -> bool {
    forall|i: int| 0 <= i < s.len() ==> is_digit(#[trigger] s[i])
}

/// The integer that `s` writes: an optional sign `+` or `-` and at least one
/// decimal digit, nothing else.
pub open spec fn int_text(s: Seq<char>) -> Option<int> {
    if s.len() >= 2 && s[0] == '-' && all_digits(s.skip(1)) {
        Some(-digits_value(s.skip(1)))
    } else if s.len() >= 2 && s[0] == '+' && all_digits(s.skip(1)) {
        Some(digits_value(s.skip(1)))
    } else if s.len() >= 1 && all_digits(s) {
        Some(digits_value(s))
    } else {
        None
    }
}

proof fn lemma_digits_value_nonneg(s: Seq<char>)
    requires
        all_digits(s),
    ensures
        digits_value(s) >= 0,
    decreases s.len(),
{
    if s.len() > 0 {
        lemma_digits_value_nonneg(s.drop_last());
    }
}

proof fn lemma_digits_value_grows(s: Seq<char>, k: int)
    requires
        all_digits(s),
        0 <= k <= s.len(),
    ensures
        digits_value(s.take(k)) <= digits_value(s),
    decreases s.len() - k,
{
    if k < s.len() {
        lemma_digits_value_grows(s, k + 1);
        assert(s.take(k + 1).drop_last() == s.take(k));
        lemma_digits_value_nonneg(s.take(k));
    } else {
        assert(s.take(k) == s);
    }
}

/// Reads an `i64` written in decimal, as `str::parse::<i64>` does: `None`
/// when the text is not an optional sign and digits, or the number does not
/// fit.
pub fn parse_int(s: &str) -> (r: Option<i64>)
    ensures
        r == (match int_text(s@) {
            Some(v) => if i64::MIN <= v <= i64::MAX { Some(v as i64) } else { None },
            None => None,
        }),
{
    let n = s.unicode_len();
    if n == 0 {
        return None;
    }
    let first = s.get_char(0);
    let negative = first == '-';
    let start: usize = if (first == '-' || first == '+') { 1 } else { 0 };
    if start == 1 && n == 1 {
        return None;
    }
    let ghost body = s@.skip(start as int);
    proof {
        if start == 1 {
            assert(!is_digit(s@[0]));
            assert(!all_digits(s@));
        }
        if start == 0 {
            assert(body == s@);
        }
        assert(int_text(s@) == if all_digits(body) {
            Some(if negative { -digits_value(body) } else { digits_value(body) })
        } else {
            None::<int>
        });
    }
    let mut acc: i128 = 0;
    let mut i: usize = start;
    while i < n
        invariant
            n == s@.len(),
            start <= i <= n,
            body == s@.skip(start as int),
            int_text(s@) == if all_digits(body) {
                Some(if negative { -digits_value(body) } else { digits_value(body) })
            } else {
                None::<int>
            },
            all_digits(s@.subrange(start as int, i as int)),
            acc == digits_value(s@.subrange(start as int, i as int)),
            0 <= acc <= i64::MAX as int + 1,
        decreases n - i,
    {
        let c = s.get_char(i);
        proof {
            assert(s@.subrange(start as int, i + 1).drop_last() == s@.subrange(start as int, i as int));
        }
        if !('0' <= c && c <= '9') {
            proof {
                assert(body[i - start] == c);
                assert(!all_digits(body));
            }
            return None;
        }
        acc = acc * 10 + (c as u32 - '0' as u32) as i128;
        if acc > i64::MAX as i128 + 1 {
            proof {
                assert(body.take(i + 1 - start) == s@.subrange(start as int, i + 1));
                if all_digits(body) {
                    lemma_digits_value_grows(body, i + 1 - start);
                    assert(digits_value(body) > i64::MAX as int + 1);
                }
            }
            return None;
        }
        i = i + 1;
    }
    assert(s@.subrange(start as int, n as int) == body);
    if start == 0 {
        assert(body == s@);
    }
    if negative {
        Some((-acc) as i64)
    } else if acc > i64::MAX as i128 {
        None
    } else {
        Some(acc as i64)
    }
}

/// What `str::parse::<i64>` gives for `w`.
pub open spec fn int_value(w: Seq<char>) -> Option<i64> {
    match int_text(w) {
        Some(v) => if i64::MIN <= v <= i64::MAX { Some(v as i64) } else { None },
        None => None,
    }
}

/// Every word of `ws` reads as an `i64`, and `v` holds those numbers in order.
pub open spec fn reads_as(ws: Seq<Seq<char>>, v: Seq<i64>) -> bool {
    &&& v.len() == ws.len()
    &&& forall|i: int| 0 <= i < ws.len() ==> int_value(#[trigger] ws[i]) == Some(v[i])
}

/// Reads each of `words` as an `i64`; `None` when one of them is not a number
/// that fits.
pub fn parse_all(words: &Vec<String>) -> (r: Option<Vec<i64>>)
    ensures
        match r {
            Some(v) => reads_as(views(words@), v@),
            None => exists|i: int| 0 <= i < words.len() && #[trigger] int_value(words@[i]@) is None,
        },
{
    let mut v: Vec<i64> = Vec::new();
    let mut i: usize = 0;
    while i < words.len()
        invariant
            i <= words.len(),
            v.len() == i,
            forall|k: int| 0 <= k < i ==> int_value(#[trigger] words@[k]@) == Some(v@[k]),
        decreases words.len() - i,
    {
        match parse_int(words[i].as_str()) {
            Some(x) => v.push(x),
            None => return None,
        }
        i = i + 1;
    }
    Some(v)
}

/// Reads the words of `line` as `i64`s.
pub fn parse_numbers(line: &str) -> (r: Option<Vec<i64>>)
    ensures
        match r {
            Some(v) => reads_as(words(line@), v@),
            None => exists|i: int|
                0 <= i < words(line@).len() && #[trigger] int_value(words(line@)[i]) is None,
        },
{
    let ws = split_words(line);
    let r = parse_all(&ws);
    proof {
        if r is None {
            let i = choose|i: int| 0 <= i < ws.len() && #[trigger] int_value(ws@[i]@) is None;
            assert(views(ws@)[i] == ws@[i]@);
        }
    }
    r
}

pub open spec fn starts_with(s: Seq<char>, p: Seq<char>) -> bool {
    p.len() <= s.len() && s.take(p.len() as int) == p
}

pub open spec fn ends_with(s: Seq<char>, p: Seq<char>) -> bool {
    p.len() <= s.len() && s.skip(s.len() - p.len()) == p
}

/// Whether `s` begins with `p`.
pub fn has_prefix(s: &str, p: &str) -> (r: bool)
    ensures
        r == starts_with(s@, p@),
{
    let n = s.unicode_len();
    let m = p.unicode_len();
    if m > n {
        return false;
    }
    let mut i: usize = 0;
    while i < m
        invariant
            n == s@.len(),
            m == p@.len(),
            m <= n,
            i <= m,
            forall|k: int| 0 <= k < i ==> s@[k] == p@[k],
        decreases m - i,
    {
        if s.get_char(i) != p.get_char(i) {
            assert(s@.take(m as int)[i as int] != p@[i as int]);
            return false;
        }
        i = i + 1;
    }
    assert(s@.take(m as int) =~= p@);
    true
}

/// Whether `s` ends with `p`.
pub fn has_suffix(s: &str, p: &str) -> (r: bool)
    ensures
        r == ends_with(s@, p@),
{
    let n = s.unicode_len();
    let m = p.unicode_len();
    if m > n {
        return false;
    }
    let d = n - m;
    let mut i: usize = 0;
    while i < m
        invariant
            n == s@.len(),
            m == p@.len(),
            d == n - m,
            i <= m,
            forall|k: int| 0 <= k < i ==> s@[d + k] == p@[k],
        decreases m - i,
    {
        if s.get_char(d + i) != p.get_char(i) {
            assert(s@.skip(d as int)[i as int] != p@[i as int]);
            return false;
        }
        i = i + 1;
    }
    assert(s@.skip(d as int) =~= p@);
    true
}

/// Whether `a` and `b` hold the same characters.
pub fn same_text(a: &str, b: &str) -> (r: bool)
    ensures
        r == (a@ == b@),
{
    if a.unicode_len() != b.unicode_len() {
        return false;
    }
    let r = has_prefix(a, b);
    proof {
        assert(a@.take(b@.len() as int) == a@);
    }
    r
}

proof fn lemma_reads_as_unique(ws: Seq<Seq<char>>, a: Seq<i64>, b: Seq<i64>)
    requires
        reads_as(ws, a),
        reads_as(ws, b),
    ensures
        a == b,
{
    assert forall|i: int| 0 <= i < a.len() implies a[i] == b[i] by {
        assert(int_value(ws[i]) == Some(a[i]));
    }
    assert(a =~= b);
}

/// The numbers that the words of `s` read as, if they all read as `i64`s.
pub open spec fn numbers_of(s: Seq<char>) -> Option<Seq<i64>> {
    if exists|v: Seq<i64>| reads_as(words(s), v) {
        Some(choose|v: Seq<i64>| reads_as(words(s), v))
    } else {
        None
    }
}

/// Reads the words of `line` as `i64`s; the result as one spec function.
pub fn numbers_in(line: &str) -> (r: Option<Vec<i64>>)
    ensures
        match r {
            Some(v) => numbers_of(line@) == Some(v@),
            None => numbers_of(line@) is None,
        },
{
    let r = parse_numbers(line);
    proof {
        if r is Some {
            let v = r->Some_0;
            {
                let c = choose|c: Seq<i64>| reads_as(words(line@), c);
                lemma_reads_as_unique(words(line@), v@, c);
            }
        } else {
            {
                let i = choose|i: int|
                    0 <= i < words(line@).len() && #[trigger] int_value(words(line@)[i]) is None;
                if exists|v: Seq<i64>| reads_as(words(line@), v) {
                    let c = choose|c: Seq<i64>| reads_as(words(line@), c);
                    assert(int_value(words(line@)[i]) == Some(c[i]));
                }
            }
        }
    }
    r
}

} // verus!
