//! Character-level scanning used by the line grammar.

use vstd::prelude::*;

verus! {

/// The characters that `char::is_whitespace` accepts (Unicode `White_Space`).
pub open spec fn is_ws(c: char) -> bool {
    let u = c as u32;
    (0x9 <= u && u <= 0xd) || u == 0x20 || u == 0x85 || u == 0xa0 || u == 0x1680
        || (0x2000 <= u && u <= 0x200a) || u == 0x2028 || u == 0x2029 || u == 0x202f
        || u == 0x205f || u == 0x3000
}

/// First index at or after `i` that holds no whitespace (or the length).
pub open spec fn skip_ws(s: Seq<char>, i: int) -> int
    decreases s.len() - i,
{
    if 0 <= i < s.len() && is_ws(s[i]) {
        skip_ws(s, i + 1)
    } else {
        i
    }
}

/// End of `s[lo..j]` once trailing whitespace is dropped.
pub open spec fn back_ws(s: Seq<char>, lo: int, j: int) -> int
    decreases j - lo,
{
    if lo < j <= s.len() && is_ws(s[j - 1]) {
        back_ws(s, lo, j - 1)
    } else {
        j
    }
}

pub open spec fn trim_start(s: Seq<char>) -> int {
    skip_ws(s, 0)
}

pub open spec fn trim_end(s: Seq<char>) -> int {
    back_ws(s, trim_start(s), s.len() as int)
}

/// `s` without leading and trailing whitespace.
pub open spec fn trim(s: Seq<char>) -> Seq<char> {
    s.subrange(trim_start(s), trim_end(s))
}

/// Index of the first `c` at or after `i`.
pub open spec fn first_from(s: Seq<char>, c: char, i: int) -> Option<int>
    decreases s.len() - i,
{
    if i < 0 || i >= s.len() {
        None
    } else if s[i] == c {
        Some(i)
    } else {
        first_from(s, c, i + 1)
    }
}

/// Index of the last `c` before `j`.
pub open spec fn last_before(s: Seq<char>, c: char, j: int) -> Option<int>
    decreases j,
{
    if j <= 0 || j > s.len() {
        None
    } else if s[j - 1] == c {
        Some(j - 1)
    } else {
        last_before(s, c, j - 1)
    }
}

/// Index of the last occurrence of the two characters `a b` that ends at or before `j`.
pub open spec fn last_pair_before(s: Seq<char>, a: char, b: char, j: int) -> Option<int>
    decreases j,
{
    if j < 2 || j > s.len() {
        None
    } else if s[j - 2] == a && s[j - 1] == b {
        Some(j - 2)
    } else {
        last_pair_before(s, a, b, j - 1)
    }
}

/// First index at or after `i` that does not hold `c` (or the length).
pub open spec fn skip_char(s: Seq<char>, c: char, i: int) -> int
    decreases s.len() - i,
{
    if 0 <= i < s.len() && s[i] == c {
        skip_char(s, c, i + 1)
    } else {
        i
    }
}

pub open spec fn is_digit(c: char) -> bool {
    0x30 <= (c as u32) && (c as u32) <= 0x39
}

pub open spec fn all_digits(s: Seq<char>) -> bool {
    forall|i: int| 0 <= i < s.len() ==> is_digit(#[trigger] s[i])
}

/// The number that a string of decimal digits denotes.
pub open spec fn decimal_value(s: Seq<char>) -> nat
    decreases s.len(),
{
    if s.len() == 0 {
        0
    } else {
        decimal_value(s.drop_last()) * 10 + ((s.last() as u32) - 0x30) as nat
    }
}

/// The digits of a number, after an optional leading `+`.
pub open spec fn digits_of(s: Seq<char>) -> Seq<char> {
    if s.len() > 0 && s[0] == '+' {
        s.drop_first()
    } else {
        s
    }
}

/// What `str::parse::<usize>` gives: an optional `+`, then one or more decimal
/// digits whose value fits in `usize`.
pub open spec fn usize_of(s: Seq<char>) -> Option<usize> {
    let d = digits_of(s);
    if d.len() > 0 && all_digits(d) && decimal_value(d) <= usize::MAX {
        Some(decimal_value(d) as usize)
    } else {
        None
    }
}

proof fn lemma_value_grows(d: Seq<char>, k: int)
    requires
        all_digits(d),
        0 <= k <= d.len(),
    ensures
        decimal_value(d.take(k)) <= decimal_value(d),
    decreases d.len(),
{
    if k < d.len() {
        let e = d.drop_last();
        assert(e.take(k) =~= d.take(k));
        assert(all_digits(e)) by {
            assert forall|i: int| 0 <= i < e.len() implies is_digit(#[trigger] e[i]) by {
                assert(e[i] == d[i]);
            }
        }
        lemma_value_grows(e, k);
    } else {
        assert(d.take(k) =~= d);
    }
}

/// The characters of `s`, one by one.
pub fn char_vec(s: &str) -> (r: Vec<char>)
    ensures
        r@ == s@,
{
    let mut r: Vec<char> = Vec::new();
    for c in it: s.chars()
        invariant
            it.seq() == s@,
            r@ == it.seq().take(it.index() as int),
    {
        r.push(c);
    }
    assert(r@ =~= s@);
    r
}

/// Start and end of `s` once leading and trailing whitespace are dropped.
pub fn trim_range(s: &Vec<char>) -> (r: (usize, usize))
    ensures
        r.0 as int == trim_start(s@),
        r.1 as int == trim_end(s@),
        r.0 <= r.1 <= s@.len(),
{
    let n = s.len();
    let mut a: usize = 0;
    while a < n && is_ws_char(s[a])
        invariant
            a <= n == s@.len(),
            skip_ws(s@, 0) == skip_ws(s@, a as int),
        decreases n - a,
    {
        a = a + 1;
    }
    let mut b: usize = n;
    while b > a && is_ws_char(s[b - 1])
        invariant
            a <= b <= n == s@.len(),
            back_ws(s@, a as int, n as int) == back_ws(s@, a as int, b as int),
        decreases b,
    {
        b = b - 1;
    }
    (a, b)
}

pub fn is_ws_char(c: char) -> (r: bool)
    ensures
        r == is_ws(c),
{
    let u = c as u32;
    (0x9 <= u && u <= 0xd) || u == 0x20 || u == 0x85 || u == 0xa0 || u == 0x1680
        || (0x2000 <= u && u <= 0x200a) || u == 0x2028 || u == 0x2029 || u == 0x202f
        || u == 0x205f || u == 0x3000
}

/// What `s[lo..hi].parse::<usize>()` gives.
pub fn parse_usize(s: &Vec<char>, lo: usize, hi: usize) -> (r: Option<usize>)
    requires
        lo <= hi <= s@.len(),
    ensures
        r == usize_of(s@.subrange(lo as int, hi as int)),
{
    let ghost t = s@.subrange(lo as int, hi as int);
    let mut i = lo;
    if i < hi && s[i] == '+' {
        i = i + 1;
    }
    let ghost d = s@.subrange(i as int, hi as int);
    assert(d =~= digits_of(t));
    if i == hi {
        assert(digits_of(t).len() == 0);
        return None;
    }
    let mut v: usize = 0;
    let start = i;
    while i < hi
        invariant
            start <= i <= hi <= s@.len(),
            d == s@.subrange(start as int, hi as int),
            d == digits_of(t),
            t == s@.subrange(lo as int, hi as int),
            all_digits(d.take(i - start)),
            v as nat == decimal_value(d.take(i - start)),
        decreases hi - i,
    {
        let c = s[i];
        let u = c as u32;
        let ghost k = (i - start) as int;
        assert(d[k] == c);
        if u < 0x30 || u > 0x39 {
            assert(!is_digit(d[k]));
            assert(!all_digits(d));
            return None;
        }
        assert(d.take(k + 1).drop_last() =~= d.take(k));
        assert(d.take(k + 1).last() == c);
        let digit = (u - 0x30) as usize;
        if v > (usize::MAX - digit) / 10 {
            assert(decimal_value(d.take(k + 1)) > usize::MAX) by (nonlinear_arith)
                requires
                    decimal_value(d.take(k + 1)) == v as nat * 10 + digit as nat,
                    v > (usize::MAX - digit) / 10,
                    digit <= 9,
            ;
            proof {
                if all_digits(d) {
                    lemma_value_grows(d, k + 1);
                    assert(decimal_value(d) > usize::MAX);
                }
            }
            return None;
        }
        assert(v * 10 + digit <= usize::MAX) by (nonlinear_arith)
            requires
                v <= (usize::MAX - digit) / 10,
                digit <= 9,
        ;
        v = v * 10 + digit;
        i = i + 1;
    }
    assert(d.take(d.len() as int) =~= d);
    Some(v)
}

pub open spec fn opt_int(o: Option<usize>) -> Option<int> {
    match o {
        Some(k) => Some(k as int),
        None => None,
    }
}

/// Index of the first `c` in `s` at or after `from`.
pub fn find_first(s: &Vec<char>, c: char, from: usize) -> (r: Option<usize>)
    requires
        from <= s@.len(),
    ensures
        opt_int(r) == first_from(s@, c, from as int),
{
    let n = s.len();
    let mut i = from;
    while i < n
        invariant
            from <= i <= n == s@.len(),
            first_from(s@, c, from as int) == first_from(s@, c, i as int),
        decreases n - i,
    {
        if s[i] == c {
            return Some(i);
        }
        i = i + 1;
    }
    None
}

/// Index of the last `c` in `s`.
pub fn find_last(s: &Vec<char>, c: char) -> (r: Option<usize>)
    ensures
        opt_int(r) == last_before(s@, c, s@.len() as int),
{
    let n = s.len();
    let mut j = n;
    while j > 0
        invariant
            j <= n == s@.len(),
            last_before(s@, c, n as int) == last_before(s@, c, j as int),
        decreases j,
    {
        if s[j - 1] == c {
            return Some(j - 1);
        }
        j = j - 1;
    }
    None
}

/// Index of the last occurrence of the two characters `a b` in `s`.
pub fn find_last_pair(s: &Vec<char>, a: char, b: char) -> (r: Option<usize>)
    ensures
        opt_int(r) == last_pair_before(s@, a, b, s@.len() as int),
{
    let n = s.len();
    let mut j = n;
    while j >= 2
        invariant
            j <= n == s@.len(),
            last_pair_before(s@, a, b, n as int) == last_pair_before(s@, a, b, j as int),
        decreases j,
    {
        if s[j - 2] == a && s[j - 1] == b {
            return Some(j - 2);
        }
        j = j - 1;
    }
    None
}

/// First index at or after `from` that does not hold `c`.
pub fn skip_run(s: &Vec<char>, c: char, from: usize) -> (r: usize)
    requires
        from <= s@.len(),
    ensures
        r as int == skip_char(s@, c, from as int),
        from <= r <= s@.len(),
{
    let n = s.len();
    let mut i = from;
    while i < n && s[i] == c
        invariant
            from <= i <= n == s@.len(),
            skip_char(s@, c, from as int) == skip_char(s@, c, i as int),
        decreases n - i,
    {
        i = i + 1;
    }
    i
}

/// `s` without leading and trailing whitespace.
pub fn trim_str(s: &str) -> (r: &str)
    ensures
        r@ == trim(s@),
{
    let cs = char_vec(s);
    let (a, b) = trim_range(&cs);
    s.substring_char(a, b)
}

} // verus!
