//! Character-level helpers over a text held as a sequence of `char`s:
//! whitespace trimming, separator search and unsigned decimal numbers.
use vstd::prelude::*;
use vstd::string::{StrSliceExecFns, StringExecFns};

verus! {

/// Unicode `White_Space`, the set that `char::is_whitespace` and `str::trim` use.
pub open spec fn is_space(c: char) -> bool {
    c == ' ' || ('\t' <= c && c <= '\r') || c == '\u{85}' || c == '\u{a0}' || c == '\u{1680}'
        || ('\u{2000}' <= c && c <= '\u{200a}') || c == '\u{2028}' || c == '\u{2029}'
        || c == '\u{202f}' || c == '\u{205f}' || c == '\u{3000}'
}

pub fn is_space_char(c: char) -> (r: bool)
    ensures
        r == is_space(c),
{
    c == ' ' || ('\t' <= c && c <= '\r') || c == '\u{85}' || c == '\u{a0}' || c == '\u{1680}'
        || ('\u{2000}' <= c && c <= '\u{200a}') || c == '\u{2028}' || c == '\u{2029}'
        || c == '\u{202f}' || c == '\u{205f}' || c == '\u{3000}'
}

/// First index at or after `i` that holds no whitespace (or the length).
pub open spec fn lead(s: Seq<char>, i: int) -> int
    decreases s.len() - i,
{
    if 0 <= i < s.len() && is_space(s[i]) {
        lead(s, i + 1)
    } else {
        i
    }
}

/// End of `s.take(j)` once trailing whitespace is dropped.
pub open spec fn trail(s: Seq<char>, j: int) -> int
    decreases j,
{
    if 0 < j <= s.len() && is_space(s[j - 1]) {
        trail(s, j - 1)
    } else {
        j
    }
}

pub proof fn lemma_trail_le(s: Seq<char>, j: int)
    ensures
        trail(s, j) <= j,
    decreases j,
{
    if 0 < j <= s.len() && is_space(s[j - 1]) {
        lemma_trail_le(s, j - 1);
    }
}

/// `s` without leading and trailing whitespace.
pub open spec fn trim(s: Seq<char>) -> Seq<char> {
    let a = lead(s, 0);
    let b = trail(s, s.len() as int);
    if a < b {
        s.subrange(a, b)
    } else {
        Seq::empty()
    }
}

/// Index of the first `sep` in `t`, or the length of `t` when there is none.
pub open spec fn find(t: Seq<char>, sep: char) -> nat
    decreases t.len(),
{
    if t.len() == 0 {
        0
    } else if t[0] == sep {
        0
    } else {
        1 + find(t.drop_first(), sep)
    }
}

/// The pieces of `t` between occurrences of `sep` (always at least one piece).
pub open spec fn split(t: Seq<char>, sep: char) -> Seq<Seq<char>>
    decreases t.len(),
{
    let k = find(t, sep);
    if k < t.len() {
        seq![t.take(k as int)] + split(t.skip((k + 1) as int), sep)
    } else {
        seq![t]
    }
}

pub proof fn lemma_find(t: Seq<char>, sep: char)
    ensures
        find(t, sep) <= t.len(),
        forall|j: int| 0 <= j < find(t, sep) ==> t[j] != sep,
        find(t, sep) < t.len() ==> t[find(t, sep) as int] == sep,
    decreases t.len(),
{
    if t.len() > 0 && t[0] != sep {
        lemma_find(t.drop_first(), sep);
        assert forall|j: int| 0 <= j < find(t, sep) implies t[j] != sep by {
            if j > 0 {
                assert(t[j] == t.drop_first()[j - 1]);
            }
        }
    }
}

/// The one index that has no `sep` before it and `sep` (or the end) at it.
pub proof fn lemma_find_at(t: Seq<char>, sep: char, k: int)
    requires
        0 <= k <= t.len(),
        forall|j: int| 0 <= j < k ==> t[j] != sep,
        k < t.len() ==> t[k] == sep,
    ensures
        find(t, sep) == k,
{
    lemma_find(t, sep);
}

/// One step of `split` over `t[pos..to]`, where `k` is the first separator (or `to`).
pub proof fn lemma_split_step(t: Seq<char>, pos: int, to: int, k: int, sep: char)
    requires
        0 <= pos <= k <= to <= t.len(),
        k - pos == find(t.subrange(pos, to), sep),
    ensures
        k < to ==> split(t.subrange(pos, to), sep) == seq![t.subrange(pos, k)] + split(
            t.subrange(k + 1, to),
            sep,
        ),
        k == to ==> split(t.subrange(pos, to), sep) == seq![t.subrange(pos, to)],
{
    let s = t.subrange(pos, to);
    assert(s.take(k - pos) =~= t.subrange(pos, k));
    if k < to {
        assert(s.skip(k - pos + 1) =~= t.subrange(k + 1, to));
    }
}

pub open spec fn is_digit(c: char) -> bool {
    '0' <= c && c <= '9'
}

pub open spec fn digit_value(c: char) -> nat {
    (c as int - '0' as int) as nat
}

pub open spec fn all_digits(s: Seq<char>) -> bool {
    forall|i: int| 0 <= i < s.len() ==> is_digit(#[trigger] s[i])
}

/// The number that a string of decimal digits writes.
pub open spec fn digits_value(s: Seq<char>) -> nat
    decreases s.len(),
{
    if s.len() == 0 {
        0
    } else {
        digits_value(s.drop_last()) * 10 + digit_value(s.last())
    }
}

/// An unsigned 32-bit decimal: an optional `+`, then one or more ASCII digits,
/// with a value that fits in `u32`.
pub open spec fn parse_u32(s: Seq<char>) -> Option<u32> {
    let d = if s.len() > 0 && s[0] == '+' {
        s.drop_first()
    } else {
        s
    };
    if d.len() > 0 && all_digits(d) && digits_value(d) <= u32::MAX {
        Some(digits_value(d) as u32)
    } else {
        None
    }
}

pub proof fn lemma_digits_value_prefix(s: Seq<char>, k: int)
    requires
        0 <= k <= s.len(),
        all_digits(s),
    ensures
        digits_value(s.take(k)) <= digits_value(s),
    decreases s.len(),
{
    if k < s.len() {
        let p = s.drop_last();
        assert(all_digits(p)) by {
            assert forall|i: int| 0 <= i < p.len() implies is_digit(#[trigger] p[i]) by {
                assert(p[i] == s[i]);
            }
        }
        lemma_digits_value_prefix(p, k);
        assert(p.take(k) =~= s.take(k));
    } else {
        assert(s.take(k) =~= s);
    }
}

/// The range of `t[from..to]` that remains once surrounding whitespace is dropped.
pub fn trim_range(t: &Vec<char>, from: usize, to: usize) -> (r: (usize, usize))
    requires
        from <= to <= t.len(),
    ensures
        from <= r.0 <= r.1 <= to,
        t@.subrange(r.0 as int, r.1 as int) == trim(t@.subrange(from as int, to as int)),
{
    let ghost s = t@.subrange(from as int, to as int);
    let mut i: usize = from;
    while i < to && is_space_char(t[i])
        invariant
            from <= i <= to <= t.len(),
            s == t@.subrange(from as int, to as int),
            lead(s, 0) == lead(s, i - from),
        decreases to - i,
    {
        assert(s[i - from] == t@[i as int]);
        i = i + 1;
    }
    assert(lead(s, i - from) == i - from) by {
        if i < to {
            assert(s[i - from] == t@[i as int]);
        }
    }
    let mut j: usize = to;
    while j > i && is_space_char(t[j - 1])
        invariant
            from <= i <= j <= to <= t.len(),
            s == t@.subrange(from as int, to as int),
            trail(s, s.len() as int) == trail(s, j - from),
            i < to ==> !is_space(t@[i as int]),
            i < to ==> j > i,
            lead(s, 0) == i - from,
        decreases j,
    {
        assert(s[j - 1 - from] == t@[j - 1]);
        j = j - 1;
    }
    if i < to {
        assert(j > i);
        assert(s[j - 1 - from] == t@[j - 1]);
        assert(trail(s, j - from) == j - from);
        assert(t@.subrange(i as int, j as int) =~= s.subrange(i - from, j - from));
        (i, j)
    } else {
        proof {
            lemma_trail_le(s, s.len() as int);
        }
        assert(t@.subrange(i as int, i as int) =~= Seq::<char>::empty());
        (i, i)
    }
}

/// The position of the first `sep` in `t[from..to]`, or `to`.
pub fn find_range(t: &Vec<char>, from: usize, to: usize, sep: char) -> (r: usize)
    requires
        from <= to <= t.len(),
    ensures
        from <= r <= to,
        r - from == find(t@.subrange(from as int, to as int), sep),
        forall|j: int| from <= j < r ==> t@[j] != sep,
        r < to ==> t@[r as int] == sep,
{
    let mut i: usize = from;
    while i < to && t[i] != sep
        invariant
            from <= i <= to <= t.len(),
            forall|j: int| from <= j < i ==> t@[j] != sep,
        decreases to - i,
    {
        i = i + 1;
    }
    let ghost s = t@.subrange(from as int, to as int);
    proof {
        assert forall|j: int| 0 <= j < i - from implies s[j] != sep by {
            assert(s[j] == t@[j + from]);
        }
        if i < to {
            assert(s[i - from] == t@[i as int]);
        }
        lemma_find_at(s, sep, i - from);
    }
    i
}

/// Reads `t[from..to]` as an unsigned 32-bit decimal.
pub fn parse_u32_range(t: &Vec<char>, from: usize, to: usize) -> (r: Option<u32>)
    requires
        from <= to <= t.len(),
    ensures
        r == parse_u32(t@.subrange(from as int, to as int)),
{
    let ghost s = t@.subrange(from as int, to as int);
    let start: usize = if from < to && t[from] == '+' {
        from + 1
    } else {
        from
    };
    let ghost d = t@.subrange(start as int, to as int);
    assert(d =~= (if s.len() > 0 && s[0] == '+' {
        s.drop_first()
    } else {
        s
    }));
    assert(parse_u32(s) == (if d.len() > 0 && all_digits(d) && digits_value(d) <= u32::MAX {
        Some(digits_value(d) as u32)
    } else {
        None
    }));
    if start == to {
        return None;
    }
    let mut acc: u64 = 0;
    let mut i: usize = start;
    while i < to
        invariant
            start <= i <= to <= t.len(),
            d == t@.subrange(start as int, to as int),
            parse_u32(t@.subrange(from as int, to as int)) == (if d.len() > 0 && all_digits(d)
                && digits_value(d) <= u32::MAX {
                Some(digits_value(d) as u32)
            } else {
                None
            }),
            d.len() > 0,
            all_digits(t@.subrange(start as int, i as int)),
            acc == digits_value(t@.subrange(start as int, i as int)),
            acc <= u32::MAX,
        decreases to - i,
    {
        let c = t[i];
        if !('0' <= c && c <= '9') {
            assert(d[i - start] == c);
            assert(!is_digit(d[i - start]));
            return None;
        }
        let ghost p = t@.subrange(start as int, i + 1);
        assert(p.drop_last() =~= t@.subrange(start as int, i as int));
        assert(all_digits(p)) by {
            assert forall|k: int| 0 <= k < p.len() implies is_digit(#[trigger] p[k]) by {
                if k < p.len() - 1 {
                    assert(p[k] == t@.subrange(start as int, i as int)[k]);
                }
            }
        }
        let next: u64 = acc * 10 + (c as u64 - '0' as u64);
        assert(next == digits_value(p));
        if next > u32::MAX as u64 {
            proof {
                if all_digits(d) {
                    lemma_digits_value_prefix(d, i + 1 - start);
                    assert(d.take(i + 1 - start) =~= p);
                }
            }
            return None;
        }
        acc = next;
        i = i + 1;
    }
    assert(t@.subrange(start as int, i as int) =~= d);
    Some(acc as u32)
}

/// Whether `t[from..to]` holds exactly the characters of `lit`.
pub fn range_is(t: &Vec<char>, from: usize, to: usize, lit: &str) -> (r: bool)
    requires
        from <= to <= t.len(),
    ensures
        r == (t@.subrange(from as int, to as int) == lit@),
{
    let n = lit.unicode_len();
    if to - from != n {
        return false;
    }
    let mut i: usize = 0;
    while i < n
        invariant
            to - from == n == lit@.len(),
            from <= to <= t.len(),
            forall|k: int| 0 <= k < i ==> t@[from + k] == lit@[k],
        decreases n - i,
    {
        if t[from + i] != lit.get_char(i) {
            assert(t@.subrange(from as int, to as int)[i as int] != lit@[i as int]);
            return false;
        }
        i = i + 1;
    }
    assert(t@.subrange(from as int, to as int) =~= lit@);
    true
}

/// `s` without leading and trailing whitespace, as a new string.
pub fn trimmed(s: &str) -> (r: String)
    ensures
        r@ == trim(s@),
{
    let t = chars_of(s);
    let (a, b) = trim_range(&t, 0, t.len());
    assert(t@.subrange(0, t@.len() as int) =~= t@);
    s.substring_char(a, b).to_owned()
}

/// The character of a decimal digit.
pub open spec fn digit_char(d: nat) -> char {
    if d == 0 {
        '0'
    } else if d == 1 {
        '1'
    } else if d == 2 {
        '2'
    } else if d == 3 {
        '3'
    } else if d == 4 {
        '4'
    } else if d == 5 {
        '5'
    } else if d == 6 {
        '6'
    } else if d == 7 {
        '7'
    } else if d == 8 {
        '8'
    } else {
        '9'
    }
}

/// `n` written in decimal, without leading zeros.
pub open spec fn decimal(n: nat) -> Seq<char>
    decreases n,
{
    if n < 10 {
        seq![digit_char(n)]
    } else {
        decimal(n / 10).push(digit_char(n % 10))
    }
}

fn digit_str(d: u32) -> (r: &'static str)
    requires
        d < 10,
    ensures
        r@ == seq![digit_char(d as nat)],
{
    proof {
        reveal_strlit("0");
        reveal_strlit("1");
        reveal_strlit("2");
        reveal_strlit("3");
        reveal_strlit("4");
        reveal_strlit("5");
        reveal_strlit("6");
        reveal_strlit("7");
        reveal_strlit("8");
        reveal_strlit("9");
    }
    let r = if d == 0 {
        "0"
    } else if d == 1 {
        "1"
    } else if d == 2 {
        "2"
    } else if d == 3 {
        "3"
    } else if d == 4 {
        "4"
    } else if d == 5 {
        "5"
    } else if d == 6 {
        "6"
    } else if d == 7 {
        "7"
    } else if d == 8 {
        "8"
    } else {
        "9"
    };
    assert(r@ =~= seq![digit_char(d as nat)]);
    r
}

/// Appends `n` in decimal to `s`.
pub fn push_decimal(s: &mut String, n: u32)
    ensures
        final(s)@ == old(s)@ + decimal(n as nat),
    decreases n,
{
    if n >= 10 {
        push_decimal(s, n / 10);
    }
    s.append(digit_str(n % 10));
    assert(s@ =~= old(s)@ + decimal(n as nat));
}

/// The characters of `s`, one by one.
pub fn chars_of(s: &str) -> (r: Vec<char>)
    ensures
        r@ == s@,
{
    let n = s.unicode_len();
    let mut v: Vec<char> = Vec::new();
    let mut i: usize = 0;
    while i < n
        invariant
            n == s@.len(),
            i <= n,
            v@ == s@.take(i as int),
        decreases n - i,
    {
        v.push(s.get_char(i));
        assert(v@ =~= s@.take(i + 1));
        i = i + 1;
    }
    assert(v@ =~= s@);
    v
}

} // verus!
