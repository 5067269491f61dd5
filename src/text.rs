use vstd::prelude::*;
use vstd::string::StringExecFns;

verus! {

/// Relies on `str::chars`: yields the characters of the string in order.
#[verifier::external_body]
pub(crate) fn chars_of(s: &str) -> (r: Vec<char>)
    ensures
        r@ == s@,
{
    s.chars().collect()
}

/// Relies on `String::push`: appends one character.
#[verifier::external_body]
pub(crate) fn push_char(s: &mut String, c: char)
    ensures
        final(s)@ == old(s)@.push(c),
{
    s.push(c)
}

/// Unicode White_Space, as `char::is_whitespace` defines it.
pub open spec fn is_ws(c: char) -> bool {
    ('\u{9}' <= c && c <= '\u{d}') || c == ' ' || c == '\u{85}' || c == '\u{a0}' || c == '\u{1680}'
        || ('\u{2000}' <= c && c <= '\u{200a}') || c == '\u{2028}' || c == '\u{2029}' || c == '\u{202f}'
        || c == '\u{205f}' || c == '\u{3000}'
}

pub fn is_space(c: char) -> (r: bool)
    ensures
        r == is_ws(c),
{
    ('\u{9}' <= c && c <= '\u{d}') || c == ' ' || c == '\u{85}' || c == '\u{a0}' || c == '\u{1680}'
        || ('\u{2000}' <= c && c <= '\u{200a}') || c == '\u{2028}' || c == '\u{2029}' || c == '\u{202f}'
        || c == '\u{205f}' || c == '\u{3000}'
}

pub open spec fn trim_start(s: Seq<char>) -> Seq<char>
    decreases s.len(),
{
    if s.len() > 0 && is_ws(s[0]) {
        trim_start(s.drop_first())
    } else {
        s
    }
}

pub open spec fn trim_end(s: Seq<char>) -> Seq<char>
    decreases s.len(),
{
    if s.len() > 0 && is_ws(s.last()) {
        trim_end(s.drop_last())
    } else {
        s
    }
}

/// `s` without leading and trailing whitespace.
pub open spec fn trim(s: Seq<char>) -> Seq<char> {
    trim_end(trim_start(s))
}

pub open spec fn starts_with(s: Seq<char>, p: Seq<char>) -> bool {
    p.len() <= s.len() && s.subrange(0, p.len() as int) == p
}

pub open spec fn ends_with_char(s: Seq<char>, c: char) -> bool {
    s.len() > 0 && s.last() == c
}

/// `p` occurs in `s` at position `i`.
pub open spec fn occurs_at(s: Seq<char>, p: Seq<char>, i: int) -> bool {
    0 <= i && i + p.len() <= s.len() && s.subrange(i, i + p.len()) == p
}

/// The first position at or after `i` where `p` occurs in `s`.
pub open spec fn find_from(s: Seq<char>, p: Seq<char>, i: int) -> Option<int>
    decreases s.len() + 1 - i,
{
    if i < 0 || i + p.len() > s.len() {
        None
    } else if occurs_at(s, p, i) {
        Some(i)
    } else {
        find_from(s, p, i + 1)
    }
}

/// The first position where `p` occurs in `s`.
pub open spec fn find(s: Seq<char>, p: Seq<char>) -> Option<int> {
    find_from(s, p, 0)
}

/// The last position below `i` that holds `c`.
pub open spec fn rfind_below(s: Seq<char>, c: char, i: int) -> Option<int>
    decreases i,
{
    if i <= 0 {
        None
    } else if s[i - 1] == c {
        Some(i - 1)
    } else {
        rfind_below(s, c, i - 1)
    }
}

/// The last position of `c` in `s`.
pub open spec fn rfind(s: Seq<char>, c: char) -> Option<int> {
    rfind_below(s, c, s.len() as int)
}

pub open spec fn is_digit(c: char) -> bool {
    '0' <= c && c <= '9'
}

pub open spec fn all_digits(s: Seq<char>) -> bool {
    forall|i: int| 0 <= i < s.len() ==> is_digit(#[trigger] s[i])
}

/// The value of a run of decimal digits.
pub open spec fn digits_value(s: Seq<char>) -> int
    decreases s.len(),
{
    if s.len() == 0 {
        0
    } else {
        digits_value(s.drop_last()) * 10 + (s.last() as int - '0' as int)
    }
}

/// Base-10 `i32` with an optional sign, as `str::parse::<i32>` reads it.
pub open spec fn parse_int(s: Seq<char>) -> Option<i32> {
    let neg = s.len() > 0 && s[0] == '-';
    let ds = if s.len() > 0 && (s[0] == '-' || s[0] == '+') { s.drop_first() } else { s };
    signed_digits(neg, ds)
}

/// The `i32` that the digits `ds` give, negated when `neg`.
pub open spec fn signed_digits(neg: bool, ds: Seq<char>) -> Option<i32> {
    let v = if neg { -digits_value(ds) } else { digits_value(ds) };
    if ds.len() == 0 || !all_digits(ds) || v < i32::MIN || v > i32::MAX {
        None
    } else {
        Some(v as i32)
    }
}

/// The whitespace-separated words of `s[i..]`, where a word began at `start`
/// (or none did, when `start < 0`).
pub open spec fn words_from(s: Seq<char>, i: int, start: int) -> Seq<Seq<char>>
    decreases s.len() - i,
{
    if i >= s.len() {
        if 0 <= start <= s.len() {
            seq![s.subrange(start, s.len() as int)]
        } else {
            Seq::empty()
        }
    } else if i < 0 {
        Seq::empty()
    } else if is_ws(s[i]) {
        if 0 <= start <= i {
            seq![s.subrange(start, i)] + words_from(s, i + 1, -1)
        } else {
            words_from(s, i + 1, -1)
        }
    } else {
        words_from(s, i + 1, if start >= 0 { start } else { i })
    }
}

/// The whitespace-separated words of `s`, as `str::split_whitespace` gives them.
pub open spec fn words(s: Seq<char>) -> Seq<Seq<char>> {
    words_from(s, 0, -1)
}

/// The items of `parts` joined by single spaces.
pub open spec fn join_spaced(parts: Seq<Seq<char>>) -> Seq<char>
    decreases parts.len(),
{
    if parts.len() == 0 {
        Seq::empty()
    } else if parts.len() == 1 {
        parts[0]
    } else {
        join_spaced(parts.drop_last()) + seq![' '] + parts.last()
    }
}

pub open spec fn digit_char(d: nat) -> char {
    ((d % 10) + '0' as nat) as char
}

/// Decimal digits of `n`.
pub open spec fn decimal(n: nat) -> Seq<char>
    decreases n,
{
    if n < 10 {
        seq![digit_char(n)]
    } else {
        decimal(n / 10).push(digit_char(n % 10))
    }
}

/// `[lo, hi)` of `v` with the whitespace at both ends removed.
pub fn trim_range(v: &Vec<char>, lo: usize, hi: usize) -> (r: (usize, usize))
    requires
        lo <= hi <= v.len(),
    ensures
        lo <= r.0 <= r.1 <= hi,
        v@.subrange(r.0 as int, r.1 as int) == trim(v@.subrange(lo as int, hi as int)),
{
    let mut a = lo;
    while a < hi && is_space(v[a])
        invariant
            lo <= a <= hi <= v.len(),
            trim_start(v@.subrange(lo as int, hi as int)) == trim_start(v@.subrange(a as int, hi as int)),
        decreases hi - a,
    {
        assert(v@.subrange(a as int, hi as int).drop_first() =~= v@.subrange(a + 1, hi as int));
        a = a + 1;
    }
    let mut b = hi;
    while b > a && is_space(v[b - 1])
        invariant
            lo <= a <= b <= hi <= v.len(),
            trim_end(v@.subrange(a as int, hi as int)) == trim_end(v@.subrange(a as int, b as int)),
        decreases b - a,
    {
        assert(v@.subrange(a as int, b as int).drop_last() =~= v@.subrange(a as int, b - 1));
        b = b - 1;
    }
    (a, b)
}

/// Whether `v[lo..hi]` begins with `p`.
pub fn starts_with_at(v: &Vec<char>, lo: usize, hi: usize, p: &str) -> (r: bool)
    requires
        lo <= hi <= v.len(),
    ensures
        r == starts_with(v@.subrange(lo as int, hi as int), p@),
{
    let n = p.unicode_len();
    if n > hi - lo {
        return false;
    }
    let mut k: usize = 0;
    while k < n
        invariant
            n == p@.len(),
            n <= hi - lo,
            lo <= hi <= v.len(),
            k <= n,
            forall|j: int| 0 <= j < k ==> v@[lo + j] == p@[j],
        decreases n - k,
    {
        if v[lo + k] != p.get_char(k) {
            assert(v@.subrange(lo as int, hi as int).subrange(0, n as int)[k as int] != p@[k as int]);
            return false;
        }
        k = k + 1;
    }
    assert(v@.subrange(lo as int, hi as int).subrange(0, n as int) =~= p@);
    true
}

/// Whether `v[lo..hi]` is exactly `p`.
pub fn equals_at(v: &Vec<char>, lo: usize, hi: usize, p: &str) -> (r: bool)
    requires
        lo <= hi <= v.len(),
    ensures
        r == (v@.subrange(lo as int, hi as int) == p@),
{
    let n = p.unicode_len();
    if n != hi - lo {
        return false;
    }
    let r = starts_with_at(v, lo, hi, p);
    assert(v@.subrange(lo as int, hi as int).subrange(0, n as int) =~= v@.subrange(lo as int, hi as int));
    r
}

/// The first position (absolute, within `[lo, hi)`) where `p` occurs in `v[lo..hi]`.
pub fn find_at(v: &Vec<char>, lo: usize, hi: usize, p: &str) -> (r: Option<usize>)
    requires
        lo <= hi <= v.len(),
    ensures
        match r {
            Some(i) => lo <= i && find(v@.subrange(lo as int, hi as int), p@) == Some(i - lo),
            None => find(v@.subrange(lo as int, hi as int), p@) is None,
        },
{
    let ghost s = v@.subrange(lo as int, hi as int);
    let n = p.unicode_len();
    let mut i = lo;
    while i < hi && n <= hi - i
        invariant
            lo <= i <= hi <= v.len(),
            s == v@.subrange(lo as int, hi as int),
            n == p@.len(),
            find(s, p@) == find_from(s, p@, i - lo),
        decreases hi - i,
    {
        if starts_with_at(v, i, hi, p) {
            assert(s.subrange(i - lo, i - lo + n) =~= v@.subrange(i as int, hi as int).subrange(0, n as int));
            return Some(i);
        }
        assert(s.subrange(i - lo, i - lo + n) =~= v@.subrange(i as int, hi as int).subrange(0, n as int));
        i = i + 1;
    }
    if n == 0 && i == hi {
        assert(s.subrange(i - lo, i - lo) =~= p@);
        assert(occurs_at(s, p@, i - lo));
        return Some(i);
    }
    None
}

/// The last position (absolute) of `c` in `v[lo..hi]`.
pub fn rfind_at(v: &Vec<char>, lo: usize, hi: usize, c: char) -> (r: Option<usize>)
    requires
        lo <= hi <= v.len(),
    ensures
        match r {
            Some(i) => lo <= i < hi && rfind(v@.subrange(lo as int, hi as int), c) == Some(i - lo),
            None => rfind(v@.subrange(lo as int, hi as int), c) is None,
        },
{
    let ghost s = v@.subrange(lo as int, hi as int);
    let mut i = hi;
    while i > lo
        invariant
            lo <= i <= hi <= v.len(),
            s == v@.subrange(lo as int, hi as int),
            rfind(s, c) == rfind_below(s, c, i - lo),
        decreases i - lo,
    {
        if v[i - 1] == c {
            return Some(i - 1);
        }
        i = i - 1;
    }
    None
}

/// A run of decimal digits has a non-negative value.
pub proof fn lemma_digits_nonneg(s: Seq<char>)
    requires
        all_digits(s),
    ensures
        digits_value(s) >= 0,
    decreases s.len(),
{
    if s.len() > 0 {
        assert(all_digits(s.drop_last())) by {
            assert forall|i: int| 0 <= i < s.drop_last().len() implies is_digit(#[trigger] s.drop_last()[i]) by {
                assert(s.drop_last()[i] == s[i]);
            }
        }
        lemma_digits_nonneg(s.drop_last());
        assert(is_digit(s[s.len() - 1]));
    }
}

/// Reads `v[lo..hi]` as a signed base-10 `i32`.
pub fn parse_int_at(v: &Vec<char>, lo: usize, hi: usize) -> (r: Option<i32>)
    requires
        lo <= hi <= v.len(),
    ensures
        r == parse_int(v@.subrange(lo as int, hi as int)),
{
    let ghost s = v@.subrange(lo as int, hi as int);
    let neg = lo < hi && v[lo] == '-';
    let start = if lo < hi && (v[lo] == '-' || v[lo] == '+') { lo + 1 } else { lo };
    let ghost ds = v@.subrange(start as int, hi as int);
    assert(ds =~= if s.len() > 0 && (s[0] == '-' || s[0] == '+') { s.drop_first() } else { s });
    assert(parse_int(s) == signed_digits(neg, ds));
    if start == hi {
        return None;
    }
    let cap: i64 = 2147483649;
    let mut acc: i64 = 0;
    let mut k = start;
    while k < hi
        invariant
            start <= k <= hi <= v.len(),
            ds == v@.subrange(start as int, hi as int),
            s == v@.subrange(lo as int, hi as int),
            parse_int(s) == signed_digits(neg, ds),
            0 <= acc <= cap,
            cap == 2147483649,
            all_digits(v@.subrange(start as int, k as int)),
            acc == if digits_value(v@.subrange(start as int, k as int)) < cap {
                digits_value(v@.subrange(start as int, k as int))
            } else {
                cap as int
            },
        decreases hi - k,
    {
        let c = v[k];
        if !('0' <= c && c <= '9') {
            assert(ds[k - start] == c);
            assert(!is_digit(ds[k - start]));
            assert(!all_digits(ds));
            return None;
        }
        let ghost pre = v@.subrange(start as int, k as int);
        let ghost next = v@.subrange(start as int, k + 1);
        assert(next.drop_last() =~= pre);
        assert(all_digits(next)) by {
            assert forall|i: int| 0 <= i < next.len() implies is_digit(#[trigger] next[i]) by {
                if i < pre.len() {
                    assert(next[i] == pre[i]);
                }
            }
        }
        proof {
            lemma_digits_nonneg(pre);
        }
        let d = (c as u32 - '0' as u32) as i64;
        let t = acc * 10 + d;
        acc = if t < cap { t } else { cap };
        k = k + 1;
    }
    assert(v@.subrange(start as int, k as int) =~= ds);
    proof {
        lemma_digits_nonneg(ds);
    }
    if neg {
        if acc > 2147483648 {
            None
        } else {
            Some((-acc) as i32)
        }
    } else {
        if acc > 2147483647 {
            None
        } else {
            Some(acc as i32)
        }
    }
}

/// The whitespace-separated words of `v[lo..hi]`, as ranges.
pub fn words_at(v: &Vec<char>, lo: usize, hi: usize) -> (r: Vec<(usize, usize)>)
    requires
        lo <= hi <= v.len(),
    ensures
        forall|k: int| 0 <= k < r.len() ==> lo <= #[trigger] r@[k].0 <= r@[k].1 <= hi,
        r@.map_values(|w: (usize, usize)| v@.subrange(w.0 as int, w.1 as int)) == words(v@.subrange(lo as int, hi as int)),
{
    let ghost s = v@.subrange(lo as int, hi as int);
    let mut out: Vec<(usize, usize)> = Vec::new();
    let mut start: Option<usize> = None;
    let mut i = lo;
    while i < hi
        invariant
            lo <= i <= hi <= v.len(),
            s == v@.subrange(lo as int, hi as int),
            match start {
                Some(a) => lo <= a <= i,
                None => true,
            },
            forall|k: int| 0 <= k < out.len() ==> lo <= #[trigger] out@[k].0 <= out@[k].1 <= hi,
            words(s) == out@.map_values(|w: (usize, usize)| v@.subrange(w.0 as int, w.1 as int))
                + words_from(s, i - lo, match start { Some(a) => a - lo, None => -1 }),
        decreases hi - i,
    {
        let ghost before = out@;
        if is_space(v[i]) {
            assert(s[i - lo] == v@[i as int]);
            if let Some(a) = start {
                out.push((a, i));
                assert(s.subrange(a - lo, i - lo) =~= v@.subrange(a as int, i as int));
                assert(out@.map_values(|w: (usize, usize)| v@.subrange(w.0 as int, w.1 as int)) =~=
                    before.map_values(|w: (usize, usize)| v@.subrange(w.0 as int, w.1 as int)).push(v@.subrange(a as int, i as int)));
                assert(seq![s.subrange(a - lo, i - lo)] + words_from(s, i - lo + 1, -1) =~=
                    seq![s.subrange(a - lo, i - lo)].add(words_from(s, i - lo + 1, -1)));
                assert(before.map_values(|w: (usize, usize)| v@.subrange(w.0 as int, w.1 as int)) + (seq![s.subrange(a - lo, i - lo)] + words_from(s, i - lo + 1, -1))
                    =~= out@.map_values(|w: (usize, usize)| v@.subrange(w.0 as int, w.1 as int)) + words_from(s, i - lo + 1, -1));
            }
            start = None;
        } else {
            assert(s[i - lo] == v@[i as int]);
            if start.is_none() {
                start = Some(i);
            }
        }
        i = i + 1;
    }
    let ghost before = out@;
    if let Some(a) = start {
        out.push((a, hi));
        assert(s.subrange(a - lo, hi - lo) =~= v@.subrange(a as int, hi as int));
        assert(out@.map_values(|w: (usize, usize)| v@.subrange(w.0 as int, w.1 as int)) =~=
            before.map_values(|w: (usize, usize)| v@.subrange(w.0 as int, w.1 as int)).push(v@.subrange(a as int, hi as int)));
    } else {
        assert(before.map_values(|w: (usize, usize)| v@.subrange(w.0 as int, w.1 as int)) + Seq::<Seq<char>>::empty()
            =~= before.map_values(|w: (usize, usize)| v@.subrange(w.0 as int, w.1 as int)));
    }
    out
}

/// A new string holding `v[lo..hi]`.
pub fn string_at(v: &Vec<char>, lo: usize, hi: usize) -> (r: String)
    requires
        lo <= hi <= v.len(),
    ensures
        r@ == v@.subrange(lo as int, hi as int),
{
    let mut r = String::new();
    let mut k = lo;
    while k < hi
        invariant
            lo <= k <= hi <= v.len(),
            r@ == v@.subrange(lo as int, k as int),
        decreases hi - k,
    {
        push_char(&mut r, v[k]);
        assert(v@.subrange(lo as int, k + 1) =~= v@.subrange(lo as int, k as int).push(v@[k as int]));
        k = k + 1;
    }
    r
}

/// Appends the decimal digits of `n`.
pub fn push_decimal(out: &mut String, n: usize)
    ensures
        final(out)@ == old(out)@ + decimal(n as nat),
    decreases n,
{
    if n >= 10 {
        push_decimal(out, n / 10);
    }
    let d = n % 10;
    let c = if d == 0 { '0' } else if d == 1 { '1' } else if d == 2 { '2' } else if d == 3 { '3' }
        else if d == 4 { '4' } else if d == 5 { '5' } else if d == 6 { '6' } else if d == 7 { '7' }
        else if d == 8 { '8' } else { '9' };
    push_char(out, c);
    assert(c == digit_char(n as nat));
}

/// The items of `parts` joined by single spaces.
pub fn join_with_spaces(parts: &Vec<String>) -> (r: String)
    ensures
        r@ == join_spaced(parts@.map_values(|p: String| p@)),
{
    let ghost ps = parts@.map_values(|p: String| p@);
    let mut r = String::new();
    let mut k: usize = 0;
    while k < parts.len()
        invariant
            k <= parts.len(),
            ps == parts@.map_values(|p: String| p@),
            r@ == join_spaced(ps.take(k as int)),
        decreases parts.len() - k,
    {
        assert(ps.take(k + 1).drop_last() =~= ps.take(k as int));
        if k > 0 {
            r.append(" ");
        }
        r.append(parts[k].as_str());
        proof {
            reveal_strlit(" ");
            if k == 0 {
                assert(r@ =~= ps.take(1)[0]);
            } else {
                assert(r@ =~= join_spaced(ps.take(k as int)) + seq![' '] + ps.take(k + 1).last());
            }
        }
        k = k + 1;
    }
    assert(ps.take(k as int) =~= ps);
    r
}

pub proof fn lemma_find_from_some(s: Seq<char>, p: Seq<char>, j: int)
    ensures
        find_from(s, p, j) matches Some(i) ==> j <= i && occurs_at(s, p, i),
    decreases s.len() + 1 - j,
{
    if !(j < 0 || j + p.len() > s.len()) && !occurs_at(s, p, j) {
        lemma_find_from_some(s, p, j + 1);
    }
}

pub proof fn lemma_rfind_below_some(s: Seq<char>, c: char, j: int)
    requires
        j <= s.len(),
    ensures
        rfind_below(s, c, j) matches Some(i) ==> 0 <= i < j && s[i] == c,
    decreases j,
{
    if j > 0 && s[j - 1] != c {
        lemma_rfind_below_some(s, c, j - 1);
    }
}

} // verus!
