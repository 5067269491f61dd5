use vstd::prelude::*;
use vstd::string::StringExecFns;
use crate::config::GameConfig;
use crate::text::{
    chars_of, decimal, equals_at, find, find_at, push_decimal, string_at, trim, trim_range,
    words, words_at, is_digit, all_digits, digits_value, lemma_digits_nonneg,
};
use crate::world::{Action, Choice, string_seqs};

verus! {

/// What `str::to_lowercase` returns for a string.
pub uninterp spec fn lower_of(s: Seq<char>) -> Seq<char>;

/// Relies on `str::to_lowercase`: the result depends on the characters alone.
#[verifier::external_body]
fn lowercase(s: &str) -> (r: String)
    ensures
        r@ == lower_of(s@),
{
    s.to_lowercase()
}

/// The menu lines for a list of choices: `"<n>: <text>"`, numbered from 1.
pub fn display_choices(choices: &[&Choice]) -> (r: Vec<String>)
    ensures
        r.len() == choices@.len(),
        forall|i: int| 0 <= i < r.len() ==> #[trigger] r@[i]@ == decimal((i + 1) as nat) + ": "@ + choices@[i].text@,
{
    let mut r: Vec<String> = Vec::new();
    let mut i: usize = 0;
    while i < choices.len()
        invariant
            i <= choices@.len(),
            r.len() == i,
            forall|k: int| 0 <= k < i ==> #[trigger] r@[k]@ == decimal((k + 1) as nat) + ": "@ + choices@[k].text@,
        decreases choices@.len() - i,
    {
        let mut line = String::new();
        push_decimal(&mut line, i + 1);
        line.append(": ");
        line.append(choices[i].text.as_str());
        assert(line@ =~= decimal((i + 1) as nat) + ": "@ + choices@[i as int].text@);
        r.push(line);
        i = i + 1;
    }
    r
}

/// Base-10 `usize` with an optional `+`, as `str::parse::<usize>` reads it.
pub open spec fn parse_index(s: Seq<char>) -> Option<nat> {
    let ds = if s.len() > 0 && s[0] == '+' { s.drop_first() } else { s };
    if ds.len() == 0 || !all_digits(ds) || digits_value(ds) > usize::MAX {
        None
    } else {
        Some(digits_value(ds) as nat)
    }
}

fn parse_index_at(v: &Vec<char>, lo: usize, hi: usize) -> (r: Option<usize>)
    requires
        lo <= hi <= v.len(),
    ensures
        match r {
            Some(n) => parse_index(v@.subrange(lo as int, hi as int)) == Some(n as nat),
            None => parse_index(v@.subrange(lo as int, hi as int)) is None,
        },
{
    let ghost s = v@.subrange(lo as int, hi as int);
    let start = if lo < hi && v[lo] == '+' { lo + 1 } else { lo };
    let ghost ds = v@.subrange(start as int, hi as int);
    assert(ds =~= if s.len() > 0 && s[0] == '+' { s.drop_first() } else { s });
    if start == hi {
        return None;
    }
    let mut acc: usize = 0;
    let mut k = start;
    while k < hi
        invariant
            start <= k <= hi <= v.len(),
            ds == v@.subrange(start as int, hi as int),
            s == v@.subrange(lo as int, hi as int),
            ds == if s.len() > 0 && s[0] == '+' { s.drop_first() } else { s },
            all_digits(v@.subrange(start as int, k as int)),
            acc == digits_value(v@.subrange(start as int, k as int)),
        decreases hi - k,
    {
        let c = v[k];
        if !('0' <= c && c <= '9') {
            assert(ds[k - start] == c);
            assert(!is_digit(ds[k - start]));
            assert(!all_digits(ds));
            return None;
        }
        let ghost pre = v@.subrange(start as int, k as int);
        let ghost next = v@.subrange(start as int, k + 1);
        assert(next.drop_last() =~= pre);
        assert(all_digits(next)) by {
            assert forall|i: int| 0 <= i < next.len() implies is_digit(#[trigger] next[i]) by {
                if i < pre.len() {
                    assert(next[i] == pre[i]);
                }
            }
        }
        let d = (c as u32 - '0' as u32) as usize;
        if acc > (usize::MAX - d) / 10 {
            proof {
                lemma_digits_nonneg(pre);
                assert(digits_value(next) > usize::MAX) by (nonlinear_arith)
                    requires
                        digits_value(next) == acc * 10 + d,
                        acc > (usize::MAX - d) / 10,
                        0 <= d <= 9,
                ;
                assert(ds.subrange(0, (k + 1 - start) as int) =~= next);
                if all_digits(ds) {
                    lemma_digits_prefix_grows(ds, (k + 1 - start) as int);
                }
            }
            return None;
        }
        acc = acc * 10 + d;
        k = k + 1;
    }
    assert(v@.subrange(start as int, k as int) =~= ds);
    Some(acc)
}

/// A longer run of digits never has a smaller value than its prefix.
proof fn lemma_digits_prefix_grows(ds: Seq<char>, n: int)
    requires
        0 <= n <= ds.len(),
        all_digits(ds),
    ensures
        digits_value(ds) >= digits_value(ds.subrange(0, n)),
    decreases ds.len() - n,
{
    if n < ds.len() {
        lemma_digits_prefix_grows(ds, n + 1);
        let p = ds.subrange(0, n + 1);
        assert(p.drop_last() =~= ds.subrange(0, n));
        assert(all_digits(ds.subrange(0, n))) by {
            assert forall|i: int| 0 <= i < n implies is_digit(#[trigger] ds.subrange(0, n)[i]) by {
                assert(ds.subrange(0, n)[i] == ds[i]);
            }
        }
        lemma_digits_nonneg(ds.subrange(0, n));
        assert(is_digit(ds[n]));
    } else {
        assert(ds.subrange(0, n) =~= ds);
    }
}

/// `p` occurs in `s`.
pub open spec fn contains_text(s: Seq<char>, p: Seq<char>) -> bool {
    find(s, p) is Some
}

/// The number of bytes of a character in UTF-8, as `char::len_utf8` gives it.
pub open spec fn char_bytes(c: char) -> nat {
    if (c as u32) < 0x80 {
        1
    } else if (c as u32) < 0x800 {
        2
    } else if (c as u32) < 0x10000 {
        3
    } else {
        4
    }
}

/// The length of `s` in UTF-8 bytes.
pub open spec fn byte_len(s: Seq<char>) -> nat
    decreases s.len(),
{
    if s.len() == 0 {
        0
    } else {
        byte_len(s.drop_last()) + char_bytes(s.last())
    }
}

proof fn lemma_byte_len_prefix(s: Seq<char>, n: int)
    requires
        0 <= n <= s.len(),
    ensures
        byte_len(s.subrange(0, n)) <= byte_len(s),
    decreases s.len() - n,
{
    if n < s.len() {
        lemma_byte_len_prefix(s, n + 1);
        assert(s.subrange(0, n + 1).drop_last() =~= s.subrange(0, n));
    } else {
        assert(s.subrange(0, n) =~= s);
    }
}

/// Whether `v[a..b]` takes more than three bytes in UTF-8.
fn longer_than_three_bytes(v: &Vec<char>, a: usize, b: usize) -> (r: bool)
    requires
        a <= b <= v.len(),
    ensures
        r == (byte_len(v@.subrange(a as int, b as int)) > 3),
{
    let ghost w = v@.subrange(a as int, b as int);
    let mut acc: usize = 0;
    let mut k = a;
    while k < b
        invariant
            a <= k <= b <= v.len(),
            w == v@.subrange(a as int, b as int),
            acc == byte_len(v@.subrange(a as int, k as int)),
            acc <= 3,
        decreases b - k,
    {
        let c = v[k];
        let n: usize = if (c as u32) < 0x80 { 1 } else if (c as u32) < 0x800 { 2 } else if (c as u32) < 0x10000 { 3 } else { 4 };
        assert(v@.subrange(a as int, k + 1).drop_last() =~= v@.subrange(a as int, k as int));
        acc = acc + n;
        k = k + 1;
        if acc > 3 {
            proof {
                assert(w.subrange(0, k - a) =~= v@.subrange(a as int, k as int));
                lemma_byte_len_prefix(w, k - a);
            }
            return true;
        }
    }
    assert(v@.subrange(a as int, k as int) =~= w);
    false
}

/// Some word of `input` longer than three bytes is a word of `text`.
pub open spec fn shares_long_word(input: Seq<char>, text: Seq<char>) -> bool {
    exists|i: int| 0 <= i < words(input).len() && byte_len(#[trigger] words(input)[i]) > 3
        && words(text).contains(words(input)[i])
}

/// Choice text `text` answers the typed words `input` (both lower case).
pub open spec fn text_matches(input: Seq<char>, text: Seq<char>) -> bool {
    contains_text(text, input) || contains_text(input, text) || shares_long_word(input, text)
}

/// The first index below `n`, from `i` on, at which `p` holds.
pub open spec fn first_from(n: int, p: spec_fn(int) -> bool, i: int) -> Option<int>
    decreases n - i,
{
    if i >= n || i < 0 {
        None
    } else if p(i) {
        Some(i)
    } else {
        first_from(n, p, i + 1)
    }
}

pub open spec fn is_quit_word(s: Seq<char>) -> bool {
    s == "quit"@ || s == "exit"@ || s == "q"@
}

pub open spec fn is_look_word(s: Seq<char>) -> bool {
    s == "look"@ || s == "examine"@ || s == "search"@
}

pub open spec fn is_go_word(s: Seq<char>) -> bool {
    s == "go"@ || s == "move"@ || s == "walk"@
}

pub open spec fn match_pred(input: Seq<char>, texts: Seq<Seq<char>>) -> spec_fn(int) -> bool {
    |i: int| text_matches(input, texts[i])
}

pub open spec fn quit_pred(texts: Seq<Seq<char>>, quits: Seq<bool>) -> spec_fn(int) -> bool {
    |i: int| contains_text(texts[i], "quit"@) || quits[i]
}

pub open spec fn look_pred(texts: Seq<Seq<char>>) -> spec_fn(int) -> bool {
    |i: int| contains_text(texts[i], "look"@) || contains_text(texts[i], "examine"@) || contains_text(texts[i], "search"@)
}

pub open spec fn go_pred(texts: Seq<Seq<char>>) -> spec_fn(int) -> bool {
    |i: int| contains_text(texts[i], "go"@) || contains_text(texts[i], "move"@) || contains_text(texts[i], "walk"@)
}

/// The choice picked by typed text: the first choice whose lower-cased
/// text matches; failing that, for the command words `quit`/`exit`/`q`,
/// `look`/`examine`/`search` and `go`/`move`/`walk`, the first choice whose
/// text names such a command (or, for quitting, that quits).
pub open spec fn text_choice(input: Seq<char>, texts: Seq<Seq<char>>, quits: Seq<bool>) -> Option<int> {
    let n = texts.len() as int;
    match first_from(n, match_pred(input, texts), 0) {
        Some(i) => Some(i),
        None => if is_quit_word(input) {
            first_from(n, quit_pred(texts, quits), 0)
        } else if is_look_word(input) {
            first_from(n, look_pred(texts), 0)
        } else if is_go_word(input) {
            first_from(n, go_pred(texts), 0)
        } else {
            None
        },
    }
}

/// The choice picked by what the player typed: a number from 1 to the
/// number of choices picks that choice; otherwise, when text commands are
/// allowed, the lower-cased input is matched against the lower-cased texts.
pub open spec fn user_choice(
    input: Seq<char>,
    texts: Seq<Seq<char>>,
    quits: Seq<bool>,
    allow_text: bool,
) -> Option<int> {
    let t = trim(input);
    match parse_index(t) {
        Some(n) if 1 <= n <= texts.len() => Some(n - 1),
        _ => if allow_text {
            text_choice(lower_of(t), texts.map_values(|x: Seq<char>| lower_of(x)), quits)
        } else {
            None
        },
    }
}

fn contains_at(v: &Vec<char>, p: &str) -> (r: bool)
    ensures
        r == contains_text(v@, p@),
{
    let r = find_at(v, 0, v.len(), p);
    assert(v@.subrange(0, v@.len() as int) =~= v@);
    r.is_some()
}

fn contains_chars(v: &Vec<char>, p: &Vec<char>) -> (r: bool)
    ensures
        r == contains_text(v@, p@),
{
    let ghost s = v@;
    let n = p.len();
    let mut i: usize = 0;
    while i < v.len() && n <= v.len() - i
        invariant
            i <= v.len(),
            s == v@,
            n == p@.len(),
            find(s, p@) == crate::text::find_from(s, p@, i as int),
        decreases v.len() - i,
    {
        let mut k: usize = 0;
        let mut same = true;
        while k < n
            invariant
                k <= n,
                n == p@.len(),
                i + n <= v.len(),
                same == forall|j: int| 0 <= j < k ==> v@[i + j] == p@[j],
            decreases n - k,
        {
            if v[i + k] != p[k] {
                same = false;
            }
            k = k + 1;
        }
        if same {
            assert(s.subrange(i as int, i + n) =~= p@);
            return true;
        }
        assert(s.subrange(i as int, i + n)[k as int] != p@[k as int] || exists|j: int| 0 <= j < n && v@[i + j] != p@[j]);
        assert(s.subrange(i as int, i + n) != p@) by {
            let j = choose|j: int| 0 <= j < n && v@[i + j] != p@[j];
            assert(s.subrange(i as int, i + n)[j] == v@[i + j]);
        }
        i = i + 1;
    }
    if n == 0 && i == v.len() {
        assert(s.subrange(i as int, i as int) =~= p@);
        return true;
    }
    false
}

fn range_equal(v: &Vec<char>, a: usize, b: usize, u: &Vec<char>, c: usize, d: usize) -> (r: bool)
    requires
        a <= b <= v.len(),
        c <= d <= u.len(),
    ensures
        r == (v@.subrange(a as int, b as int) == u@.subrange(c as int, d as int)),
{
    if b - a != d - c {
        assert(v@.subrange(a as int, b as int).len() != u@.subrange(c as int, d as int).len());
        return false;
    }
    let ghost sv = v@.subrange(a as int, b as int);
    let ghost su = u@.subrange(c as int, d as int);
    let mut k: usize = 0;
    while k < b - a
        invariant
            a <= b <= v.len(),
            c <= d <= u.len(),
            b - a == d - c,
            k <= b - a,
            sv == v@.subrange(a as int, b as int),
            su == u@.subrange(c as int, d as int),
            forall|j: int| 0 <= j < k ==> #[trigger] sv[j] == su[j],
        decreases b - a - k,
    {
        assert(sv[k as int] == v@[a + k] && su[k as int] == u@[c + k]);
        if v[a + k] != u[c + k] {
            return false;
        }
        k = k + 1;
    }
    assert(sv =~= su);
    true
}

fn shares_long_word_exec(ic: &Vec<char>, tc: &Vec<char>) -> (r: bool)
    ensures
        r == shares_long_word(ic@, tc@),
{
    let iw = words_at(ic, 0, ic.len());
    let tw = words_at(tc, 0, tc.len());
    assert(ic@.subrange(0, ic@.len() as int) =~= ic@);
    assert(tc@.subrange(0, tc@.len() as int) =~= tc@);
    let ghost iws = words(ic@);
    let ghost tws = words(tc@);
    let mut i: usize = 0;
    while i < iw.len()
        invariant
            i <= iw.len(),
            iws == words(ic@),
            tws == words(tc@),
            iw@.map_values(|w: (usize, usize)| ic@.subrange(w.0 as int, w.1 as int)) == iws,
            tw@.map_values(|w: (usize, usize)| tc@.subrange(w.0 as int, w.1 as int)) == tws,
            forall|k: int| 0 <= k < iw.len() ==> 0 <= #[trigger] iw@[k].0 <= iw@[k].1 <= ic.len(),
            forall|k: int| 0 <= k < tw.len() ==> 0 <= #[trigger] tw@[k].0 <= tw@[k].1 <= tc.len(),
            forall|k: int| 0 <= k < i ==> !(byte_len(#[trigger] iws[k]) > 3 && tws.contains(iws[k])),
        decreases iw.len() - i,
    {
        let (a, b) = iw[i];
        assert(iws[i as int] == ic@.subrange(a as int, b as int));
        if longer_than_three_bytes(ic, a, b) {
            let mut j: usize = 0;
            while j < tw.len()
                invariant
                    j <= tw.len(),
                    i < iw.len(),
                    iws == words(ic@),
                    iw@.map_values(|w: (usize, usize)| ic@.subrange(w.0 as int, w.1 as int)) == iws,
                    iws[i as int] == ic@.subrange(a as int, b as int),
                    byte_len(iws[i as int]) > 3,
                    a <= b <= ic.len(),
                    tws == words(tc@),
                    tw@.map_values(|w: (usize, usize)| tc@.subrange(w.0 as int, w.1 as int)) == tws,
                    forall|k: int| 0 <= k < tw.len() ==> 0 <= #[trigger] tw@[k].0 <= tw@[k].1 <= tc.len(),
                    forall|k: int| 0 <= k < j ==> tws[k] != ic@.subrange(a as int, b as int),
                decreases tw.len() - j,
            {
                let (c, d) = tw[j];
                assert(tws[j as int] == tc@.subrange(c as int, d as int));
                if range_equal(ic, a, b, tc, c, d) {
                    assert(tws[j as int] == iws[i as int]);
                    assert(tws.contains(iws[i as int]));
                    return true;
                }
                j = j + 1;
            }
            assert(!tws.contains(iws[i as int]));
        }
        i = i + 1;
    }
    false
}

/// Whether choice text `tc` answers the input `ic` (both lower case).
fn text_matches_exec(ic: &Vec<char>, tc: &Vec<char>) -> (r: bool)
    ensures
        r == text_matches(ic@, tc@),
{
    contains_chars(tc, ic) || contains_chars(ic, tc) || shares_long_word_exec(ic, tc)
}

fn lowered_chars(s: &String) -> (r: Vec<char>)
    ensures
        r@ == lower_of(s@),
{
    let l = lowercase(s.as_str());
    chars_of(l.as_str())
}

/// Picks a choice from typed text, given the lower-cased input, the
/// lower-cased choice texts, and which choices quit.
pub fn choice_from_text(input: &Vec<char>, texts: &Vec<Vec<char>>, quits: &Vec<bool>) -> (r: Option<usize>)
    requires
        texts.len() == quits.len(),
    ensures
        match r {
            Some(i) => text_choice(input@, texts@.map_values(|t: Vec<char>| t@), quits@) == Some(i as int),
            None => text_choice(input@, texts@.map_values(|t: Vec<char>| t@), quits@) is None,
        },
{
    let ghost ts = texts@.map_values(|t: Vec<char>| t@);
    let ghost n = texts.len() as int;
    let mut i: usize = 0;
    while i < texts.len()
        invariant
            i <= texts.len(),
            ts == texts@.map_values(|t: Vec<char>| t@),
            n == texts.len(),
            first_from(n, match_pred(input@, ts), 0) == first_from(n, match_pred(input@, ts), i as int),
        decreases texts.len() - i,
    {
        assert(ts[i as int] == texts@[i as int]@);
        if text_matches_exec(input, &texts[i]) {
            assert(match_pred(input@, ts)(i as int));
            return Some(i);
        }
        i = i + 1;
    }
    assert(first_from(n, match_pred(input@, ts), 0) is None);
    let v = input;
    let all = v.len();
    if equals_at(v, 0, all, "quit") || equals_at(v, 0, all, "exit") || equals_at(v, 0, all, "q") {
        assert(v@.subrange(0, all as int) =~= v@);
        assert(text_choice(input@, ts, quits@) == first_from(n, quit_pred(ts, quits@), 0));
        let mut i: usize = 0;
        while i < texts.len()
            invariant
                i <= texts.len(),
                ts == texts@.map_values(|t: Vec<char>| t@),
                n == texts.len(),
                texts.len() == quits.len(),
                first_from(n, quit_pred(ts, quits@), 0) == first_from(n, quit_pred(ts, quits@), i as int),
                text_choice(input@, ts, quits@) == first_from(n, quit_pred(ts, quits@), 0),
            decreases texts.len() - i,
        {
            assert(ts[i as int] == texts@[i as int]@);
            if contains_at(&texts[i], "quit") || quits[i] {
                assert(quit_pred(ts, quits@)(i as int));
                return Some(i);
            }
            i = i + 1;
        }
        return None;
    }
    assert(v@.subrange(0, all as int) =~= v@);
    if equals_at(v, 0, all, "look") || equals_at(v, 0, all, "examine") || equals_at(v, 0, all, "search") {
        assert(text_choice(input@, ts, quits@) == first_from(n, look_pred(ts), 0));
        let mut i: usize = 0;
        while i < texts.len()
            invariant
                i <= texts.len(),
                ts == texts@.map_values(|t: Vec<char>| t@),
                n == texts.len(),
                first_from(n, look_pred(ts), 0) == first_from(n, look_pred(ts), i as int),
                text_choice(input@, ts, quits@) == first_from(n, look_pred(ts), 0),
            decreases texts.len() - i,
        {
            assert(ts[i as int] == texts@[i as int]@);
            if contains_at(&texts[i], "look") || contains_at(&texts[i], "examine") || contains_at(&texts[i], "search") {
                assert(look_pred(ts)(i as int));
                return Some(i);
            }
            i = i + 1;
        }
        return None;
    }
    if equals_at(v, 0, all, "go") || equals_at(v, 0, all, "move") || equals_at(v, 0, all, "walk") {
        assert(text_choice(input@, ts, quits@) == first_from(n, go_pred(ts), 0));
        let mut i: usize = 0;
        while i < texts.len()
            invariant
                i <= texts.len(),
                ts == texts@.map_values(|t: Vec<char>| t@),
                n == texts.len(),
                first_from(n, go_pred(ts), 0) == first_from(n, go_pred(ts), i as int),
                text_choice(input@, ts, quits@) == first_from(n, go_pred(ts), 0),
            decreases texts.len() - i,
        {
            assert(ts[i as int] == texts@[i as int]@);
            if contains_at(&texts[i], "go") || contains_at(&texts[i], "move") || contains_at(&texts[i], "walk") {
                assert(go_pred(ts)(i as int));
                return Some(i);
            }
            i = i + 1;
        }
        return None;
    }
    None
}

/// Whether any action of the choice is `Quit`.
fn choice_quits(c: &Choice) -> (r: bool)
    ensures
        r == exists|k: int| 0 <= k < c@.actions.len() && #[trigger] c@.actions[k] is Quit,
{
    let mut k: usize = 0;
    while k < c.actions.len()
        invariant
            k <= c.actions.len(),
            forall|j: int| 0 <= j < k ==> !(#[trigger] c@.actions[j] is Quit),
        decreases c.actions.len() - k,
    {
        assert(c@.actions[k as int] == c.actions@[k as int]@);
        if let Action::Quit = &c.actions[k] {
            return true;
        }
        k = k + 1;
    }
    false
}

/// Whether each choice quits.
pub open spec fn quit_flags(choices: Seq<&Choice>) -> Seq<bool> {
    Seq::new(choices.len(), |i: int| exists|k: int| 0 <= k < choices[i]@.actions.len() && #[trigger] choices[i]@.actions[k] is Quit)
}

/// The index of the choice that the player's input picks, if any.
pub fn parse_user_choice(input: &str, choices: &[&Choice], config: &GameConfig) -> (r: Option<usize>)
    ensures
        match r {
            Some(i) => user_choice(input@, choices@.map_values(|c: &Choice| c.text@), quit_flags(choices@),
                config.allow_text_commands) == Some(i as int),
            None => user_choice(input@, choices@.map_values(|c: &Choice| c.text@), quit_flags(choices@),
                config.allow_text_commands) is None,
        },
{
    let v = chars_of(input);
    let (a, b) = trim_range(&v, 0, v.len());
    assert(v@.subrange(0, v@.len() as int) =~= input@);
    if let Some(n) = parse_index_at(&v, a, b) {
        if n > 0 && n <= choices.len() {
            return Some(n - 1);
        }
    }
    if !config.allow_text_commands {
        return None;
    }
    let trimmed = string_at(&v, a, b);
    let il = lowered_chars(&trimmed);
    let ghost texts = choices@.map_values(|c: &Choice| c.text@);
    let mut lts: Vec<Vec<char>> = Vec::new();
    let mut quits: Vec<bool> = Vec::new();
    let mut i: usize = 0;
    while i < choices.len()
        invariant
            i <= choices@.len(),
            lts.len() == i,
            quits.len() == i,
            texts == choices@.map_values(|c: &Choice| c.text@),
            forall|k: int| 0 <= k < i ==> #[trigger] lts@[k]@ == lower_of(texts[k]),
            forall|k: int| 0 <= k < i ==> #[trigger] quits@[k] == quit_flags(choices@)[k],
        decreases choices@.len() - i,
    {
        lts.push(lowered_chars(&choices[i].text));
        quits.push(choice_quits(choices[i]));
        i = i + 1;
    }
    assert(lts@.map_values(|t: Vec<char>| t@) =~= texts.map_values(|x: Seq<char>| lower_of(x)));
    assert(quits@ =~= quit_flags(choices@));
    choice_from_text(&il, &lts, &quits)
}

proof fn lemma_byte_len_concat(a: Seq<char>, b: Seq<char>)
    ensures
        byte_len(a + b) == byte_len(a) + byte_len(b),
    decreases b.len(),
{
    if b.len() == 0 {
        assert(a + b =~= a);
    } else {
        assert((a + b).drop_last() =~= a + b.drop_last());
        lemma_byte_len_concat(a, b.drop_last());
    }
}

/// `byte_len(v[a..b])`, or `cap + 1` when that is larger.
fn bytes_upto(v: &Vec<char>, a: usize, b: usize, cap: u128) -> (r: u128)
    requires
        a <= b <= v.len(),
        cap < u128::MAX,
    ensures
        r == if byte_len(v@.subrange(a as int, b as int)) > cap { cap + 1 } else { byte_len(v@.subrange(a as int, b as int)) as int },
{
    let ghost w = v@.subrange(a as int, b as int);
    let mut acc: u128 = 0;
    let mut k = a;
    while k < b
        invariant
            a <= k <= b <= v.len(),
            cap < u128::MAX,
            w == v@.subrange(a as int, b as int),
            acc == byte_len(v@.subrange(a as int, k as int)),
            acc <= cap,
        decreases b - k,
    {
        let c = v[k];
        let n: u128 = if (c as u32) < 0x80 { 1 } else if (c as u32) < 0x800 { 2 } else if (c as u32) < 0x10000 { 3 } else { 4 };
        assert(v@.subrange(a as int, k + 1).drop_last() =~= v@.subrange(a as int, k as int));
        if n > cap - acc {
            proof {
                assert(w.subrange(0, k + 1 - a) =~= v@.subrange(a as int, k + 1));
                lemma_byte_len_prefix(w, k + 1 - a);
            }
            return cap + 1;
        }
        acc = acc + n;
        k = k + 1;
    }
    assert(v@.subrange(a as int, k as int) =~= w);
    acc
}

/// One greedy step: `w` joins the current line when the line stays within
/// `width` bytes, and starts a new line otherwise.
pub open spec fn wrap_step(acc: (Seq<Seq<char>>, Seq<char>), w: Seq<char>, width: nat) -> (Seq<Seq<char>>, Seq<char>) {
    if acc.1.len() == 0 {
        (acc.0, w)
    } else if byte_len(acc.1) + 1 + byte_len(w) <= width {
        (acc.0, acc.1 + seq![' '] + w)
    } else {
        (acc.0.push(acc.1), w)
    }
}

pub open spec fn wrap_words(ws: Seq<Seq<char>>, width: nat) -> (Seq<Seq<char>>, Seq<char>)
    decreases ws.len(),
{
    if ws.len() == 0 {
        (Seq::empty(), Seq::empty())
    } else {
        wrap_step(wrap_words(ws.drop_last(), width), ws.last(), width)
    }
}

/// The words of `text` filled greedily into lines of at most `width` bytes
/// (a longer word stands on a line of its own); never empty.
pub open spec fn wrap_lines(text: Seq<char>, width: nat) -> Seq<Seq<char>> {
    let r = wrap_words(words(text), width);
    let ls = if r.1.len() > 0 { r.0.push(r.1) } else { r.0 };
    if ls.len() == 0 { seq![Seq::empty()] } else { ls }
}

/// Fills the words of `text` into lines of at most `width` bytes.
pub fn wrap_text(text: &str, width: usize) -> (r: Vec<String>)
    ensures
        string_seqs(r@) == wrap_lines(text@, width as nat),
{
    let v = chars_of(text);
    let ws = words_at(&v, 0, v.len());
    assert(v@.subrange(0, v@.len() as int) =~= v@);
    let ghost wm = ws@.map_values(|w: (usize, usize)| v@.subrange(w.0 as int, w.1 as int));
    let cap = width as u128;
    let mut lines: Vec<String> = Vec::new();
    let mut cur = String::new();
    let mut cur_b: u128 = 0;
    let mut i: usize = 0;
    assert(wm.take(0) =~= Seq::<Seq<char>>::empty());
    while i < ws.len()
        invariant
            i <= ws.len(),
            cap == width,
            cap < u128::MAX,
            wm == ws@.map_values(|w: (usize, usize)| v@.subrange(w.0 as int, w.1 as int)),
            wm == words(v@),
            forall|k: int| 0 <= k < ws.len() ==> 0 <= #[trigger] ws@[k].0 <= ws@[k].1 <= v.len(),
            (string_seqs(lines@), cur@) == wrap_words(wm.take(i as int), width as nat),
            cur_b == if byte_len(cur@) > cap { cap + 1 } else { byte_len(cur@) as int },
        decreases ws.len() - i,
    {
        let (a, b) = ws[i];
        assert(wm[i as int] == v@.subrange(a as int, b as int));
        assert(wm.take(i + 1).drop_last() =~= wm.take(i as int));
        let w_b = bytes_upto(&v, a, b, cap);
        let ghost old_lines = string_seqs(lines@);
        let ghost old_cur = cur@;
        if cur.as_str().is_empty() {
            cur = string_at(&v, a, b);
            cur_b = w_b;
        } else if cur_b < cap && w_b <= cap - 1 - cur_b {
            proof {
                lemma_byte_len_concat(old_cur, seq![' ']);
                lemma_byte_len_concat(old_cur + seq![' '], wm[i as int]);
                assert(byte_len(seq![' ']) == 1) by {
                    assert(seq![' '].drop_last() =~= Seq::<char>::empty());
                    assert(seq![' '].last() == ' ');
                    assert(byte_len(Seq::<char>::empty()) == 0);
                    assert((' ' as u32) < 0x80);
                    assert(char_bytes(' ') == 1);
                }
            }
            cur.append(" ");
            let word = string_at(&v, a, b);
            cur.append(word.as_str());
            proof {
                reveal_strlit(" ");
            }
            assert(cur@ =~= old_cur + seq![' '] + wm[i as int]);
            cur_b = cur_b + 1 + w_b;
        } else {
            let done = cur;
            lines.push(done);
            assert(string_seqs(lines@) =~= old_lines.push(old_cur));
            cur = string_at(&v, a, b);
            cur_b = w_b;
        }
        i = i + 1;
    }
    assert(wm.take(i as int) =~= wm);
    if !cur.as_str().is_empty() {
        let ghost old_lines = string_seqs(lines@);
        let ghost old_cur = cur@;
        lines.push(cur);
        assert(string_seqs(lines@) =~= old_lines.push(old_cur));
    }
    if lines.len() == 0 {
        lines.push(String::new());
        assert(string_seqs(lines@) =~= seq![Seq::<char>::empty()]);
    }
    lines
}

/// A command of the play loop that is not a story choice.
#[derive(Debug, Clone, Copy, PartialEq, Eq)]
pub enum LoopCommand {
    Save,
    Load,
    Quit,
}

/// The loop command that the trimmed, lower-cased input names, if any.
pub open spec fn loop_command_of(l: Seq<char>) -> Option<LoopCommand> {
    if l == "save"@ {
        Some(LoopCommand::Save)
    } else if l == "load"@ {
        Some(LoopCommand::Load)
    } else if l == "quit"@ || l == "exit"@ {
        Some(LoopCommand::Quit)
    } else {
        None
    }
}

/// Recognises `save`, `load`, `quit` and `exit`, in any letter case.
pub fn special_command(input: &str) -> (r: Option<LoopCommand>)
    ensures
        r == loop_command_of(lower_of(trim(input@))),
{
    let v = chars_of(input);
    let (a, b) = trim_range(&v, 0, v.len());
    assert(v@.subrange(0, v@.len() as int) =~= input@);
    let t = string_at(&v, a, b);
    let l = lowered_chars(&t);
    loop_command(&l)
}

/// The loop command named by already lower-cased, trimmed input.
pub fn loop_command(l: &Vec<char>) -> (r: Option<LoopCommand>)
    ensures
        r == loop_command_of(l@),
{
    let n = l.len();
    assert(l@.subrange(0, n as int) =~= l@);
    if equals_at(l, 0, n, "save") {
        Some(LoopCommand::Save)
    } else if equals_at(l, 0, n, "load") {
        Some(LoopCommand::Load)
    } else if equals_at(l, 0, n, "quit") || equals_at(l, 0, n, "exit") {
        Some(LoopCommand::Quit)
    } else {
        None
    }
}

/// The widest text column, in characters.
pub const IDEAL_LINE_LENGTH: usize = 80;

/// The smallest margin on each side of the text column.
pub const MIN_MARGIN: usize = 4;

/// Width of the text column and of the left margin that centres it in a
/// terminal `terminal_width` columns wide.
pub fn content_layout(terminal_width: usize) -> (r: (usize, usize))
    ensures
        r.0 == if terminal_width >= 2 * MIN_MARGIN + IDEAL_LINE_LENGTH { IDEAL_LINE_LENGTH as int }
            else if terminal_width >= 2 * MIN_MARGIN { terminal_width - 2 * MIN_MARGIN } else { 0 },
        r.1 == (terminal_width - r.0) / 2,
{
    let room = if terminal_width >= 2 * MIN_MARGIN { terminal_width - 2 * MIN_MARGIN } else { 0 };
    let content = if room < IDEAL_LINE_LENGTH { room } else { IDEAL_LINE_LENGTH };
    (content, (terminal_width - content) / 2)
}

} // verus!
