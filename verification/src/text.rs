//! Character-level helpers shared by the Markdown and storage logic.

use vstd::prelude::*;

verus! {

/// Number of `'\n'` characters among the first `n` characters of `s`.
pub open spec fn count_newlines(s: Seq<char>, n: int) -> nat
    decreases n,
{
    if n <= 0 || s.len() == 0 {
        0
    } else if n > s.len() {
        count_newlines(s, s.len() as int)
    } else {
        count_newlines(s, n - 1) + if s[n - 1] == '\n' { 1nat } else { 0nat }
    }
}

/// Collects the characters of a string slice into a vector.
pub fn chars_of(s: &str) -> (v: Vec<char>)
    ensures
        v@ == s@,
{
    let mut v: Vec<char> = Vec::new();
    for c in it: s.chars()
        invariant
            v@ == it.seq().take(it.index() as int),
    {
        v.push(c);
    }
    v
}

/// The Unicode `White_Space` property, which `char::is_whitespace` tests.
pub open spec fn is_white_space(c: char) -> bool {
    ||| ('\u{9}' <= c && c <= '\u{d}')
    ||| c == ' '
    ||| c == '\u{85}'
    ||| c == '\u{a0}'
    ||| c == '\u{1680}'
    ||| ('\u{2000}' <= c && c <= '\u{200a}')
    ||| c == '\u{2028}'
    ||| c == '\u{2029}'
    ||| c == '\u{202f}'
    ||| c == '\u{205f}'
    ||| c == '\u{3000}'
}

/// The Unicode general category `Cc`, which `char::is_control` tests.
pub open spec fn is_control(c: char) -> bool {
    c <= '\u{1f}' || ('\u{7f}' <= c && c <= '\u{9f}')
}

pub fn white_space(c: char) -> (r: bool)
    ensures
        r == is_white_space(c),
{
    ('\u{9}' <= c && c <= '\u{d}') || c == ' ' || c == '\u{85}' || c == '\u{a0}' || c
        == '\u{1680}' || ('\u{2000}' <= c && c <= '\u{200a}') || c == '\u{2028}' || c
        == '\u{2029}' || c == '\u{202f}' || c == '\u{205f}' || c == '\u{3000}'
}

pub fn control(c: char) -> (r: bool)
    ensures
        r == is_control(c),
{
    c <= '\u{1f}' || ('\u{7f}' <= c && c <= '\u{9f}')
}

/// Index of the first character at or after `from` (and before `to`) that is
/// not white space; `to` when there is none.
pub open spec fn skip_white_space(s: Seq<char>, from: int, to: int) -> int
    decreases to - from,
{
    if from >= to {
        to
    } else if is_white_space(s[from]) {
        skip_white_space(s, from + 1, to)
    } else {
        from
    }
}

pub proof fn lemma_skip_white_space(s: Seq<char>, from: int, to: int)
    requires
        from <= to,
    ensures
        from <= skip_white_space(s, from, to) <= to,
        forall|i: int| from <= i < skip_white_space(s, from, to) ==> is_white_space(s[i]),
        skip_white_space(s, from, to) < to ==> !is_white_space(s[skip_white_space(s, from, to)]),
    decreases to - from,
{
    if from < to && is_white_space(s[from]) {
        lemma_skip_white_space(s, from + 1, to);
    }
}

/// Exec counterpart of [`skip_white_space`].
pub fn skip_white_space_in(s: &Vec<char>, from: usize, to: usize) -> (r: usize)
    requires
        from <= to <= s.len(),
    ensures
        r == skip_white_space(s@, from as int, to as int),
        from <= r <= to,
{
    proof {
        lemma_skip_white_space(s@, from as int, to as int);
    }
    let mut i: usize = from;
    while i < to && white_space(s[i])
        invariant
            from <= i <= to <= s.len(),
            skip_white_space(s@, i as int, to as int) == skip_white_space(s@, from as int, to as int),
        decreases to - i,
    {
        i = i + 1;
    }
    i
}

/// `pat` occurs in `s` at position `i`.
pub open spec fn occurs_at(s: Seq<char>, i: int, pat: Seq<char>) -> bool {
    0 <= i && i + pat.len() <= s.len() && s.subrange(i, i + pat.len()) == pat
}

/// Exec counterpart of [`occurs_at`], restricted to the window `[.., to)`.
pub fn occurs_at_in(s: &Vec<char>, i: usize, to: usize, pat: &[char]) -> (r: bool)
    requires
        to <= s.len(),
    ensures
        r == (i + pat@.len() <= to && occurs_at(s@, i as int, pat@)),
{
    if pat.len() > to || i > to - pat.len() {
        return false;
    }
    let mut k: usize = 0;
    while k < pat.len()
        invariant
            i + pat@.len() <= to <= s.len(),
            0 <= k <= pat.len(),
            forall|j: int| 0 <= j < k ==> s@[i + j] == pat@[j],
        decreases pat.len() - k,
    {
        if s[i + k] != pat[k] {
            assert(s@.subrange(i as int, i + pat@.len())[k as int] != pat@[k as int]);
            return false;
        }
        k = k + 1;
    }
    assert(s@.subrange(i as int, i + pat@.len()) =~= pat@);
    true
}

/// First position `p` with `from <= p` and `p + pat.len() <= to` where `pat`
/// occurs in `s`.
pub open spec fn find_in(s: Seq<char>, from: int, to: int, pat: Seq<char>) -> Option<int>
    decreases to + 1 - from,
{
    if from + pat.len() > to {
        None
    } else if occurs_at(s, from, pat) {
        Some(from)
    } else {
        find_in(s, from + 1, to, pat)
    }
}

pub proof fn lemma_find_in(s: Seq<char>, from: int, to: int, pat: Seq<char>)
    requires
        0 <= from,
        to <= s.len(),
    ensures
        find_in(s, from, to, pat) matches Some(p) ==> {
            &&& from <= p
            &&& p + pat.len() <= to
            &&& occurs_at(s, p, pat)
            &&& forall|q: int| from <= q < p ==> !occurs_at(s, q, pat)
        },
        find_in(s, from, to, pat) is None ==> forall|q: int|
            from <= q && q + pat.len() <= to ==> !occurs_at(s, q, pat),
    decreases to + 1 - from,
{
    if from + pat.len() <= to && !occurs_at(s, from, pat) {
        lemma_find_in(s, from + 1, to, pat);
    }
}

/// `find_in` reports the first occurrence in its window.
pub proof fn lemma_find_in_first(s: Seq<char>, from: int, to: int, pat: Seq<char>, p: int)
    requires
        from <= p,
        p + pat.len() <= to,
        occurs_at(s, p, pat),
        forall|q: int| from <= q < p ==> !occurs_at(s, q, pat),
    ensures
        find_in(s, from, to, pat) == Some(p),
    decreases p - from,
{
    if from < p {
        lemma_find_in_first(s, from + 1, to, pat, p);
    }
}

/// Exec counterpart of [`find_in`].
pub fn find_pattern(s: &Vec<char>, from: usize, to: usize, pat: &[char]) -> (r: Option<usize>)
    requires
        from <= to <= s.len(),
    ensures
        r matches Some(p) ==> find_in(s@, from as int, to as int, pat@) == Some(p as int),
        r is None ==> find_in(s@, from as int, to as int, pat@) is None,
        r matches Some(p) ==> from <= p && p + pat@.len() <= to,
{
    proof {
        lemma_find_in(s@, from as int, to as int, pat@);
    }
    let mut i: usize = from;
    loop
        invariant
            from <= i <= to,
            to <= s.len(),
            find_in(s@, i as int, to as int, pat@) == find_in(s@, from as int, to as int, pat@),
        decreases to - i,
    {
        if pat.len() > to - i {
            return None;
        }
        if occurs_at_in(s, i, to, pat) {
            return Some(i);
        }
        if i == to {
            assert(s@.subrange(i as int, i as int) =~= pat@);
            return None;
        }
        i = i + 1;
    }
}

/// Index just after the last character before `to` (and at or after `from`)
/// that is not white space; `from` when there is none.
pub open spec fn trim_end_white_space(s: Seq<char>, from: int, to: int) -> int
    decreases to - from,
{
    if to <= from {
        from
    } else if is_white_space(s[to - 1]) {
        trim_end_white_space(s, from, to - 1)
    } else {
        to
    }
}

pub proof fn lemma_trim_end_white_space(s: Seq<char>, from: int, to: int)
    requires
        from <= to,
    ensures
        from <= trim_end_white_space(s, from, to) <= to,
        forall|i: int| trim_end_white_space(s, from, to) <= i < to ==> is_white_space(s[i]),
        trim_end_white_space(s, from, to) > from ==> !is_white_space(
            s[trim_end_white_space(s, from, to) - 1],
        ),
    decreases to - from,
{
    if from < to && is_white_space(s[to - 1]) {
        lemma_trim_end_white_space(s, from, to - 1);
    }
}

pub fn trim_end_white_space_in(s: &Vec<char>, from: usize, to: usize) -> (r: usize)
    requires
        from <= to <= s.len(),
    ensures
        r == trim_end_white_space(s@, from as int, to as int),
        from <= r <= to,
{
    proof {
        lemma_trim_end_white_space(s@, from as int, to as int);
    }
    let mut i: usize = to;
    while i > from && white_space(s[i - 1])
        invariant
            from <= i <= to <= s.len(),
            trim_end_white_space(s@, from as int, i as int) == trim_end_white_space(
                s@,
                from as int,
                to as int,
            ),
        decreases i,
    {
        i = i - 1;
    }
    i
}

proof fn lemma_trim_end_window_from(s: Seq<char>, base: int, from: int, to: int)
    requires
        0 <= base <= from <= to <= s.len(),
    ensures
        trim_end_white_space(s, from, to) - base == trim_end_white_space(
            s.subrange(base, to),
            from - base,
            to - base,
        ),
    decreases to - from,
{
    if from < to {
        assert(s.subrange(base, to)[to - 1 - base] == s[to - 1]);
        if is_white_space(s[to - 1]) {
            lemma_trim_end_window_from(s, base, from, to - 1);
            lemma_trim_end_prefix(s.subrange(base, to), from - base, to - 1 - base);
            assert(s.subrange(base, to).subrange(0, to - 1 - base) =~= s.subrange(base, to - 1));
        }
    }
}

proof fn lemma_trim_end_prefix(s: Seq<char>, from: int, to: int)
    requires
        0 <= from <= to <= s.len(),
    ensures
        trim_end_white_space(s, from, to) == trim_end_white_space(s.subrange(0, to), from, to),
    decreases to - from,
{
    if from < to {
        assert(s.subrange(0, to)[to - 1] == s[to - 1]);
        if is_white_space(s[to - 1]) {
            lemma_trim_end_prefix(s, from, to - 1);
            lemma_trim_end_prefix(s.subrange(0, to), from, to - 1);
            assert(s.subrange(0, to).subrange(0, to - 1) =~= s.subrange(0, to - 1));
        }
    }
}

/// Trimming a window of `s` gives the window between the first and last
/// characters that are not white space.
pub proof fn lemma_trim_window(s: Seq<char>, from: int, to: int)
    requires
        0 <= from <= to <= s.len(),
    ensures
        trim(s.subrange(from, to)) == s.subrange(
            skip_white_space(s, from, to),
            trim_end_white_space(s, skip_white_space(s, from, to), to),
        ),
{
    let w = s.subrange(from, to);
    lemma_skip_white_space(s, from, to);
    lemma_skip_white_space_window(s, from, to);
    let a = skip_white_space(s, from, to);
    lemma_trim_end_window_from(s, from, a, to);
    lemma_trim_end_white_space(s, a, to);
    let b = trim_end_white_space(s, a, to);
    assert(w.subrange(a - from, b - from) =~= s.subrange(a, b));
}

/// `str::trim`: the text without leading and trailing white space.
pub open spec fn trim(s: Seq<char>) -> Seq<char> {
    let start = skip_white_space(s, 0, s.len() as int);
    s.subrange(start, trim_end_white_space(s, start, s.len() as int))
}

/// Bounds of the trimmed text inside `s`.
pub fn trim_bounds(s: &Vec<char>) -> (r: (usize, usize))
    ensures
        r.0 <= r.1 <= s.len(),
        s@.subrange(r.0 as int, r.1 as int) == trim(s@),
        r.0 == skip_white_space(s@, 0, s.len() as int),
{
    let start = skip_white_space_in(s, 0, s.len());
    let end = trim_end_white_space_in(s, start, s.len());
    (start, end)
}

/// Whether the window `[from, to)` of `s` holds anything but white space.
pub fn has_visible_text(s: &Vec<char>, from: usize, to: usize) -> (r: bool)
    requires
        from <= to <= s.len(),
    ensures
        r == (trim(s@.subrange(from as int, to as int)).len() > 0),
{
    let ghost w = s@.subrange(from as int, to as int);
    let first = skip_white_space_in(s, from, to);
    proof {
        lemma_skip_white_space(s@, from as int, to as int);
        lemma_skip_white_space(w, 0, w.len() as int);
        lemma_skip_white_space_window(s@, from as int, to as int);
        let st = skip_white_space(w, 0, w.len() as int);
        lemma_trim_end_white_space(w, st, w.len() as int);
        if st < w.len() {
            assert(!is_white_space(w[st]));
            assert(trim_end_white_space(w, st, w.len() as int) > st);
        }
    }
    first < to
}

pub proof fn lemma_skip_white_space_window(s: Seq<char>, from: int, to: int)
    requires
        0 <= from <= to <= s.len(),
    ensures
        skip_white_space(s, from, to) - from == skip_white_space(
            s.subrange(from, to),
            0,
            to - from,
        ),
{
    lemma_skip_white_space_window_from(s, from, from, to);
}

proof fn lemma_skip_white_space_window_from(s: Seq<char>, base: int, from: int, to: int)
    requires
        0 <= base <= from <= to <= s.len(),
    ensures
        skip_white_space(s, from, to) - base == skip_white_space(
            s.subrange(base, to),
            from - base,
            to - base,
        ),
    decreases to - from,
{
    if from < to {
        assert(s.subrange(base, to)[from - base] == s[from]);
        if is_white_space(s[from]) {
            lemma_skip_white_space_window_from(s, base, from + 1, to);
        }
    }
}

/// `char::to_ascii_lowercase`.
pub open spec fn ascii_lower(c: char) -> char {
    if 'A' <= c && c <= 'Z' {
        ((c as u32) + 32) as char
    } else {
        c
    }
}

/// `str::eq_ignore_ascii_case`.
pub open spec fn eq_ignore_ascii_case(a: Seq<char>, b: Seq<char>) -> bool {
    a.len() == b.len() && forall|i: int| 0 <= i < a.len() ==> ascii_lower(a[i]) == ascii_lower(b[i])
}

pub fn ascii_lower_char(c: char) -> (r: char)
    ensures
        r == ascii_lower(c),
{
    if 'A' <= c && c <= 'Z' {
        let code: u32 = c as u32;
        proof {
            assert('A' as u32 <= code <= 'Z' as u32);
        }
        let lower: u32 = code + 32;
        let r = char_from_ascii(lower);
        r
    } else {
        c
    }
}

/// The character with an ASCII code.
fn char_from_ascii(code: u32) -> (c: char)
    requires
        code < 128,
    ensures
        c as u32 == code,
        c == code as char,
{
    let byte: u8 = code as u8;
    let c = byte as char;
    c
}

/// Compares a window of `s` with `b`, ignoring ASCII case.
pub fn eq_ignore_ascii_case_in(s: &Vec<char>, from: usize, to: usize, b: &[char]) -> (r: bool)
    requires
        from <= to <= s.len(),
    ensures
        r == eq_ignore_ascii_case(s@.subrange(from as int, to as int), b@),
{
    if to - from != b.len() {
        return false;
    }
    let mut i: usize = 0;
    while i < b.len()
        invariant
            to - from == b.len(),
            from <= to <= s.len(),
            0 <= i <= b.len(),
            forall|j: int|
                0 <= j < i ==> ascii_lower(s@.subrange(from as int, to as int)[j]) == ascii_lower(
                    b@[j],
                ),
        decreases b.len() - i,
    {
        if ascii_lower_char(s[from + i]) != ascii_lower_char(b[i]) {
            assert(s@.subrange(from as int, to as int)[i as int] == s@[from + i]);
            return false;
        }
        i = i + 1;
    }
    true
}

/// Builds a string from characters.
pub fn string_from_chars(chars: &Vec<char>) -> (s: String)
    ensures
        s@ == chars@,
{
    let mut s = String::new();
    let mut i: usize = 0;
    while i < chars.len()
        invariant
            0 <= i <= chars.len(),
            s@ == chars@.take(i as int),
        decreases chars.len() - i,
    {
        crate::interop::push_char(&mut s, chars[i]);
        assert(chars@.take(i + 1) =~= chars@.take(i as int).push(chars@[i as int]));
        i = i + 1;
    }
    assert(chars@.take(chars.len() as int) =~= chars@);
    s
}

} // verus!
