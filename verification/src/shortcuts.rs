//! Keyboard shortcuts written as text, such as `Ctrl+Shift+G`.

use crate::text::{
    ascii_lower, chars_of, eq_ignore_ascii_case, eq_ignore_ascii_case_in, lemma_trim_window,
    skip_white_space_in, trim, trim_end_white_space_in,
};
use vstd::prelude::*;

verus! {

/// A key from `A` to `Z` and the modifiers that must be held with it.
#[derive(Clone, Copy, Debug, PartialEq, Eq, Structural)]
pub struct Shortcut {
    /// An uppercase ASCII letter.
    pub key: char,
    pub ctrl: bool,
    pub shift: bool,
    pub alt: bool,
}

/// First position at or after `from` that holds `+`, or the end.
pub open spec fn plus_end(s: Seq<char>, from: int) -> int
    decreases s.len() - from,
{
    if from >= s.len() {
        s.len() as int
    } else if s[from] == '+' {
        from
    } else {
        plus_end(s, from + 1)
    }
}

pub proof fn lemma_plus_end(s: Seq<char>, from: int)
    requires
        0 <= from <= s.len(),
    ensures
        from <= plus_end(s, from) <= s.len(),
        plus_end(s, from) < s.len() ==> s[plus_end(s, from)] == '+',
    decreases s.len() - from,
{
    if from < s.len() && s[from] != '+' {
        lemma_plus_end(s, from + 1);
    }
}

/// The `+`-separated parts of `s` from `start` on, trimmed, empty ones left out.
pub open spec fn parts_from(s: Seq<char>, start: int) -> Seq<Seq<char>>
    decreases s.len() - start,
{
    if start < 0 || start > s.len() {
        Seq::empty()
    } else {
        let end = plus_end(s, start);
        let head = trim(s.subrange(start, end));
        let rest = if end < s.len() {
            proof {
                lemma_plus_end(s, start);
            }
            parts_from(s, end + 1)
        } else {
            Seq::empty()
        };
        if head.len() > 0 {
            seq![head] + rest
        } else {
            rest
        }
    }
}

/// Some part names the modifier `word`, ignoring ASCII case.
pub open spec fn names_modifier(parts: Seq<Seq<char>>, word: Seq<char>) -> bool {
    exists|i: int| 0 <= i < parts.len() && eq_ignore_ascii_case(#[trigger] parts[i], word)
}

pub open spec fn is_ascii_letter(c: char) -> bool {
    ('a' <= c && c <= 'z') || ('A' <= c && c <= 'Z')
}

/// The shortcut a text describes: its last part must be a single letter;
/// `Ctrl`, `Shift` and `Alt` parts (any case) add modifiers.
pub open spec fn shortcut_of(text: Seq<char>) -> Option<Shortcut> {
    let parts = parts_from(text, 0);
    if parts.len() == 0 {
        None
    } else {
        let last = parts.last();
        if last.len() == 1 && is_ascii_letter(last[0]) {
            Some(
                Shortcut {
                    key: if 'a' <= last[0] && last[0] <= 'z' {
                        ((last[0] as u32) - 32) as char
                    } else {
                        last[0]
                    },
                    ctrl: names_modifier(parts, seq!['c', 't', 'r', 'l']),
                    shift: names_modifier(parts, seq!['s', 'h', 'i', 'f', 't']),
                    alt: names_modifier(parts, seq!['a', 'l', 't']),
                },
            )
        } else {
            None
        }
    }
}

/// The texts of character ranges of `s`.
pub open spec fn range_texts(s: Seq<char>, ranges: Seq<(usize, usize)>) -> Seq<Seq<char>> {
    ranges.map_values(|r: (usize, usize)| s.subrange(r.0 as int, r.1 as int))
}

/// Whether some range of `s` equals `word`, ignoring ASCII case.
fn any_part_is(s: &Vec<char>, ranges: &Vec<(usize, usize)>, word: &[char]) -> (found: bool)
    requires
        forall|i: int| 0 <= i < ranges.len() ==> #[trigger] ranges@[i].0 <= ranges@[i].1 <= s.len(),
    ensures
        found == names_modifier(range_texts(s@, ranges@), word@),
{
    let ghost parts = range_texts(s@, ranges@);
    let mut i: usize = 0;
    while i < ranges.len()
        invariant
            0 <= i <= ranges.len(),
            parts == range_texts(s@, ranges@),
            forall|k: int| 0 <= k < ranges.len() ==> #[trigger] ranges@[k].0 <= ranges@[k].1 <= s.len(),
            forall|k: int| 0 <= k < i ==> !eq_ignore_ascii_case(#[trigger] parts[k], word@),
        decreases ranges.len() - i,
    {
        let (a, b) = ranges[i];
        if eq_ignore_ascii_case_in(s, a, b, word) {
            assert(parts[i as int] == s@.subrange(a as int, b as int));
            return true;
        }
        i = i + 1;
    }
    false
}

/// Reads a shortcut such as `Ctrl+Shift+G`; `None` when the text does not end
/// with a single letter.
pub fn parse_shortcut(text: &str) -> (shortcut: Option<Shortcut>)
    ensures
        shortcut == shortcut_of(text@),
{
    let s = chars_of(text);
    let n = s.len();
    let mut ranges: Vec<(usize, usize)> = Vec::new();
    let mut start: usize = 0;
    loop
        invariant_except_break
            range_texts(s@, ranges@) + parts_from(s@, start as int) == parts_from(s@, 0),
        invariant
            0 <= start <= n,
            n == s.len(),
            s@ == text@,
            forall|i: int| 0 <= i < ranges.len() ==> #[trigger] ranges@[i].0 <= ranges@[i].1 <= n,
        ensures
            forall|i: int| 0 <= i < ranges.len() ==> #[trigger] ranges@[i].0 <= ranges@[i].1 <= n,
            range_texts(s@, ranges@) == parts_from(s@, 0),
        decreases n - start,
    {
        let mut end: usize = start;
        while end < n && s[end] != '+'
            invariant
                start <= end <= n == s.len(),
                plus_end(s@, end as int) == plus_end(s@, start as int),
            decreases n - end,
        {
            end = end + 1;
        }
        let a = skip_white_space_in(&s, start, end);
        let b = trim_end_white_space_in(&s, a, end);
        proof {
            lemma_trim_window(s@, start as int, end as int);
            assert(plus_end(s@, start as int) == end);
        }
        let ghost before = ranges@;
        if b > a {
            ranges.push((a, b));
            proof {
                assert forall|i: int| 0 <= i < ranges.len() implies #[trigger] ranges@[i].0
                    <= ranges@[i].1 <= n by {
                    if i < before.len() {
                        assert(ranges@[i] == before[i]);
                    }
                }
                assert(range_texts(s@, ranges@) =~= range_texts(s@, before).push(trim(s@.subrange(start as int, end as int))));
            }
        }
        if end < n {
            proof {
                let head = trim(s@.subrange(start as int, end as int));
                if b > a {
                    assert(range_texts(s@, before) + parts_from(s@, start as int) =~= range_texts(s@, ranges@) + parts_from(s@, end + 1));
                } else {
                    assert(range_texts(s@, ranges@) + parts_from(s@, start as int) =~= range_texts(s@, ranges@) + parts_from(s@, end + 1));
                }
            }
            start = end + 1;
        } else {
            proof {
                if b > a {
                    assert(range_texts(s@, before) + parts_from(s@, start as int) =~= range_texts(s@, ranges@));
                } else {
                    assert(range_texts(s@, ranges@) + parts_from(s@, start as int) =~= range_texts(s@, ranges@));
                }
            }
            break;
        }
    }
    let ghost parts = range_texts(s@, ranges@);
    if ranges.len() == 0 {
        return None;
    }
    let (a, b) = ranges[ranges.len() - 1];
    assert(parts.last() == s@.subrange(a as int, b as int));
    if b - a != 1 {
        return None;
    }
    let c = s[a];
    assert(parts.last()[0] == c);
    if !(('a' <= c && c <= 'z') || ('A' <= c && c <= 'Z')) {
        return None;
    }
    let key: char = if 'a' <= c && c <= 'z' {
        let code: u32 = c as u32;
        let upper: u32 = code - 32;
        let byte: u8 = upper as u8;
        byte as char
    } else {
        c
    };
    let ctrl_word: [char; 4] = ['c', 't', 'r', 'l'];
    let shift_word: [char; 5] = ['s', 'h', 'i', 'f', 't'];
    let alt_word: [char; 3] = ['a', 'l', 't'];
    assert(ctrl_word@ =~= seq!['c', 't', 'r', 'l']);
    assert(shift_word@ =~= seq!['s', 'h', 'i', 'f', 't']);
    assert(alt_word@ =~= seq!['a', 'l', 't']);
    let ctrl = any_part_is(&s, &ranges, &ctrl_word);
    assert(forall|i: int| 0 <= i < ranges.len() ==> #[trigger] ranges@[i].0 <= ranges@[i].1 <= s.len());
    let shift = any_part_is(&s, &ranges, &shift_word);
    assert(forall|i: int| 0 <= i < ranges.len() ==> #[trigger] ranges@[i].0 <= ranges@[i].1 <= s.len());
    let alt = any_part_is(&s, &ranges, &alt_word);
    Some(Shortcut { key, ctrl, shift, alt })
}

} // verus!
