//! Cursor-aware Markdown rules for the live editor: which characters of the
//! source form syntax markers, how each piece is styled, and task toggling.

use crate::text::{
    chars_of, count_newlines, find_in, find_pattern, lemma_find_in, lemma_skip_white_space,
    occurs_at, occurs_at_in, skip_white_space, skip_white_space_in,
};
use vstd::prelude::*;
use vstd::string::{StrSliceExecFns, StringExecFns};

verus! {

/// Index of the first character at or after `from` (before `to`) that differs
/// from `c`; `to` when there is none.
pub open spec fn run_end(s: Seq<char>, from: int, to: int, c: char) -> int
    decreases to - from,
{
    if from >= to {
        to
    } else if s[from] == c {
        run_end(s, from + 1, to, c)
    } else {
        from
    }
}

pub proof fn lemma_run_end(s: Seq<char>, from: int, to: int, c: char)
    requires
        from <= to,
    ensures
        from <= run_end(s, from, to, c) <= to,
        forall|i: int| from <= i < run_end(s, from, to, c) ==> s[i] == c,
        run_end(s, from, to, c) < to ==> s[run_end(s, from, to, c)] != c,
    decreases to - from,
{
    if from < to && s[from] == c {
        lemma_run_end(s, from + 1, to, c);
    }
}

pub fn run_end_in(s: &Vec<char>, from: usize, to: usize, c: char) -> (r: usize)
    requires
        from <= to <= s.len(),
    ensures
        r == run_end(s@, from as int, to as int, c),
        from <= r <= to,
{
    proof {
        lemma_run_end(s@, from as int, to as int, c);
    }
    let mut i: usize = from;
    while i < to && s[i] == c
        invariant
            from <= i <= to <= s.len(),
            run_end(s@, i as int, to as int, c) == run_end(s@, from as int, to as int, c),
        decreases to - i,
    {
        i = i + 1;
    }
    i
}

/// Index of the first character at or after `from` (before `to`) that is not
/// an ASCII digit; `to` when there is none.
pub open spec fn digits_end(s: Seq<char>, from: int, to: int) -> int
    decreases to - from,
{
    if from >= to {
        to
    } else if '0' <= s[from] && s[from] <= '9' {
        digits_end(s, from + 1, to)
    } else {
        from
    }
}

pub fn digits_end_in(s: &Vec<char>, from: usize, to: usize) -> (r: usize)
    requires
        from <= to <= s.len(),
    ensures
        r == digits_end(s@, from as int, to as int),
        from <= r <= to,
    decreases to - from,
{
    if from < to && '0' <= s[from] && s[from] <= '9' {
        digits_end_in(s, from + 1, to)
    } else {
        from
    }
}

/// Heading level of a line that starts with one to six `#` followed by a space.
pub open spec fn heading_level_of(s: Seq<char>) -> Option<nat> {
    let hashes = run_end(s, 0, s.len() as int, '#');
    if 1 <= hashes <= 6 && hashes < s.len() && s[hashes] == ' ' {
        Some(hashes as nat)
    } else {
        None
    }
}

/// Every character is a space or `x`.
pub open spec fn only_spaces_and(s: Seq<char>, x: char) -> bool {
    forall|i: int| 0 <= i < s.len() ==> s[i] == ' ' || s[i] == x
}

/// Number of characters that are not the space character.
pub open spec fn non_space_count(s: Seq<char>) -> nat
    decreases s.len(),
{
    if s.len() == 0 {
        0
    } else {
        non_space_count(s.drop_last()) + if s.last() == ' ' { 0nat } else { 1nat }
    }
}

/// A thematic break: at least three `-`, `*` or `_` (one kind), spaces allowed.
pub open spec fn is_horizontal_rule_of(s: Seq<char>) -> bool {
    &&& non_space_count(s) >= 3
    &&& (only_spaces_and(s, '-') || only_spaces_and(s, '*') || only_spaces_and(s, '_'))
}

pub open spec fn task_open() -> Seq<char> {
    seq!['-', ' ', '[', ' ', ']', ' ']
}

pub open spec fn task_done() -> Seq<char> {
    seq!['-', ' ', '[', 'x', ']', ' ']
}

pub open spec fn task_done_upper() -> Seq<char> {
    seq!['-', ' ', '[', 'X', ']', ' ']
}

/// One of the three task-list markers.
pub open spec fn is_task_marker(m: Seq<char>) -> bool {
    m == task_open() || m == task_done() || m == task_done_upper()
}

/// Length of the list marker that starts `s`, if any.
pub open spec fn list_marker_length_of(s: Seq<char>) -> Option<nat> {
    if occurs_at(s, 0, task_open()) || occurs_at(s, 0, task_done()) || occurs_at(
        s,
        0,
        task_done_upper(),
    ) {
        Some(6)
    } else if occurs_at(s, 0, seq!['-', ' ']) || occurs_at(s, 0, seq!['*', ' ']) || occurs_at(
        s,
        0,
        seq!['+', ' '],
    ) {
        Some(2)
    } else {
        let digits = digits_end(s, 0, s.len() as int);
        if digits > 0 && occurs_at(s, digits, seq!['.', ' ']) {
            Some((digits + 2) as nat)
        } else {
            None
        }
    }
}

/// Line number (counted from zero) of the character at `character_index`;
/// an index past the end counts every line break.
pub fn line_at_character(text: &str, character_index: usize) -> (line: usize)
    ensures
        line == count_newlines(text@, character_index as int),
{
    let chars = chars_of(text);
    let limit: usize = if character_index < chars.len() {
        character_index
    } else {
        chars.len()
    };
    let mut i: usize = 0;
    let mut count: usize = 0;
    while i < limit
        invariant
            chars@ == text@,
            limit <= chars.len(),
            limit == character_index || limit == chars.len(),
            0 <= i <= limit,
            count == count_newlines(text@, i as int),
            count <= i,
        decreases limit - i,
    {
        if chars[i] == '\n' {
            count = count + 1;
        }
        i = i + 1;
    }
    count
}

/// Heading level of the window `[from, to)` of `s`.
pub fn heading_level(s: &Vec<char>, from: usize, to: usize) -> (level: Option<usize>)
    requires
        from <= to <= s.len(),
    ensures
        level matches Some(h) ==> heading_level_of(s@.subrange(from as int, to as int)) == Some(
            h as nat,
        ),
        level is None ==> heading_level_of(s@.subrange(from as int, to as int)) is None,
{
    let ghost line = s@.subrange(from as int, to as int);
    let hashes_end = run_end_in(s, from, to, '#');
    proof {
        lemma_run_end(s@, from as int, to as int, '#');
        lemma_run_end(line, 0, line.len() as int, '#');
        lemma_run_end_shift(s@, from as int, to as int, '#');
    }
    let hashes: usize = hashes_end - from;
    if 1 <= hashes && hashes <= 6 && hashes_end < to && s[hashes_end] == ' ' {
        Some(hashes)
    } else {
        None
    }
}

/// `run_end` on a window equals `run_end` on the extracted subsequence.
pub proof fn lemma_run_end_shift(s: Seq<char>, from: int, to: int, c: char)
    requires
        0 <= from <= to <= s.len(),
    ensures
        run_end(s, from, to, c) - from == run_end(
            s.subrange(from, to),
            0,
            to - from,
            c,
        ),
{
    lemma_run_end_shift_from(s, from, from, to, c);
}

proof fn lemma_run_end_shift_from(s: Seq<char>, base: int, from: int, to: int, c: char)
    requires
        0 <= base <= from <= to <= s.len(),
    ensures
        run_end(s, from, to, c) - base == run_end(s.subrange(base, to), from - base, to - base, c),
    decreases to - from,
{
    if from < to {
        assert(s.subrange(base, to)[from - base] == s[from]);
        if s[from] == c {
            lemma_run_end_shift_from(s, base, from + 1, to, c);
        }
    }
}

/// Whether the window `[from, to)` of `s` is a thematic break.
pub fn is_horizontal_rule(s: &Vec<char>, from: usize, to: usize) -> (r: bool)
    requires
        from <= to <= s.len(),
    ensures
        r == is_horizontal_rule_of(s@.subrange(from as int, to as int)),
{
    let ghost line = s@.subrange(from as int, to as int);
    let mut count: usize = 0;
    let mut dashes: bool = true;
    let mut stars: bool = true;
    let mut underscores: bool = true;
    let mut i: usize = from;
    while i < to
        invariant
            from <= i <= to <= s.len(),
            line == s@.subrange(from as int, to as int),
            count == non_space_count(line.take(i - from)),
            count <= i - from,
            dashes == only_spaces_and(line.take(i - from), '-'),
            stars == only_spaces_and(line.take(i - from), '*'),
            underscores == only_spaces_and(line.take(i - from), '_'),
        decreases to - i,
    {
        let c = s[i];
        proof {
            let k = (i - from) as int;
            assert(line.take(k + 1).drop_last() =~= line.take(k));
            assert(line.take(k + 1).last() == c);
            assert(forall|x: char|
                only_spaces_and(line.take(k + 1), x) == (only_spaces_and(line.take(k), x) && (c
                    == ' ' || c == x))) by {
                assert forall|x: char|
                    only_spaces_and(line.take(k + 1), x) implies only_spaces_and(line.take(k), x)
                    && (c == ' ' || c == x) by {
                    assert forall|j: int| 0 <= j < k implies #[trigger] line.take(k)[j] == ' '
                        || line.take(k)[j] == x by {
                        assert(line.take(k + 1)[j] == line.take(k)[j]);
                    }
                    assert(line.take(k + 1)[k] == c);
                }
                assert forall|x: char|
                    only_spaces_and(line.take(k), x) && (c == ' ' || c == x) implies only_spaces_and(
                    line.take(k + 1),
                    x,
                ) by {
                    assert forall|j: int| 0 <= j < k + 1 implies #[trigger] line.take(k + 1)[j]
                        == ' ' || line.take(k + 1)[j] == x by {
                        if j < k {
                            assert(line.take(k + 1)[j] == line.take(k)[j]);
                        }
                    }
                }
            }
        }
        if c != ' ' {
            count = count + 1;
        }
        dashes = dashes && (c == ' ' || c == '-');
        stars = stars && (c == ' ' || c == '*');
        underscores = underscores && (c == ' ' || c == '_');
        i = i + 1;
    }
    proof {
        assert(line.take(to - from) =~= line);
    }
    count >= 3 && (dashes || stars || underscores)
}

/// `occurs_at` inside a window equals `occurs_at` on the extracted subsequence.
pub proof fn lemma_occurs_shift(s: Seq<char>, from: int, to: int, i: int, pat: Seq<char>)
    requires
        0 <= from <= to <= s.len(),
        0 <= i,
    ensures
        occurs_at(s.subrange(from, to), i, pat) == (from + i + pat.len() <= to && occurs_at(
            s,
            from + i,
            pat,
        )),
{
    let line = s.subrange(from, to);
    if from + i + pat.len() <= to {
        assert(line.subrange(i, i + pat.len()) =~= s.subrange(from + i, from + i + pat.len()));
    }
}

proof fn lemma_digits_end_shift_from(s: Seq<char>, base: int, from: int, to: int)
    requires
        0 <= base <= from <= to <= s.len(),
    ensures
        digits_end(s, from, to) - base == digits_end(s.subrange(base, to), from - base, to - base),
        from <= digits_end(s, from, to) <= to,
    decreases to - from,
{
    if from < to {
        assert(s.subrange(base, to)[from - base] == s[from]);
        if '0' <= s[from] && s[from] <= '9' {
            lemma_digits_end_shift_from(s, base, from + 1, to);
        }
    }
}

/// Length of the list marker that starts the window `[from, to)` of `s`.
pub fn list_marker_length(s: &Vec<char>, from: usize, to: usize) -> (len: Option<usize>)
    requires
        from <= to <= s.len(),
    ensures
        len matches Some(n) ==> list_marker_length_of(s@.subrange(from as int, to as int)) == Some(
            n as nat,
        ),
        len is None ==> list_marker_length_of(s@.subrange(from as int, to as int)) is None,
        len matches Some(n) ==> from + n <= to,
{
    let ghost line = s@.subrange(from as int, to as int);
    proof {
        lemma_occurs_shift(s@, from as int, to as int, 0, task_open());
        lemma_occurs_shift(s@, from as int, to as int, 0, task_done());
        lemma_occurs_shift(s@, from as int, to as int, 0, task_done_upper());
        lemma_occurs_shift(s@, from as int, to as int, 0, seq!['-', ' ']);
        lemma_occurs_shift(s@, from as int, to as int, 0, seq!['*', ' ']);
        lemma_occurs_shift(s@, from as int, to as int, 0, seq!['+', ' ']);
    }
    let open_marker: [char; 6] = ['-', ' ', '[', ' ', ']', ' '];
    let done_marker: [char; 6] = ['-', ' ', '[', 'x', ']', ' '];
    let done_upper: [char; 6] = ['-', ' ', '[', 'X', ']', ' '];
    assert(open_marker@ =~= task_open());
    assert(done_marker@ =~= task_done());
    assert(done_upper@ =~= task_done_upper());
    if occurs_at_in(s, from, to, &open_marker) || occurs_at_in(s, from, to, &done_marker)
        || occurs_at_in(s, from, to, &done_upper) {
        return Some(6);
    }
    let dash: [char; 2] = ['-', ' '];
    let star: [char; 2] = ['*', ' '];
    let plus: [char; 2] = ['+', ' '];
    assert(dash@ =~= seq!['-', ' ']);
    assert(star@ =~= seq!['*', ' ']);
    assert(plus@ =~= seq!['+', ' ']);
    if occurs_at_in(s, from, to, &dash) || occurs_at_in(s, from, to, &star) || occurs_at_in(
        s,
        from,
        to,
        &plus,
    ) {
        return Some(2);
    }
    let digits_stop = digits_end_in(s, from, to);
    proof {
        lemma_digits_end_shift_from(s@, from as int, from as int, to as int);
    }
    let digits: usize = digits_stop - from;
    let dot: [char; 2] = ['.', ' '];
    assert(dot@ =~= seq!['.', ' ']);
    proof {
        lemma_occurs_shift(s@, from as int, to as int, digits as int, seq!['.', ' ']);
    }
    if digits > 0 && occurs_at_in(s, digits_stop, to, &dot) {
        Some(digits + 2)
    } else {
        None
    }
}

/// The text style a piece of Markdown source is drawn with. Inline emphasis
/// keeps the base style of the block it appears in.
#[derive(Clone, Copy, Debug, PartialEq, Eq, Structural)]
pub enum InlineBase {
    Body,
    Quote,
}

#[derive(Clone, Copy, Debug, PartialEq, Eq, Structural)]
pub enum SpanStyle {
    /// Ordinary paragraph text.
    Body,
    /// Text of a block quote.
    Quote,
    /// Markdown syntax shown in the source colour.
    SourceMarker,
    /// Markdown syntax collapsed to an invisible sliver.
    HiddenMarker,
    /// List and quote markers drawn as content in the accent colour.
    Accent,
    /// Link labels and wiki-link targets.
    Link,
    InlineCode,
    CodeBlock,
    /// Heading text of the given level (1 to 6).
    Heading(usize),
    /// The `#` run of a heading whose source is shown.
    HeadingMarker(usize),
    Strong(InlineBase),
    Italic(InlineBase),
    Struck(InlineBase),
}

/// The characters `[start, end)` of the source, drawn in `style`.
#[derive(Clone, Copy, Debug, PartialEq, Eq, Structural)]
pub struct StyledSpan {
    pub start: usize,
    pub end: usize,
    pub style: SpanStyle,
}

/// The spans cover `[0, end)` one after another, without gaps or overlap.
pub open spec fn tiles(spans: Seq<StyledSpan>, end: int) -> bool {
    &&& forall|i: int| 0 <= i < spans.len() ==> #[trigger] spans[i].start <= spans[i].end
    &&& forall|i: int, j: int|
        0 <= i && j == i + 1 && j < spans.len() ==> #[trigger] spans[i].end
            == #[trigger] spans[j].start
    &&& if spans.len() == 0 {
        end == 0
    } else {
        spans[0].start == 0 && spans.last().end == end
    }
}

/// Collapsed markers never appear on the line that holds the cursor.
pub open spec fn hidden_off_active_line(
    spans: Seq<StyledSpan>,
    source: Seq<char>,
    active_line: Option<usize>,
) -> bool {
    forall|i: int|
        0 <= i < spans.len() && (#[trigger] spans[i]).style == SpanStyle::HiddenMarker
            ==> active_line != Some(count_newlines(source, spans[i].start as int) as usize)
}

/// Every position of `[from, to]` lies on line `line`.
pub open spec fn on_line(source: Seq<char>, from: int, to: int, line: int) -> bool {
    forall|x: int| from <= x <= to ==> count_newlines(source, x) == line
}

/// The characters of `source` covered by `spans`, in order.
pub open spec fn spans_text(source: Seq<char>, spans: Seq<StyledSpan>) -> Seq<char>
    decreases spans.len(),
{
    if spans.len() == 0 {
        Seq::empty()
    } else {
        spans_text(source, spans.drop_last()) + source.subrange(
            spans.last().start as int,
            spans.last().end as int,
        )
    }
}

/// Spans that tile a prefix of the source spell exactly that prefix.
pub proof fn lemma_tiles_spell_source(source: Seq<char>, spans: Seq<StyledSpan>, end: int)
    requires
        tiles(spans, end),
        end <= source.len(),
    ensures
        spans_text(source, spans) == source.subrange(0, end),
    decreases spans.len(),
{
    if spans.len() == 0 {
        assert(source.subrange(0, 0) =~= Seq::<char>::empty());
    } else {
        let init = spans.drop_last();
        let last = spans.last();
        if init.len() == 0 {
            assert(last.start == 0);
            assert(source.subrange(0, 0) =~= Seq::<char>::empty());
            assert(spans_text(source, init) == source.subrange(0, last.start as int));
        } else {
            assert(spans[init.len() - 1].end == spans[init.len() as int].start);
            assert(tiles(init, last.start as int)) by {
                assert forall|i: int| 0 <= i < init.len() implies #[trigger] init[i].start
                    <= init[i].end by {
                    assert(init[i] == spans[i]);
                }
                assert forall|i: int, j: int|
                    0 <= i && j == i + 1 && j < init.len() implies #[trigger] init[i].end
                        == #[trigger] init[j].start by {
                    assert(init[i] == spans[i]);
                    assert(init[j] == spans[j]);
                }
            }
            assert(last.start <= last.end);
            lemma_tiles_spell_source(source, init, last.start as int);
        }
        assert(spans[spans.len() - 1].start <= spans[spans.len() - 1].end);
        assert(source.subrange(0, last.start as int) + source.subrange(
            last.start as int,
            end,
        ) =~= source.subrange(0, end));
    }
}

/// Lines hold no line break, so every position of a line has the same number.
pub proof fn lemma_line_positions(source: Seq<char>, from: int, to: int)
    requires
        0 <= from <= to <= source.len(),
        forall|q: int| from <= q < to ==> source[q] != '\n',
    ensures
        on_line(source, from, to, count_newlines(source, from) as int),
    decreases to - from,
{
    if from < to {
        lemma_line_positions(source, from, to - 1);
        assert(count_newlines(source, to) == count_newlines(source, to - 1));
    }
}

/// Appends a span that starts where the previous one ended.
fn push_span(
    spans: &mut Vec<StyledSpan>,
    start: usize,
    end: usize,
    style: SpanStyle,
    Ghost(source): Ghost<Seq<char>>,
    Ghost(active_line): Ghost<Option<usize>>,
)
    requires
        tiles(old(spans)@, start as int),
        start <= end,
        hidden_off_active_line(old(spans)@, source, active_line),
        style == SpanStyle::HiddenMarker ==> active_line != Some(
            count_newlines(source, start as int) as usize,
        ),
    ensures
        final(spans)@ == old(spans)@.push(StyledSpan { start, end, style }),
        tiles(final(spans)@, end as int),
        hidden_off_active_line(final(spans)@, source, active_line),
{
    let ghost before = spans@;
    spans.push(StyledSpan { start, end, style });
    proof {
        let after = spans@;
        assert forall|i: int| 0 <= i < after.len() implies #[trigger] after[i].start
            <= after[i].end by {
            if i < before.len() {
                assert(after[i] == before[i]);
            }
        }
        assert forall|i: int, j: int|
            0 <= i && j == i + 1 && j < after.len() implies #[trigger] after[i].end
                == #[trigger] after[j].start by {
            assert(after[i] == before[i]);
            if j < before.len() {
                assert(after[j] == before[j]);
            }
        }
        assert forall|i: int|
            0 <= i < after.len() && (#[trigger] after[i]).style
                == SpanStyle::HiddenMarker implies active_line != Some(
            count_newlines(source, after[i].start as int) as usize,
        ) by {
            if i < before.len() {
                assert(after[i] == before[i]);
            }
        }
    }
}

/// Marker style for a line whose source is shown or collapsed.
pub fn source_marker(visible: bool) -> (style: SpanStyle)
    ensures
        style == if visible {
            SpanStyle::SourceMarker
        } else {
            SpanStyle::HiddenMarker
        },
{
    if visible {
        SpanStyle::SourceMarker
    } else {
        SpanStyle::HiddenMarker
    }
}

pub open spec fn base_style(base: InlineBase) -> SpanStyle {
    match base {
        InlineBase::Body => SpanStyle::Body,
        InlineBase::Quote => SpanStyle::Quote,
    }
}

fn plain_style(base: InlineBase) -> (style: SpanStyle)
    ensures
        style == base_style(base),
{
    match base {
        InlineBase::Body => SpanStyle::Body,
        InlineBase::Quote => SpanStyle::Quote,
    }
}

/// The span of characters `[start, end)` drawn in `style`.
pub open spec fn span(start: int, end: int, style: SpanStyle) -> StyledSpan {
    StyledSpan { start: start as usize, end: end as usize, style }
}

/// `pat` occurs at `p` and ends by `to`.
pub open spec fn occurs_in(s: Seq<char>, p: int, to: int, pat: Seq<char>) -> bool {
    p + pat.len() <= to && occurs_at(s, p, pat)
}

/// How syntax markers look: shown on the cursor's line, collapsed elsewhere.
pub open spec fn marker_style(show_source: bool) -> SpanStyle {
    if show_source {
        SpanStyle::SourceMarker
    } else {
        SpanStyle::HiddenMarker
    }
}

/// A construct between two equal delimiters of length `width` that starts at
/// `p`: marker, inner text in `inner`, marker; `None` without a closing
/// delimiter before `to`.
pub open spec fn delimited(
    s: Seq<char>,
    p: int,
    to: int,
    delimiter: Seq<char>,
    inner: SpanStyle,
    show_source: bool,
) -> Option<(Seq<StyledSpan>, int)> {
    let w = delimiter.len() as int;
    match find_in(s, p + w, to, delimiter) {
        None => None,
        Some(c) => Some(
            (
                seq![
                    span(p, p + w, marker_style(show_source)),
                    span(p + w, c, inner),
                    span(c, c + w, marker_style(show_source)),
                ],
                c + w,
            ),
        ),
    }
}

/// The inside of a wiki link `[[target|label]]` that closes at `c`: all of
/// it a link on the cursor's line; elsewhere the target and bar collapse and
/// only the label shows.
pub open spec fn wiki_inner(s: Seq<char>, p: int, c: int, show_source: bool) -> Seq<StyledSpan> {
    if show_source {
        seq![span(p + 2, c, SpanStyle::Link)]
    } else {
        match find_in(s, p + 2, c, seq!['|']) {
            Some(b) => seq![span(p + 2, b + 1, SpanStyle::HiddenMarker), span(b + 1, c, SpanStyle::Link)],
            None => seq![span(p + 2, c, SpanStyle::Link)],
        }
    }
}

/// The inline construct that starts at `p` and closes before `to`, with the
/// position after it: a wiki link, a link `[label](target)`, inline code,
/// strong text (`**`, `__`), struck text (`~~`) or italic text (`*`, `_`),
/// tried in that order. `None` when no complete construct starts at `p`.
#[verifier::opaque]
pub open spec fn inline_token(
    s: Seq<char>,
    p: int,
    to: int,
    base: InlineBase,
    show_source: bool,
) -> Option<(Seq<StyledSpan>, int)> {
    let marker = marker_style(show_source);
    if occurs_in(s, p, to, seq!['[', '[']) {
        match find_in(s, p + 2, to, seq![']', ']']) {
            None => None,
            Some(c) => Some(
                (
                    seq![span(p, p + 2, marker)] + wiki_inner(s, p, c, show_source) + seq![
                        span(c, c + 2, marker),
                    ],
                    c + 2,
                ),
            ),
        }
    } else if s[p] == '[' {
        match find_in(s, p + 1, to, seq![']', '(']) {
            None => None,
            Some(l) => match find_in(s, l + 2, to, seq![')']) {
                None => None,
                Some(t) => Some(
                    (
                        seq![
                            span(p, p + 1, marker),
                            span(p + 1, l, SpanStyle::Link),
                            span(l, l + 2, marker),
                            span(l + 2, t, marker),
                            span(t, t + 1, marker),
                        ],
                        t + 1,
                    ),
                ),
            },
        }
    } else if s[p] == '`' {
        delimited(s, p, to, seq!['`'], SpanStyle::InlineCode, show_source)
    } else if occurs_in(s, p, to, seq!['*', '*']) {
        delimited(s, p, to, seq!['*', '*'], SpanStyle::Strong(base), show_source)
    } else if occurs_in(s, p, to, seq!['_', '_']) {
        delimited(s, p, to, seq!['_', '_'], SpanStyle::Strong(base), show_source)
    } else if occurs_in(s, p, to, seq!['~', '~']) {
        delimited(s, p, to, seq!['~', '~'], SpanStyle::Struck(base), show_source)
    } else if s[p] == '*' || s[p] == '_' {
        delimited(s, p, to, seq![s[p]], SpanStyle::Italic(base), show_source)
    } else {
        None
    }
}

/// A complete `~~x~~` construct is struck text: its two markers follow the
/// line's marker style, and everything between them is drawn struck through
/// in the style of the block it sits in, never as strong or italic text.
pub proof fn lemma_struck_text(
    s: Seq<char>,
    p: int,
    to: int,
    base: InlineBase,
    show_source: bool,
    c: int,
)
    requires
        0 <= p,
        p + 2 <= to <= s.len(),
        s[p] == '~',
        s[p + 1] == '~',
        find_in(s, p + 2, to, seq!['~', '~']) == Some(c),
    ensures
        inline_token(s, p, to, base, show_source) == Some(
            (
                seq![
                    span(p, p + 2, marker_style(show_source)),
                    span(p + 2, c, SpanStyle::Struck(base)),
                    span(c, c + 2, marker_style(show_source)),
                ],
                c + 2,
            ),
        ),
{
    reveal(inline_token);
    assert(s.subrange(p, p + 2) =~= seq!['~', '~']);
    assert(occurs_in(s, p, to, seq!['~', '~']));
    assert(!occurs_at(s, p, seq!['[', '['])) by {
        if occurs_at(s, p, seq!['[', '[']) {
            assert(s.subrange(p, p + 2)[0] == '[');
        }
    }
    assert(!occurs_at(s, p, seq!['*', '*'])) by {
        if occurs_at(s, p, seq!['*', '*']) {
            assert(s.subrange(p, p + 2)[0] == '*');
        }
    }
    assert(!occurs_at(s, p, seq!['_', '_'])) by {
        if occurs_at(s, p, seq!['_', '_']) {
            assert(s.subrange(p, p + 2)[0] == '_');
        }
    }
}

/// The other delimited constructs: text between backticks is inline code,
/// between `**` or `__` strong, and between single `*` or `_` italic, each
/// with markers in the line's marker style.
pub proof fn lemma_delimited_text(
    s: Seq<char>,
    p: int,
    to: int,
    base: InlineBase,
    show_source: bool,
    c: int,
)
    requires
        0 <= p,
        p + 1 <= to <= s.len(),
    ensures
        s[p] == '`' && find_in(s, p + 1, to, seq!['`']) == Some(c) ==> inline_token(s, p, to, base, show_source)
            == Some(
            (
                seq![
                    span(p, p + 1, marker_style(show_source)),
                    span(p + 1, c, SpanStyle::InlineCode),
                    span(c, c + 1, marker_style(show_source)),
                ],
                c + 1,
            ),
        ),
        p + 2 <= to && (s[p] == '*' || s[p] == '_') && s[p + 1] == s[p] && find_in(
            s,
            p + 2,
            to,
            seq![s[p], s[p]],
        ) == Some(c) ==> inline_token(s, p, to, base, show_source) == Some(
            (
                seq![
                    span(p, p + 2, marker_style(show_source)),
                    span(p + 2, c, SpanStyle::Strong(base)),
                    span(c, c + 2, marker_style(show_source)),
                ],
                c + 2,
            ),
        ),
        (s[p] == '*' || s[p] == '_') && !(p + 2 <= to && s[p + 1] == s[p]) && find_in(
            s,
            p + 1,
            to,
            seq![s[p]],
        ) == Some(c) ==> inline_token(s, p, to, base, show_source) == Some(
            (
                seq![
                    span(p, p + 1, marker_style(show_source)),
                    span(p + 1, c, SpanStyle::Italic(base)),
                    span(c, c + 1, marker_style(show_source)),
                ],
                c + 1,
            ),
        ),
{
    reveal(inline_token);
    if p + 2 <= to {
        assert(s.subrange(p, p + 2) =~= seq![s[p], s[p + 1]]);
    }
    assert(!occurs_in(s, p, to, seq!['[', '[']) || s[p] == '[') by {
        if occurs_in(s, p, to, seq!['[', '[']) {
            assert(s.subrange(p, p + 2)[0] == '[');
        }
    }
    if p + 2 <= to && s[p] == '_' && s[p + 1] == '_' {
        assert(!occurs_at(s, p, seq!['*', '*'])) by {
            if occurs_at(s, p, seq!['*', '*']) {
                assert(s.subrange(p, p + 2)[0] == '*');
            }
        }
        assert(seq![s[p], s[p]] =~= seq!['_', '_']);
    }
    if p + 2 <= to && s[p] == '*' && s[p + 1] == '*' {
        assert(seq![s[p], s[p]] =~= seq!['*', '*']);
    }
    if (s[p] == '*' || s[p] == '_') && !(p + 2 <= to && s[p + 1] == s[p]) {
        assert(!occurs_in(s, p, to, seq!['*', '*'])) by {
            if occurs_in(s, p, to, seq!['*', '*']) {
                assert(s.subrange(p, p + 2)[1] == '*');
                assert(s.subrange(p, p + 2)[0] == '*');
            }
        }
        assert(!occurs_in(s, p, to, seq!['_', '_'])) by {
            if occurs_in(s, p, to, seq!['_', '_']) {
                assert(s.subrange(p, p + 2)[1] == '_');
                assert(s.subrange(p, p + 2)[0] == '_');
            }
        }
        assert(!occurs_in(s, p, to, seq!['~', '~'])) by {
            if occurs_in(s, p, to, seq!['~', '~']) {
                assert(s.subrange(p, p + 2)[0] == '~');
            }
        }
    }
    if s[p] == '`' {
        assert(!occurs_in(s, p, to, seq!['[', '['])) by {
            if occurs_in(s, p, to, seq!['[', '[']) {
                assert(s.subrange(p, p + 2)[0] == '[');
            }
        }
    }
}

/// Characters that may open an inline construct.
pub open spec fn opens_inline(c: char) -> bool {
    c == '`' || c == '*' || c == '_' || c == '~' || c == '['
}

/// The first position at or after `from` (and before `to`) whose character
/// may open an inline construct, or `to`.
pub open spec fn next_opener(s: Seq<char>, from: int, to: int) -> int
    decreases to - from,
{
    if from >= to {
        to
    } else if opens_inline(s[from]) {
        from
    } else {
        next_opener(s, from + 1, to)
    }
}

/// The spans of the inline text `[from, to)`: runs without an opening
/// character in the base style, each complete construct as
/// `inline_token` gives it, and an opening character that starts none as one
/// plain character.
pub open spec fn inline_spans(
    s: Seq<char>,
    from: int,
    to: int,
    base: InlineBase,
    show_source: bool,
) -> Seq<StyledSpan>
    decreases to - from,
{
    if from >= to {
        Seq::empty()
    } else {
        let next = next_opener(s, from, to);
        if from < next && next <= to {
            seq![span(from, next, base_style(base))] + inline_spans(s, next, to, base, show_source)
        } else {
            match inline_token(s, from, to, base, show_source) {
                Some((token, end)) => if from < end && end <= to {
                    token + inline_spans(s, end, to, base, show_source)
                } else {
                    token
                },
                None => seq![span(from, from + 1, base_style(base))] + inline_spans(
                    s,
                    from + 1,
                    to,
                    base,
                    show_source,
                ),
            }
        }
    }
}

/// The spans of the line `[from, to)`, its line break excluded. A code fence
/// line is one marker and toggles code blocks; inside a block a line is code;
/// otherwise a heading, a quote, a horizontal rule, a list item or a
/// paragraph line, tried in that order, after the indentation.
#[verifier::opaque]
pub open spec fn line_spans(
    s: Seq<char>,
    from: int,
    to: int,
    inside_code_block: bool,
    show_source: bool,
) -> Seq<StyledSpan> {
    let indent_end = skip_white_space(s, from, to);
    let rest = s.subrange(indent_end, to);
    if occurs_in(s, indent_end, to, seq!['`', '`', '`']) {
        seq![span(from, to, marker_style(show_source))]
    } else if inside_code_block {
        seq![span(from, to, SpanStyle::CodeBlock)]
    } else {
        match heading_level_of(rest) {
            Some(level) => {
                let marker_end = indent_end + level + 1;
                seq![
                    span(from, indent_end, SpanStyle::Body),
                    span(
                        indent_end,
                        marker_end,
                        if show_source {
                            SpanStyle::HeadingMarker(level as usize)
                        } else {
                            SpanStyle::HiddenMarker
                        },
                    ),
                    span(marker_end, to, SpanStyle::Heading(level as usize)),
                ]
            },
            None => if indent_end < to && s[indent_end] == '>' {
                seq![
                    span(from, indent_end, SpanStyle::Body),
                    span(
                        indent_end,
                        indent_end + 1,
                        if show_source {
                            SpanStyle::Accent
                        } else {
                            SpanStyle::HiddenMarker
                        },
                    ),
                ] + inline_spans(s, indent_end + 1, to, InlineBase::Quote, show_source)
            } else if is_horizontal_rule_of(rest) {
                seq![span(from, to, SpanStyle::SourceMarker)]
            } else {
                match list_marker_length_of(rest) {
                    Some(k) => seq![
                        span(from, indent_end, SpanStyle::Body),
                        span(indent_end, indent_end + k, SpanStyle::Accent),
                    ] + inline_spans(s, indent_end + k, to, InlineBase::Body, show_source),
                    None => inline_spans(s, from, to, InlineBase::Body, show_source),
                }
            },
        }
    }
}

/// Inside a code block every line that is not a fence is one code span; a
/// line that starts with `# ` outside a code block is a first-level heading
/// whose `# ` is a marker (shown on the cursor's line, collapsed elsewhere)
/// and whose rest is heading text.
pub proof fn lemma_code_and_heading_lines(
    s: Seq<char>,
    from: int,
    to: int,
    inside_code_block: bool,
    show_source: bool,
)
    requires
        0 <= from <= to <= s.len(),
    ensures
        inside_code_block && !occurs_in(
            s,
            skip_white_space(s, from, to),
            to,
            seq!['`', '`', '`'],
        ) ==> line_spans(s, from, to, inside_code_block, show_source) == seq![
            span(from, to, SpanStyle::CodeBlock),
        ],
        !inside_code_block && from + 2 <= to && s[from] == '#' && s[from + 1] == ' ' ==> line_spans(
            s,
            from,
            to,
            inside_code_block,
            show_source,
        ) == seq![
            span(from, from, SpanStyle::Body),
            span(
                from,
                from + 2,
                if show_source {
                    SpanStyle::HeadingMarker(1)
                } else {
                    SpanStyle::HiddenMarker
                },
            ),
            span(from + 2, to, SpanStyle::Heading(1)),
        ],
{
    reveal(line_spans);
    if !inside_code_block && from + 2 <= to && s[from] == '#' && s[from + 1] == ' ' {
        assert(skip_white_space(s, from, to) == from);
        let rest = s.subrange(from, to);
        assert(rest[0] == '#' && rest[1] == ' ');
        assert(run_end(rest, 1, rest.len() as int, '#') == 1);
        assert(run_end(rest, 0, rest.len() as int, '#') == 1);
        assert(heading_level_of(rest) == Some(1nat));
        assert(!occurs_in(s, from, to, seq!['`', '`', '`'])) by {
            if occurs_in(s, from, to, seq!['`', '`', '`']) {
                assert(s.subrange(from, from + 3)[0] == '`');
            }
        }
    }
}

/// Where the line that starts at `pos` ends: its line break or the end.
pub open spec fn line_end_from(s: Seq<char>, pos: int) -> int {
    match find_in(s, pos, s.len() as int, seq!['\n']) {
        Some(e) => e,
        None => s.len() as int,
    }
}

/// The spans of the source from `pos`, the start of line number `line`;
/// `inside_code_block` tells whether an open code fence precedes it. Each
/// line's spans are followed by one for its line break, or by an empty span
/// at the end of a last line without one.
#[verifier::opaque]
pub open spec fn spans_from(
    s: Seq<char>,
    pos: int,
    line: int,
    inside_code_block: bool,
    active_line: Option<usize>,
) -> Seq<StyledSpan>
    decreases s.len() - pos,
{
    if pos < 0 || pos >= s.len() {
        Seq::empty()
    } else {
        let line_end = line_end_from(s, pos);
        let show_source = active_line == Some(line as usize);
        let here = line_spans(s, pos, line_end, inside_code_block, show_source);
        let inside_after = inside_code_block != fence_line(s.subrange(pos, line_end));
        if pos <= line_end && line_end < s.len() {
            here + seq![span(line_end, line_end + 1, SpanStyle::Body)] + spans_from(
                s,
                line_end + 1,
                line + 1,
                inside_after,
                active_line,
            )
        } else {
            here + seq![span(line_end, line_end, SpanStyle::Body)]
        }
    }
}

/// One line of `spans_from`: the line's spans, then its line break's span
/// and the rest of the text, or the empty span that ends the text.
proof fn lemma_spans_from_line(
    s: Seq<char>,
    pos: int,
    line: int,
    inside_code_block: bool,
    active_line: Option<usize>,
)
    requires
        0 <= pos < s.len(),
        pos <= line_end_from(s, pos) <= s.len(),
    ensures
        ({
            let line_end = line_end_from(s, pos);
            let here = line_spans(
                s,
                pos,
                line_end,
                inside_code_block,
                active_line == Some(line as usize),
            );
            let inside_after = inside_code_block != fence_line(s.subrange(pos, line_end));
            &&& line_end < s.len() ==> spans_from(s, pos, line, inside_code_block, active_line)
                == here + seq![span(line_end, line_end + 1, SpanStyle::Body)] + spans_from(
                s,
                line_end + 1,
                line + 1,
                inside_after,
                active_line,
            )
            &&& line_end == s.len() ==> spans_from(s, pos, line, inside_code_block, active_line)
                == here + seq![span(line_end, line_end, SpanStyle::Body)]
        }),
{
    reveal(spans_from);
}

/// Past the end of the text there are no spans.
proof fn lemma_spans_from_end(
    s: Seq<char>,
    pos: int,
    line: int,
    inside_code_block: bool,
    active_line: Option<usize>,
)
    requires
        pos >= s.len(),
    ensures
        spans_from(s, pos, line, inside_code_block, active_line) == Seq::<StyledSpan>::empty(),
{
    reveal(spans_from);
}

/// The styled spans of a whole source text, with line `active_line` showing
/// its syntax.
pub open spec fn markdown_spans(source: Seq<char>, active_line: Option<usize>) -> Seq<StyledSpan> {
    spans_from(source, 0, 0, false, active_line)
}

/// Conditions under which the inline styler may append spans for the window
/// `[from, to)` of line `line`.
pub open spec fn inline_ready(
    spans: Seq<StyledSpan>,
    source: Seq<char>,
    from: int,
    to: int,
    show_source: bool,
    active_line: Option<usize>,
    line: int,
) -> bool {
    &&& 0 <= from <= to <= source.len()
    &&& tiles(spans, from)
    &&& hidden_off_active_line(spans, source, active_line)
    &&& on_line(source, from, to, line)
    &&& show_source == (active_line == Some(line as usize))
}

/// Styles a construct between equal delimiters that starts at `p`.
fn push_delimited(
    s: &Vec<char>,
    p: usize,
    to: usize,
    delimiter: &[char],
    inner: SpanStyle,
    show_source: bool,
    spans: &mut Vec<StyledSpan>,
    Ghost(active_line): Ghost<Option<usize>>,
    Ghost(line): Ghost<int>,
) -> (consumed: Option<usize>)
    requires
        p < to,
        1 <= delimiter@.len() <= 2,
        occurs_in(s@, p as int, to as int, delimiter@),
        inner != SpanStyle::HiddenMarker,
        inline_ready(old(spans)@, s@, p as int, to as int, show_source, active_line, line),
    ensures
        delimited(s@, p as int, to as int, delimiter@, inner, show_source) is Some ==> {
            &&& consumed is Some
            &&& consumed.unwrap() as int == delimited(s@, p as int, to as int, delimiter@, inner, show_source).unwrap().1
            &&& final(spans)@ == old(spans)@ + delimited(s@, p as int, to as int, delimiter@, inner, show_source).unwrap().0
        },
        delimited(s@, p as int, to as int, delimiter@, inner, show_source) is None ==> {
            &&& consumed is None
            &&& final(spans)@ == old(spans)@
        },
        consumed matches Some(e) ==> {
            &&& p < e <= to
            &&& tiles(final(spans)@, e as int)
            &&& hidden_off_active_line(final(spans)@, s@, active_line)
        },
{
    let ghost src = s@;
    let ghost before = spans@;
    let w = delimiter.len();
    let closing = match find_pattern(s, p + w, to, delimiter) {
        Some(c) => c,
        None => return None,
    };
    let marker = source_marker(show_source);
    push_span(spans, p, p + w, marker, Ghost(src), Ghost(active_line));
    push_span(spans, p + w, closing, inner, Ghost(src), Ghost(active_line));
    push_span(spans, closing, closing + w, marker, Ghost(src), Ghost(active_line));
    proof {
        let w_int = delimiter@.len() as int;
        assert(spans@ =~= before + seq![
            span(p as int, p + w_int, marker_style(show_source)),
            span(p + w_int, closing as int, inner),
            span(closing as int, closing + w_int, marker_style(show_source)),
        ]);
    }
    Some(closing + w)
}

/// Styles one inline construct (link, code, emphasis) that starts at `p`.
/// Returns the end of the construct, or `None` (appending nothing) when no
/// complete construct starts there.
#[verifier::rlimit(40)]
#[verifier::spinoff_prover]
fn append_inline_token(
    s: &Vec<char>,
    p: usize,
    to: usize,
    base: InlineBase,
    show_source: bool,
    spans: &mut Vec<StyledSpan>,
    Ghost(active_line): Ghost<Option<usize>>,
    Ghost(line): Ghost<int>,
) -> (consumed: Option<usize>)
    requires
        p < to,
        inline_ready(old(spans)@, s@, p as int, to as int, show_source, active_line, line),
    ensures
        inline_token(s@, p as int, to as int, base, show_source) is Some ==> {
            &&& consumed is Some
            &&& consumed.unwrap() as int == inline_token(s@, p as int, to as int, base, show_source).unwrap().1
            &&& final(spans)@ == old(spans)@ + inline_token(s@, p as int, to as int, base, show_source).unwrap().0
        },
        inline_token(s@, p as int, to as int, base, show_source) is None ==> {
            &&& consumed is None
            &&& final(spans)@ == old(spans)@
        },
        match consumed {
            Some(e) => {
                &&& p < e <= to
                &&& tiles(final(spans)@, e as int)
                &&& hidden_off_active_line(final(spans)@, s@, active_line)
            },
            None => final(spans)@ == old(spans)@,
        },
{
    reveal(inline_token);
    let ghost src = s@;
    let ghost before = spans@;
    let marker = source_marker(show_source);
    let wiki_open: [char; 2] = ['[', '['];
    assert(wiki_open@ =~= seq!['[', '[']);
    if occurs_at_in(s, p, to, &wiki_open) {
        let wiki_close: [char; 2] = [']', ']'];
        assert(wiki_close@ =~= seq![']', ']']);
        let closing = match find_pattern(s, p + 2, to, &wiki_close) {
            Some(c) => c,
            None => return None,
        };
        push_span(spans, p, p + 2, marker, Ghost(src), Ghost(active_line));
        let ghost opened = spans@;
        if show_source {
            push_span(spans, p + 2, closing, SpanStyle::Link, Ghost(src), Ghost(active_line));
        } else {
            let bar: [char; 1] = ['|'];
            assert(bar@ =~= seq!['|']);
            match find_pattern(s, p + 2, closing, &bar) {
                Some(separator) => {
                    push_span(
                        spans,
                        p + 2,
                        separator + 1,
                        SpanStyle::HiddenMarker,
                        Ghost(src),
                        Ghost(active_line),
                    );
                    push_span(
                        spans,
                        separator + 1,
                        closing,
                        SpanStyle::Link,
                        Ghost(src),
                        Ghost(active_line),
                    );
                },
                None => {
                    push_span(
                        spans,
                        p + 2,
                        closing,
                        SpanStyle::Link,
                        Ghost(src),
                        Ghost(active_line),
                    );
                },
            }
        }
        proof {
            assert(spans@ =~= opened + wiki_inner(src, p as int, closing as int, show_source));
        }
        let ghost inner_done = spans@;
        push_span(spans, closing, closing + 2, marker, Ghost(src), Ghost(active_line));
        proof {
            assert(spans@ =~= before + (seq![span(p as int, p + 2, marker_style(show_source))]
                + wiki_inner(src, p as int, closing as int, show_source) + seq![
                span(closing as int, closing + 2, marker_style(show_source)),
            ]));
        }
        return Some(closing + 2);
    }
    if s[p] == '[' {
        let label_sep: [char; 2] = [']', '('];
        assert(label_sep@ =~= seq![']', '(']);
        let label_end = match find_pattern(s, p + 1, to, &label_sep) {
            Some(e) => e,
            None => return None,
        };
        let paren: [char; 1] = [')'];
        assert(paren@ =~= seq![')']);
        let target_end = match find_pattern(s, label_end + 2, to, &paren) {
            Some(e) => e,
            None => return None,
        };
        push_span(spans, p, p + 1, marker, Ghost(src), Ghost(active_line));
        push_span(spans, p + 1, label_end, SpanStyle::Link, Ghost(src), Ghost(active_line));
        push_span(spans, label_end, label_end + 2, marker, Ghost(src), Ghost(active_line));
        push_span(spans, label_end + 2, target_end, marker, Ghost(src), Ghost(active_line));
        push_span(spans, target_end, target_end + 1, marker, Ghost(src), Ghost(active_line));
        proof {
            let m = marker_style(show_source);
            assert(spans@ =~= before + seq![
                span(p as int, p + 1, m),
                span(p + 1, label_end as int, SpanStyle::Link),
                span(label_end as int, label_end + 2, m),
                span(label_end + 2, target_end as int, m),
                span(target_end as int, target_end + 1, m),
            ]);
        }
        return Some(target_end + 1);
    }
    if s[p] == '`' {
        let tick: [char; 1] = ['`'];
        assert(tick@ =~= seq!['`']);
        proof {
            assert(src.subrange(p as int, p + 1) =~= seq!['`']);
        }
        return push_delimited(
            s,
            p,
            to,
            &tick,
            SpanStyle::InlineCode,
            show_source,
            spans,
            Ghost(active_line),
            Ghost(line),
        );
    }
    let double_star: [char; 2] = ['*', '*'];
    assert(double_star@ =~= seq!['*', '*']);
    if occurs_at_in(s, p, to, &double_star) {
        return push_delimited(
            s,
            p,
            to,
            &double_star,
            SpanStyle::Strong(base),
            show_source,
            spans,
            Ghost(active_line),
            Ghost(line),
        );
    }
    let double_under: [char; 2] = ['_', '_'];
    assert(double_under@ =~= seq!['_', '_']);
    if occurs_at_in(s, p, to, &double_under) {
        return push_delimited(
            s,
            p,
            to,
            &double_under,
            SpanStyle::Strong(base),
            show_source,
            spans,
            Ghost(active_line),
            Ghost(line),
        );
    }
    let double_tilde: [char; 2] = ['~', '~'];
    assert(double_tilde@ =~= seq!['~', '~']);
    if occurs_at_in(s, p, to, &double_tilde) {
        return push_delimited(
            s,
            p,
            to,
            &double_tilde,
            SpanStyle::Struck(base),
            show_source,
            spans,
            Ghost(active_line),
            Ghost(line),
        );
    }
    if s[p] == '*' || s[p] == '_' {
        let delimiter: [char; 1] = [s[p]];
        assert(delimiter@ =~= seq![src[p as int]]);
        proof {
            assert(src.subrange(p as int, p + 1) =~= seq![src[p as int]]);
        }
        return push_delimited(
            s,
            p,
            to,
            &delimiter,
            SpanStyle::Italic(base),
            show_source,
            spans,
            Ghost(active_line),
            Ghost(line),
        );
    }
    None
}

/// Styles the inline text `[from, to)`: plain runs get the base style, complete
/// constructs their own spans, and a lone opening character stays plain.
fn append_inline(
    s: &Vec<char>,
    from: usize,
    to: usize,
    base: InlineBase,
    show_source: bool,
    spans: &mut Vec<StyledSpan>,
    Ghost(active_line): Ghost<Option<usize>>,
    Ghost(line): Ghost<int>,
)
    requires
        inline_ready(old(spans)@, s@, from as int, to as int, show_source, active_line, line),
    ensures
        final(spans)@ == old(spans)@ + inline_spans(s@, from as int, to as int, base, show_source),
        tiles(final(spans)@, to as int),
        hidden_off_active_line(final(spans)@, s@, active_line),
{
    let ghost src = s@;
    let ghost start_spans = spans@;
    let plain = plain_style(base);
    let mut pos: usize = from;
    while pos < to
        invariant
            from <= pos <= to <= s.len(),
            src == s@,
            on_line(src, from as int, to as int, line),
            inline_ready(spans@, src, pos as int, to as int, show_source, active_line, line),
            plain == base_style(base),
            spans@ + inline_spans(src, pos as int, to as int, base, show_source) == start_spans
                + inline_spans(src, from as int, to as int, base, show_source),
        decreases to - pos,
    {
        let ghost before = spans@;
        let mut next: usize = pos;
        while next < to && !(s[next] == '`' || s[next] == '*' || s[next] == '_' || s[next] == '~'
            || s[next] == '[')
            invariant
                pos <= next <= to <= s.len(),
                src == s@,
                next_opener(src, next as int, to as int) == next_opener(src, pos as int, to as int),
            decreases to - next,
        {
            next = next + 1;
        }
        assert(next_opener(src, next as int, to as int) == next as int);
        if next > pos {
            push_span(spans, pos, next, plain, Ghost(src), Ghost(active_line));
            proof {
                let piece = seq![span(pos as int, next as int, base_style(base))];
                assert(inline_spans(src, pos as int, to as int, base, show_source) == piece
                    + inline_spans(src, next as int, to as int, base, show_source));
                assert(spans@ =~= before + piece);
                assert(spans@ + inline_spans(src, next as int, to as int, base, show_source)
                    =~= before + inline_spans(src, pos as int, to as int, base, show_source));
            }
            pos = next;
            continue;
        }
        match append_inline_token(
            s,
            pos,
            to,
            base,
            show_source,
            spans,
            Ghost(active_line),
            Ghost(line),
        ) {
            Some(end) => {
                proof {
                    let token = inline_token(src, pos as int, to as int, base, show_source).unwrap().0;
                    assert(inline_spans(src, pos as int, to as int, base, show_source) == token
                        + inline_spans(src, end as int, to as int, base, show_source));
                    assert(spans@ + inline_spans(src, end as int, to as int, base, show_source)
                        =~= before + inline_spans(src, pos as int, to as int, base, show_source));
                }
                pos = end;
            },
            None => {
                push_span(spans, pos, pos + 1, plain, Ghost(src), Ghost(active_line));
                proof {
                    let piece = seq![span(pos as int, pos + 1, base_style(base))];
                    assert(inline_spans(src, pos as int, to as int, base, show_source) == piece
                        + inline_spans(src, pos + 1, to as int, base, show_source));
                    assert(spans@ =~= before + piece);
                    assert(spans@ + inline_spans(src, pos + 1, to as int, base, show_source)
                        =~= before + inline_spans(src, pos as int, to as int, base, show_source));
                }
                pos = pos + 1;
            },
        }
    }
    proof {
        assert(inline_spans(src, pos as int, to as int, base, show_source) =~= Seq::<StyledSpan>::empty());
        assert(spans@ =~= spans@ + inline_spans(src, pos as int, to as int, base, show_source));
    }
}

/// Styles one line `[from, to)` (without its line break).
#[verifier::rlimit(30)]
#[verifier::spinoff_prover]
fn append_line(
    s: &Vec<char>,
    from: usize,
    to: usize,
    inside_code_block: &mut bool,
    show_source: bool,
    spans: &mut Vec<StyledSpan>,
    Ghost(active_line): Ghost<Option<usize>>,
    Ghost(line): Ghost<int>,
)
    requires
        inline_ready(old(spans)@, s@, from as int, to as int, show_source, active_line, line),
    ensures
        final(spans)@ == old(spans)@ + line_spans(
            s@,
            from as int,
            to as int,
            *old(inside_code_block),
            show_source,
        ),
        tiles(final(spans)@, to as int),
        hidden_off_active_line(final(spans)@, s@, active_line),
        *final(inside_code_block) == (*old(inside_code_block) != fence_line(
            s@.subrange(from as int, to as int),
        )),
{
    let ghost src = s@;
    let ghost before = spans@;
    let ghost expected = line_spans(src, from as int, to as int, *inside_code_block, show_source);
    reveal(line_spans);
    let indent_end = skip_white_space_in(s, from, to);
    proof {
        lemma_skip_white_space(src, from as int, to as int);
        lemma_skip_white_space_shift(src, from as int, to as int);
        lemma_occurs_shift(src, from as int, to as int, (indent_end - from) as int, seq!['`', '`', '`']);
    }
    let fence: [char; 3] = ['`', '`', '`'];
    assert(fence@ =~= seq!['`', '`', '`']);
    if occurs_at_in(s, indent_end, to, &fence) {
        push_span(spans, from, to, source_marker(show_source), Ghost(src), Ghost(active_line));
        assert(spans@ =~= before + expected);
        *inside_code_block = !*inside_code_block;
        return;
    }
    if *inside_code_block {
        push_span(spans, from, to, SpanStyle::CodeBlock, Ghost(src), Ghost(active_line));
        assert(spans@ =~= before + expected);
        return;
    }
    if let Some(level) = heading_level(s, indent_end, to) {
        proof {
            lemma_run_end(src, indent_end as int, to as int, '#');
            lemma_run_end(src.subrange(indent_end as int, to as int), 0, (to - indent_end) as int, '#');
            lemma_run_end_shift(src, indent_end as int, to as int, '#');
        }
        push_span(spans, from, indent_end, SpanStyle::Body, Ghost(src), Ghost(active_line));
        let marker_end = indent_end + level + 1;
        let marker_style = if show_source {
            SpanStyle::HeadingMarker(level)
        } else {
            SpanStyle::HiddenMarker
        };
        push_span(spans, indent_end, marker_end, marker_style, Ghost(src), Ghost(active_line));
        push_span(spans, marker_end, to, SpanStyle::Heading(level), Ghost(src), Ghost(active_line));
        assert(spans@ =~= before + expected);
        return;
    }
    if indent_end < to && s[indent_end] == '>' {
        push_span(spans, from, indent_end, SpanStyle::Body, Ghost(src), Ghost(active_line));
        let quote_marker = if show_source {
            SpanStyle::Accent
        } else {
            SpanStyle::HiddenMarker
        };
        push_span(spans, indent_end, indent_end + 1, quote_marker, Ghost(src), Ghost(active_line));
        let ghost marked = spans@;
        append_inline(
            s,
            indent_end + 1,
            to,
            InlineBase::Quote,
            show_source,
            spans,
            Ghost(active_line),
            Ghost(line),
        );
        assert(spans@ =~= before + expected);
        return;
    }
    if is_horizontal_rule(s, indent_end, to) {
        push_span(spans, from, to, SpanStyle::SourceMarker, Ghost(src), Ghost(active_line));
        assert(spans@ =~= before + expected);
        return;
    }
    if let Some(marker_length) = list_marker_length(s, indent_end, to) {
        push_span(spans, from, indent_end, SpanStyle::Body, Ghost(src), Ghost(active_line));
        push_span(
            spans,
            indent_end,
            indent_end + marker_length,
            SpanStyle::Accent,
            Ghost(src),
            Ghost(active_line),
        );
        append_inline(
            s,
            indent_end + marker_length,
            to,
            InlineBase::Body,
            show_source,
            spans,
            Ghost(active_line),
            Ghost(line),
        );
        assert(spans@ =~= before + expected);
        return;
    }
    append_inline(s, from, to, InlineBase::Body, show_source, spans, Ghost(active_line), Ghost(line));
    assert(spans@ =~= before + expected);
}

/// A line whose trimmed start is a code fence.
pub open spec fn fence_line(line: Seq<char>) -> bool {
    occurs_at(line, skip_white_space(line, 0, line.len() as int), seq!['`', '`', '`'])
}

/// `skip_white_space` on a window equals `skip_white_space` on the
/// extracted subsequence.
pub proof fn lemma_skip_white_space_shift(s: Seq<char>, from: int, to: int)
    requires
        0 <= from <= to <= s.len(),
    ensures
        skip_white_space(s, from, to) - from == skip_white_space(
            s.subrange(from, to),
            0,
            to - from,
        ),
{
    lemma_skip_white_space_shift_from(s, from, from, to);
}

proof fn lemma_skip_white_space_shift_from(s: Seq<char>, base: int, from: int, to: int)
    requires
        0 <= base <= from <= to <= s.len(),
    ensures
        skip_white_space(s, from, to) - base == skip_white_space(
            s.subrange(base, to),
            from - base,
            to - base,
        ),
    decreases to - from,
{
    if from < to {
        assert(s.subrange(base, to)[from - base] == s[from]);
        if crate::text::is_white_space(s[from]) {
            lemma_skip_white_space_shift_from(s, base, from + 1, to);
        }
    }
}

/// Splits `source` into styled spans for the live editor. The line numbered
/// `active_line` shows all of its Markdown syntax; other lines collapse it.
pub fn highlight(source: &str, active_line: Option<usize>) -> (spans: Vec<StyledSpan>)
    ensures
        spans@ == markdown_spans(source@, active_line),
        tiles(spans@, source@.len() as int),
        spans_text(source@, spans@) == source@,
        hidden_off_active_line(spans@, source@, active_line),
{
    let s = chars_of(source);
    let ghost src = s@;
    let n = s.len();
    let mut spans: Vec<StyledSpan> = Vec::new();
    let mut inside_code_block: bool = false;
    let mut pos: usize = 0;
    let mut line_index: usize = 0;
    let newline: [char; 1] = ['\n'];
    assert(newline@ =~= seq!['\n']);
    assert(spans@ + spans_from(src, 0, 0, false, active_line) =~= markdown_spans(src, active_line));
    while pos < n
        invariant
            src == s@,
            src == source@,
            n == s.len(),
            newline@ == seq!['\n'],
            0 <= pos <= n,
            tiles(spans@, pos as int),
            hidden_off_active_line(spans@, src, active_line),
            line_index == count_newlines(src, pos as int),
            line_index <= pos,
            spans@ + spans_from(src, pos as int, line_index as int, inside_code_block, active_line)
                == markdown_spans(src, active_line),
        decreases n - pos,
    {
        let ghost before = spans@;
        let ghost inside_before = inside_code_block;
        let found = find_pattern(&s, pos, n, &newline);
        proof {
            lemma_find_in(src, pos as int, n as int, seq!['\n']);
        }
        let line_end: usize = match found {
            Some(e) => e,
            None => n,
        };
        proof {
            assert forall|q: int| pos <= q < line_end implies src[q] != '\n' by {
                if src[q] == '\n' {
                    assert(src.subrange(q, q + 1) =~= seq!['\n']);
                    assert(occurs_at(src, q, seq!['\n']));
                }
            }
            lemma_line_positions(src, pos as int, line_end as int);
        }
        let show_source = match active_line {
            Some(a) => a == line_index,
            None => false,
        };
        proof {
            assert(line_end as int == line_end_from(src, pos as int));
            assert(show_source == (active_line == Some((line_index as int) as usize)));
        }
        append_line(
            &s,
            pos,
            line_end,
            &mut inside_code_block,
            show_source,
            &mut spans,
            Ghost(active_line),
            Ghost(line_index as int),
        );
        if line_end < n {
            proof {
                assert(found is Some);
                assert(occurs_at(src, line_end as int, seq!['\n']));
                assert(src.subrange(line_end as int, line_end + 1) == seq!['\n']);
                assert(src.subrange(line_end as int, line_end + 1)[0] == src[line_end as int]);
                assert(src[line_end as int] == '\n');
                assert(count_newlines(src, line_end + 1) == count_newlines(src, line_end as int) + 1);
            }
            push_span(
                &mut spans,
                line_end,
                line_end + 1,
                SpanStyle::Body,
                Ghost(src),
                Ghost(active_line),
            );
            proof {
                let here = line_spans(src, pos as int, line_end as int, inside_before, show_source);
                let rest = spans_from(src, line_end + 1, line_index + 1, inside_code_block, active_line);
                lemma_spans_from_line(src, pos as int, line_index as int, inside_before, active_line);
                assert(spans_from(src, pos as int, line_index as int, inside_before, active_line)
                    == here + seq![span(line_end as int, line_end + 1, SpanStyle::Body)] + rest);
                assert(spans@ + rest =~= before + spans_from(
                    src,
                    pos as int,
                    line_index as int,
                    inside_before,
                    active_line,
                ));
            }
            pos = line_end + 1;
            line_index = line_index + 1;
        } else {
            push_span(
                &mut spans,
                line_end,
                line_end,
                SpanStyle::Body,
                Ghost(src),
                Ghost(active_line),
            );
            proof {
                let here = line_spans(src, pos as int, line_end as int, inside_before, show_source);
                lemma_spans_from_line(src, pos as int, line_index as int, inside_before, active_line);
                lemma_spans_from_end(src, n as int, line_index as int, inside_code_block, active_line);
                assert(spans_from(src, pos as int, line_index as int, inside_before, active_line)
                    == here + seq![span(line_end as int, line_end as int, SpanStyle::Body)]);
                assert(spans@ =~= before + spans_from(
                    src,
                    pos as int,
                    line_index as int,
                    inside_before,
                    active_line,
                ));
                assert(spans@ + spans_from(src, n as int, line_index as int, inside_code_block, active_line)
                    =~= spans@);
            }
            pos = n;
        }
    }
    proof {
        lemma_spans_from_end(src, pos as int, line_index as int, inside_code_block, active_line);
        assert(spans@ =~= spans@ + spans_from(
            src,
            pos as int,
            line_index as int,
            inside_code_block,
            active_line,
        ));
        lemma_tiles_spell_source(src, spans@, n as int);
        assert(src.subrange(0, n as int) =~= src);
    }
    spans
}

/// Start of the line that holds position `p`: just after the last line break
/// before `p`.
pub open spec fn line_start_of(s: Seq<char>, p: int) -> int
    decreases p,
{
    if p <= 0 {
        0
    } else if s[p - 1] == '\n' {
        p
    } else {
        line_start_of(s, p - 1)
    }
}

/// End of the line that holds position `p`: the first line break at or after
/// `p`, or the end of the text.
pub open spec fn line_end_of(s: Seq<char>, p: int) -> int
    decreases s.len() - p,
{
    if p >= s.len() {
        s.len() as int
    } else if s[p] == '\n' {
        p
    } else {
        line_end_of(s, p + 1)
    }
}

/// The character position a click at `character_index` refers to; indexes past
/// the end refer to the end of the text.
pub open spec fn click_position(s: Seq<char>, character_index: int) -> int {
    if character_index < s.len() {
        character_index
    } else {
        s.len() as int
    }
}

/// Where a task marker would start on the clicked line: after its indentation.
pub open spec fn marker_start_of(s: Seq<char>, character_index: int) -> int {
    let p = click_position(s, character_index);
    skip_white_space(s, line_start_of(s, p), line_end_of(s, p))
}

/// The click lands on a complete task marker `- [ ] `, `- [x] ` or `- [X] `.
pub open spec fn toggles_checkbox(s: Seq<char>, character_index: int) -> bool {
    let p = click_position(s, character_index);
    let m = marker_start_of(s, character_index);
    &&& m <= p < m + 6
    &&& m + 6 <= s.len()
    &&& is_task_marker(s.subrange(m, m + 6))
}

/// The text after toggling: an open task becomes done, a done task open again.
pub open spec fn toggled_text(s: Seq<char>, character_index: int) -> Seq<char> {
    let m = marker_start_of(s, character_index);
    let replacement = if s[m + 3] == ' ' {
        task_done()
    } else {
        task_open()
    };
    s.subrange(0, m) + replacement + s.subrange(m + 6, s.len() as int)
}

/// Finds the clicked line and where a task marker on it would start.
fn locate_marker(s: &Vec<char>, character_index: usize) -> (res: (usize, usize))
    ensures
        res.0 == click_position(s@, character_index as int),
        res.1 == marker_start_of(s@, character_index as int),
        res.1 <= s.len(),
{
    let n = s.len();
    let p: usize = if character_index < n {
        character_index
    } else {
        n
    };
    let mut line_start: usize = p;
    while line_start > 0 && s[line_start - 1] != '\n'
        invariant
            line_start <= p <= n == s.len(),
            line_start_of(s@, line_start as int) == line_start_of(s@, p as int),
        decreases line_start,
    {
        line_start = line_start - 1;
    }
    let mut line_end: usize = p;
    while line_end < n && s[line_end] != '\n'
        invariant
            p <= line_end <= n == s.len(),
            line_end_of(s@, line_end as int) == line_end_of(s@, p as int),
        decreases n - line_end,
    {
        line_end = line_end + 1;
    }
    let marker_start = skip_white_space_in(s, line_start, line_end);
    (p, marker_start)
}

/// Texts with line breaks at the same positions up to `p` give `p` the same
/// line start.
proof fn lemma_line_start_agrees(s: Seq<char>, t: Seq<char>, p: int)
    requires
        p <= s.len(),
        p <= t.len(),
        forall|i: int| 0 <= i < p ==> (s[i] == '\n') == (t[i] == '\n'),
    ensures
        line_start_of(s, p) == line_start_of(t, p),
    decreases p,
{
    if p > 0 {
        lemma_line_start_agrees(s, t, p - 1);
    }
}

/// Texts of one length with line breaks at the same positions from `p` on
/// give `p` the same line end.
proof fn lemma_line_end_agrees(s: Seq<char>, t: Seq<char>, p: int)
    requires
        s.len() == t.len(),
        forall|i: int| p <= i < s.len() ==> (s[i] == '\n') == (t[i] == '\n'),
    ensures
        line_end_of(s, p) == line_end_of(t, p),
    decreases s.len() - p,
{
    if p < s.len() && s[p] != '\n' {
        lemma_line_end_agrees(s, t, p + 1);
    }
}

/// Skipping white space reads no character past the one where it stops.
proof fn lemma_skip_agrees(s: Seq<char>, t: Seq<char>, from: int, to: int)
    requires
        0 <= from,
        to <= s.len(),
        to <= t.len(),
        forall|k: int|
            from <= k < to && k <= skip_white_space(s, from, to) ==> #[trigger] s[k] == t[k],
    ensures
        skip_white_space(s, from, to) == skip_white_space(t, from, to),
    decreases to - from,
{
    if from < to {
        crate::text::lemma_skip_white_space(s, from, to);
    }
    if from < to && crate::text::is_white_space(s[from]) {
        assert(s[from] == t[from]);
        lemma_skip_agrees(s, t, from + 1, to);
    } else if from < to {
        assert(s[from] == t[from]);
    }
}

/// A position lies within its line, and its line within the text.
proof fn lemma_line_bounds(s: Seq<char>, p: int)
    requires
        0 <= p <= s.len(),
    ensures
        0 <= line_start_of(s, p) <= p,
        p <= line_end_of(s, p) <= s.len(),
{
    lemma_line_start_bounds(s, p);
    lemma_line_end_bounds(s, p);
}

proof fn lemma_line_start_bounds(s: Seq<char>, p: int)
    requires
        0 <= p,
    ensures
        0 <= line_start_of(s, p) <= p,
    decreases p,
{
    if p > 0 {
        lemma_line_start_bounds(s, p - 1);
    }
}

proof fn lemma_line_end_bounds(s: Seq<char>, p: int)
    requires
        p <= s.len(),
    ensures
        p <= line_end_of(s, p) <= s.len(),
    decreases s.len() - p,
{
    if p < s.len() && s[p] != '\n' {
        lemma_line_end_bounds(s, p + 1);
    }
}

/// Clicking a task marker a second time undoes the first click, when the
/// marker was `- [ ] ` or `- [x] ` (a `- [X] ` comes back lowercase).
pub proof fn lemma_toggle_twice_restores(s: Seq<char>, character_index: int)
    requires
        0 <= character_index,
        toggles_checkbox(s, character_index),
        s[marker_start_of(s, character_index) + 3] != 'X',
    ensures
        toggles_checkbox(toggled_text(s, character_index), character_index),
        toggled_text(toggled_text(s, character_index), character_index) == s,
{
    let t = toggled_text(s, character_index);
    let p = click_position(s, character_index);
    let m = marker_start_of(s, character_index);
    let replacement = if s[m + 3] == ' ' {
        task_done()
    } else {
        task_open()
    };
    let ls = line_start_of(s, p);
    let le = line_end_of(s, p);
    lemma_line_bounds(s, p);
    crate::text::lemma_skip_white_space(s, ls, le);
    assert(t.len() == s.len());
    assert forall|i: int| 0 <= i < s.len() implies #[trigger] t[i] == if m <= i < m + 6 {
        replacement[i - m]
    } else {
        s[i]
    } by {
        if i < m {
        } else if i < m + 6 {
        } else {
        }
    }
    assert forall|i: int| 0 <= i < s.len() implies (s[i] == '\n') == (#[trigger] t[i] == '\n') by {
        if m <= i < m + 6 {
            assert(s[i] == s.subrange(m, m + 6)[i - m]);
        }
    }
    assert(click_position(t, character_index) == p);
    lemma_line_start_agrees(s, t, p);
    lemma_line_end_agrees(s, t, p);
    assert(s[m] == '-') by {
        assert(s[m] == s.subrange(m, m + 6)[0]);
    }
    lemma_skip_agrees(s, t, ls, le);
    assert(marker_start_of(t, character_index) == m);
    assert(t.subrange(m, m + 6) =~= replacement);
    if s[m + 3] == ' ' {
        assert(s.subrange(m, m + 6)[3] == ' ');
        assert(s.subrange(m, m + 6) =~= task_open());
    } else {
        assert(s.subrange(m, m + 6)[3] == s[m + 3]);
        assert(s.subrange(m, m + 6) =~= task_done());
    }
    assert(t[m + 3] == replacement[3]);
    assert(toggled_text(t, character_index) =~= s);
}

/// Toggles a task marker only when the character under the pointer belongs to
/// that marker. Returns whether the text changed.
pub fn toggle_checkbox_at_character(text: &mut String, character_index: usize) -> (toggled: bool)
    ensures
        toggled == toggles_checkbox(old(text)@, character_index as int),
        final(text)@ == if toggled {
            toggled_text(old(text)@, character_index as int)
        } else {
            old(text)@
        },
{
    let s = chars_of(text.as_str());
    let n = s.len();
    let (p, m) = locate_marker(&s, character_index);
    if p < m || p - m >= 6 || n - m < 6 {
        return false;
    }
    let open_marker: [char; 6] = ['-', ' ', '[', ' ', ']', ' '];
    let done_marker: [char; 6] = ['-', ' ', '[', 'x', ']', ' '];
    let done_upper: [char; 6] = ['-', ' ', '[', 'X', ']', ' '];
    assert(open_marker@ =~= task_open());
    assert(done_marker@ =~= task_done());
    assert(done_upper@ =~= task_done_upper());
    let is_open = occurs_at_in(&s, m, n, &open_marker);
    let is_done = occurs_at_in(&s, m, n, &done_marker) || occurs_at_in(&s, m, n, &done_upper);
    if !is_open && !is_done {
        return false;
    }
    let replacement: &str = if is_open {
        "- [x] "
    } else {
        "- [ ] "
    };
    proof {
        reveal_strlit("- [x] ");
        reveal_strlit("- [ ] ");
        assert(replacement@ =~= (if is_open {
            task_done()
        } else {
            task_open()
        }));
        if is_open {
            assert(s@.subrange(m as int, m + 6)[3] == ' ');
        } else {
            assert(s@.subrange(m as int, m + 6)[3] != ' ');
        }
    }
    let mut result = String::from_str(text.as_str().substring_char(0, m));
    result.append(replacement);
    result.append(text.as_str().substring_char(m + 6, n));
    *text = result;
    true
}

} // verus!
