//! Names of note files and vault folders that are valid on every platform,
//! Windows included.

use crate::interop::{lemma_hex_digits_len, uuid_simple, uuid_simple_text};
use crate::text::{
    chars_of, eq_ignore_ascii_case, eq_ignore_ascii_case_in, is_control, string_from_chars, trim,
    trim_bounds,
};
use vstd::prelude::*;
use vstd::string::{StrSliceExecFns, StringExecFns};

verus! {

/// Characters that Windows does not allow in file names.
pub open spec fn is_forbidden_in_names(c: char) -> bool {
    c == '<' || c == '>' || c == ':' || c == '"' || c == '/' || c == '\\' || c == '|' || c == '?'
        || c == '*'
}

fn forbidden_in_names(c: char) -> (r: bool)
    ensures
        r == is_forbidden_in_names(c),
{
    c == '<' || c == '>' || c == ':' || c == '"' || c == '/' || c == '\\' || c == '|' || c == '?'
        || c == '*'
}

/// Device names that Windows reserves whatever their case.
pub open spec fn reserved_names() -> Seq<Seq<char>> {
    seq![
        seq!['C', 'O', 'N'],
        seq!['P', 'R', 'N'],
        seq!['A', 'U', 'X'],
        seq!['N', 'U', 'L'],
        seq!['C', 'O', 'M', '1'],
        seq!['C', 'O', 'M', '2'],
        seq!['C', 'O', 'M', '3'],
        seq!['C', 'O', 'M', '4'],
        seq!['C', 'O', 'M', '5'],
        seq!['C', 'O', 'M', '6'],
        seq!['C', 'O', 'M', '7'],
        seq!['C', 'O', 'M', '8'],
        seq!['C', 'O', 'M', '9'],
        seq!['L', 'P', 'T', '1'],
        seq!['L', 'P', 'T', '2'],
        seq!['L', 'P', 'T', '3'],
        seq!['L', 'P', 'T', '4'],
        seq!['L', 'P', 'T', '5'],
        seq!['L', 'P', 'T', '6'],
        seq!['L', 'P', 'T', '7'],
        seq!['L', 'P', 'T', '8'],
        seq!['L', 'P', 'T', '9'],
    ]
}

/// `name` equals a reserved device name, ignoring ASCII case.
pub open spec fn is_reserved_name(name: Seq<char>) -> bool {
    exists|k: int| 0 <= k < reserved_names().len() && eq_ignore_ascii_case(name, reserved_names()[k])
}

/// Exec counterpart of [`is_reserved_name`] for a window of `s`.
fn reserved_name_in(s: &Vec<char>, from: usize, to: usize) -> (r: bool)
    requires
        from <= to <= s.len(),
    ensures
        r == is_reserved_name(s@.subrange(from as int, to as int)),
{
    let names: [[char; 4]; 18] = [
        ['C', 'O', 'M', '1'],
        ['C', 'O', 'M', '2'],
        ['C', 'O', 'M', '3'],
        ['C', 'O', 'M', '4'],
        ['C', 'O', 'M', '5'],
        ['C', 'O', 'M', '6'],
        ['C', 'O', 'M', '7'],
        ['C', 'O', 'M', '8'],
        ['C', 'O', 'M', '9'],
        ['L', 'P', 'T', '1'],
        ['L', 'P', 'T', '2'],
        ['L', 'P', 'T', '3'],
        ['L', 'P', 'T', '4'],
        ['L', 'P', 'T', '5'],
        ['L', 'P', 'T', '6'],
        ['L', 'P', 'T', '7'],
        ['L', 'P', 'T', '8'],
        ['L', 'P', 'T', '9'],
    ];
    let short_names: [[char; 3]; 4] = [['C', 'O', 'N'], ['P', 'R', 'N'], ['A', 'U', 'X'], ['N', 'U', 'L']];
    let ghost window = s@.subrange(from as int, to as int);
    let mut k: usize = 0;
    while k < 4
        invariant
            0 <= k <= 4,
            from <= to <= s.len(),
            window == s@.subrange(from as int, to as int),
            forall|j: int| 0 <= j < 4 ==> #[trigger] short_names@[j]@ == reserved_names()[j],
            forall|j: int| 0 <= j < k ==> !eq_ignore_ascii_case(window, reserved_names()[j]),
        decreases 4 - k,
    {
        let name: [char; 3] = short_names[k];
        if eq_ignore_ascii_case_in(s, from, to, &name) {
            assert(eq_ignore_ascii_case(window, reserved_names()[k as int]));
            return true;
        }
        k = k + 1;
    }
    let mut k: usize = 0;
    while k < 18
        invariant
            0 <= k <= 18,
            from <= to <= s.len(),
            window == s@.subrange(from as int, to as int),
            forall|j: int| 0 <= j < 18 ==> #[trigger] names@[j]@ == reserved_names()[j + 4],
            forall|j: int| 0 <= j < k + 4 ==> !eq_ignore_ascii_case(window, reserved_names()[j]),
        decreases 18 - k,
    {
        let name: [char; 4] = names[k];
        if eq_ignore_ascii_case_in(s, from, to, &name) {
            assert(eq_ignore_ascii_case(window, reserved_names()[k + 4]));
            return true;
        }
        k = k + 1;
    }
    false
}

pub open spec fn name_char(c: char) -> char {
    if is_forbidden_in_names(c) {
        '_'
    } else {
        c
    }
}

/// The title without control characters, with forbidden characters replaced
/// by `_`.
pub open spec fn clean_title(s: Seq<char>) -> Seq<char>
    decreases s.len(),
{
    if s.len() == 0 {
        Seq::empty()
    } else {
        let rest = clean_title(s.drop_last());
        if is_control(s.last()) {
            rest
        } else {
            rest.push(name_char(s.last()))
        }
    }
}

/// At most the first `n` characters of `s`.
pub open spec fn first_chars(s: Seq<char>, n: nat) -> Seq<char> {
    if s.len() <= n {
        s
    } else {
        s.take(n as int)
    }
}

/// End of `s[..to]` once trailing dots and spaces are removed.
pub open spec fn trailing_dots_end(s: Seq<char>, from: int, to: int) -> int
    decreases to - from,
{
    if to <= from {
        from
    } else if s[to - 1] == '.' || s[to - 1] == ' ' {
        trailing_dots_end(s, from, to - 1)
    } else {
        to
    }
}

/// `str::trim_end_matches(['.', ' '])`.
pub open spec fn strip_trailing_dots(s: Seq<char>) -> Seq<char> {
    s.take(trailing_dots_end(s, 0, s.len() as int))
}

pub open spec fn untitled() -> Seq<char> {
    seq!['U', 'n', 't', 'i', 't', 'l', 'e', 'd']
}

/// The file stem used for a note title: cleaned, cut to 80 characters,
/// trimmed, without trailing dots or spaces, `Untitled` when nothing is left,
/// and prefixed with `_` when it would be a reserved device name.
pub open spec fn sanitized_stem(title: Seq<char>) -> Seq<char> {
    let stem = strip_trailing_dots(trim(first_chars(clean_title(title), 80)));
    let stem = if stem.len() == 0 {
        untitled()
    } else {
        stem
    };
    if is_reserved_name(stem) {
        seq!['_'] + stem
    } else {
        stem
    }
}

/// A name Windows accepts for a file or folder.
pub open spec fn portable_name(name: Seq<char>) -> bool {
    &&& name.len() > 0
    &&& forall|i: int|
        0 <= i < name.len() ==> !is_forbidden_in_names(#[trigger] name[i]) && !is_control(name[i])
    &&& name.last() != '.'
    &&& name.last() != ' '
}

proof fn lemma_clean_title_prefix(s: Seq<char>, i: int)
    requires
        0 <= i <= s.len(),
    ensures
        clean_title(s.take(i)).len() <= clean_title(s).len(),
        clean_title(s) .take(clean_title(s.take(i)).len() as int) == clean_title(s.take(i)),
    decreases s.len(),
{
    if i == s.len() {
        assert(s.take(i) =~= s);
    } else {
        assert(s.drop_last().take(i) =~= s.take(i));
        lemma_clean_title_prefix(s.drop_last(), i);
        let a = clean_title(s.take(i));
        let b = clean_title(s.drop_last());
        if !is_control(s.last()) {
            assert(b.push(name_char(s.last())).take(a.len() as int) =~= b.take(a.len() as int));
        }
    }
}

proof fn lemma_clean_title_chars(s: Seq<char>)
    ensures
        forall|i: int|
            0 <= i < clean_title(s).len() ==> !is_forbidden_in_names(#[trigger] clean_title(s)[i])
                && !is_control(clean_title(s)[i]),
    decreases s.len(),
{
    if s.len() > 0 {
        lemma_clean_title_chars(s.drop_last());
        let rest = clean_title(s.drop_last());
        if !is_control(s.last()) {
            assert forall|i: int| 0 <= i < clean_title(s).len() implies !is_forbidden_in_names(
                #[trigger] clean_title(s)[i],
            ) && !is_control(clean_title(s)[i]) by {
                if i < rest.len() {
                    assert(clean_title(s)[i] == rest[i]);
                }
            }
        }
    }
}

proof fn lemma_trailing_dots_end(s: Seq<char>, from: int, to: int)
    requires
        from <= to,
    ensures
        from <= trailing_dots_end(s, from, to) <= to,
        trailing_dots_end(s, from, to) > from ==> s[trailing_dots_end(s, from, to) - 1] != '.'
            && s[trailing_dots_end(s, from, to) - 1] != ' ',
    decreases to - from,
{
    if from < to && (s[to - 1] == '.' || s[to - 1] == ' ') {
        lemma_trailing_dots_end(s, from, to - 1);
    }
}

proof fn lemma_trailing_dots_shift(s: Seq<char>, from: int, to: int)
    requires
        0 <= from <= to <= s.len(),
    ensures
        trailing_dots_end(s, from, to) - from == trailing_dots_end(
            s.subrange(from, to),
            0,
            to - from,
        ),
    decreases to - from,
{
    if from < to {
        assert(s.subrange(from, to)[to - from - 1] == s[to - 1]);
        if s[to - 1] == '.' || s[to - 1] == ' ' {
            lemma_trailing_dots_shift(s, from, to - 1);
            lemma_trailing_dots_prefix(s.subrange(from, to), to - from - 1);
            assert(s.subrange(from, to).take(to - from - 1) =~= s.subrange(from, to - 1));
        }
    }
}

proof fn lemma_trailing_dots_prefix(s: Seq<char>, to: int)
    requires
        0 <= to <= s.len(),
    ensures
        trailing_dots_end(s, 0, to) == trailing_dots_end(s.take(to), 0, to),
    decreases to,
{
    if 0 < to {
        assert(s.take(to)[to - 1] == s[to - 1]);
        if s[to - 1] == '.' || s[to - 1] == ' ' {
            lemma_trailing_dots_prefix(s, to - 1);
            lemma_trailing_dots_prefix(s.take(to), to - 1);
            assert(s.take(to).take(to - 1) =~= s.take(to - 1));
        }
    }
}

/// A sanitised file stem has at most 80 characters, does not start with
/// white space and is never a reserved device name.
pub proof fn lemma_sanitized_stem_bounds(title: Seq<char>)
    ensures
        sanitized_stem(title).len() <= 80,
        sanitized_stem(title).len() > 0,
        !crate::text::is_white_space(sanitized_stem(title)[0]),
        !is_reserved_name(sanitized_stem(title)),
{
    let cut = first_chars(clean_title(title), 80);
    let start = crate::text::skip_white_space(cut, 0, cut.len() as int);
    crate::text::lemma_skip_white_space(cut, 0, cut.len() as int);
    crate::text::lemma_trim_end_white_space(cut, start, cut.len() as int);
    let end = crate::text::trim_end_white_space(cut, start, cut.len() as int);
    let t = trim(cut);
    assert(t == cut.subrange(start, end));
    lemma_trailing_dots_end(t, 0, t.len() as int);
    let stripped = strip_trailing_dots(t);
    let stem = if stripped.len() == 0 {
        untitled()
    } else {
        stripped
    };
    if stripped.len() > 0 {
        assert(stripped[0] == t[0]);
        assert(t[0] == cut[start]);
        assert(start < end);
    }
    assert(!crate::text::is_white_space(stem[0]));
    if is_reserved_name(stem) {
        let k = choose|k: int| 0 <= k < reserved_names().len() && eq_ignore_ascii_case(stem, reserved_names()[k]);
        assert(stem.len() <= 4);
        let named = seq!['_'] + stem;
        if is_reserved_name(named) {
            let k2 = choose|k: int| 0 <= k < reserved_names().len() && eq_ignore_ascii_case(named, reserved_names()[k]);
            assert(named.len() == 4);
            assert(crate::text::ascii_lower(named[0]) == crate::text::ascii_lower(reserved_names()[k2][0]));
            assert(named[0] == '_');
        }
    }
}

/// Turns a note title into a file stem that is valid on Windows.
pub fn sanitize_file_stem(title: &str) -> (stem: String)
    ensures
        stem@ == sanitized_stem(title@),
        portable_name(stem@),
{
    let chars = chars_of(title);
    let mut cleaned: Vec<char> = Vec::new();
    let mut i: usize = 0;
    while i < chars.len() && cleaned.len() < 80
        invariant
            0 <= i <= chars.len(),
            chars@ == title@,
            cleaned@ == clean_title(chars@.take(i as int)),
            cleaned.len() <= 80,
        decreases chars.len() - i,
    {
        let c = chars[i];
        assert(chars@.take(i + 1).drop_last() =~= chars@.take(i as int));
        if !crate::text::control(c) {
            if forbidden_in_names(c) {
                cleaned.push('_');
            } else {
                cleaned.push(c);
            }
        }
        i = i + 1;
    }
    proof {
        lemma_clean_title_prefix(title@, i as int);
        lemma_clean_title_chars(title@);
        if i == chars.len() {
            assert(chars@.take(i as int) =~= title@);
        }
        assert(cleaned@ == first_chars(clean_title(title@), 80));
    }
    let (start, end) = trim_bounds(&cleaned);
    let mut stop: usize = end;
    while stop > start && (cleaned[stop - 1] == '.' || cleaned[stop - 1] == ' ')
        invariant
            start <= stop <= end <= cleaned.len(),
            trailing_dots_end(cleaned@, start as int, stop as int) == trailing_dots_end(
                cleaned@,
                start as int,
                end as int,
            ),
        decreases stop,
    {
        stop = stop - 1;
    }
    proof {
        lemma_trailing_dots_end(cleaned@, start as int, end as int);
        lemma_trailing_dots_shift(cleaned@, start as int, end as int);
        assert(cleaned@.subrange(start as int, end as int).take((stop - start) as int)
            =~= cleaned@.subrange(start as int, stop as int));
    }
    let mut body: Vec<char> = Vec::new();
    if stop == start {
        body = vec!['U', 'n', 't', 'i', 't', 'l', 'e', 'd'];
        assert(body@ =~= untitled());
    } else {
        let mut k: usize = start;
        while k < stop
            invariant
                start <= k <= stop <= cleaned.len(),
                body@ == cleaned@.subrange(start as int, k as int),
            decreases stop - k,
        {
            body.push(cleaned[k]);
            assert(cleaned@.subrange(start as int, k + 1) =~= body@);
            k = k + 1;
        }
    }
    let reserved = reserved_name_in(&body, 0, body.len());
    assert(body@.subrange(0, body.len() as int) =~= body@);
    let mut result: Vec<char> = Vec::new();
    if reserved {
        result.push('_');
    }
    let mut k: usize = 0;
    while k < body.len()
        invariant
            0 <= k <= body.len(),
            result@ == (if reserved {
                seq!['_']
            } else {
                Seq::<char>::empty()
            }) + body@.take(k as int),
        decreases body.len() - k,
    {
        result.push(body[k]);
        assert(body@.take(k + 1) =~= body@.take(k as int).push(body@[k as int]));
        k = k + 1;
    }
    proof {
        assert(body@.take(body.len() as int) =~= body@);
        if reserved {
            assert(result@ =~= seq!['_'] + body@);
        } else {
            assert(result@ =~= body@);
        }
        assert forall|j: int| 0 <= j < result@.len() implies !is_forbidden_in_names(
            #[trigger] result@[j],
        ) && !is_control(result@[j]) by {
            if stop != start {
                let jj = if reserved { j - 1 } else { j };
                if jj >= 0 {
                    assert(result@[j] == body@[jj]);
                    assert(body@[jj] == cleaned@[start + jj]);
                }
            }
        }
        if stop != start {
            assert(result@.last() == cleaned@[stop - 1]);
        }
    }
    string_from_chars(&result)
}

/// Why a folder name was refused.
#[derive(Clone, Copy, Debug, PartialEq, Eq, Structural)]
pub enum FolderNameError {
    Empty,
    InvalidCharacters,
    Reserved,
}

impl FolderNameError {
    /// The message shown to the user.
    pub fn message(&self) -> (text: &'static str)
        ensures
            *self == FolderNameError::Empty ==> text@ == "Folder name cannot be empty"@,
            *self == FolderNameError::InvalidCharacters ==> text@
                == "Folder name contains characters invalid on Windows"@,
            *self == FolderNameError::Reserved ==> text@ == "Folder name is reserved on Windows"@,
    {
        match self {
            FolderNameError::Empty => "Folder name cannot be empty",
            FolderNameError::InvalidCharacters => "Folder name contains characters invalid on Windows",
            FolderNameError::Reserved => "Folder name is reserved on Windows",
        }
    }
}

/// The verdict on a folder name, judged on the trimmed name.
pub open spec fn folder_name_verdict(name: Seq<char>) -> Result<(), FolderNameError> {
    let t = trim(name);
    if t.len() == 0 || t == seq!['.'] || t == seq!['.', '.'] {
        Err(FolderNameError::Empty)
    } else if t.last() == '.' || t.last() == ' ' || exists|i: int|
        0 <= i < t.len() && (is_control(#[trigger] t[i]) || is_forbidden_in_names(t[i])) {
        Err(FolderNameError::InvalidCharacters)
    } else if is_reserved_name(t) {
        Err(FolderNameError::Reserved)
    } else {
        Ok(())
    }
}

/// An ASCII letter.
pub open spec fn ascii_letter(c: char) -> bool {
    ('a' <= c && c <= 'z') || ('A' <= c && c <= 'Z')
}

/// A folder name made of ASCII letters is refused only as a reserved device
/// name: with five or more letters it is always accepted, and otherwise it
/// is refused exactly when it equals, ignoring ASCII case, one of the
/// device names `CON`, `PRN`, `AUX`, `NUL`, `COM1`-`COM9`, `LPT1`-`LPT9`.
pub proof fn lemma_letter_folder_names(name: Seq<char>)
    requires
        trim(name).len() > 0,
        forall|i: int| 0 <= i < trim(name).len() ==> ascii_letter(#[trigger] trim(name)[i]),
    ensures
        trim(name).len() >= 5 ==> folder_name_verdict(name) == Ok::<(), FolderNameError>(()),
        folder_name_verdict(name) is Ok || folder_name_verdict(name) == Err::<(), FolderNameError>(
            FolderNameError::Reserved,
        ),
        (folder_name_verdict(name) == Err::<(), FolderNameError>(FolderNameError::Reserved)) <==> (
        exists|k: int| 0 <= k < 22 && #[trigger] eq_ignore_ascii_case(trim(name), reserved_names()[k])),
{
    let t = trim(name);
    assert(ascii_letter(t[t.len() - 1]));
    assert(ascii_letter(t[0]));
    assert(t != seq!['.']) by {
        if t == seq!['.'] {
            assert(t[0] == '.');
        }
    }
    assert(t != seq!['.', '.']) by {
        if t == seq!['.', '.'] {
            assert(t[0] == '.');
        }
    }
    assert(!(exists|i: int| 0 <= i < t.len() && (is_control(#[trigger] t[i]) || is_forbidden_in_names(t[i])))) by {
        assert forall|i: int| 0 <= i < t.len() implies !(is_control(#[trigger] t[i]) || is_forbidden_in_names(t[i])) by {
            assert(ascii_letter(t[i]));
        }
    }
    assert(reserved_names().len() == 22);
    assert forall|k: int| 0 <= k < 22 implies (#[trigger] reserved_names()[k]).len() <= 4 by {
        assert(reserved_names()[k] == reserved_names()[k]);
    }
    if t.len() >= 5 {
        assert forall|k: int| 0 <= k < 22 implies !#[trigger] eq_ignore_ascii_case(t, reserved_names()[k]) by {
            assert(reserved_names()[k].len() <= 4);
        }
    }
}

/// Checks that a folder name is non-empty, not `.` or `..`, free of
/// characters Windows rejects, does not end with a dot or space and is not a
/// reserved device name.
pub fn validate_folder_name(name: &str) -> (verdict: Result<(), FolderNameError>)
    ensures
        verdict == folder_name_verdict(name@),
        verdict is Ok ==> portable_name(trim(name@)),
{
    let chars = chars_of(name);
    let (start, end) = trim_bounds(&chars);
    let ghost t = chars@.subrange(start as int, end as int);
    if end == start {
        return Err(FolderNameError::Empty);
    }
    if (end - start == 1 && chars[start] == '.') || (end - start == 2 && chars[start] == '.'
        && chars[start + 1] == '.') {
        proof {
            if end - start == 1 {
                assert(t =~= seq!['.']);
            } else {
                assert(t =~= seq!['.', '.']);
            }
        }
        return Err(FolderNameError::Empty);
    }
    proof {
        if t == seq!['.'] {
            assert(t[0] == chars@[start as int]);
        }
        if t == seq!['.', '.'] {
            assert(t[0] == chars@[start as int]);
            assert(t[1] == chars@[start + 1]);
        }
    }
    let last = chars[end - 1];
    assert(t.last() == last);
    if last == '.' || last == ' ' {
        return Err(FolderNameError::InvalidCharacters);
    }
    let mut k: usize = start;
    while k < end
        invariant
            start <= k <= end <= chars.len(),
            t == chars@.subrange(start as int, end as int),
            t == trim(name@),
            !(t.len() == 0 || t == seq!['.'] || t == seq!['.', '.']),
            forall|j: int|
                0 <= j < k - start ==> !is_control(#[trigger] t[j]) && !is_forbidden_in_names(t[j]),
        decreases end - k,
    {
        let c = chars[k];
        assert(t[k - start] == c);
        if crate::text::control(c) || forbidden_in_names(c) {
            assert(is_control(t[k - start]) || is_forbidden_in_names(t[k - start]));
            return Err(FolderNameError::InvalidCharacters);
        }
        k = k + 1;
    }
    if reserved_name_in(&chars, start, end) {
        return Err(FolderNameError::Reserved);
    }
    Ok(())
}

/// The file name of a note: its sanitised title, `--`, the first eight hex
/// digits of its UUID, and the `.md` extension.
pub open spec fn note_file_name_of(title: Seq<char>, id: u128) -> Seq<char> {
    sanitized_stem(title) + seq!['-', '-'] + uuid_simple_text(id).take(8) + seq!['.', 'm', 'd']
}

pub fn note_file_name(title: &str, id: u128) -> (name: String)
    ensures
        name@ == note_file_name_of(title@, id),
{
    let mut name = sanitize_file_stem(title);
    let separator: &str = "--";
    let extension: &str = ".md";
    proof {
        reveal_strlit("--");
        reveal_strlit(".md");
        lemma_hex_digits_len(id as nat, 32);
    }
    name.append(separator);
    let digits = uuid_simple(id);
    let short = digits.as_str().substring_char(0, 8);
    name.append(short);
    name.append(extension);
    proof {
        assert(uuid_simple_text(id).subrange(0, 8) =~= uuid_simple_text(id).take(8));
        assert(separator@ =~= seq!['-', '-']);
        assert(extension@ =~= seq!['.', 'm', 'd']);
    }
    name
}

} // verus!
