//! The Markdown file format of a note: a YAML frontmatter block between `---`
//! lines, a blank line, then the note's content.

use crate::text::{
    chars_of, find_in, find_pattern, lemma_find_in, lemma_find_in_first, is_white_space, lemma_trim_end_white_space, occurs_at,
    occurs_at_in, string_from_chars, trim_end_white_space, trim_end_white_space_in,
};
use vstd::prelude::*;
use vstd::string::StringSliceAdditionalSpecFns;
use vstd::utf8::encode_utf8;
use vstd::string::{StrSliceExecFns, StringExecFns};

verus! {

/// `str::replace("\r\n", "\n")`.
pub open spec fn without_crlf(s: Seq<char>) -> Seq<char>
    decreases s.len(),
{
    if s.len() == 0 {
        Seq::empty()
    } else if s.len() >= 2 && s[0] == '\r' && s[1] == '\n' {
        seq!['\n'] + without_crlf(s.skip(2))
    } else {
        seq![s[0]] + without_crlf(s.skip(1))
    }
}

/// No carriage return is directly followed by a line feed.
pub open spec fn free_of_crlf(s: Seq<char>) -> bool {
    forall|i: int| 0 <= i && i + 1 < s.len() ==> !(#[trigger] s[i] == '\r' && s[i + 1] == '\n')
}

/// Text without CRLF pairs is left as it is.
pub proof fn lemma_without_crlf_identity(s: Seq<char>)
    requires
        free_of_crlf(s),
    ensures
        without_crlf(s) == s,
    decreases s.len(),
{
    if s.len() > 0 {
        assert(!(s.len() >= 2 && s[0] == '\r' && s[1] == '\n')) by {
            if s.len() >= 2 {
                assert(!(s[0int] == '\r' && s[0int + 1] == '\n'));
            }
        }
        let rest = s.skip(1);
        assert forall|i: int| 0 <= i && i + 1 < rest.len() implies !(#[trigger] rest[i] == '\r'
            && rest[i + 1] == '\n') by {
            assert(rest[i] == s[i + 1]);
            assert(rest[i + 1] == s[i + 1 + 1]);
        }
        lemma_without_crlf_identity(rest);
        assert(seq![s[0]] + rest =~= s);
    }
}

/// Replaces every CRLF line ending with LF.
pub fn crlf_to_lf(raw: &str) -> (normalized: String)
    ensures
        normalized@ == without_crlf(raw@),
{
    let s = chars_of(raw);
    let mut out: Vec<char> = Vec::new();
    let mut i: usize = 0;
    assert(s@.skip(0) =~= s@);
    assert(out@ + without_crlf(s@) =~= without_crlf(s@));
    while i < s.len()
        invariant
            0 <= i <= s.len(),
            s@ == raw@,
            out@ + without_crlf(s@.skip(i as int)) == without_crlf(s@),
        decreases s.len() - i,
    {
        let ghost rest = s@.skip(i as int);
        if i + 1 < s.len() && s[i] == '\r' && s[i + 1] == '\n' {
            out.push('\n');
            proof {
                assert(rest[0] == '\r' && rest[1] == '\n');
                assert(rest.skip(2) =~= s@.skip(i + 2));
                assert(out@ + without_crlf(s@.skip(i + 2)) =~= out@.drop_last() + without_crlf(rest));
            }
            i = i + 2;
        } else {
            out.push(s[i]);
            proof {
                assert(rest[0] == s@[i as int]);
                assert(!(rest.len() >= 2 && rest[0] == '\r' && rest[1] == '\n'));
                assert(rest.skip(1) =~= s@.skip(i + 1));
                assert(out@ + without_crlf(s@.skip(i + 1)) =~= out@.drop_last() + without_crlf(rest));
            }
            i = i + 1;
        }
    }
    proof {
        assert(s@.skip(s.len() as int) =~= Seq::<char>::empty());
        assert(out@ + Seq::<char>::empty() =~= out@);
    }
    string_from_chars(&out)
}

pub open spec fn opening_fence() -> Seq<char> {
    seq!['-', '-', '-', '\n']
}

pub open spec fn closing_fence() -> Seq<char> {
    seq!['\n', '-', '-', '-', '\n']
}

/// Why a note file could not be split into frontmatter and content.
#[derive(Clone, Copy, Debug, PartialEq, Eq, Structural)]
pub enum DocumentError {
    /// The file does not start with a `---` line.
    NoFrontmatter,
    /// No `---` line closes the frontmatter.
    Unclosed,
}

impl DocumentError {
    /// The message shown to the user.
    pub fn message(&self) -> (text: &'static str)
        ensures
            *self == DocumentError::NoFrontmatter ==> text@ == "Markdown file has no YAML frontmatter"@,
            *self == DocumentError::Unclosed ==> text@ == "YAML frontmatter is not closed"@,
    {
        match self {
            DocumentError::NoFrontmatter => "Markdown file has no YAML frontmatter",
            DocumentError::Unclosed => "YAML frontmatter is not closed",
        }
    }
}

/// Content that follows the closing fence ending at `k`: one blank line
/// after the fence is dropped.
pub open spec fn body_from(n: Seq<char>, k: int) -> Seq<char> {
    if k < n.len() && n[k] == '\n' {
        n.subrange(k + 1, n.len() as int)
    } else {
        n.subrange(k, n.len() as int)
    }
}

/// How a note file reads after CRLF line endings become LF: the YAML between
/// the opening `---` line and the first closing `---` line, and the content.
pub open spec fn parse_document(raw: Seq<char>) -> Result<(Seq<char>, Seq<char>), DocumentError> {
    let n = without_crlf(raw);
    if !occurs_at(n, 0, opening_fence()) {
        Err(DocumentError::NoFrontmatter)
    } else {
        match find_in(n, 4, n.len() as int, closing_fence()) {
            None => Err(DocumentError::Unclosed),
            Some(c) => Ok((n.subrange(4, c), body_from(n, c + 5))),
        }
    }
}

/// Splits a note file into its YAML frontmatter and its content.
pub fn split_note_document(raw: &str) -> (parts: Result<(String, String), DocumentError>)
    ensures
        match parts {
            Ok((yaml, content)) => parse_document(raw@) == Ok::<(Seq<char>, Seq<char>), DocumentError>((yaml@, content@)),
            Err(e) => parse_document(raw@) == Err::<(Seq<char>, Seq<char>), DocumentError>(e),
        },
{
    let normalized = crlf_to_lf(raw);
    let n = chars_of(normalized.as_str());
    let len = n.len();
    let opening: [char; 4] = ['-', '-', '-', '\n'];
    assert(opening@ =~= opening_fence());
    if !occurs_at_in(&n, 0, len, &opening) {
        return Err(DocumentError::NoFrontmatter);
    }
    let closing: [char; 5] = ['\n', '-', '-', '-', '\n'];
    assert(closing@ =~= closing_fence());
    let c = match find_pattern(&n, 4, len, &closing) {
        Some(c) => c,
        None => return Err(DocumentError::Unclosed),
    };
    let text = normalized.as_str();
    let yaml = String::from_str(text.substring_char(4, c));
    let k = c + 5;
    let content = if k < len && n[k] == '\n' {
        String::from_str(text.substring_char(k + 1, len))
    } else {
        String::from_str(text.substring_char(k, len))
    };
    Ok((yaml, content))
}

/// `str::trim_end`.
pub open spec fn trim_end(s: Seq<char>) -> Seq<char> {
    s.take(trim_end_white_space(s, 0, s.len() as int))
}

/// The file text for a note: opening fence, the YAML without trailing white
/// space, closing fence, a blank line, and the content.
pub open spec fn compose_document(yaml: Seq<char>, content: Seq<char>) -> Seq<char> {
    opening_fence() + trim_end(yaml) + closing_fence() + seq!['\n'] + content
}

pub fn compose_note_document(yaml: &str, content: &str) -> (document: String)
    ensures
        document@ == compose_document(yaml@, content@),
{
    let y = chars_of(yaml);
    let end = trim_end_white_space_in(&y, 0, y.len());
    let mut document = String::from_str("---\n");
    document.append(yaml.substring_char(0, end));
    document.append("\n---\n\n");
    document.append(content);
    proof {
        reveal_strlit("---\n");
        reveal_strlit("\n---\n\n");
        assert(y@.subrange(0, end as int) =~= trim_end(yaml@));
        assert(document@ =~= compose_document(yaml@, content@));
    }
    document
}

/// The YAML holds no closing fence, not even one completed by the fence
/// written after it.
pub open spec fn fence_free(yaml: Seq<char>) -> bool {
    forall|q: int| 0 <= q < yaml.len() ==> !occurs_at(yaml + closing_fence(), q, closing_fence())
}

/// A saved note reads back as it was written: the YAML (without trailing
/// white space) and the content come back unchanged, as long as neither holds
/// a CRLF pair and the YAML holds no closing fence.
pub proof fn lemma_document_round_trip(yaml: Seq<char>, content: Seq<char>)
    requires
        free_of_crlf(trim_end(yaml)),
        free_of_crlf(content),
        fence_free(trim_end(yaml)),
    ensures
        parse_document(compose_document(yaml, content)) == Ok::<(Seq<char>, Seq<char>), DocumentError>((trim_end(yaml), content)),
{
    let y = trim_end(yaml);
    let l = y.len() as int;
    let d = compose_document(yaml, content);
    let f1 = opening_fence();
    let f2 = closing_fence();
    lemma_trim_end_white_space(yaml, 0, yaml.len() as int);
    assert(d.len() == 10 + l + content.len());
    assert forall|i: int| 0 <= i < 4 implies #[trigger] d[i] == f1[i] by {}
    assert forall|i: int| 0 <= i < l implies #[trigger] d[4 + i] == y[i] by {}
    assert forall|i: int| 0 <= i < 5 implies #[trigger] d[4 + l + i] == f2[i] by {}
    assert(d[9 + l] == '\n');
    assert forall|i: int| 0 <= i < content.len() implies #[trigger] d[10 + l + i] == content[i] by {}
    assert(free_of_crlf(d)) by {
        assert forall|i: int| 0 <= i && i + 1 < d.len() implies !(#[trigger] d[i] == '\r' && d[i
            + 1] == '\n') by {
            if i < 4 {
                assert(d[i] == f1[i]);
            } else if i < 4 + l {
                assert(d[i] == y[i - 4]);
                if i + 1 < 4 + l {
                    assert(d[i + 1] == y[i - 4 + 1]);
                    assert(!(y[i - 4] == '\r' && y[i - 4 + 1] == '\n'));
                } else {
                    assert(y[l - 1] == yaml[l - 1]);
                    assert(!is_white_space(y[i - 4]));
                }
            } else if i < 9 + l {
                assert(d[i] == f2[i - 4 - l]);
            } else if i == 9 + l {
            } else {
                assert(d[i] == content[i - 10 - l]);
                assert(d[i + 1] == content[i - 10 - l + 1]);
                assert(!(content[i - 10 - l] == '\r' && content[i - 10 - l + 1] == '\n'));
            }
        }
    }
    lemma_without_crlf_identity(d);
    assert(d.subrange(0, 4) =~= f1);
    assert(d.subrange(4 + l, 9 + l) =~= f2);
    assert forall|q: int| 4 <= q < 4 + l implies !occurs_at(d, q, f2) by {
        assert(d.subrange(q, q + 5) =~= (y + f2).subrange(q - 4, q - 4 + 5));
        assert(!occurs_at(y + f2, q - 4, f2));
    }
    lemma_find_in_first(d, 4, d.len() as int, f2, 4 + l);
    assert(d.subrange(4, 4 + l) =~= y);
    assert(d.subrange(10 + l, d.len() as int) =~= content);
}

/// Content recovered from a note file whose frontmatter cannot be read: the
/// text after the first closing fence without its leading blank lines, or the
/// whole (CRLF-normalised) text when there is no complete fence block.
pub open spec fn recovered_body(raw: Seq<char>) -> Seq<char> {
    let n = without_crlf(raw);
    if !occurs_at(n, 0, opening_fence()) {
        n
    } else {
        match find_in(n, 4, n.len() as int, closing_fence()) {
            None => n,
            Some(c) => n.subrange(
                crate::markdown::run_end(n, c + 5, n.len() as int, '\n'),
                n.len() as int,
            ),
        }
    }
}

pub fn recover_body(raw: &str) -> (body: String)
    ensures
        body@ == recovered_body(raw@),
{
    let normalized = crlf_to_lf(raw);
    let n = chars_of(normalized.as_str());
    let len = n.len();
    let opening: [char; 4] = ['-', '-', '-', '\n'];
    assert(opening@ =~= opening_fence());
    if !occurs_at_in(&n, 0, len, &opening) {
        return normalized;
    }
    let closing: [char; 5] = ['\n', '-', '-', '-', '\n'];
    assert(closing@ =~= closing_fence());
    let c = match find_pattern(&n, 4, len, &closing) {
        Some(c) => c,
        None => return normalized,
    };
    let start = crate::markdown::run_end_in(&n, c + 5, len, '\n');
    String::from_str(normalized.as_str().substring_char(start, len))
}

/// Start of the last occurrence of `pat` that ends at or before `to`.
pub open spec fn rfind_in(s: Seq<char>, to: int, pat: Seq<char>) -> Option<int>
    decreases to,
{
    if to < pat.len() {
        None
    } else if occurs_at(s, to - pat.len(), pat) {
        Some(to - pat.len())
    } else if to <= 0 {
        None
    } else {
        rfind_in(s, to - 1, pat)
    }
}

/// The title recovered from a file stem `Title--1a2b3c4d`: the part before
/// the last `--`, with hyphens turned into spaces.
pub open spec fn title_of_stem(stem: Seq<char>) -> Seq<char> {
    let head = match rfind_in(stem, stem.len() as int, seq!['-', '-']) {
        Some(p) => stem.take(p),
        None => stem,
    };
    head.map_values(|c: char| if c == '-' { ' ' } else { c })
}

pub fn stem_title(stem: &str) -> (title: String)
    ensures
        title@ == title_of_stem(stem@),
{
    let s = chars_of(stem);
    let ghost pat = seq!['-', '-'];
    let dashes: [char; 2] = ['-', '-'];
    assert(dashes@ =~= pat);
    let mut to: usize = s.len();
    let mut end: usize = s.len();
    let mut found: bool = false;
    while to >= 2
        invariant_except_break
            !found,
            rfind_in(s@, to as int, pat) == rfind_in(s@, s.len() as int, pat),
        invariant
            to <= s.len(),
            end <= s.len(),
            pat == seq!['-', '-'],
            dashes@ == pat,
        ensures
            end <= s.len(),
            found ==> rfind_in(s@, s.len() as int, pat) == Some(end as int),
            !found ==> rfind_in(s@, s.len() as int, pat) is None,
        decreases to,
    {
        if occurs_at_in(&s, to - 2, to, &dashes) {
            end = to - 2;
            found = true;
            break;
        }
        to = to - 1;
    }
    let mut out: Vec<char> = Vec::new();
    let mut i: usize = 0;
    if !found {
        end = s.len();
    }
    let ghost head = if found { s@.take(end as int) } else { s@ };
    while i < end
        invariant
            0 <= i <= end <= s.len(),
            head.len() == end,
            forall|j: int| 0 <= j < end ==> head[j] == s@[j],
            out@ == head.take(i as int).map_values(|c: char| if c == '-' { ' ' } else { c }),
        decreases end - i,
    {
        let c = s[i];
        out.push(if c == '-' { ' ' } else { c });
        proof {
            assert(head.take(i + 1).drop_last() =~= head.take(i as int));
            assert(out@ =~= head.take(i + 1).map_values(|c: char| if c == '-' { ' ' } else { c }));
        }
        i = i + 1;
    }
    proof {
        assert(head.take(end as int) =~= head);
    }
    string_from_chars(&out)
}

/// One step of the 128-bit FNV-1a style hash used for recovered note UUIDs.
pub open spec fn hash_step(hash: u128, byte: u8) -> u128 {
    (hash ^ (byte as u128)).wrapping_mul(0x100000001b3)
}

/// The stable UUID of a recovered note: the hash of its path's bytes.
pub open spec fn path_hash(bytes: Seq<u8>) -> u128
    decreases bytes.len(),
{
    if bytes.len() == 0 {
        0xcbf29ce484222325
    } else {
        hash_step(path_hash(bytes.drop_last()), bytes.last())
    }
}

pub fn stable_id(path_text: &str) -> (id: u128)
    ensures
        id == path_hash(encode_utf8(path_text@)),
{
    let bytes = path_text.as_bytes();
    let mut hash: u128 = 0xcbf29ce484222325;
    let mut i: usize = 0;
    while i < bytes.len()
        invariant
            0 <= i <= bytes@.len(),
            bytes@ == encode_utf8(path_text@),
            hash == path_hash(bytes@.take(i as int)),
        decreases bytes@.len() - i,
    {
        proof {
            assert(bytes@.take(i + 1).drop_last() =~= bytes@.take(i as int));
        }
        hash = (hash ^ (bytes[i] as u128)).wrapping_mul(0x100000001b3);
        i = i + 1;
    }
    proof {
        assert(bytes@.take(bytes@.len() as int) =~= bytes@);
    }
    hash
}

} // verus!
