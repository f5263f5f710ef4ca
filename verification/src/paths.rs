//! Locations inside the vault and the checks that keep them there.

use std::path::{Path, PathBuf};
use vstd::prelude::*;
use vstd::string::{StrSliceExecFns, StringExecFns};
use crate::notes::texts;
use crate::text::{chars_of, trim, trim_bounds};

verus! {

#[verifier::external_type_specification]
#[verifier::external_body]
pub struct ExPathBuf(std::path::PathBuf);

#[verifier::external_type_specification]
#[verifier::external_body]
pub struct ExPath(std::path::Path);

/// `PathBuf::as_path`; nothing is claimed of the result.
pub assume_specification[ PathBuf::as_path ](_0: &PathBuf) -> &Path;

/// `PathBuf::clone` gives back the same path.
pub assume_specification[ <PathBuf as Clone>::clone ](path: &PathBuf) -> (copy: PathBuf)
    ensures
        copy == *path,
;

/// `Path::join` with a file or folder name. Joining depends on the
/// platform's separators, so nothing is claimed of the result.
#[verifier::external_body]
pub(crate) fn join_name(base: &Path, name: &str) -> PathBuf {
    base.join(name)
}

/// `Path::join` with a relative path; nothing is claimed of the result.
#[verifier::external_body]
pub(crate) fn join_path(base: &Path, tail: &Path) -> PathBuf {
    base.join(tail)
}

/// `Path::components`, each normal component given by its (lossy UTF-8) name
/// and every other component (root, prefix, `.`, `..`) as `None`. How a path
/// splits depends on the platform, so nothing is claimed of the result.
#[verifier::external_body]
pub(crate) fn path_components(path: &Path) -> Vec<Option<String>> {
    path.components().map(|component| match component {
        std::path::Component::Normal(name) => Some(name.to_string_lossy().into_owned()),
        _ => None,
    }).collect()
}

/// `Path::parent`; nothing is claimed of the result.
#[verifier::external_body]
pub(crate) fn path_parent(path: &Path) -> Option<PathBuf> {
    path.parent().map(|parent| parent.to_path_buf())
}

/// `Path::strip_prefix`, `None` when `base` is not a prefix; nothing is
/// claimed of the result.
#[verifier::external_body]
pub(crate) fn path_strip_prefix(path: &Path, base: &Path) -> Option<PathBuf> {
    path.strip_prefix(base).ok().map(|relative| relative.to_path_buf())
}

/// `PathBuf::new`: the empty path.
#[verifier::external_body]
pub(crate) fn empty_path() -> PathBuf {
    PathBuf::new()
}

/// `Path::as_os_str().is_empty()`.
#[verifier::external_body]
pub(crate) fn path_is_empty(path: &Path) -> bool {
    path.as_os_str().is_empty()
}

/// `Path`'s `==`, which compares the paths component by component; how a
/// path splits depends on the platform, so nothing is claimed of the result.
#[verifier::external_body]
pub(crate) fn same_path(a: &Path, b: &Path) -> bool {
    a == b
}

/// The folders Lilo manages inside a vault, and its settings file.
pub struct StoragePaths {
    pub settings_path: PathBuf,
    pub notes_dir: PathBuf,
    pub trash_dir: PathBuf,
    pub backups_dir: PathBuf,
}

/// A note in the Trash, by its path relative to the Trash folder.
pub struct TrashEntry {
    pub relative_path: PathBuf,
    pub display_name: String,
}

impl Clone for TrashEntry {
    fn clone(&self) -> (copy: Self)
        ensures
            copy == *self,
    {
        TrashEntry { relative_path: self.relative_path.clone(), display_name: self.display_name.clone() }
    }
}

/// Every component is a plain name: no root, drive prefix, `.` or `..`.
pub open spec fn all_normal(parts: Seq<Option<String>>) -> bool {
    forall|i: int| 0 <= i < parts.len() ==> (#[trigger] parts[i]) is Some
}

pub fn components_are_normal(parts: &Vec<Option<String>>) -> (safe: bool)
    ensures
        safe == all_normal(parts@),
{
    let mut i: usize = 0;
    while i < parts.len()
        invariant
            0 <= i <= parts.len(),
            forall|j: int| 0 <= j < i ==> (#[trigger] parts@[j]) is Some,
        decreases parts.len() - i,
    {
        if parts[i].is_none() {
            return false;
        }
        i = i + 1;
    }
    true
}

/// Whether a path stays below the folder it is relative to: it is empty or
/// made only of plain names (`components_are_normal` of its components). The
/// verdict rests on how `Path::components` splits the path on this platform,
/// which no contract here describes, so nothing is claimed of the result.
pub fn is_safe_relative_path(path: &Path) -> bool {
    let parts = path_components(path);
    components_are_normal(&parts) || path_is_empty(path)
}

/// The items of `items` that `keep` marks, in their order.
pub open spec fn marked<T>(items: Seq<T>, keep: Seq<bool>) -> Seq<T>
    decreases items.len(),
{
    if items.len() == 0 {
        Seq::empty()
    } else {
        let rest = marked(items.drop_last(), keep.drop_last());
        if keep.last() {
            rest.push(items.last())
        } else {
            rest
        }
    }
}

/// A saved folder choice is kept exactly when its path is safe and names a
/// folder of the vault.
pub fn folder_kept(safe: bool, known: bool) -> (keep: bool)
    ensures
        keep == (safe && known),
{
    safe && known
}

/// The paths of `items` that `keep` marks, in their order.
pub fn keep_marked(items: Vec<PathBuf>, keep: &Vec<bool>) -> (kept: Vec<PathBuf>)
    requires
        keep@.len() == items@.len(),
    ensures
        kept@ == marked(items@, keep@),
{
    let mut kept: Vec<PathBuf> = Vec::new();
    let mut i: usize = 0;
    while i < items.len()
        invariant
            0 <= i <= items.len(),
            keep@.len() == items@.len(),
            kept@ == marked(items@.take(i as int), keep@.take(i as int)),
        decreases items.len() - i,
    {
        proof {
            assert(items@.take(i + 1).drop_last() =~= items@.take(i as int));
            assert(keep@.take(i + 1).drop_last() =~= keep@.take(i as int));
            assert(items@.take(i + 1).last() == items@[i as int]);
            assert(keep@.take(i + 1).last() == keep@[i as int]);
        }
        if keep[i] {
            kept.push(items[i].clone());
        }
        i = i + 1;
    }
    proof {
        assert(items@.take(items@.len() as int) =~= items@);
        assert(keep@.take(keep@.len() as int) =~= keep@);
    }
    kept
}

/// Whether `path` is one of `folders`.
fn is_known_folder(path: &Path, folders: &[PathBuf]) -> bool {
    let mut i: usize = 0;
    while i < folders.len()
        invariant
            0 <= i <= folders.len(),
        decreases folders.len() - i,
    {
        if same_path(path, folders[i].as_path()) {
            return true;
        }
        i = i + 1;
    }
    false
}

/// Forgets saved folder choices that no longer name a folder of the vault:
/// the selected folder falls back to the `Notes` root (`PathBuf::new`) unless
/// `folder_kept` keeps it, and the collapsed folders that `folder_kept`
/// keeps stay, in their order. The verdicts handed to `folder_kept` (is the
/// path safe, is it one of `folders`) and the empty path rest on `Path`'s
/// parsing and equality on this platform, which no contract here describes.
pub fn forget_unknown_folders(selected: &mut PathBuf, collapsed: &mut Vec<PathBuf>, folders: &[PathBuf])
    ensures
        exists|keep: Seq<bool>|
            keep.len() == old(collapsed)@.len() && #[trigger] marked(old(collapsed)@, keep)
                == final(collapsed)@,
{
    let selected_safe = is_safe_relative_path(selected.as_path());
    let selected_known = is_known_folder(selected.as_path(), folders);
    if !folder_kept(selected_safe, selected_known) {
        *selected = empty_path();
    }
    let mut keep: Vec<bool> = Vec::new();
    let mut i: usize = 0;
    while i < collapsed.len()
        invariant
            0 <= i <= collapsed.len(),
            keep@.len() == i,
        decreases collapsed.len() - i,
    {
        let path = collapsed[i].as_path();
        let safe = is_safe_relative_path(path);
        let known = is_known_folder(path, folders);
        keep.push(folder_kept(safe, known));
        i = i + 1;
    }
    let mut items: Vec<PathBuf> = Vec::new();
    std::mem::swap(&mut items, collapsed);
    *collapsed = keep_marked(items, &keep);
    assert(marked(old(collapsed)@, keep@) == collapsed@);
}

/// Whether a file extension marks a Markdown note: `md` in any ASCII case.
pub fn is_markdown_extension(extension: Option<&str>) -> (markdown: bool)
    ensures
        markdown == (extension is Some && crate::text::eq_ignore_ascii_case(
            extension.unwrap()@,
            seq!['m', 'd'],
        )),
{
    match extension {
        None => false,
        Some(text) => {
            let chars = chars_of(text);
            let md: [char; 2] = ['m', 'd'];
            assert(md@ =~= seq!['m', 'd']);
            assert(chars@.subrange(0, chars.len() as int) =~= chars@);
            crate::text::eq_ignore_ascii_case_in(&chars, 0, chars.len(), &md)
        },
    }
}

/// Why a path inside a managed folder was refused.
#[derive(Clone, Copy, Debug, PartialEq, Eq, Structural)]
pub enum ManagedPathError {
    /// The relative path is empty or leaves the managed folder.
    Unsafe,
}

/// A relative path inside a managed folder is refused when it is unsafe or
/// empty.
pub fn managed_refused(safe: bool, empty: bool) -> (refused: bool)
    ensures
        refused == (!safe || empty),
{
    !safe || empty
}

/// Location of a file inside a managed folder (Trash, Backups): the relative
/// path must be non-empty and made of plain names only, else `Unsafe`; the
/// location is `Path::join` of the two. Whether the file exists is for the
/// caller to check. Both the verdict and the joined path rest on this
/// platform's path syntax, which no contract here describes, so nothing is
/// claimed of the result.
pub fn managed_file_path(root: &Path, relative: &Path) -> (path: Result<PathBuf, ManagedPathError>)
{
    if managed_refused(is_safe_relative_path(relative), path_is_empty(relative)) {
        return Err(ManagedPathError::Unsafe);
    }
    Ok(join_path(root, relative))
}

/// `PathBuf::from` a string; nothing is claimed of the result.
#[verifier::external_body]
pub(crate) fn path_from_text(text: &str) -> PathBuf {
    PathBuf::from(text)
}

/// `Path::is_absolute`, which depends on the platform's path syntax.
#[verifier::external_body]
pub(crate) fn path_is_absolute(path: &Path) -> bool {
    path.is_absolute()
}

/// Why a vault location was refused.
#[derive(Clone, Copy, Debug, PartialEq, Eq, Structural)]
pub enum VaultPathError {
    Empty,
    NotAbsolute,
}

impl VaultPathError {
    pub fn message(&self) -> (text: &'static str)
        ensures
            *self == VaultPathError::Empty ==> text@ == "Vault path cannot be empty"@,
            *self == VaultPathError::NotAbsolute ==> text@ == "Vault path must be absolute"@,
    {
        match self {
            VaultPathError::Empty => "Vault path cannot be empty",
            VaultPathError::NotAbsolute => "Vault path must be absolute",
        }
    }
}

/// The vault location typed by the user: trimmed, not empty, absolute.
pub fn parse_vault_path(value: &str) -> (path: Result<PathBuf, VaultPathError>)
    ensures
        path == Err::<PathBuf, VaultPathError>(VaultPathError::Empty) <==> trim(value@).len() == 0,
{
    let chars = chars_of(value);
    let (start, end) = trim_bounds(&chars);
    if start == end {
        return Err(VaultPathError::Empty);
    }
    let path = path_from_text(value.substring_char(start, end));
    if !path_is_absolute(path.as_path()) {
        return Err(VaultPathError::NotAbsolute);
    }
    Ok(path)
}

/// The vault report: the loader's warnings, then one line for each managed
/// folder (Notes, Trash, Backups, in that order) that `present` marks
/// missing, naming it by its text in `folder_texts`.
pub fn vault_diagnostics(warnings: Vec<String>, folder_texts: [String; 3], present: [bool; 3]) -> (report: Vec<String>)
    ensures
        texts(report@) == texts(warnings@) + missing_lines(present@, texts(folder_texts@)),
{
    let mut report = warnings;
    let ghost initial = texts(report@);
    let ghost names = texts(folder_texts@);
    let mut k: usize = 0;
    while k < 3
        invariant
            0 <= k <= 3,
            names == texts(folder_texts@),
            texts(report@) == initial + missing_lines(present@.take(k as int), names),
        decreases 3 - k,
    {
        proof {
            assert(present@.take(k + 1).drop_last() =~= present@.take(k as int));
            assert(present@.take(k + 1).last() == present@[k as int]);
        }
        if !present[k] {
            let mut line = String::from_str("Missing managed directory: ");
            proof {
                reveal_strlit("Missing managed directory: ");
            }
            line.append(folder_texts[k].as_str());
            let ghost before = report@;
            report.push(line);
            proof {
                assert(line@ =~= missing_prefix() + names[k as int]);
                assert(texts(report@) =~= texts(before).push(line@));
                assert(texts(report@) =~= initial + missing_lines(present@.take(k + 1), names));
            }
        } else {
            proof {
                assert(missing_lines(present@.take(k + 1), names) == missing_lines(present@.take(k as int), names));
            }
        }
        k = k + 1;
    }
    proof {
        assert(present@.take(3) =~= present@);
    }
    report
}

/// One line per `false` flag, in order: the prefix and the text of the
/// folder at that position.
pub open spec fn missing_lines(present: Seq<bool>, names: Seq<Seq<char>>) -> Seq<Seq<char>>
    decreases present.len(),
{
    if present.len() == 0 {
        Seq::empty()
    } else {
        let rest = missing_lines(present.drop_last(), names);
        if present.last() {
            rest
        } else {
            rest.push(missing_prefix() + names[present.len() - 1])
        }
    }
}

pub open spec fn missing_prefix() -> Seq<char> {
    "Missing managed directory: "@
}


} // verus!
