//! The folder tree shown in the notes list, derived from vault paths.

use crate::collation::{lemma_text_lt_transitive, lemma_text_trichotomy, text_less, text_lt};
use crate::notes::{copy_strings, texts, Note};
use crate::paths::{
    components_are_normal, empty_path, join_name, path_components, path_parent, path_strip_prefix,
};
use crate::text::{chars_of, find_pattern, lemma_find_in, occurs_at};
use std::path::{Path, PathBuf};
use vstd::prelude::*;
use vstd::string::StringExecFns;

verus! {

/// A folder below `Notes`: its name, its path relative to `Notes`, its
/// subfolders sorted by name, and the notes stored directly in it.
pub struct FolderNode {
    pub name: String,
    pub relative_path: PathBuf,
    pub folders: Vec<FolderNode>,
    pub note_ids: Vec<u128>,
}

pub struct FolderTree {
    pub root: FolderNode,
}

/// A folder known to exist, or the folder of a note, by the names of its
/// path components relative to `Notes`.
pub struct FolderEntry {
    pub components: Vec<String>,
    pub note_id: Option<u128>,
}

pub open spec fn parts_of(entry: FolderEntry) -> Seq<Seq<char>> {
    entry.components@.map_values(|s: String| s@)
}

/// `parts` lies at or below the folder `prefix`.
pub open spec fn extends(parts: Seq<Seq<char>>, prefix: Seq<Seq<char>>) -> bool {
    parts.len() >= prefix.len() && parts.take(prefix.len() as int) == prefix
}

/// The notes stored directly in the folder `prefix`, in entry order.
pub open spec fn notes_at(entries: Seq<FolderEntry>, prefix: Seq<Seq<char>>) -> Seq<u128>
    decreases entries.len(),
{
    if entries.len() == 0 {
        Seq::empty()
    } else {
        let rest = notes_at(entries.drop_last(), prefix);
        let e = entries.last();
        match e.note_id {
            Some(id) => if parts_of(e) == prefix {
                rest.push(id)
            } else {
                rest
            },
            None => rest,
        }
    }
}

/// `name` is a subfolder of `prefix` according to some entry.
pub open spec fn is_child_name(entries: Seq<FolderEntry>, prefix: Seq<Seq<char>>, name: Seq<char>) -> bool {
    exists|k: int|
        0 <= k < entries.len() && extends(parts_of(#[trigger] entries[k]), prefix) && parts_of(
            entries[k],
        ).len() > prefix.len() && parts_of(entries[k])[prefix.len() as int] == name
}

/// The names are strictly increasing.
pub open spec fn strictly_sorted(names: Seq<Seq<char>>) -> bool {
    forall|i: int, j: int| 0 <= i < j < names.len() ==> text_lt(#[trigger] names[i], #[trigger] names[j])
}

/// The longest component list among the entries.
pub open spec fn deepest(entries: Seq<FolderEntry>) -> nat
    decreases entries.len(),
{
    if entries.len() == 0 {
        0
    } else {
        let rest = deepest(entries.drop_last());
        let here = parts_of(entries.last()).len();
        if here > rest {
            here
        } else {
            rest
        }
    }
}

pub proof fn lemma_deepest(entries: Seq<FolderEntry>)
    ensures
        forall|k: int| 0 <= k < entries.len() ==> parts_of(#[trigger] entries[k]).len() <= deepest(entries),
    decreases entries.len(),
{
    if entries.len() > 0 {
        lemma_deepest(entries.drop_last());
        assert forall|k: int| 0 <= k < entries.len() implies parts_of(#[trigger] entries[k]).len()
            <= deepest(entries) by {
            if k < entries.len() - 1 {
                assert(entries[k] == entries.drop_last()[k]);
            }
        }
    }
}

/// The names of a node's subfolders.
pub open spec fn child_names(node: FolderNode) -> Seq<Seq<char>> {
    node.folders@.map_values(|child: FolderNode| child.name@)
}

/// The subtree `node` at folder `prefix` is what the entries describe: its
/// notes are the notes stored at `prefix`, its subfolders are exactly the
/// entries' next components below `prefix`, sorted and without repeats, and
/// each subfolder is built the same way.
pub open spec fn built_from(node: FolderNode, prefix: Seq<Seq<char>>, entries: Seq<FolderEntry>) -> bool
    decreases node,
{
    &&& node.note_ids@ == notes_at(entries, prefix)
    &&& strictly_sorted(child_names(node))
    &&& forall|name: Seq<char>| is_child_name(entries, prefix, name) <==> child_names(node).contains(name)
    &&& forall|i: int|
        0 <= i < node.folders@.len() ==> built_from(
            #[trigger] node.folders@[i],
            prefix.push(node.folders@[i].name@),
            entries,
        )
}

/// Whether the entry lies at or below `prefix`; with `exact`, whether it is
/// exactly `prefix`.
fn entry_within(entry: &FolderEntry, prefix: &Vec<String>, exact: bool) -> (yes: bool)
    ensures
        yes == if exact {
            parts_of(*entry) == texts(prefix@)
        } else {
            extends(parts_of(*entry), texts(prefix@))
        },
{
    let ghost parts = parts_of(*entry);
    let ghost want = texts(prefix@);
    if entry.components.len() < prefix.len() || (exact && entry.components.len() != prefix.len()) {
        proof {
            if exact {
                assert(parts.len() != want.len());
            }
        }
        return false;
    }
    let mut i: usize = 0;
    while i < prefix.len()
        invariant
            0 <= i <= prefix.len() <= entry.components.len(),
            parts == parts_of(*entry),
            want == texts(prefix@),
            forall|j: int| 0 <= j < i ==> parts[j] == want[j],
        decreases prefix.len() - i,
    {
        if entry.components[i] != prefix[i] {
            proof {
                assert(parts[i as int] != want[i as int]);
                assert(parts.take(want.len() as int)[i as int] != want[i as int]);
            }
            return false;
        }
        i = i + 1;
    }
    proof {
        assert(parts.take(want.len() as int) =~= want);
        if exact {
            assert(parts =~= want);
        }
    }
    true
}

/// The notes stored directly in folder `prefix`.
fn notes_in(entries: &Vec<FolderEntry>, prefix: &Vec<String>) -> (ids: Vec<u128>)
    ensures
        ids@ == notes_at(entries@, texts(prefix@)),
{
    let mut ids: Vec<u128> = Vec::new();
    let mut i: usize = 0;
    while i < entries.len()
        invariant
            0 <= i <= entries.len(),
            ids@ == notes_at(entries@.take(i as int), texts(prefix@)),
        decreases entries.len() - i,
    {
        proof {
            assert(entries@.take(i + 1).drop_last() =~= entries@.take(i as int));
        }
        if let Some(id) = entries[i].note_id {
            if entry_within(&entries[i], prefix, true) {
                ids.push(id);
            }
        }
        i = i + 1;
    }
    proof {
        assert(entries@.take(entries.len() as int) =~= entries@);
    }
    ids
}

/// The sorted, distinct names of the subfolders of `prefix`.
fn child_names_of(entries: &Vec<FolderEntry>, prefix: &Vec<String>) -> (names: Vec<String>)
    ensures
        strictly_sorted(texts(names@)),
        forall|name: Seq<char>| is_child_name(entries@, texts(prefix@), name) <==> texts(names@).contains(name),
{
    let ghost want = texts(prefix@);
    let mut names: Vec<String> = Vec::new();
    let mut i: usize = 0;
    while i < entries.len()
        invariant
            0 <= i <= entries.len(),
            want == texts(prefix@),
            strictly_sorted(texts(names@)),
            forall|name: Seq<char>| is_child_name(entries@.take(i as int), want, name) <==> texts(names@).contains(name),
        decreases entries.len() - i,
    {
        let ghost before = names@;
        proof {
            assert forall|name: Seq<char>| is_child_name(entries@.take(i + 1), want, name) <==> (
                is_child_name(entries@.take(i as int), want, name) || (extends(parts_of(entries@[i as int]), want)
                    && parts_of(entries@[i as int]).len() > want.len() && parts_of(entries@[i as int])[want.len() as int] == name)) by {
                if is_child_name(entries@.take(i + 1), want, name) {
                    let k = choose|k: int| 0 <= k < i + 1 && extends(parts_of(#[trigger] entries@.take(i + 1)[k]), want)
                        && parts_of(entries@.take(i + 1)[k]).len() > want.len() && parts_of(entries@.take(i + 1)[k])[want.len() as int] == name;
                    if k < i {
                        assert(entries@.take(i as int)[k] == entries@.take(i + 1)[k]);
                    }
                }
                if is_child_name(entries@.take(i as int), want, name) {
                    let k = choose|k: int| 0 <= k < i && extends(parts_of(#[trigger] entries@.take(i as int)[k]), want)
                        && parts_of(entries@.take(i as int)[k]).len() > want.len() && parts_of(entries@.take(i as int)[k])[want.len() as int] == name;
                    assert(entries@.take(i + 1)[k] == entries@.take(i as int)[k]);
                }
                if extends(parts_of(entries@[i as int]), want) && parts_of(entries@[i as int]).len() > want.len()
                    && parts_of(entries@[i as int])[want.len() as int] == name {
                    assert(entries@.take(i + 1)[i as int] == entries@[i as int]);
                }
            }
        }
        let entry = &entries[i];
        let ghost matched = extends(parts_of(entries@[i as int]), want) && parts_of(entries@[i as int]).len() > want.len();
        let ghost cname = parts_of(entries@[i as int])[want.len() as int];
        if entry.components.len() > prefix.len() && entry_within(entry, prefix, false) {
            let name = &entry.components[prefix.len()];
            assert(parts_of(*entry)[want.len() as int] == name@);
            assert(extends(parts_of(entries@[i as int]), want));
            let key = chars_of(name.as_str());
            let mut j: usize = 0;
            while j < names.len()
                invariant
                    0 <= j <= names.len(),
                    names@ == before,
                    key@ == name@,
                    forall|k: int| 0 <= k < j ==> text_lt(#[trigger] texts(names@)[k], name@),
                ensures
                    0 <= j <= names.len(),
                    forall|k: int| 0 <= k < j ==> text_lt(#[trigger] texts(names@)[k], name@),
                    j < names.len() ==> !text_lt(texts(names@)[j as int], name@),
                decreases names.len() - j,
            {
                let other = chars_of(names[j].as_str());
                if !text_less(&other, &key) {
                    break;
                }
                j = j + 1;
            }
            let duplicate = j < names.len() && names[j] == *name;
            if !duplicate {
                proof {
                    if j < names.len() {
                        lemma_text_trichotomy(texts(names@)[j as int], name@);
                    }
                }
                names.insert(j, name.clone());
                proof {
                    let t = texts(names@);
                    let tb = texts(before);
                    assert(t =~= tb.insert(j as int, name@));
                    assert forall|a: int, b: int| 0 <= a < b < t.len() implies text_lt(#[trigger] t[a], #[trigger] t[b]) by {
                        if b < j {
                        } else if b == j {
                        } else if a > j {
                            assert(t[a] == tb[a - 1]);
                            assert(t[b] == tb[b - 1]);
                        } else if a == j {
                            assert(t[b] == tb[b - 1]);
                            if b - 1 > j {
                                assert(text_lt(tb[j as int], tb[b - 1]));
                                lemma_text_lt_transitive(name@, tb[j as int], tb[b - 1]);
                            }
                        } else {
                            assert(t[b] == tb[b - 1]);
                            if b - 1 > j {
                                assert(text_lt(tb[a], tb[b - 1]));
                            } else {
                                assert(text_lt(tb[a], name@));
                                lemma_text_lt_transitive(tb[a], name@, tb[b - 1]);
                            }
                        }
                    }
                    assert forall|n: Seq<char>| t.contains(n) <==> (tb.contains(n) || n == name@) by {
                        if t.contains(n) {
                            let k = choose|k: int| 0 <= k < t.len() && t[k] == n;
                            if k < j {
                                assert(tb[k] == n);
                            } else if k > j {
                                assert(tb[k - 1] == n);
                            }
                        }
                        if tb.contains(n) {
                            let k = choose|k: int| 0 <= k < tb.len() && tb[k] == n;
                            if k < j {
                                assert(t[k] == n);
                            } else {
                                assert(t[k + 1] == n);
                            }
                        }
                        if n == name@ {
                            assert(t[j as int] == n);
                        }
                    }
                }
            } else {
                proof {
                    assert(texts(names@)[j as int] == name@);
                    assert(texts(names@).contains(name@));
                }
            }
        } else {
            proof {
                assert(!(extends(parts_of(entries@[i as int]), want) && parts_of(entries@[i as int]).len()
                    > want.len()));
            }
        }
        proof {
            if matched {
                assert(texts(names@).contains(cname));
                assert forall|n: Seq<char>| texts(before).contains(n) implies texts(names@).contains(n) by {
                    let k = choose|k: int| 0 <= k < texts(before).len() && texts(before)[k] == n;
                    if texts(names@) =~= texts(before) {
                        assert(texts(names@)[k] == n);
                    } else {
                        assert(texts(names@).contains(n));
                    }
                }
            }
        }
        i = i + 1;
    }
    proof {
        assert(entries@.take(entries.len() as int) =~= entries@);
    }
    names
}

/// Builds the subtree of folder `prefix`, named `name` at `relative_path`.
fn build_node(
    entries: &Vec<FolderEntry>,
    prefix: &Vec<String>,
    name: String,
    relative_path: PathBuf,
) -> (node: FolderNode)
    requires
        prefix@.len() <= deepest(entries@),
    ensures
        built_from(node, texts(prefix@), entries@),
        node.name == name,
        node.relative_path == relative_path,
    decreases deepest(entries@) - prefix@.len(),
{
    let note_ids = notes_in(entries, prefix);
    let names = child_names_of(entries, prefix);
    let ghost want = texts(prefix@);
    let mut folders: Vec<FolderNode> = Vec::new();
    let mut i: usize = 0;
    while i < names.len()
        invariant
            0 <= i <= names.len(),
            folders@.len() == i,
            want == texts(prefix@),
            prefix@.len() <= deepest(entries@),
            forall|name: Seq<char>| is_child_name(entries@, want, name) <==> texts(names@).contains(name),
            forall|k: int| 0 <= k < i ==> (#[trigger] folders@[k]).name@ == texts(names@)[k],
            forall|k: int|
                0 <= k < i ==> built_from(
                    #[trigger] folders@[k],
                    want.push(folders@[k].name@),
                    entries@,
                ),
        decreases names.len() - i,
    {
        let child_name = names[i].clone();
        proof {
            assert(texts(names@).contains(texts(names@)[i as int]));
            let n = texts(names@)[i as int];
            assert(is_child_name(entries@, want, n));
            let k = choose|k: int|
                0 <= k < entries@.len() && extends(parts_of(#[trigger] entries@[k]), want) && parts_of(
                    entries@[k],
                ).len() > want.len() && parts_of(entries@[k])[want.len() as int] == n;
            lemma_deepest(entries@);
            assert(parts_of(entries@[k]).len() <= deepest(entries@));
        }
        let mut child_prefix = copy_strings(prefix);
        child_prefix.push(child_name.clone());
        proof {
            assert(texts(child_prefix@) =~= want.push(child_name@));
        }
        let child_path = join_name(relative_path.as_path(), child_name.as_str());
        let child = build_node(entries, &child_prefix, child_name, child_path);
        let ghost before = folders@;
        folders.push(child);
        proof {
            assert forall|k: int| 0 <= k < i + 1 implies (#[trigger] folders@[k]).name@ == texts(
                names@,
            )[k] by {
                if k < i {
                    assert(folders@[k] == before[k]);
                }
            }
            assert forall|k: int|
                0 <= k < i + 1 implies built_from(
                #[trigger] folders@[k],
                want.push(folders@[k].name@),
                entries@,
            ) by {
                if k < i {
                    assert(folders@[k] == before[k]);
                }
            }
        }
        i = i + 1;
    }
    let node = FolderNode { name, relative_path, folders, note_ids };
    proof {
        assert(child_names(node) =~= texts(names@));
    }
    node
}

/// The tree described by folder entries: the `Notes` root and every folder
/// the entries name or pass through.
pub fn build_from_entries(entries: &Vec<FolderEntry>) -> (tree: FolderTree)
    ensures
        built_from(tree.root, Seq::empty(), entries@),
        tree.root.name@ == "Notes"@,
{
    let prefix: Vec<String> = Vec::new();
    assert(texts(prefix@) =~= Seq::<Seq<char>>::empty());
    let root = build_node(entries, &prefix, String::from_str("Notes"), empty_path());
    FolderTree { root }
}

/// The names of components that are all plain names.
pub open spec fn plain_names(parts: Seq<Option<String>>) -> Seq<Seq<char>> {
    parts.map_values(|part: Option<String>| part.unwrap()@)
}

/// What an entry says: the names of its components and its note.
pub open spec fn entry_view(entry: FolderEntry) -> (Seq<Seq<char>>, Option<u128>) {
    (parts_of(entry), entry.note_id)
}

/// One folder entry for each known folder whose components are all plain
/// names, in order.
pub open spec fn known_entries(known: Seq<Vec<Option<String>>>) -> Seq<(Seq<Seq<char>>, Option<u128>)>
    decreases known.len(),
{
    if known.len() == 0 {
        Seq::empty()
    } else {
        let rest = known_entries(known.drop_last());
        let parts = known.last()@;
        if crate::paths::all_normal(parts) {
            rest.push((plain_names(parts), None))
        } else {
            rest
        }
    }
}

/// One folder entry for each note whose folder relative to `Notes` is
/// known and made of plain names, with the note's UUID, in order.
pub open spec fn note_entries(notes: Seq<(u128, Option<Vec<Option<String>>>)>) -> Seq<(Seq<Seq<char>>, Option<u128>)>
    decreases notes.len(),
{
    if notes.len() == 0 {
        Seq::empty()
    } else {
        let rest = note_entries(notes.drop_last());
        let (id, parts) = notes.last();
        match parts {
            Some(p) => if crate::paths::all_normal(p@) {
                rest.push((plain_names(p@), Some(id)))
            } else {
                rest
            },
            None => rest,
        }
    }
}

/// Turns the component lists of the known folders and of the notes' folders
/// into folder entries: the known folders made of plain names first, then
/// the notes whose folder is made of plain names, each with its UUID.
pub fn folder_entries(
    known_parts: Vec<Vec<Option<String>>>,
    note_parts: Vec<(u128, Option<Vec<Option<String>>>)>,
) -> (entries: Vec<FolderEntry>)
    ensures
        entries@.map_values(|e: FolderEntry| entry_view(e)) == known_entries(known_parts@)
            + note_entries(note_parts@),
{
    let mut entries: Vec<FolderEntry> = Vec::new();
    let mut i: usize = 0;
    while i < known_parts.len()
        invariant
            0 <= i <= known_parts.len(),
            entries@.map_values(|e: FolderEntry| entry_view(e)) == known_entries(known_parts@.take(i as int)),
        decreases known_parts.len() - i,
    {
        proof {
            assert(known_parts@.take(i + 1).drop_last() =~= known_parts@.take(i as int));
            assert(known_parts@.take(i + 1).last() == known_parts@[i as int]);
        }
        let ghost before = entries@;
        if components_are_normal(&known_parts[i]) {
            let components = names_of(&known_parts[i]);
            entries.push(FolderEntry { components, note_id: None });
            proof {
                let e = entries@.last();
                assert(parts_of(e) =~= plain_names(known_parts@[i as int]@));
                assert(entries@.map_values(|e: FolderEntry| entry_view(e)) =~= before.map_values(
                    |e: FolderEntry| entry_view(e),
                ).push(entry_view(e)));
            }
        }
        i = i + 1;
    }
    assert(known_parts@.take(known_parts@.len() as int) =~= known_parts@);
    let ghost known_done = entries@.map_values(|e: FolderEntry| entry_view(e));
    let mut j: usize = 0;
    while j < note_parts.len()
        invariant
            0 <= j <= note_parts.len(),
            known_done == known_entries(known_parts@),
            entries@.map_values(|e: FolderEntry| entry_view(e)) == known_done + note_entries(
                note_parts@.take(j as int),
            ),
        decreases note_parts.len() - j,
    {
        proof {
            assert(note_parts@.take(j + 1).drop_last() =~= note_parts@.take(j as int));
            assert(note_parts@.take(j + 1).last() == note_parts@[j as int]);
        }
        let ghost before = entries@;
        let id = note_parts[j].0;
        if let Some(parts) = &note_parts[j].1 {
            if components_are_normal(parts) {
                let components = names_of(parts);
                entries.push(FolderEntry { components, note_id: Some(id) });
                proof {
                    let e = entries@.last();
                    assert(parts_of(e) =~= plain_names(parts@));
                    assert(entries@.map_values(|e: FolderEntry| entry_view(e)) =~= before.map_values(
                        |e: FolderEntry| entry_view(e),
                    ).push(entry_view(e)));
                }
            }
        }
        j = j + 1;
    }
    assert(note_parts@.take(note_parts@.len() as int) =~= note_parts@);
    entries
}

/// The tree `root` is the one the entries of these component lists
/// describe.
pub open spec fn built_from_parts(
    root: FolderNode,
    known: Seq<Vec<Option<String>>>,
    notes: Seq<(u128, Option<Vec<Option<String>>>)>,
) -> bool {
    exists|entries: Seq<FolderEntry>|
        #[trigger] built_from(root, Seq::empty(), entries) && entries.map_values(
            |e: FolderEntry| entry_view(e),
        ) == known_entries(known) + note_entries(notes)
}

impl FolderTree {
    /// Builds the folder tree from the known folders (empty ones included)
    /// and the folders that hold notes: the tree that `folder_entries`
    /// describes for the components of each known folder and, for each note,
    /// of its parent folder relative to `notes_root` (`None` when the note is
    /// not below it). How a path splits into components, and each node's
    /// `relative_path` (made by `Path::join`), rest on `Path`'s parsing on
    /// this platform, which no contract here describes.
    pub fn build(notes: &[Note], notes_root: &Path, known_folders: &[PathBuf]) -> (tree: FolderTree)
        ensures
            tree.root.name@ == "Notes"@,
            exists|known: Seq<Vec<Option<String>>>, parts: Seq<(u128, Option<Vec<Option<String>>>)>|
                #![trigger built_from_parts(tree.root, known, parts)]
                known.len() == known_folders@.len() && parts.len() == notes@.len() && (forall|i: int|
                    0 <= i < parts.len() ==> (#[trigger] parts[i]).0 == notes@[i].id)
                    && built_from_parts(tree.root, known, parts),
    {
        let mut known_parts: Vec<Vec<Option<String>>> = Vec::new();
        let mut i: usize = 0;
        while i < known_folders.len()
            invariant
                0 <= i <= known_folders.len(),
                known_parts@.len() == i,
            decreases known_folders.len() - i,
        {
            known_parts.push(path_components(known_folders[i].as_path()));
            i = i + 1;
        }
        let mut note_parts: Vec<(u128, Option<Vec<Option<String>>>)> = Vec::new();
        let mut j: usize = 0;
        while j < notes.len()
            invariant
                0 <= j <= notes.len(),
                note_parts@.len() == j,
                forall|k: int| 0 <= k < j ==> (#[trigger] note_parts@[k]).0 == notes@[k].id,
            decreases notes.len() - j,
        {
            let parts = match path_parent(notes[j].file_path.as_path()) {
                Some(parent) => match path_strip_prefix(parent.as_path(), notes_root) {
                    Some(relative) => Some(path_components(relative.as_path())),
                    None => None,
                },
                None => None,
            };
            note_parts.push((notes[j].id, parts));
            j = j + 1;
        }
        let ghost known = known_parts@;
        let ghost parts = note_parts@;
        let entries = folder_entries(known_parts, note_parts);
        let tree = build_from_entries(&entries);
        proof {
            assert(built_from_parts(tree.root, known, parts));
        }
        tree
    }
}

/// `needle` occurs somewhere in `hay` (`str::contains`).
pub open spec fn text_contains(hay: Seq<char>, needle: Seq<char>) -> bool {
    exists|p: int| occurs_at(hay, p, needle)
}

/// The last note with UUID `id`, as a map from UUIDs to notes keeps it.
pub open spec fn last_with_id(notes: Seq<Note>, id: u128) -> Option<Note>
    decreases notes.len(),
{
    if notes.len() == 0 {
        None
    } else if notes.last().id == id {
        Some(notes.last())
    } else {
        last_with_id(notes.drop_last(), id)
    }
}

/// A note of the folder matches the search, or the search is empty.
pub open spec fn shows_note(notes: Seq<Note>, id: u128, query: Seq<char>) -> bool {
    match last_with_id(notes, id) {
        Some(note) => text_contains(note.search_text@, query),
        None => false,
    }
}

/// The folder holds, at any depth, a note that matches the search; every
/// folder does when the search is empty.
pub open spec fn has_visible_notes(folder: FolderNode, notes: Seq<Note>, query: Seq<char>) -> bool
    decreases folder,
{
    ||| query.len() == 0
    ||| exists|i: int| 0 <= i < folder.note_ids@.len() && shows_note(notes, #[trigger] folder.note_ids@[i], query)
    ||| exists|i: int|
        0 <= i < folder.folders@.len() && has_visible_notes(#[trigger] folder.folders@[i], notes, query)
}

/// Without a search every folder is shown, whatever notes and subfolders it
/// holds (empty folders included); with a search, a folder is shown when one
/// of its own notes matches.
pub proof fn lemma_visible_without_search(folder: FolderNode, notes: Seq<Note>, query: Seq<char>)
    ensures
        query.len() == 0 ==> has_visible_notes(folder, notes, query),
        (exists|i: int|
            0 <= i < folder.note_ids@.len() && (#[trigger] last_with_id(notes, folder.note_ids@[i])) is Some
                && text_contains(last_with_id(notes, folder.note_ids@[i]).unwrap().search_text@, query)) ==> has_visible_notes(
            folder,
            notes,
            query,
        ),
{
    if exists|i: int|
        0 <= i < folder.note_ids@.len() && (#[trigger] last_with_id(notes, folder.note_ids@[i])) is Some
                && text_contains(last_with_id(notes, folder.note_ids@[i]).unwrap().search_text@, query) {
        let i = choose|i: int|
            0 <= i < folder.note_ids@.len() && (#[trigger] last_with_id(notes, folder.note_ids@[i])) is Some
                && text_contains(last_with_id(notes, folder.note_ids@[i]).unwrap().search_text@, query);
        assert(shows_note(notes, folder.note_ids@[i], query));
    }
}

/// Whether the search text of `note` contains `query`.
pub(crate) fn search_matches(note: &Note, query: &Vec<char>) -> (hit: bool)
    ensures
        hit == text_contains(note.search_text@, query@),
{
    let hay = chars_of(note.search_text.as_str());
    proof {
        lemma_find_in(hay@, 0, hay@.len() as int, query@);
    }
    let found = find_pattern(&hay, 0, hay.len(), query.as_slice());
    proof {
        if found is None {
            assert forall|p: int| !occurs_at(hay@, p, query@) by {
                if occurs_at(hay@, p, query@) {
                    assert(0 <= p && p + query@.len() <= hay@.len());
                }
            }
        }
    }
    found.is_some()
}

/// Whether the note with UUID `id` (the last one with it) matches `query`.
fn note_shown(notes: &[Note], id: u128, query: &Vec<char>) -> (shown: bool)
    ensures
        shown == shows_note(notes@, id, query@),
{
    let mut k: usize = notes.len();
    assert(notes@.take(notes@.len() as int) =~= notes@);
    while k > 0
        invariant
            0 <= k <= notes.len(),
            last_with_id(notes@.take(k as int), id) == last_with_id(notes@, id),
        decreases k,
    {
        assert(notes@.take(k as int).drop_last() =~= notes@.take(k - 1));
        if notes[k - 1].id == id {
            assert(notes@.take(k as int).last() == notes@[k - 1]);
            return search_matches(&notes[k - 1], query);
        }
        k = k - 1;
    }
    assert(notes@.take(0) =~= Seq::<Note>::empty());
    assert(notes@.take(notes@.len() as int) =~= notes@);
    false
}

fn folder_visible(folder: &FolderNode, notes: &[Note], query: &Vec<char>) -> (visible: bool)
    ensures
        visible == has_visible_notes(*folder, notes@, query@),
    decreases folder,
{
    if query.len() == 0 {
        return true;
    }
    let mut i: usize = 0;
    while i < folder.note_ids.len()
        invariant
            0 <= i <= folder.note_ids.len(),
            forall|k: int| 0 <= k < i ==> !shows_note(notes@, #[trigger] folder.note_ids@[k], query@),
        decreases folder.note_ids.len() - i,
    {
        if note_shown(notes, folder.note_ids[i], query) {
            return true;
        }
        i = i + 1;
    }
    let mut j: usize = 0;
    while j < folder.folders.len()
        invariant
            0 <= j <= folder.folders.len(),
            forall|k: int| 0 <= k < j ==> !has_visible_notes(#[trigger] folder.folders@[k], notes@, query@),
        decreases folder.folders.len() - j,
    {
        if folder_visible(&folder.folders[j], notes, query) {
            return true;
        }
        j = j + 1;
    }
    false
}

/// Whether the notes list shows `folder`: the search is empty, or a note of
/// the folder or of a subfolder has search text that contains the query.
pub fn folder_has_visible_notes(folder: &FolderNode, notes: &[Note], normalized_query: &str) -> (visible: bool)
    ensures
        visible == has_visible_notes(*folder, notes@, normalized_query@),
        normalized_query@.len() == 0 ==> visible,
{
    let query = chars_of(normalized_query);
    folder_visible(folder, notes, &query)
}

/// The names of components that are all plain names.
fn names_of(parts: &Vec<Option<String>>) -> (names: Vec<String>)
    requires
        crate::paths::all_normal(parts@),
    ensures
        names@.len() == parts@.len(),
        forall|i: int| 0 <= i < parts@.len() ==> parts@[i] == Some(#[trigger] names@[i]),
{
    let mut names: Vec<String> = Vec::new();
    let mut i: usize = 0;
    while i < parts.len()
        invariant
            0 <= i <= parts.len(),
            crate::paths::all_normal(parts@),
            names@.len() == i,
            forall|k: int| 0 <= k < i ==> parts@[k] == Some(#[trigger] names@[k]),
        decreases parts.len() - i,
    {
        assert(parts@[i as int] is Some);
        let name = match &parts[i] {
            Some(n) => n.clone(),
            None => String::new(),
        };
        names.push(name);
        i = i + 1;
    }
    names
}

} // verus!
