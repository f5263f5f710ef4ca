//! Notes, their metadata, and the collection the widget edits.

use crate::interop::{current_time, lowercase, new_uuid, to_lowercase};
use crate::naming::{note_file_name, note_file_name_of};
use crate::paths::join_name;
use crate::document::{path_hash, recover_body, recovered_body, stable_id, stem_title, title_of_stem};
use crate::markdown::line_end_of;
use crate::text::{
    chars_of, eq_ignore_ascii_case, eq_ignore_ascii_case_in, has_visible_text, trim, trim_bounds,
};
use std::path::{Path, PathBuf};
use vstd::prelude::*;
use vstd::string::{StrSliceExecFns, StringExecFns};
use vstd::utf8::encode_utf8;

verus! {

/// A moment in time: seconds and nanoseconds since the Unix epoch.
#[derive(Clone, Copy, Debug, PartialEq, Eq, Structural)]
pub struct Timestamp {
    pub seconds: i64,
    pub nanos: u32,
}

/// Order in which the notes list shows the notes of a folder.
#[derive(Clone, Copy, Debug, PartialEq, Eq, Structural)]
pub enum NoteSort {
    Updated,
    Title,
    Created,
}

impl Default for NoteSort {
    fn default() -> (sort: Self)
        ensures
            sort == NoteSort::Updated,
    {
        NoteSort::Updated
    }
}

#[derive(Clone, Copy, Debug, PartialEq, Eq, Structural)]
pub enum ThemeChoice {
    Light,
    Dark,
    System,
}

impl Default for ThemeChoice {
    fn default() -> (theme: Self)
        ensures
            theme == ThemeChoice::Dark,
    {
        ThemeChoice::Dark
    }
}

/// Keyboard shortcuts, written like `Ctrl+Shift+G`.
pub struct ShortcutSettings {
    pub new_note: String,
    pub search: String,
    pub graph: String,
    pub graph_overlay: String,
    pub save: String,
}

impl Clone for ShortcutSettings {
    fn clone(&self) -> (copy: Self)
        ensures
            copy == *self,
    {
        ShortcutSettings {
            new_note: self.new_note.clone(),
            search: self.search.clone(),
            graph: self.graph.clone(),
            graph_overlay: self.graph_overlay.clone(),
            save: self.save.clone(),
        }
    }
}

impl Default for ShortcutSettings {
    fn default() -> (shortcuts: Self)
        ensures
            shortcuts.new_note@ == "Ctrl+N"@,
            shortcuts.search@ == "Ctrl+P"@,
            shortcuts.graph@ == "Ctrl+G"@,
            shortcuts.graph_overlay@ == "Ctrl+Shift+G"@,
            shortcuts.save@ == "Ctrl+S"@,
    {
        ShortcutSettings {
            new_note: String::from_str("Ctrl+N"),
            search: String::from_str("Ctrl+P"),
            graph: String::from_str("Ctrl+G"),
            graph_overlay: String::from_str("Ctrl+Shift+G"),
            save: String::from_str("Ctrl+S"),
        }
    }
}

/// One Markdown note of the vault.
pub struct Note {
    /// The note's UUID.
    pub id: u128,
    pub title: String,
    pub content: String,
    pub created_at: Timestamp,
    pub updated_at: Timestamp,
    pub aliases: Vec<String>,
    pub tags: Vec<String>,
    pub pinned: bool,
    pub file_path: PathBuf,
    /// Lowercase title and content, for searching.
    pub search_text: String,
}

/// The text searched for a note: title, line break, content, lowercased.
pub open spec fn search_text_of(title: Seq<char>, content: Seq<char>) -> Seq<char> {
    lowercase(title + seq!['\n'] + content)
}

/// The name a note's file is given: its trimmed title, or `Untitled`.
pub open spec fn file_title(title: Seq<char>) -> Seq<char> {
    if trim(title).len() == 0 {
        "Untitled"@
    } else {
        trim(title)
    }
}

impl Note {
    /// The search text matches the title and content.
    pub open spec fn search_text_fresh(&self) -> bool {
        self.search_text@ == search_text_of(self.title@, self.content@)
    }

    /// An empty, untitled note stored in `notes_dir`.
    pub fn new(notes_dir: &Path) -> (note: Note)
        ensures
            note.title@ == Seq::<char>::empty(),
            note.content@ == Seq::<char>::empty(),
            note.created_at == note.updated_at,
            note.aliases@.len() == 0,
            note.tags@.len() == 0,
            !note.pinned,
            note.search_text_fresh(),
    {
        let note = Self::new_named(notes_dir, "");
        proof {
            reveal_strlit("");
            assert(trim(""@) =~= Seq::<char>::empty());
        }
        note
    }

    /// A new empty note with a fresh UUID, titled with the trimmed `title`,
    /// whose file is named after the title (or `Untitled`).
    pub fn new_named(notes_dir: &Path, title: &str) -> (note: Note)
        ensures
            note.title@ == trim(title@),
            note.content@ == Seq::<char>::empty(),
            note.created_at == note.updated_at,
            note.aliases@.len() == 0,
            note.tags@.len() == 0,
            !note.pinned,
            note.search_text_fresh(),
    {
        let id = new_uuid();
        let now = current_time();
        let chars = chars_of(title);
        let (start, end) = trim_bounds(&chars);
        let trimmed = title.substring_char(start, end);
        let title_text = String::from_str(trimmed);
        let file_name = if start == end {
            note_file_name("Untitled", id)
        } else {
            note_file_name(trimmed, id)
        };
        let file_path = join_name(notes_dir, file_name.as_str());
        let mut note = Note {
            id,
            title: title_text,
            content: String::new(),
            created_at: now,
            updated_at: now,
            aliases: Vec::new(),
            tags: Vec::new(),
            pinned: false,
            file_path,
            search_text: String::new(),
        };
        note.refresh_search_text();
        note
    }

    /// The file name the note should have: its trimmed title (or `Untitled`)
    /// made safe for a file name, and the start of its UUID. A file whose
    /// name differs is renamed to this after a title change.
    pub fn file_name(&self) -> (name: String)
        ensures
            name@ == note_file_name_of(file_title(self.title@), self.id),
    {
        let chars = chars_of(self.title.as_str());
        let (start, end) = trim_bounds(&chars);
        if start == end {
            proof {
                reveal_strlit("Untitled");
            }
            note_file_name("Untitled", self.id)
        } else {
            note_file_name(self.title.as_str().substring_char(start, end), self.id)
        }
    }

    /// Stamps the note with the current time and refreshes its search text.
    pub fn mark_as_updated(&mut self)
        ensures
            final(self).id == old(self).id,
            final(self).title == old(self).title,
            final(self).content == old(self).content,
            final(self).created_at == old(self).created_at,
            final(self).aliases == old(self).aliases,
            final(self).tags == old(self).tags,
            final(self).pinned == old(self).pinned,
            final(self).file_path == old(self).file_path,
            final(self).search_text_fresh(),
    {
        self.updated_at = current_time();
        self.refresh_search_text();
    }

    /// Recomputes the search text from the title and content.
    pub fn refresh_search_text(&mut self)
        ensures
            final(self).id == old(self).id,
            final(self).title == old(self).title,
            final(self).content == old(self).content,
            final(self).created_at == old(self).created_at,
            final(self).updated_at == old(self).updated_at,
            final(self).aliases == old(self).aliases,
            final(self).tags == old(self).tags,
            final(self).pinned == old(self).pinned,
            final(self).file_path == old(self).file_path,
            final(self).search_text_fresh(),
    {
        let mut combined = self.title.clone();
        combined.append("\n");
        combined.append(self.content.as_str());
        proof {
            reveal_strlit("\n");
            assert(combined@ =~= self.title@ + seq!['\n'] + self.content@);
        }
        self.search_text = to_lowercase(combined.as_str());
    }
}

/// Position of the first note with UUID `id` at or after `from`.
pub open spec fn first_with_id(notes: Seq<Note>, id: u128, from: int) -> Option<int>
    decreases notes.len() - from,
{
    if from < 0 || from >= notes.len() {
        None
    } else if notes[from].id == id {
        Some(from)
    } else {
        first_with_id(notes, id, from + 1)
    }
}

pub proof fn lemma_first_with_id(notes: Seq<Note>, id: u128, from: int)
    requires
        0 <= from,
    ensures
        first_with_id(notes, id, from) matches Some(i) ==> from <= i < notes.len() && notes[i].id
            == id && forall|j: int| from <= j < i ==> notes[j].id != id,
        first_with_id(notes, id, from) is None ==> forall|j: int|
            from <= j < notes.len() ==> notes[j].id != id,
    decreases notes.len() - from,
{
    if from < notes.len() && notes[from].id != id {
        lemma_first_with_id(notes, id, from + 1);
    }
}

/// Some note has UUID `id`.
pub open spec fn has_id(notes: Seq<Note>, id: u128) -> bool {
    exists|i: int| 0 <= i < notes.len() && (#[trigger] notes[i]).id == id
}

/// Exec counterpart of [`first_with_id`] from the start.
pub fn position_of(notes: &Vec<Note>, id: u128) -> (index: Option<usize>)
    ensures
        index matches Some(i) ==> first_with_id(notes@, id, 0) == Some(i as int) && i < notes@.len(),
        index is None ==> first_with_id(notes@, id, 0) is None,
        index is None <==> !has_id(notes@, id),
{
    proof {
        lemma_first_with_id(notes@, id, 0);
    }
    let mut i: usize = 0;
    while i < notes.len()
        invariant
            0 <= i <= notes.len(),
            first_with_id(notes@, id, i as int) == first_with_id(notes@, id, 0),
            forall|j: int| 0 <= j < i ==> notes@[j].id != id,
        decreases notes.len() - i,
    {
        if notes[i].id == id {
            return Some(i);
        }
        i = i + 1;
    }
    None
}

/// The notes the widget edits and the one that is selected.
pub struct AppData {
    pub notes: Vec<Note>,
    pub selected_note_id: Option<u128>,
}

impl AppData {
    /// The selection names a note of the collection; it is empty only when
    /// the collection is.
    pub open spec fn selection_valid(&self) -> bool {
        match self.selected_note_id {
            Some(id) => has_id(self.notes@, id),
            None => self.notes@.len() == 0,
        }
    }

    /// Adds an empty note stored in `notes_dir` and selects it.
    pub fn create_note(&mut self, notes_dir: &Path) -> (id: u128)
        ensures
            final(self).notes@.len() == old(self).notes@.len() + 1,
            final(self).notes@.drop_last() == old(self).notes@,
            final(self).notes@.last().id == id,
            final(self).notes@.last().title@ == Seq::<char>::empty(),
            final(self).notes@.last().content@ == Seq::<char>::empty(),
            final(self).selected_note_id == Some(id),
            final(self).selection_valid(),
    {
        let note = Note::new(notes_dir);
        let id = note.id;
        self.notes.push(note);
        proof {
            assert(self.notes@.drop_last() =~= old(self).notes@);
            assert(self.notes@[self.notes@.len() - 1].id == id);
        }
        self.selected_note_id = Some(id);
        id
    }

    /// Adds an empty note titled with the trimmed `title` and selects it.
    pub fn create_note_named(&mut self, notes_dir: &Path, title: &str) -> (id: u128)
        ensures
            final(self).notes@.len() == old(self).notes@.len() + 1,
            final(self).notes@.drop_last() == old(self).notes@,
            final(self).notes@.last().id == id,
            final(self).notes@.last().title@ == trim(title@),
            final(self).notes@.last().content@ == Seq::<char>::empty(),
            final(self).selected_note_id == Some(id),
            final(self).selection_valid(),
    {
        let note = Note::new_named(notes_dir, title);
        let id = note.id;
        self.notes.push(note);
        proof {
            assert(self.notes@.drop_last() =~= old(self).notes@);
            assert(self.notes@[self.notes@.len() - 1].id == id);
        }
        self.selected_note_id = Some(id);
        id
    }

    /// Removes the first note with UUID `id`. When it was selected, the note
    /// that takes its place (or else the last note) becomes selected.
    pub fn remove_note(&mut self, id: u128) -> (removed: Option<Note>)
        ensures
            match first_with_id(old(self).notes@, id, 0) {
                None => {
                    &&& removed is None
                    &&& final(self).notes@ == old(self).notes@
                    &&& final(self).selected_note_id == old(self).selected_note_id
                },
                Some(i) => {
                    &&& removed == Some(old(self).notes@[i])
                    &&& final(self).notes@ == old(self).notes@.remove(i)
                    &&& final(self).selected_note_id == if old(self).selected_note_id == Some(id) {
                        if i < final(self).notes@.len() {
                            Some(final(self).notes@[i].id)
                        } else if final(self).notes@.len() > 0 {
                            Some(final(self).notes@.last().id)
                        } else {
                            None
                        }
                    } else {
                        old(self).selected_note_id
                    }
                },
            },
            old(self).selection_valid() ==> final(self).selection_valid(),
    {
        let index = match position_of(&self.notes, id) {
            Some(i) => i,
            None => return None,
        };
        proof {
            lemma_first_with_id(self.notes@, id, 0);
        }
        let note = self.notes.remove(index);
        if self.selected_note_id == Some(id) {
            if index < self.notes.len() {
                self.selected_note_id = Some(self.notes[index].id);
                assert(self.notes@[index as int].id == self.notes@[index as int].id);
            } else if self.notes.len() > 0 {
                self.selected_note_id = Some(self.notes[self.notes.len() - 1].id);
                assert(has_id(self.notes@, self.notes@[self.notes@.len() - 1].id));
            } else {
                self.selected_note_id = None;
            }
        } else {
            proof {
                if let Some(other) = old(self).selected_note_id {
                    if old(self).selection_valid() {
                        let k = choose|k: int|
                            0 <= k < old(self).notes@.len() && (#[trigger] old(self).notes@[k]).id
                                == other;
                        if k < index {
                            assert(self.notes@[k] == old(self).notes@[k]);
                        } else {
                            assert(k != index);
                            assert(self.notes@[k - 1] == old(self).notes@[k]);
                        }
                    }
                }
            }
        }
        Some(note)
    }

    /// The selected note, if the selection names one.
    pub fn selected_note(&self) -> (note: Option<&Note>)
        ensures
            self.selected_note_id is None ==> note is None,
            self.selected_note_id matches Some(id) ==> match first_with_id(self.notes@, id, 0) {
                Some(i) => note matches Some(n) && *n == self.notes@[i],
                None => note is None,
            },
    {
        let selected_id = match self.selected_note_id {
            Some(id) => id,
            None => return None,
        };
        proof {
            lemma_first_with_id(self.notes@, selected_id, 0);
        }
        match position_of(&self.notes, selected_id) {
            Some(i) => {
                let note = &self.notes[i];
                assert(first_with_id(self.notes@, selected_id, 0) matches Some(j) && j == i as int);
                assert(*note == self.notes@[i as int]);
                Some(note)
            },
            None => None,
        }
    }

    /// The selected note, for editing.
    pub fn selected_note_mut(&mut self) -> (note: Option<&mut Note>)
        ensures
            final(self).selected_note_id == old(self).selected_note_id,
            note is None ==> final(self).notes@ == old(self).notes@,
            note is None ==> match old(self).selected_note_id {
                None => true,
                Some(id) => first_with_id(old(self).notes@, id, 0) is None,
            },
            note matches Some(n) ==> exists|i: int|
                #![trigger old(self).notes@[i]]
                old(self).selected_note_id matches Some(id) && first_with_id(old(self).notes@, id, 0)
                    == Some(i) && *n == old(self).notes@[i] && final(self).notes@ == old(
                    self,
                ).notes@.update(i, *final(n)),
    {
        let selected_id = match self.selected_note_id {
            Some(id) => id,
            None => return None,
        };
        match position_of(&self.notes, selected_id) {
            Some(i) => Some(&mut self.notes[i]),
            None => None,
        }
    }

    /// Makes the selection valid: a selection that names no note falls back to
    /// the first note, or to nothing in an empty collection.
    pub fn normalize_selection(&mut self)
        ensures
            final(self).notes == old(self).notes,
            final(self).selected_note_id == if old(self).selection_valid() && old(
                self,
            ).selected_note_id is Some {
                old(self).selected_note_id
            } else if old(self).notes@.len() > 0 {
                Some(old(self).notes@[0].id)
            } else {
                None
            },
            final(self).selection_valid(),
    {
        let exists = match self.selected_note_id {
            Some(id) => position_of(&self.notes, id).is_some(),
            None => false,
        };
        if !exists {
            if self.notes.len() > 0 {
                self.selected_note_id = Some(self.notes[0].id);
                assert(has_id(self.notes@, self.notes@[0].id));
            } else {
                self.selected_note_id = None;
            }
        }
    }
}

/// The texts of a list of strings.
pub open spec fn texts(v: Seq<String>) -> Seq<Seq<char>> {
    v.map_values(|s: String| s@)
}

/// A copy of a list of strings.
pub fn copy_strings(v: &Vec<String>) -> (copy: Vec<String>)
    ensures
        texts(copy@) == texts(v@),
{
    let mut copy: Vec<String> = Vec::new();
    let mut i: usize = 0;
    while i < v.len()
        invariant
            0 <= i <= v.len(),
            texts(copy@) == texts(v@.take(i as int)),
            copy@.len() == i,
        decreases v.len() - i,
    {
        let ghost before = copy@;
        let item = v[i].clone();
        copy.push(item);
        proof {
            assert(item == v@[i as int]);
            assert(copy@[i as int] == item);
            assert forall|j: int| 0 <= j < i + 1 implies #[trigger] texts(copy@)[j] == texts(
                v@.take(i + 1),
            )[j] by {
                if j < i {
                    assert(copy@[j] == before[j]);
                    assert(texts(before)[j] == texts(v@.take(i as int))[j]);
                }
            }
            assert(texts(copy@) =~= texts(v@.take(i + 1)));
        }
        i = i + 1;
    }
    proof {
        assert(v@.take(v.len() as int) =~= v@);
    }
    copy
}

/// Some alias equals `name`, ignoring ASCII case.
pub open spec fn has_alias(aliases: Seq<String>, name: Seq<char>) -> bool {
    exists|i: int| 0 <= i < aliases.len() && eq_ignore_ascii_case((#[trigger] aliases[i])@, name)
}

/// The aliases written to a note file: the note's aliases, plus its trimmed
/// title when it is not empty and not already an alias.
pub open spec fn saved_aliases(aliases: Seq<String>, title: Seq<char>) -> Seq<Seq<char>> {
    let t = trim(title);
    if t.len() > 0 && !has_alias(aliases, t) {
        texts(aliases).push(t)
    } else {
        texts(aliases)
    }
}

/// The metadata block of a note file.
pub struct NoteFrontmatter {
    pub id: u128,
    pub title: String,
    pub created_at: Timestamp,
    pub updated_at: Timestamp,
    pub aliases: Vec<String>,
    pub tags: Vec<String>,
    pub pinned: bool,
}

/// A note of the single-file format used before Markdown notes.
pub struct LegacyNote {
    pub id: u64,
    pub title: String,
    pub content: String,
    pub created_at: Timestamp,
    pub updated_at: Timestamp,
}

/// Every note has its own UUID.
pub open spec fn ids_unique(notes: Seq<Note>) -> bool {
    forall|i: int, j: int|
        0 <= i < notes.len() && 0 <= j < notes.len() && i != j ==> (#[trigger] notes[i]).id
            != (#[trigger] notes[j]).id
}

/// Adds `note` unless a note with its UUID is already there. Returns whether
/// it was added.
pub fn admit_unique(notes: &mut Vec<Note>, note: Note) -> (added: bool)
    ensures
        added == !has_id(old(notes)@, note.id),
        final(notes)@ == if added {
            old(notes)@.push(note)
        } else {
            old(notes)@
        },
        ids_unique(old(notes)@) ==> ids_unique(final(notes)@),
{
    if position_of(notes, note.id).is_some() {
        return false;
    }
    let ghost before = notes@;
    notes.push(note);
    proof {
        assert forall|i: int, j: int|
            ids_unique(before) && 0 <= i < notes@.len() && 0 <= j < notes@.len() && i != j implies (
        #[trigger] notes@[i]).id != (#[trigger] notes@[j]).id by {
            if i < before.len() && j < before.len() {
                assert(notes@[i] == before[i]);
                assert(notes@[j] == before[j]);
            } else if i < before.len() {
                assert(notes@[i] == before[i]);
            } else {
                assert(notes@[j] == before[j]);
            }
        }
    }
    true
}

impl Note {
    /// The metadata written to the note's file.
    pub fn frontmatter(&self) -> (meta: NoteFrontmatter)
        ensures
            meta.id == self.id,
            meta.title@ == self.title@,
            meta.created_at == self.created_at,
            meta.updated_at == self.updated_at,
            texts(meta.aliases@) == saved_aliases(self.aliases@, self.title@),
            texts(meta.tags@) == texts(self.tags@),
            meta.pinned == self.pinned,
    {
        let mut aliases = copy_strings(&self.aliases);
        let chars = chars_of(self.title.as_str());
        let (start, end) = trim_bounds(&chars);
        let mut trimmed: Vec<char> = Vec::new();
        let mut k: usize = start;
        while k < end
            invariant
                start <= k <= end <= chars.len(),
                trimmed@ == chars@.subrange(start as int, k as int),
            decreases end - k,
        {
            trimmed.push(chars[k]);
            assert(chars@.subrange(start as int, k + 1) =~= trimmed@);
            k = k + 1;
        }
        let ghost t = trim(self.title@);
        assert(trimmed@ == t);
        if end > start {
            let mut known = false;
            let mut i: usize = 0;
            while i < self.aliases.len()
                invariant
                    0 <= i <= self.aliases.len(),
                    trimmed@ == t,
                    known == exists|j: int|
                        0 <= j < i && eq_ignore_ascii_case((#[trigger] self.aliases@[j])@, t),
                decreases self.aliases.len() - i,
            {
                let alias = chars_of(self.aliases[i].as_str());
                let same = eq_ignore_ascii_case_in(&alias, 0, alias.len(), trimmed.as_slice());
                assert(alias@.subrange(0, alias.len() as int) =~= alias@);
                if same {
                    known = true;
                }
                i = i + 1;
            }
            if !known {
                let title = String::from_str(self.title.as_str().substring_char(start, end));
                aliases.push(title);
                proof {
                    assert(texts(aliases@) =~= texts(self.aliases@).push(t));
                }
            }
        }
        NoteFrontmatter {
            id: self.id,
            title: self.title.clone(),
            created_at: self.created_at,
            updated_at: self.updated_at,
            aliases,
            tags: copy_strings(&self.tags),
            pinned: self.pinned,
        }
    }

    /// The note read from a file with metadata `meta` and body `content`.
    pub fn from_frontmatter(meta: NoteFrontmatter, content: String, file_path: PathBuf) -> (note: Note)
        ensures
            note.id == meta.id,
            note.title == meta.title,
            note.content == content,
            note.created_at == meta.created_at,
            note.updated_at == meta.updated_at,
            note.aliases == meta.aliases,
            note.tags == meta.tags,
            note.pinned == meta.pinned,
            note.file_path == file_path,
            note.search_text_fresh(),
    {
        let mut note = Note {
            id: meta.id,
            title: meta.title,
            content,
            created_at: meta.created_at,
            updated_at: meta.updated_at,
            aliases: meta.aliases,
            tags: meta.tags,
            pinned: meta.pinned,
            file_path,
            search_text: String::new(),
        };
        note.refresh_search_text();
        note
    }

    /// A Markdown note made from a legacy note: a fresh UUID, the legacy
    /// title kept as an alias, stored in `notes_dir`.
    pub fn from_legacy(legacy: LegacyNote, notes_dir: &Path) -> (note: Note)
        ensures
            note.title == legacy.title,
            note.content == legacy.content,
            note.created_at == legacy.created_at,
            note.updated_at == legacy.updated_at,
            texts(note.aliases@) == if trim(legacy.title@).len() == 0 {
                Seq::<Seq<char>>::empty()
            } else {
                seq![legacy.title@]
            },
            note.tags@.len() == 0,
            !note.pinned,
            note.search_text_fresh(),
    {
        let id = new_uuid();
        let file_name = note_file_name(legacy.title.as_str(), id);
        let file_path = join_name(notes_dir, file_name.as_str());
        let chars = chars_of(legacy.title.as_str());
        let (start, end) = trim_bounds(&chars);
        let mut aliases: Vec<String> = Vec::new();
        if end > start {
            aliases.push(legacy.title.clone());
            proof {
                assert(texts(aliases@) =~= seq![legacy.title@]);
            }
        } else {
            proof {
                assert(texts(aliases@) =~= Seq::<Seq<char>>::empty());
            }
        }
        let mut note = Note {
            id,
            title: legacy.title,
            content: legacy.content,
            created_at: legacy.created_at,
            updated_at: legacy.updated_at,
            aliases,
            tags: Vec::new(),
            pinned: false,
            file_path,
            search_text: String::new(),
        };
        note.refresh_search_text();
        note
    }

    /// A note rebuilt from a file whose frontmatter cannot be read: the body
    /// after any fence block, the title from the file stem, a UUID hashed from
    /// the path text, and the file's modification time for both dates.
    pub fn recovered(
        raw: &str,
        path_text: &str,
        file_stem: &str,
        file_path: PathBuf,
        modified: Timestamp,
    ) -> (note: Note)
        ensures
            note.id == path_hash(encode_utf8(path_text@)),
            note.title@ == title_of_stem(file_stem@),
            note.content@ == recovered_body(raw@),
            note.created_at == modified,
            note.updated_at == modified,
            note.aliases@.len() == 0,
            note.tags@.len() == 0,
            !note.pinned,
            note.file_path == file_path,
            note.search_text_fresh(),
    {
        let mut note = Note {
            id: stable_id(path_text),
            title: stem_title(file_stem),
            content: recover_body(raw),
            created_at: modified,
            updated_at: modified,
            aliases: Vec::new(),
            tags: Vec::new(),
            pinned: false,
            file_path,
            search_text: String::new(),
        };
        note.refresh_search_text();
        note
    }
}

/// The first line of `s` (from `from` on, as `str::lines` splits it) that
/// holds more than white space, as a character range.
pub open spec fn first_filled_line(s: Seq<char>, from: int) -> Option<(int, int)>
    decreases s.len() - from,
{
    if from < 0 || from > s.len() {
        None
    } else {
        let end = line_end_of(s, from);
        let visible_end = if end < s.len() && end > from && s[end - 1] == '\r' {
            end - 1
        } else {
            end
        };
        if trim(s.subrange(from, visible_end)).len() > 0 {
            Some((from, visible_end))
        } else if end < s.len() {
            proof {
                lemma_line_end_of(s, from);
            }
            first_filled_line(s, end + 1)
        } else {
            None
        }
    }
}

pub proof fn lemma_line_end_of(s: Seq<char>, p: int)
    requires
        0 <= p <= s.len(),
    ensures
        p <= line_end_of(s, p) <= s.len(),
        line_end_of(s, p) < s.len() ==> s[line_end_of(s, p)] == '\n',
    decreases s.len() - p,
{
    if p < s.len() && s[p] != '\n' {
        lemma_line_end_of(s, p + 1);
    }
}

/// The name a note is listed under: its title, or else the first line of its
/// content with visible text, or else `Untitled`.
pub open spec fn display_title_of(title: Seq<char>, content: Seq<char>) -> Seq<char> {
    if trim(title).len() > 0 {
        title
    } else {
        match first_filled_line(content, 0) {
            Some((a, b)) => content.subrange(a, b),
            None => "Untitled"@,
        }
    }
}

pub fn display_note_title(note: &Note) -> (name: &str)
    ensures
        name@ == display_title_of(note.title@, note.content@),
{
    let title_chars = chars_of(note.title.as_str());
    if has_visible_text(&title_chars, 0, title_chars.len()) {
        assert(title_chars@.subrange(0, title_chars.len() as int) =~= note.title@);
        return note.title.as_str();
    }
    assert(title_chars@.subrange(0, title_chars.len() as int) =~= note.title@);
    let s = chars_of(note.content.as_str());
    let n = s.len();
    let mut from: usize = 0;
    loop
        invariant
            0 <= from <= n,
            n == s.len(),
            s@ == note.content@,
            first_filled_line(s@, from as int) == first_filled_line(s@, 0),
            trim(note.title@).len() == 0,
        ensures
            first_filled_line(s@, 0) is None,
            trim(note.title@).len() == 0,
        decreases n - from,
    {
        let mut end: usize = from;
        while end < n && s[end] != '\n'
            invariant
                from <= end <= n == s.len(),
                line_end_of(s@, end as int) == line_end_of(s@, from as int),
            decreases n - end,
        {
            end = end + 1;
        }
        assert(line_end_of(s@, from as int) == end);
        let visible_end: usize = if end < n && end > from && s[end - 1] == '\r' {
            end - 1
        } else {
            end
        };
        if has_visible_text(&s, from, visible_end) {
            assert(first_filled_line(s@, from as int) == Some((from as int, visible_end as int)));
            return note.content.as_str().substring_char(from, visible_end);
        }
        if end < n {
            from = end + 1;
        } else {
            assert(first_filled_line(s@, from as int) is None);
            break;
        }
    }
    proof {
        reveal_strlit("Untitled");
    }
    "Untitled"
}

/// Orders migrated notes so that the note that was selected comes first;
/// the others keep their order.
pub fn selected_first(notes: Vec<Note>, selected: Option<u128>) -> (ordered: Vec<Note>)
    ensures
        selected is None ==> ordered@ == notes@,
        selected matches Some(id) ==> ordered@ == notes@.filter(|n: Note| n.id == id) + notes@.filter(
            |n: Note| n.id != id,
        ),
{
    let id = match selected {
        Some(id) => id,
        None => return notes,
    };
    let ghost initial = notes@;
    let ghost chosen = |n: Note| n.id == id;
    let ghost others = |n: Note| n.id != id;
    let mut rest = notes;
    let mut first: Vec<Note> = Vec::new();
    let mut second: Vec<Note> = Vec::new();
    let ghost mut done: int = 0;
    proof {
        assert(initial.take(0) =~= Seq::<Note>::empty());
        assert(initial.take(0).filter(chosen) =~= Seq::<Note>::empty());
        assert(initial.take(0).filter(others) =~= Seq::<Note>::empty());
        assert(rest@ =~= initial.skip(0));
    }
    while rest.len() > 0
        invariant
            0 <= done <= initial.len(),
            rest@ == initial.skip(done),
            first@ == initial.take(done).filter(chosen),
            second@ == initial.take(done).filter(others),
            chosen == (|n: Note| n.id == id),
            others == (|n: Note| n.id != id),
        decreases rest.len(),
    {
        let note = rest.remove(0);
        proof {
            assert(note == initial[done]);
            assert(initial.take(done + 1) =~= initial.take(done).push(note));
            initial.take(done).lemma_filter_push(note, chosen);
            initial.take(done).lemma_filter_push(note, others);
        }
        if note.id == id {
            first.push(note);
        } else {
            second.push(note);
        }
        proof {
            done = done + 1;
            assert(rest@ =~= initial.skip(done));
        }
    }
    proof {
        assert(done == initial.len());
        assert(initial.take(done) =~= initial);
    }
    first.append(&mut second);
    first
}

} // verus!
