//! The Trash and Backups listings, and which backups rotate out.

use crate::collation::{in_order, listed, sort_by_text, stably_listed, text_le, ListedByText};
use crate::interop::{uuid_hyphenated, uuid_hyphenated_text};
use crate::paths::TrashEntry;
use crate::text::{chars_of, occurs_at};
use std::path::PathBuf;
use vstd::multiset::Multiset;
use vstd::prelude::*;
use vstd::string::StringExecFns;

verus! {

/// A saved version of a note in the Backups folder.
pub struct BackupEntry {
    pub relative_path: PathBuf,
    pub note_id: u128,
    pub title: String,
    pub created_label: String,
    pub size: u64,
}

impl Clone for BackupEntry {
    fn clone(&self) -> (copy: Self)
        ensures
            copy == *self,
    {
        BackupEntry {
            relative_path: self.relative_path.clone(),
            note_id: self.note_id,
            title: self.title.clone(),
            created_label: self.created_label.clone(),
            size: self.size,
        }
    }
}

impl ListedByText for TrashEntry {
    open spec fn sort_key(&self) -> Seq<char> {
        self.display_name@
    }

    fn key_chars(&self) -> (key: Vec<char>) {
        chars_of(self.display_name.as_str())
    }
}

impl ListedByText for BackupEntry {
    open spec fn sort_key(&self) -> Seq<char> {
        self.created_label@
    }

    fn key_chars(&self) -> (key: Vec<char>) {
        chars_of(self.created_label.as_str())
    }
}

impl ListedByText for String {
    open spec fn sort_key(&self) -> Seq<char> {
        self@
    }

    fn key_chars(&self) -> (key: Vec<char>) {
        chars_of(self.as_str())
    }
}

/// Orders Trash entries by display name; entries with equal names keep
/// their order.
pub fn sort_trash_entries(entries: Vec<TrashEntry>) -> (sorted: Vec<TrashEntry>)
    ensures
        sorted@.to_multiset() == entries@.to_multiset(),
        sorted@.len() == entries@.len(),
        listed(sorted@, false),
        exists|pos: Seq<int>| stably_listed(sorted@, entries@, pos, false),
{
    sort_by_text(entries, false)
}

/// Orders backups newest first by their creation label; backups with equal
/// labels keep their order.
pub fn sort_backups_newest_first(entries: Vec<BackupEntry>) -> (sorted: Vec<BackupEntry>)
    ensures
        sorted@.to_multiset() == entries@.to_multiset(),
        sorted@.len() == entries@.len(),
        listed(sorted@, true),
        exists|pos: Seq<int>| stably_listed(sorted@, entries@, pos, true),
{
    sort_by_text(entries, true)
}

/// The file names of a note's backups start with its hyphenated UUID and a
/// hyphen.
pub open spec fn backup_prefix(note_id: u128) -> Seq<char> {
    uuid_hyphenated_text(note_id) + seq!['-']
}

/// A file name that belongs to the backups of `note_id`.
pub open spec fn is_backup_of(name: Seq<char>, note_id: u128) -> bool {
    &&& occurs_at(name, 0, backup_prefix(note_id))
    &&& name.len() >= 3
    &&& occurs_at(name, name.len() - 3, seq!['.', 'm', 'd'])
}

/// The names among `names` that belong to the backups of `note_id`, in order.
pub open spec fn backups_of(names: Seq<String>, note_id: u128) -> Seq<String>
    decreases names.len(),
{
    if names.len() == 0 {
        Seq::empty()
    } else {
        let rest = backups_of(names.drop_last(), note_id);
        if is_backup_of(names.last()@, note_id) {
            rest.push(names.last())
        } else {
            rest
        }
    }
}

/// How many backups go when `count` exist and `limit` may stay.
pub open spec fn excess(count: nat, limit: nat) -> nat {
    if count > limit {
        (count - limit) as nat
    } else {
        0
    }
}

/// The file name of a backup taken at `timestamp`.
pub fn backup_file_name(note_id: u128, timestamp: &str) -> (name: String)
    ensures
        name@ == backup_prefix(note_id) + timestamp@ + seq!['.', 'm', 'd'],
{
    let mut name = uuid_hyphenated(note_id);
    name.append("-");
    name.append(timestamp);
    name.append(".md");
    proof {
        reveal_strlit("-");
        reveal_strlit(".md");
        assert(name@ =~= backup_prefix(note_id) + timestamp@ + seq!['.', 'm', 'd']);
    }
    name
}

/// The name a note takes in the Trash when its own name is taken there: its
/// hyphenated UUID with the Markdown extension.
pub fn trash_fallback_name(note_id: u128) -> (name: String)
    ensures
        name@ == uuid_hyphenated_text(note_id) + seq!['.', 'm', 'd'],
{
    let mut name = uuid_hyphenated(note_id);
    name.append(".md");
    proof {
        reveal_strlit(".md");
        assert(name@ =~= uuid_hyphenated_text(note_id) + seq!['.', 'm', 'd']);
    }
    name
}

/// Whether `name` belongs to the backups of the note whose prefix is given.
fn belongs(name: &String, prefix: &Vec<char>, note_id: u128) -> (yes: bool)
    requires
        prefix@ == backup_prefix(note_id),
    ensures
        yes == is_backup_of(name@, note_id),
{
    let chars = chars_of(name.as_str());
    let n = chars.len();
    let extension: [char; 3] = ['.', 'm', 'd'];
    assert(extension@ =~= seq!['.', 'm', 'd']);
    crate::text::occurs_at_in(&chars, 0, n, prefix.as_slice()) && n >= 3
        && crate::text::occurs_at_in(&chars, n - 3, n, &extension)
}

/// The backups of `note_id` to delete so that at most `limit` remain: the
/// oldest names, which sort first.
pub fn backups_to_prune(names: Vec<String>, note_id: u128, limit: usize) -> (pruned: Vec<String>)
    ensures
        pruned@.len() == excess(backups_of(names@, note_id).len(), limit as nat),
        pruned@.to_multiset().subset_of(backups_of(names@, note_id).to_multiset()),
        forall|kept: String|
            #![trigger backups_of(names@, note_id).to_multiset().sub(pruned@.to_multiset()).count(kept)]
            backups_of(names@, note_id).to_multiset().sub(pruned@.to_multiset()).count(kept) > 0
                ==> forall|i: int| 0 <= i < pruned@.len() ==> text_le((#[trigger] pruned@[i])@, kept@),
{
    broadcast use vstd::multiset::group_multiset_axioms, vstd::seq_lib::group_to_multiset_ensures;
    let prefix_text = uuid_hyphenated(note_id);
    let mut prefix = chars_of(prefix_text.as_str());
    prefix.push('-');
    assert(prefix@ =~= backup_prefix(note_id));
    let mut matching: Vec<String> = Vec::new();
    let mut i: usize = 0;
    while i < names.len()
        invariant
            0 <= i <= names.len(),
            prefix@ == backup_prefix(note_id),
            matching@ == backups_of(names@.take(i as int), note_id),
        decreases names.len() - i,
    {
        proof {
            assert(names@.take(i + 1).drop_last() =~= names@.take(i as int));
        }
        if belongs(&names[i], &prefix, note_id) {
            matching.push(names[i].clone());
        }
        i = i + 1;
    }
    assert(names@.take(names.len() as int) =~= names@);
    let ghost all = matching@;
    let count = matching.len();
    let mut sorted = sort_by_text(matching, false);
    let cut: usize = if count > limit { count - limit } else { 0 };
    let ghost sorted_all = sorted@;
    let kept = sorted.split_off(cut);
    proof {
        let whole = sorted@ + kept@;
        assert(whole =~= sorted_all);
        assert(whole.to_multiset() == all.to_multiset());
        vstd::seq_lib::lemma_multiset_commutative(sorted@, kept@);
        assert(all.to_multiset().sub(sorted@.to_multiset()) =~= kept@.to_multiset());
        assert forall|kept_name: String|
            all.to_multiset().sub(sorted@.to_multiset()).count(kept_name) > 0 implies forall|j: int|
            0 <= j < sorted@.len() ==> text_le((#[trigger] sorted@[j])@, kept_name@) by {
            assert(kept@.to_multiset().count(kept_name) > 0);
            assert(kept@.contains(kept_name));
            let k = choose|k: int| 0 <= k < kept@.len() && kept@[k] == kept_name;
            assert forall|j: int| 0 <= j < sorted@.len() implies text_le((#[trigger] sorted@[j])@, kept_name@) by {
                assert(whole[j] == sorted@[j]);
                assert(whole[sorted@.len() + k] == kept_name);
                assert(in_order(whole[j], whole[sorted@.len() + k], false));
            }
        }
    }
    sorted
}

} // verus!
