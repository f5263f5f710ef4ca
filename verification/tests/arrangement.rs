use lilo::arrangement::{folder_note_order, pinned_note_order};
use lilo::notes::{Note, NoteSort, Timestamp};
use std::path::PathBuf;

fn note(title: &str, created: i64, updated: i64, pinned: bool) -> Note {
    let mut note = Note::new_named(&PathBuf::from("vault/Notes"), title);
    note.created_at = Timestamp { seconds: created, nanos: 0 };
    note.updated_at = Timestamp { seconds: updated, nanos: 0 };
    note.pinned = pinned;
    note
}

#[test]
fn folder_rows_follow_the_chosen_sort() {
    let notes = vec![
        note("beta", 10, 40, false),
        note("Alpha", 30, 20, false),
        note("gamma", 20, 30, false),
    ];
    let ids: Vec<u128> = notes.iter().map(|n| n.id).collect();
    let updated = folder_note_order(&notes, &ids, NoteSort::Updated, "");
    assert_eq!(updated, vec![ids[0], ids[2], ids[1]]);
    let created = folder_note_order(&notes, &ids, NoteSort::Created, "");
    assert_eq!(created, vec![ids[1], ids[2], ids[0]]);
    let titled = folder_note_order(&notes, &ids, NoteSort::Title, "");
    assert_eq!(titled, vec![ids[1], ids[0], ids[2]]);
}

#[test]
fn folder_rows_skip_pinned_and_unmatched_notes_and_keep_ties_in_order() {
    let mut notes = vec![
        note("first", 5, 50, false),
        note("pinned", 5, 60, true),
        note("second", 5, 50, false),
        note("other", 5, 70, false),
    ];
    notes[3].content = "nothing here".to_owned();
    notes[3].refresh_search_text();
    let ids: Vec<u128> = notes.iter().map(|n| n.id).collect();
    let rows = folder_note_order(&notes, &ids, NoteSort::Updated, "s");
    assert_eq!(rows, vec![ids[0], ids[2]]);
    let everything = folder_note_order(&notes, &ids, NoteSort::Created, "");
    assert_eq!(everything, vec![ids[0], ids[2], ids[3]]);
}

#[test]
fn pinned_rows_are_newest_first_and_filtered() {
    let notes = vec![
        note("old pin", 1, 10, true),
        note("loose", 1, 99, false),
        note("new pin", 1, 20, true),
        note("hidden pin", 1, 30, true),
    ];
    let all = pinned_note_order(&notes, "");
    assert_eq!(all, vec![notes[3].id, notes[2].id, notes[0].id]);
    let matching = pinned_note_order(&notes, "pin");
    assert_eq!(matching.len(), 3);
    let only_new = pinned_note_order(&notes, "new");
    assert_eq!(only_new, vec![notes[2].id]);
}

#[test]
fn pinned_rows_list_a_uuid_once_for_its_last_note() {
    let first = note("twin", 1, 10, true);
    let mut second = note("twin later", 1, 5, false);
    second.id = first.id;
    let id = first.id;
    let notes = vec![first, second];
    assert!(pinned_note_order(&notes, "").is_empty());

    let unpinned = note("twin", 1, 10, false);
    let mut pinned = note("twin later", 1, 5, true);
    pinned.id = unpinned.id;
    let notes = vec![unpinned, pinned];
    assert_eq!(pinned_note_order(&notes, ""), vec![notes[1].id]);
    assert_ne!(notes[1].id, id);
}
