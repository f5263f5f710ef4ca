use lilo::document::{compose_note_document, split_note_document, DocumentError};
use lilo::listing::{backup_file_name, trash_fallback_name, backups_to_prune, sort_backups_newest_first, sort_trash_entries, BackupEntry};
use lilo::notes::{
    admit_unique, display_note_title, selected_first, AppData, LegacyNote, Note, NoteFrontmatter,
    NoteSort, ShortcutSettings, ThemeChoice, Timestamp,
};
use lilo::paths::{
    is_safe_relative_path, managed_file_path, parse_vault_path, vault_diagnostics, ManagedPathError,
    StoragePaths, TrashEntry, VaultPathError,
};
use std::path::{Path, PathBuf};

fn stamp(seconds: i64) -> Timestamp {
    Timestamp { seconds, nanos: 0 }
}

fn note(id: u128, title: &str, content: &str) -> Note {
    let mut note = Note::new_named(Path::new("vault/Notes"), title);
    note.id = id;
    note.content = content.to_owned();
    note.refresh_search_text();
    note
}

#[test]
fn new_note_is_named_after_its_title() {
    let note = Note::new_named(Path::new("vault/Notes"), "  Ownership ");
    assert_eq!(note.title, "Ownership");
    assert!(note.content.is_empty());
    assert_eq!(note.created_at, note.updated_at);
    assert_eq!(note.search_text, "ownership\n");
    let file_name = note.file_path.file_name().unwrap().to_string_lossy().into_owned();
    assert!(file_name.starts_with("Ownership--"));
    assert!(file_name.ends_with(".md"));
    assert_eq!(note.file_path.parent(), Some(Path::new("vault/Notes")));
    let other = Note::new(Path::new("vault/Notes"));
    assert_ne!(note.id, other.id);
    assert!(other.file_path.file_name().unwrap().to_string_lossy().starts_with("Untitled--"));
}

#[test]
fn marking_a_note_updated_refreshes_search_text() {
    let mut note = note(1, "Title", "Body");
    let created = note.created_at;
    note.content = "MORE Text".to_owned();
    note.mark_as_updated();
    assert_eq!(note.search_text, "title\nmore text");
    assert_eq!(note.created_at, created);
    assert!(note.updated_at.seconds >= created.seconds);
}

#[test]
fn creating_notes_selects_them() {
    let mut data = AppData { notes: Vec::new(), selected_note_id: None };
    let first = data.create_note(Path::new("vault/Notes"));
    let second = data.create_note_named(Path::new("vault/Notes"), " Second ");
    assert_eq!(data.notes.len(), 2);
    assert_eq!(data.selected_note_id, Some(second));
    assert_eq!(data.selected_note().unwrap().title, "Second");
    assert_ne!(first, second);
}

#[test]
fn removing_the_selected_note_selects_its_neighbour() {
    let mut data = AppData {
        notes: vec![note(1, "a", ""), note(2, "b", ""), note(3, "c", "")],
        selected_note_id: Some(2),
    };
    let removed = data.remove_note(2).unwrap();
    assert_eq!(removed.id, 2);
    assert_eq!(data.selected_note_id, Some(3));
    data.remove_note(3);
    assert_eq!(data.selected_note_id, Some(1));
    data.remove_note(1);
    assert_eq!(data.selected_note_id, None);
    assert!(data.remove_note(9).is_none());
}

#[test]
fn removing_another_note_keeps_the_selection() {
    let mut data = AppData {
        notes: vec![note(1, "a", ""), note(2, "b", "")],
        selected_note_id: Some(2),
    };
    data.remove_note(1);
    assert_eq!(data.selected_note_id, Some(2));
}

#[test]
fn stale_selection_falls_back_to_the_first_note() {
    let mut data = AppData { notes: vec![note(4, "a", ""), note(5, "b", "")], selected_note_id: Some(9) };
    data.normalize_selection();
    assert_eq!(data.selected_note_id, Some(4));
    let mut empty = AppData { notes: Vec::new(), selected_note_id: Some(9) };
    empty.normalize_selection();
    assert_eq!(empty.selected_note_id, None);
    let mut kept = AppData { notes: vec![note(4, "a", ""), note(5, "b", "")], selected_note_id: Some(5) };
    kept.normalize_selection();
    assert_eq!(kept.selected_note_id, Some(5));
}

#[test]
fn selected_note_can_be_edited() {
    let mut data = AppData { notes: vec![note(4, "a", ""), note(5, "b", "")], selected_note_id: Some(5) };
    data.selected_note_mut().unwrap().title = "changed".to_owned();
    assert_eq!(data.notes[1].title, "changed");
}

#[test]
fn display_title_prefers_title_then_first_line() {
    assert_eq!(display_note_title(&note(1, "Title", "x")), "Title");
    assert_eq!(display_note_title(&note(1, "  ", "\n  \nFirst line\r\nsecond")), "First line");
    assert_eq!(display_note_title(&note(1, "", " \n\t")), "Untitled");
}

#[test]
fn frontmatter_adds_the_title_as_alias_once() {
    let mut n = note(7, " Rust ", "body");
    n.aliases = vec!["Other".to_owned()];
    n.tags = vec!["t".to_owned()];
    let meta = n.frontmatter();
    assert_eq!(meta.aliases, vec!["Other".to_owned(), "Rust".to_owned()]);
    assert_eq!(meta.tags, vec!["t".to_owned()]);
    n.aliases = vec!["RUST".to_owned()];
    assert_eq!(n.frontmatter().aliases, vec!["RUST".to_owned()]);
}

#[test]
fn note_documents_round_trip() {
    let yaml = "id: 1\ntitle: Ownership\n";
    let content = "Ownership is connected to [[Borrowing]].";
    let document = compose_note_document(yaml, content);
    assert!(document.starts_with("---\n"));
    assert!(document.contains("\n---\n\nOwnership is connected"));
    let (read_yaml, read_content) = split_note_document(&document).unwrap();
    assert_eq!(read_yaml, "id: 1\ntitle: Ownership");
    assert_eq!(read_content, content);
}

#[test]
fn broken_documents_are_reported() {
    assert_eq!(split_note_document("no fence"), Err(DocumentError::NoFrontmatter));
    assert_eq!(split_note_document("---\nid: 1\n"), Err(DocumentError::Unclosed));
    assert_eq!(split_note_document("---\r\na: b\r\n---\r\nbody"), Ok(("a: b".to_owned(), "body".to_owned())));
}

#[test]
fn corrupt_note_is_recovered_from_its_body() {
    let raw = "---\ninvalid: [yaml\n---\n\n# Preserved body";
    let recovered = Note::recovered(raw, "vault/Notes/My-Note--12345678.md", "My-Note--12345678", PathBuf::from("vault/Notes/My-Note--12345678.md"), stamp(5));
    assert_eq!(recovered.content, "# Preserved body");
    assert_eq!(recovered.title, "My Note");
    assert_eq!(recovered.created_at, stamp(5));
    let again = Note::recovered("x", "vault/Notes/My-Note--12345678.md", "s", PathBuf::new(), stamp(1));
    assert_eq!(again.id, recovered.id);
    let other = Note::recovered("x", "vault/Notes/other.md", "s", PathBuf::new(), stamp(1));
    assert_ne!(other.id, recovered.id);
    let plain = Note::recovered("just text", "p", "plain", PathBuf::new(), stamp(1));
    assert_eq!(plain.content, "just text");
    assert_eq!(plain.title, "plain");
}

#[test]
fn legacy_notes_keep_title_as_alias() {
    let legacy = LegacyNote { id: 7, title: "Legacy note".to_owned(), content: "Old JSON content".to_owned(), created_at: stamp(1), updated_at: stamp(2) };
    let n = Note::from_legacy(legacy, Path::new("vault/Notes"));
    assert_eq!(n.title, "Legacy note");
    assert_eq!(n.content, "Old JSON content");
    assert_eq!(n.aliases, vec!["Legacy note".to_owned()]);
    assert_eq!(n.updated_at, stamp(2));
}

#[test]
fn notes_from_frontmatter_are_searchable() {
    let meta = NoteFrontmatter { id: 3, title: "Ownership".to_owned(), created_at: stamp(1), updated_at: stamp(2), aliases: vec![], tags: vec!["rust".to_owned()], pinned: true };
    let n = Note::from_frontmatter(meta, "Body".to_owned(), PathBuf::from("a.md"));
    assert_eq!(n.search_text, "ownership\nbody");
    assert!(n.pinned);
}

#[test]
fn duplicate_uuids_are_refused() {
    let mut notes = Vec::new();
    assert!(admit_unique(&mut notes, note(1, "a", "")));
    assert!(!admit_unique(&mut notes, note(1, "b", "")));
    assert!(admit_unique(&mut notes, note(2, "c", "")));
    assert_eq!(notes.len(), 2);
}

#[test]
fn migrated_selection_comes_first() {
    let ordered = selected_first(vec![note(1, "a", ""), note(2, "b", ""), note(3, "c", "")], Some(3));
    let ids: Vec<u128> = ordered.iter().map(|n| n.id).collect();
    assert_eq!(ids, vec![3, 1, 2]);
}

#[test]
fn defaults_match_the_settings_file() {
    assert_eq!(NoteSort::default(), NoteSort::Updated);
    assert_eq!(ThemeChoice::default(), ThemeChoice::Dark);
    let shortcuts = ShortcutSettings::default();
    assert_eq!(shortcuts.graph_overlay, "Ctrl+Shift+G");
    assert_eq!(shortcuts.new_note, "Ctrl+N");
}

#[test]
fn backups_are_pruned_oldest_first() {
    let id = 0x67e55044_10b1_426f_9247_bb680e5fe0c8u128;
    let first = backup_file_name(id, "20240101-000000-000");
    assert_eq!(first, "67e55044-10b1-426f-9247-bb680e5fe0c8-20240101-000000-000.md");
    let names = vec![
        backup_file_name(id, "20240103-000000-000"),
        "unrelated.md".to_owned(),
        first.clone(),
        backup_file_name(id, "20240102-000000-000"),
        backup_file_name(id + 1, "20240101-000000-000"),
    ];
    let pruned = backups_to_prune(names, id, 2);
    assert_eq!(pruned, vec![first]);
}

#[test]
fn trash_and_backups_are_listed_in_order() {
    let entries = vec![
        TrashEntry { relative_path: PathBuf::from("b.md"), display_name: "beta".to_owned() },
        TrashEntry { relative_path: PathBuf::from("a.md"), display_name: "alpha".to_owned() },
        TrashEntry { relative_path: PathBuf::from("c.md"), display_name: "alpha".to_owned() },
    ];
    let sorted = sort_trash_entries(entries);
    let names: Vec<&Path> = sorted.iter().map(|e| e.relative_path.as_path()).collect();
    assert_eq!(names, vec![Path::new("a.md"), Path::new("c.md"), Path::new("b.md")]);
    let backup = |label: &str| BackupEntry { relative_path: PathBuf::from(label), note_id: 1, title: String::new(), created_label: label.to_owned(), size: 0 };
    let sorted = sort_backups_newest_first(vec![backup("2024-01-01"), backup("2024-03-01"), backup("2024-02-01")]);
    let labels: Vec<&str> = sorted.iter().map(|e| e.created_label.as_str()).collect();
    assert_eq!(labels, vec!["2024-03-01", "2024-02-01", "2024-01-01"]);
}

#[test]
fn unsafe_paths_are_refused() {
    assert!(!is_safe_relative_path(Path::new("../Outside")));
    assert!(is_safe_relative_path(Path::new("Programming/Rust")));
    assert!(is_safe_relative_path(Path::new("")));
    assert_eq!(managed_file_path(Path::new("Backups"), Path::new("")), Err(ManagedPathError::Unsafe));
    assert_eq!(managed_file_path(Path::new("Backups"), Path::new("../x.md")), Err(ManagedPathError::Unsafe));
    assert_eq!(managed_file_path(Path::new("Backups"), Path::new("x.md")), Ok(PathBuf::from("Backups/x.md")));
}

#[test]
fn vault_paths_must_be_absolute() {
    assert_eq!(parse_vault_path("   "), Err(VaultPathError::Empty));
    assert_eq!(parse_vault_path("relative/vault"), Err(VaultPathError::NotAbsolute));
    assert_eq!(parse_vault_path(" /tmp/vault "), Ok(PathBuf::from("/tmp/vault")));
}

#[test]
fn diagnostics_report_missing_folders() {
    let folders = || ["v/Notes".to_owned(), "v/Trash".to_owned(), "v/Backups".to_owned()];
    let report = vault_diagnostics(vec!["warning".to_owned()], folders(), [true, false, true]);
    assert_eq!(report, vec!["warning".to_owned(), "Missing managed directory: v/Trash".to_owned()]);
    let report = vault_diagnostics(Vec::new(), folders(), [false, true, false]);
    assert_eq!(
        report,
        vec![
            "Missing managed directory: v/Notes".to_owned(),
            "Missing managed directory: v/Backups".to_owned(),
        ]
    );
}

#[test]
fn file_name_follows_the_trimmed_title() {
    let mut n = note(0xabcdef0123456789_0000000000000000, "  Rust: Tips ", "");
    assert_eq!(n.file_name(), "Rust_ Tips--abcdef01.md");
    n.title = "   ".to_owned();
    assert_eq!(n.file_name(), "Untitled--abcdef01.md");
}

#[test]
fn trash_fallback_uses_the_hyphenated_uuid() {
    assert_eq!(
        trash_fallback_name(0x0123456789abcdef_0011223344556677),
        "01234567-89ab-cdef-0011-223344556677.md"
    );
}

#[test]
fn equal_trash_names_keep_their_order() {
    let entry = |path: &str, name: &str| TrashEntry { relative_path: PathBuf::from(path), display_name: name.to_owned() };
    let sorted = sort_trash_entries(vec![entry("z.md", "Same"), entry("b.md", "Alpha"), entry("a.md", "Same")]);
    let paths: Vec<&Path> = sorted.iter().map(|e| e.relative_path.as_path()).collect();
    assert_eq!(paths, vec![Path::new("b.md"), Path::new("z.md"), Path::new("a.md")]);
}

#[test]
fn unknown_saved_folders_are_forgotten() {
    let folders = vec![PathBuf::new(), PathBuf::from("Inbox"), PathBuf::from("Work")];
    let mut selected = PathBuf::from("Gone");
    let mut collapsed = vec![PathBuf::from("Work"), PathBuf::from("../Out"), PathBuf::from("Old"), PathBuf::from("Inbox")];
    lilo::paths::forget_unknown_folders(&mut selected, &mut collapsed, &folders);
    assert_eq!(selected, PathBuf::new());
    assert_eq!(collapsed, vec![PathBuf::from("Work"), PathBuf::from("Inbox")]);
    let mut kept = PathBuf::from("Inbox");
    lilo::paths::forget_unknown_folders(&mut kept, &mut collapsed, &folders);
    assert_eq!(kept, PathBuf::from("Inbox"));
}

#[test]
fn folder_choices_are_kept_only_when_safe_and_known() {
    assert!(lilo::paths::folder_kept(true, true));
    assert!(!lilo::paths::folder_kept(true, false));
    assert!(!lilo::paths::folder_kept(false, true));
    let items = vec![PathBuf::from("A"), PathBuf::from("B"), PathBuf::from("C")];
    let kept = lilo::paths::keep_marked(items, &vec![true, false, true]);
    assert_eq!(kept, vec![PathBuf::from("A"), PathBuf::from("C")]);
}

#[test]
fn managed_paths_are_refused_when_unsafe_or_empty() {
    assert!(lilo::paths::managed_refused(false, false));
    assert!(lilo::paths::managed_refused(true, true));
    assert!(!lilo::paths::managed_refused(true, false));
}

#[test]
fn markdown_extension_ignores_ascii_case() {
    assert!(lilo::paths::is_markdown_extension(Some("md")));
    assert!(lilo::paths::is_markdown_extension(Some("MD")));
    assert!(!lilo::paths::is_markdown_extension(Some("mdx")));
    assert!(!lilo::paths::is_markdown_extension(Some("txt")));
    assert!(!lilo::paths::is_markdown_extension(None));
}
