use lilo::folders::{build_from_entries, folder_entries, folder_has_visible_notes, FolderTree};
use lilo::navigation::{window_title, AppView, KeyPresses, ViewState};
use lilo::notes::{AppData, Note};
use lilo::shortcuts::{parse_shortcut, Shortcut};
use lilo::icons::Icon;
use std::path::PathBuf;

#[test]
fn builds_nested_tree_and_keeps_empty_folders() {
    let root = PathBuf::from("vault/Notes");
    let mut rust = Note::new_named(&root.join("Programming"), "Rust Tips");
    rust.file_path = root.join("Programming/Rust Tips--1234abcd.md");
    let mut bones = Note::new_named(&root.join("Biologia/Anatomy"), "Bones");
    bones.file_path = root.join("Biologia/Anatomy/Bones--1234abcd.md");

    let tree = FolderTree::build(
        &[rust, bones],
        &root,
        &[
            PathBuf::new(),
            PathBuf::from("Programming"),
            PathBuf::from("Biologia"),
            PathBuf::from("Biologia/Anatomy"),
            PathBuf::from("Empty"),
        ],
    );

    assert_eq!(tree.root.folders.len(), 3);
    let biologia = tree
        .root
        .folders
        .iter()
        .find(|folder| folder.name == "Biologia")
        .expect("Biologia folder");
    assert_eq!(biologia.folders[0].name, "Anatomy");
    assert_eq!(biologia.folders[0].note_ids.len(), 1);
    assert!(
        tree.root
            .folders
            .iter()
            .any(|folder| folder.name == "Empty" && folder.note_ids.is_empty())
    );
}

#[test]
fn folder_tree_is_sorted_and_paths_are_relative() {
    let root = PathBuf::from("vault/Notes");
    let mut a = Note::new_named(&root, "A");
    a.file_path = root.join("Zeta/A.md");
    let mut b = Note::new_named(&root, "B");
    b.file_path = root.join("B.md");
    let tree = FolderTree::build(&[a, b], &root, &[PathBuf::from("Alpha"), PathBuf::from("../Out")]);
    assert_eq!(tree.root.name, "Notes");
    let names: Vec<&str> = tree.root.folders.iter().map(|f| f.name.as_str()).collect();
    assert_eq!(names, vec!["Alpha", "Zeta"]);
    assert_eq!(tree.root.folders[1].relative_path, PathBuf::from("Zeta"));
    assert_eq!(tree.root.note_ids.len(), 1);
}

#[test]
fn search_hides_folders_without_matches() {
    let root = PathBuf::from("vault/Notes");
    let mut a = Note::new_named(&root, "Ownership");
    a.file_path = root.join("Rust/Own.md");
    let mut b = Note::new_named(&root, "Bones");
    b.file_path = root.join("Bio/Bones.md");
    let notes = vec![a, b];
    let tree = FolderTree::build(&notes, &root, &[]);
    assert!(folder_has_visible_notes(&tree.root, &notes, "owner"));
    let bio = tree.root.folders.iter().find(|f| f.name == "Bio").unwrap();
    assert!(!folder_has_visible_notes(bio, &notes, "owner"));
    assert!(folder_has_visible_notes(bio, &notes, ""));
}

#[test]
fn shortcuts_are_parsed() {
    assert_eq!(parse_shortcut("Ctrl+Shift+G"), Some(Shortcut { key: 'G', ctrl: true, shift: true, alt: false }));
    assert_eq!(parse_shortcut(" alt + p "), Some(Shortcut { key: 'P', ctrl: false, shift: false, alt: true }));
    assert_eq!(parse_shortcut("Ctrl+F1"), None);
    assert_eq!(parse_shortcut("Ctrl+"), None);
    assert_eq!(parse_shortcut(""), None);
}

#[test]
fn escape_closes_the_overlay_first() {
    let mut state = ViewState { view: AppView::Trash, focus_search: false, focus_editor: false, pending_delete_id: Some(3), graph_overlay_open: true };
    let none = KeyPresses { open_search: false, toggle_graph: false, toggle_overlay: false, save: false, escape: true };
    assert!(!state.apply_keys(none, false));
    assert!(!state.graph_overlay_open);
    assert_eq!(state.pending_delete_id, Some(3));
    state.apply_keys(none, false);
    assert_eq!(state.pending_delete_id, None);
    state.apply_keys(none, false);
    assert_eq!(state.view, AppView::Editor);
    assert!(state.focus_editor);
}

#[test]
fn search_and_graph_shortcuts_switch_views() {
    let mut state = ViewState { view: AppView::Editor, focus_search: false, focus_editor: true, pending_delete_id: None, graph_overlay_open: false };
    let search = KeyPresses { open_search: true, toggle_graph: false, toggle_overlay: false, save: true, escape: false };
    assert!(state.apply_keys(search, false));
    assert_eq!(state.view, AppView::NotesList);
    assert!(state.focus_search && !state.focus_editor);
    let graph = KeyPresses { open_search: false, toggle_graph: true, toggle_overlay: true, save: true, escape: false };
    assert!(!state.apply_keys(graph, true));
    assert_eq!(state.view, AppView::Graph);
    assert!(state.graph_overlay_open);
    assert!(!state.focus_search);
}

#[test]
fn window_title_follows_the_selection() {
    let mut data = AppData { notes: Vec::new(), selected_note_id: None };
    assert_eq!(window_title(&data), "NOTES");
    data.create_note(&PathBuf::from("n"));
    assert_eq!(window_title(&data), "Untitled");
    data.create_note_named(&PathBuf::from("n"), "Plan");
    assert_eq!(window_title(&data), "Plan");
}

#[test]
fn icons_have_symbols() {
    assert_eq!(Icon::Add.symbol(), "+");
    assert_eq!(Icon::Code.symbol(), "</>");
    assert_eq!(Icon::Close.symbol(), "×");
}

#[test]
fn title_bar_buttons_switch_views_and_focus() {
    let mut state = ViewState {
        view: AppView::Editor,
        focus_search: false,
        focus_editor: false,
        pending_delete_id: Some(4),
        graph_overlay_open: true,
    };
    state.select_view(AppView::NotesList);
    assert_eq!(state.view, AppView::NotesList);
    assert!(state.focus_search && !state.focus_editor);
    assert_eq!(state.pending_delete_id, None);
    assert!(state.graph_overlay_open);
    state.select_view(AppView::Trash);
    assert!(state.focus_search && !state.focus_editor);
    state.select_view(AppView::Editor);
    assert!(!state.focus_search && state.focus_editor);
    state.select_view(AppView::Graph);
    assert!(!state.focus_search && !state.focus_editor);
}

#[test]
fn builds_tree_from_component_lists() {
    let plain = |names: &[&str]| names.iter().map(|n| Some(n.to_string())).collect::<Vec<_>>();
    let known = vec![
        plain(&[]),
        plain(&["Programming"]),
        plain(&["Biologia"]),
        plain(&["Biologia", "Anatomy"]),
        plain(&["Empty"]),
        vec![None, Some("Outside".to_owned())],
    ];
    let notes = vec![
        (7u128, Some(plain(&["Programming"]))),
        (9u128, Some(plain(&["Biologia", "Anatomy"]))),
        (11u128, None),
        (12u128, Some(plain(&[]))),
    ];
    let entries = folder_entries(known, notes);
    assert_eq!(entries.len(), 8);
    assert_eq!(entries[5].note_id, Some(7));
    let tree = build_from_entries(&entries);
    let names: Vec<&str> = tree.root.folders.iter().map(|f| f.name.as_str()).collect();
    assert_eq!(names, vec!["Biologia", "Empty", "Programming"]);
    assert_eq!(tree.root.note_ids, vec![12]);
    assert_eq!(tree.root.folders[0].folders[0].name, "Anatomy");
    assert_eq!(tree.root.folders[0].folders[0].note_ids, vec![9]);
    assert!(tree.root.folders[1].note_ids.is_empty());
}
