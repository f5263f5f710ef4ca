use lilo::naming::{note_file_name, sanitize_file_stem, validate_folder_name, FolderNameError};

#[test]
fn windows_file_names_are_sanitized() {
    let stem = sanitize_file_stem("  CON:<bad>/name?  ");
    assert!(!stem.contains(['<', '>', ':', '/', '?']));
    assert!(!stem.ends_with(['.', ' ']));
}

#[test]
fn sanitized_stem_exact_values() {
    assert_eq!(sanitize_file_stem("  CON:<bad>/name?  "), "CON__bad__name_");
    assert_eq!(sanitize_file_stem("con"), "_con");
    assert_eq!(sanitize_file_stem("   "), "Untitled");
    assert_eq!(sanitize_file_stem("notes.. "), "notes");
    assert_eq!(sanitize_file_stem("a\u{7}b"), "ab");
    assert_eq!(sanitize_file_stem(&"x".repeat(100)).chars().count(), 80);
}

#[test]
fn note_file_names_carry_the_uuid_prefix() {
    let name = note_file_name("Rust Tips", 0x1234abcd_0000_0000_0000_0000_0000_0000u128);
    assert_eq!(name, "Rust Tips--1234abcd.md");
}

#[test]
fn folder_names_are_validated() {
    assert_eq!(validate_folder_name("Programming"), Ok(()));
    assert_eq!(validate_folder_name("  "), Err(FolderNameError::Empty));
    assert_eq!(validate_folder_name(".."), Err(FolderNameError::Empty));
    assert_eq!(validate_folder_name("bad/name"), Err(FolderNameError::InvalidCharacters));
    assert_eq!(validate_folder_name("name."), Err(FolderNameError::InvalidCharacters));
    assert_eq!(validate_folder_name("CON"), Err(FolderNameError::Reserved));
    assert_eq!(validate_folder_name(" lpt9 "), Err(FolderNameError::Reserved));
    assert_eq!(FolderNameError::Reserved.message(), "Folder name is reserved on Windows");
}

#[test]
fn sanitized_stems_stay_short_and_unreserved() {
    let long = "x".repeat(200);
    assert_eq!(sanitize_file_stem(&long).chars().count(), 80);
    assert_eq!(sanitize_file_stem("  \tLPT1  "), "_LPT1");
    assert_eq!(sanitize_file_stem("\u{1}\u{2}"), "Untitled");
    assert!(!sanitize_file_stem(" \u{3000} name").starts_with(char::is_whitespace));
}
