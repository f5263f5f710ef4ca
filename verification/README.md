# Lilo

Lilo is a compact note-taking widget that keeps notes as Markdown files with
YAML frontmatter in a vault of three folders (`Notes`, `Trash`, `Backups`).

The rules of the widget are a Verus library, proved against their contracts:

- `src/markdown.rs`: the live editor's styling of Markdown (exact styling
  rules, the source text is never changed, syntax collapses only off the
  cursor's line) and task-checkbox toggling;
- `src/document.rs`: splitting a note file into frontmatter and content,
  composing it back, and recovering notes with broken frontmatter;
- `src/naming.rs`, `src/paths.rs`: portable file names, folder-name
  validation, vault-location parsing and the diagnostics report (whether a
  relative path is made of plain names is checked on the components that
  `Path` gives, which no contract describes);
- `src/notes.rs`: notes and the note collection with its selection;
- `src/folders.rs`, `src/arrangement.rs`: the folder tree and the order of the
  notes list;
- `src/listing.rs`, `src/collation.rs`: Trash and Backups listings and backup
  rotation;
- `src/navigation.rs`, `src/shortcuts.rs`, `src/autosave.rs`, `src/icons.rs`:
  screens, keyboard shortcuts, saving and outside-change detection;
- `src/text.rs`, `src/interop.rs`: text helpers and the calls into `uuid`,
  `chrono` and `str::to_lowercase`.

`app/` is the egui program around the library: windows, file I/O, the
settings file and the serialised forms of the library's types.
