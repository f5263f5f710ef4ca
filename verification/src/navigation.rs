//! Which screen the widget shows and how the keyboard moves between screens.

use crate::notes::{first_with_id, AppData};
use crate::text::{chars_of, has_visible_text, trim};
use vstd::prelude::*;

verus! {

#[derive(Clone, Copy, Debug, PartialEq, Eq, Structural)]
pub enum AppView {
    Editor,
    NotesList,
    Graph,
    Trash,
    Settings,
}

/// The screen shown, where the keyboard focus should go, a note waiting for
/// delete confirmation, and whether the graph overlay is open.
#[derive(Clone, Copy, Debug, PartialEq, Eq, Structural)]
pub struct ViewState {
    pub view: AppView,
    pub focus_search: bool,
    pub focus_editor: bool,
    pub pending_delete_id: Option<u128>,
    pub graph_overlay_open: bool,
}

/// The shortcuts pressed in one frame (the new-note shortcut is handled
/// before these).
#[derive(Clone, Copy, Debug, PartialEq, Eq, Structural)]
pub struct KeyPresses {
    pub open_search: bool,
    pub toggle_graph: bool,
    pub toggle_overlay: bool,
    pub save: bool,
    pub escape: bool,
}

/// The state after the search, graph and overlay shortcuts of one frame.
pub open spec fn after_toggles(s: ViewState, keys: KeyPresses) -> ViewState {
    let s1 = if keys.open_search {
        ViewState {
            view: AppView::NotesList,
            focus_search: true,
            focus_editor: false,
            pending_delete_id: None,
            ..s
        }
    } else {
        s
    };
    let s2 = if keys.toggle_graph {
        let view = if s1.view == AppView::Graph { AppView::Editor } else { AppView::Graph };
        ViewState {
            view,
            pending_delete_id: None,
            focus_search: false,
            focus_editor: view == AppView::Editor,
            ..s1
        }
    } else {
        s1
    };
    if keys.toggle_overlay {
        ViewState { graph_overlay_open: !s2.graph_overlay_open, ..s2 }
    } else {
        s2
    }
}

/// Escape closes the overlay, else cancels a pending delete, else returns to
/// the editor.
pub open spec fn after_escape(s: ViewState, escape: bool) -> ViewState {
    if !escape {
        s
    } else if s.graph_overlay_open {
        ViewState { graph_overlay_open: false, ..s }
    } else if s.pending_delete_id is Some {
        ViewState { pending_delete_id: None, ..s }
    } else if s.view != AppView::Editor {
        ViewState { view: AppView::Editor, focus_search: false, focus_editor: true, ..s }
    } else {
        s
    }
}

/// Focus requests only survive on the screen they belong to.
pub open spec fn settle_focus(s: ViewState) -> ViewState {
    ViewState {
        focus_search: s.focus_search && s.view == AppView::NotesList,
        focus_editor: s.focus_editor && s.view == AppView::Editor,
        ..s
    }
}

/// The graph shortcut toggles the graph: pressed alone (no search shortcut,
/// no Escape) on the graph it returns to the editor and gives it the
/// keyboard focus; on any other screen it opens the graph, with no focus
/// request. Either way a pending delete is dropped.
pub proof fn lemma_graph_shortcut_toggles(s: ViewState, keys: KeyPresses)
    requires
        keys.toggle_graph,
        !keys.open_search,
        !keys.escape,
    ensures
        ({
            let after = settle_focus(after_escape(after_toggles(s, keys), keys.escape));
            &&& s.view == AppView::Graph ==> after.view == AppView::Editor && after.focus_editor
            &&& s.view != AppView::Graph ==> after.view == AppView::Graph && !after.focus_editor
            &&& !after.focus_search
            &&& after.pending_delete_id is None
        }),
{
}

/// The search shortcut alone opens the notes list with the keyboard focus
/// in its search field. Escape alone closes the graph overlay if it is
/// open, else cancels a pending delete, else returns to the editor with the
/// focus there.
pub proof fn lemma_search_and_escape(s: ViewState)
    ensures
        ({
            let keys = KeyPresses {
                open_search: true,
                toggle_graph: false,
                toggle_overlay: false,
                save: false,
                escape: false,
            };
            let after = settle_focus(after_escape(after_toggles(s, keys), keys.escape));
            after.view == AppView::NotesList && after.focus_search && !after.focus_editor
                && after.pending_delete_id is None
        }),
        ({
            let keys = KeyPresses {
                open_search: false,
                toggle_graph: false,
                toggle_overlay: false,
                save: false,
                escape: true,
            };
            let after = settle_focus(after_escape(after_toggles(s, keys), keys.escape));
            &&& s.graph_overlay_open ==> !after.graph_overlay_open && after.view == s.view
                && after.pending_delete_id == s.pending_delete_id
            &&& !s.graph_overlay_open && s.pending_delete_id is Some ==> after.pending_delete_id is None
                && after.view == s.view
            &&& !s.graph_overlay_open && s.pending_delete_id is None ==> after.view == AppView::Editor
                && (s.view != AppView::Editor ==> after.focus_editor)
        }),
{
}

impl ViewState {
    /// Shows `view`, as its title-bar button does: a pending delete is
    /// dropped; the editor takes the keyboard focus, the notes list gives it
    /// to its search field, the graph to neither, and Trash and Settings leave
    /// the focus requests as they are.
    pub fn select_view(&mut self, view: AppView)
        ensures
            final(self).view == view,
            final(self).pending_delete_id is None,
            final(self).graph_overlay_open == old(self).graph_overlay_open,
            final(self).focus_search == match view {
                AppView::Editor => false,
                AppView::NotesList => true,
                AppView::Graph => false,
                _ => old(self).focus_search,
            },
            final(self).focus_editor == match view {
                AppView::Editor => true,
                AppView::NotesList => false,
                AppView::Graph => false,
                _ => old(self).focus_editor,
            },
    {
        self.view = view;
        self.pending_delete_id = None;
        match view {
            AppView::Editor => {
                self.focus_search = false;
                self.focus_editor = true;
            },
            AppView::NotesList => {
                self.focus_search = true;
                self.focus_editor = false;
            },
            AppView::Graph => {
                self.focus_search = false;
                self.focus_editor = false;
            },
            AppView::Trash | AppView::Settings => {},
        }
    }

    /// Applies one frame's shortcuts. Returns whether dirty notes must be
    /// saved now: the save shortcut was pressed and no external change is in
    /// conflict.
    pub fn apply_keys(&mut self, keys: KeyPresses, external_conflict: bool) -> (flush: bool)
        ensures
            *final(self) == settle_focus(after_escape(after_toggles(*old(self), keys), keys.escape)),
            flush == (keys.save && !external_conflict),
            keys.toggle_graph && !keys.open_search && !keys.escape ==> {
                &&& final(self).view == if old(self).view == AppView::Graph {
                    AppView::Editor
                } else {
                    AppView::Graph
                }
                &&& final(self).focus_editor == (old(self).view == AppView::Graph)
                &&& !final(self).focus_search
                &&& final(self).pending_delete_id is None
            },
    {
        if keys.open_search {
            self.view = AppView::NotesList;
            self.focus_search = true;
            self.focus_editor = false;
            self.pending_delete_id = None;
        }
        if keys.toggle_graph {
            self.view = if self.view == AppView::Graph {
                AppView::Editor
            } else {
                AppView::Graph
            };
            self.pending_delete_id = None;
            self.focus_search = false;
            self.focus_editor = self.view == AppView::Editor;
        }
        if keys.toggle_overlay {
            self.graph_overlay_open = !self.graph_overlay_open;
        }
        let flush = keys.save && !external_conflict;
        if keys.escape {
            if self.graph_overlay_open {
                self.graph_overlay_open = false;
            } else if self.pending_delete_id.is_some() {
                self.pending_delete_id = None;
            } else if self.view != AppView::Editor {
                self.view = AppView::Editor;
                self.focus_search = false;
                self.focus_editor = true;
            }
        }
        if self.view != AppView::NotesList {
            self.focus_search = false;
        }
        if self.view != AppView::Editor {
            self.focus_editor = false;
        }
        flush
    }
}

/// The title bar text: the selected note's title, `Untitled` for a blank
/// title, `NOTES` when no note is selected.
pub open spec fn window_title_of(data: AppData) -> Seq<char> {
    match data.selected_note_id {
        None => "NOTES"@,
        Some(id) => match first_with_id(data.notes@, id, 0) {
            None => "NOTES"@,
            Some(i) => if trim(data.notes@[i].title@).len() == 0 {
                "Untitled"@
            } else {
                data.notes@[i].title@
            },
        },
    }
}

pub fn window_title(data: &AppData) -> (title: &str)
    ensures
        title@ == window_title_of(*data),
{
    match data.selected_note() {
        None => "NOTES",
        Some(note) => {
            let chars = chars_of(note.title.as_str());
            assert(chars@.subrange(0, chars.len() as int) =~= note.title@);
            if has_visible_text(&chars, 0, chars.len()) {
                note.title.as_str()
            } else {
                "Untitled"
            }
        },
    }
}

} // verus!
