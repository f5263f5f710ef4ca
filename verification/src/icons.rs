//! The symbols drawn on tool buttons.

use vstd::prelude::*;

verus! {

/// A tool button's icon.
#[derive(Clone, Copy, Debug, PartialEq, Eq, Structural)]
pub enum Icon {
    Editor,
    Notes,
    Graph,
    Trash,
    Settings,
    Add,
    Folder,
    Search,
    Pin,
    More,
    Restore,
    Save,
    Bold,
    Italic,
    Code,
    Link,
    Task,
    Heading,
    Back,
    Close,
}

/// The text each icon is drawn with.
pub open spec fn symbol_of(icon: Icon) -> Seq<char> {
    match icon {
        Icon::Editor => "✎"@,
        Icon::Notes => "☷"@,
        Icon::Graph => "⌘"@,
        Icon::Trash => "⌫"@,
        Icon::Settings => "⚙"@,
        Icon::Add => "+"@,
        Icon::Folder => "▣"@,
        Icon::Search => "⌕"@,
        Icon::Pin => "◆"@,
        Icon::More => "⋯"@,
        Icon::Restore => "↶"@,
        Icon::Save => "✓"@,
        Icon::Bold => "B"@,
        Icon::Italic => "I"@,
        Icon::Code => "</>"@,
        Icon::Link => "↗"@,
        Icon::Task => "☑"@,
        Icon::Heading => "H"@,
        Icon::Back => "←"@,
        Icon::Close => "×"@,
    }
}

impl Icon {
    pub fn symbol(self) -> (text: &'static str)
        ensures
            text@ == symbol_of(self),
    {
        match self {
            Icon::Editor => "✎",
            Icon::Notes => "☷",
            Icon::Graph => "⌘",
            Icon::Trash => "⌫",
            Icon::Settings => "⚙",
            Icon::Add => "+",
            Icon::Folder => "▣",
            Icon::Search => "⌕",
            Icon::Pin => "◆",
            Icon::More => "⋯",
            Icon::Restore => "↶",
            Icon::Save => "✓",
            Icon::Bold => "B",
            Icon::Italic => "I",
            Icon::Code => "</>",
            Icon::Link => "↗",
            Icon::Task => "☑",
            Icon::Heading => "H",
            Icon::Back => "←",
            Icon::Close => "×",
        }
    }
}

} // verus!
