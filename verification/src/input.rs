//! Input dispatch decisions: which edit-history action a key event
//! triggers, and how a tab list reacts to arrow keys. The windowing toolkit
//! delivers the raw events and performs the chosen actions; the decisions
//! themselves are made here.

use vstd::prelude::*;
use vstd::string::StringExecFns;

verus! {

/// An action on the undo/redo edit history.
#[derive(Clone, Copy, Debug, PartialEq, Eq, Structural)]
pub enum HistoryAction {
    Undo,
    Redo,
}

/// The modifier keys the dispatch decisions read.
#[derive(Clone, Copy, Debug, PartialEq, Eq, Structural)]
pub struct ModifierKeys {
    pub control: bool,
    pub shift: bool,
}

/// What one key event leads to: possibly an edit-history action, and
/// whether the key press is forwarded to the engine's own key handling.
#[derive(Clone, Copy, Debug, PartialEq, Eq)]
pub struct KeyDispatch {
    pub history: Option<HistoryAction>,
    pub forward_to_engine: bool,
}

/// The decision for one keyboard event: releases are ignored entirely;
/// a pressed key is always forwarded to the engine, and additionally
/// Ctrl+Z undoes, Ctrl+Shift+Z and Ctrl+Y redo.
pub open spec fn spec_key_dispatch(pressed: bool, key: Seq<char>, modifiers: ModifierKeys)
    -> KeyDispatch {
    if !pressed {
        KeyDispatch { history: Option::None, forward_to_engine: false }
    } else {
        KeyDispatch {
            history: if key == "z"@ && modifiers.control {
                if modifiers.shift {
                    Option::Some(HistoryAction::Redo)
                } else {
                    Option::Some(HistoryAction::Undo)
                }
            } else if key == "y"@ && modifiers.control {
                Option::Some(HistoryAction::Redo)
            } else {
                Option::None
            },
            forward_to_engine: true,
        }
    }
}

/// The editor-side input state: the modifier keys as of the last modifier
/// change event.
pub struct EditorInput {
    pub current_modifiers: ModifierKeys,
}

impl EditorInput {
    /// Fresh input state: no modifiers held.
    pub fn new() -> (r: EditorInput)
        ensures
            r.current_modifiers == (ModifierKeys { control: false, shift: false }),
    {
        EditorInput { current_modifiers: ModifierKeys { control: false, shift: false } }
    }

    /// The toolkit reported a change of the held modifier keys.
    pub fn handle_modifiers_changed(&mut self, modifiers: ModifierKeys)
        ensures
            final(self).current_modifiers == modifiers,
    {
        self.current_modifiers = modifiers;
    }

    /// Decide what a keyboard event does, against the stored modifiers.
    pub fn handle_keyboard_input(&self, pressed: bool, key_text: &String) -> (r: KeyDispatch)
        ensures
            r == spec_key_dispatch(pressed, key_text@, self.current_modifiers),
    {
        if !pressed {
            return KeyDispatch { history: Option::None, forward_to_engine: false };
        }
        let m = self.current_modifiers;
        let history: Option<HistoryAction> = if *key_text == String::from_str("z") && m.control {
            if m.shift {
                Option::Some(HistoryAction::Redo)
            } else {
                Option::Some(HistoryAction::Undo)
            }
        } else if *key_text == String::from_str("y") && m.control {
            Option::Some(HistoryAction::Redo)
        } else {
            Option::None
        };
        KeyDispatch { history, forward_to_engine: true }
    }
}

/// Key cases a tab list reacts to.
#[derive(Clone, Copy, Debug, PartialEq, Eq, Structural)]
pub enum TabNavKey {
    ArrowUp,
    ArrowDown,
    Other,
}

/// Outcome of a tab-list key event: which tab is active afterwards and
/// whether the event stops propagating.
#[derive(Clone, Copy, Debug, PartialEq, Eq, Structural)]
pub struct TabNavOutcome {
    pub active: usize,
    pub stop: bool,
}

/// Arrow-up moves one tab up (stopping at the first), arrow-down one tab
/// down (stopping at the last); both swallow the event. Any other key
/// leaves the selection alone and propagates.
pub open spec fn spec_tab_navigate(active: usize, tab_count: usize, key: TabNavKey)
    -> TabNavOutcome {
    match key {
        TabNavKey::ArrowUp => TabNavOutcome {
            active: if active > 0 {
                (active - 1) as usize
            } else {
                active
            },
            stop: true,
        },
        TabNavKey::ArrowDown => TabNavOutcome {
            active: if active + 1 < tab_count {
                (active + 1) as usize
            } else {
                active
            },
            stop: true,
        },
        TabNavKey::Other => TabNavOutcome { active, stop: false },
    }
}

/// Icon shown beside each tab of the project workspace's navigation rail;
/// an unknown label falls back to the plus icon.
pub open spec fn spec_project_tab_icon(label: Seq<char>) -> Seq<char> {
    if label == "Concepts"@ {
        "panorama"@
    } else if label == "Scene"@ {
        "cube"@
    } else if label == "Map"@ {
        "map"@
    } else if label == "Story"@ {
        "book"@
    } else if label == "Audio"@ {
        "faders"@
    } else if label == "Performance"@ {
        "speedometer"@
    } else if label == "Settings"@ {
        "gear"@
    } else {
        "plus"@
    }
}

pub fn project_tab_icon(label: &String) -> (r: &'static str)
    ensures
        r@ == spec_project_tab_icon(label@),
{
    if *label == String::from_str("Concepts") {
        "panorama"
    } else if *label == String::from_str("Scene") {
        "cube"
    } else if *label == String::from_str("Map") {
        "map"
    } else if *label == String::from_str("Story") {
        "book"
    } else if *label == String::from_str("Audio") {
        "faders"
    } else if *label == String::from_str("Performance") {
        "speedometer"
    } else if *label == String::from_str("Settings") {
        "gear"
    } else {
        "plus"
    }
}

/// Icon shown beside each tab of the welcome screen's navigation rail.
pub open spec fn spec_welcome_tab_icon(label: Seq<char>) -> Seq<char> {
    if label == "Projects"@ {
        "folder-plus"@
    } else if label == "Settings"@ {
        "gear"@
    } else {
        "plus"@
    }
}

pub fn welcome_tab_icon(label: &String) -> (r: &'static str)
    ensures
        r@ == spec_welcome_tab_icon(label@),
{
    if *label == String::from_str("Projects") {
        "folder-plus"
    } else if *label == String::from_str("Settings") {
        "gear"
    } else {
        "plus"
    }
}

/// React to a key event on a tab list with `tab_count` tabs.
pub fn tab_list_navigate(active: usize, tab_count: usize, key: TabNavKey) -> (r: TabNavOutcome)
    requires
        active < tab_count,
    ensures
        r == spec_tab_navigate(active, tab_count, key),
        r.active < tab_count,
{
    match key {
        TabNavKey::ArrowUp => TabNavOutcome {
            active: if active > 0 {
                active - 1
            } else {
                active
            },
            stop: true,
        },
        TabNavKey::ArrowDown => TabNavOutcome {
            active: if active + 1 < tab_count {
                active + 1
            } else {
                active
            },
            stop: true,
        },
        TabNavKey::Other => TabNavOutcome { active, stop: false },
    }
}

} // verus!
