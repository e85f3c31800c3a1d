//! The application menu bar: which menu is open, moving between menus with
//! wrap around, and what the menus know of the active editor.
use vstd::prelude::*;

verus! {

/// Closes the open menu.
#[derive(Clone, Copy, Debug, PartialEq, Eq, Structural)]
pub struct MenuCancel;

/// Opens the menu to the left of the open one.
#[derive(Clone, Copy, Debug, PartialEq, Eq, Structural)]
pub struct MenuSelectLeft;

/// Opens the menu to the right of the open one.
#[derive(Clone, Copy, Debug, PartialEq, Eq, Structural)]
pub struct MenuSelectRight;

/// What the title bar tells its owner: the settings were asked for.
#[derive(Clone, Copy, Debug, PartialEq, Eq, Structural)]
pub enum AppTitleBarEvent {
    OpenSettings,
}

/// The number of menus in the bar.
pub const MENU_COUNT: usize = 6;

/// The name of menu `ix`: File, Edit, View, Go, Analysis, Window.
pub fn menu_name(ix: usize) -> (r: &'static str)
    requires
        ix < MENU_COUNT,
    ensures
        ix == 0 ==> r@ == "File"@,
        ix == 1 ==> r@ == "Edit"@,
        ix == 2 ==> r@ == "View"@,
        ix == 3 ==> r@ == "Go"@,
        ix == 4 ==> r@ == "Analysis"@,
        ix == 5 ==> r@ == "Window"@,
{
    if ix == 0 {
        "File"
    } else if ix == 1 {
        "Edit"
    } else if ix == 2 {
        "View"
    } else if ix == 3 {
        "Go"
    } else if ix == 4 {
        "Analysis"
    } else {
        "Window"
    }
}

/// The menu bar: how many menus it has and which one is open.
/// The menu left of menu `s` among `n`, wrapping from the first to the
/// last.
pub open spec fn menu_left(s: usize, n: usize) -> usize {
    if s == 0 {
        if n > 0 {
            (n - 1) as usize
        } else {
            0
        }
    } else {
        (s - 1) as usize
    }
}

/// The menu right of menu `s` among `n`, wrapping from the last to the
/// first.
pub open spec fn menu_right(s: usize, n: usize) -> usize {
    if s + 1 >= n {
        0
    } else {
        (s + 1) as usize
    }
}

/// Moving left then right, or right then left, comes back to the menu one
/// started from.
pub proof fn lemma_menu_moves_undo(s: usize, n: usize)
    requires
        s < n,
    ensures
        menu_right(menu_left(s, n), n) == s,
        menu_left(menu_right(s, n), n) == s,
{
}

#[derive(Clone, Copy, Debug, PartialEq, Eq, Structural)]
pub struct AppMenuBar {
    pub menu_count: usize,
    pub selected_ix: Option<usize>,
}

impl AppMenuBar {
    /// A bar of `menu_count` menus, none open.
    pub fn new(menu_count: usize) -> (r: Self)
        ensures
            r.menu_count == menu_count,
            r.selected_ix is None,
    {
        AppMenuBar { menu_count, selected_ix: None }
    }

    /// Opens the menu to the left of the open one, the last after the first;
    /// nothing happens when no menu is open. Returns whether the open menu
    /// changed.
    pub fn on_move_left(&mut self) -> (changed: bool)
        ensures
            final(self).menu_count == old(self).menu_count,
            old(self).selected_ix is None ==> *final(self) == *old(self) && !changed,
            old(self).selected_ix is Some ==> {
                let new_ix = menu_left(old(self).selected_ix.unwrap(), old(self).menu_count);
                &&& final(self).selected_ix == Some(new_ix)
                &&& changed == (old(self).selected_ix != Some(new_ix))
            },
    {
        let selected_ix = match self.selected_ix {
            Some(ix) => ix,
            None => {
                return false;
            },
        };
        let new_ix = if selected_ix == 0 {
            self.menu_count.saturating_sub(1)
        } else {
            selected_ix - 1
        };
        self.set_selected_index(Some(new_ix))
    }

    /// Opens the menu to the right of the open one, the first after the
    /// last; nothing happens when no menu is open. Returns whether the open
    /// menu changed.
    pub fn on_move_right(&mut self) -> (changed: bool)
        ensures
            final(self).menu_count == old(self).menu_count,
            old(self).selected_ix is None ==> *final(self) == *old(self) && !changed,
            old(self).selected_ix is Some ==> {
                let new_ix = menu_right(old(self).selected_ix.unwrap(), old(self).menu_count);
                &&& final(self).selected_ix == Some(new_ix)
                &&& changed == (old(self).selected_ix != Some(new_ix))
            },
    {
        let selected_ix = match self.selected_ix {
            Some(ix) => ix,
            None => {
                return false;
            },
        };
        let new_ix = if selected_ix >= self.menu_count || selected_ix + 1 >= self.menu_count {
            0
        } else {
            selected_ix + 1
        };
        self.set_selected_index(Some(new_ix))
    }

    /// Closes the open menu. Returns whether one was open.
    pub fn on_cancel(&mut self) -> (changed: bool)
        ensures
            final(self).menu_count == old(self).menu_count,
            final(self).selected_ix is None,
            changed == old(self).selected_ix is Some,
    {
        self.set_selected_index(None)
    }

    /// Opens menu `ix` (none: closes the open one). Returns whether the open
    /// menu changed.
    pub fn set_selected_index(&mut self, ix: Option<usize>) -> (changed: bool)
        ensures
            final(self).menu_count == old(self).menu_count,
            final(self).selected_ix == ix,
            changed == (old(self).selected_ix != ix),
    {
        if self.selected_ix == ix {
            return false;
        }
        self.selected_ix = ix;
        true
    }

    /// Whether a menu is open.
    pub fn has_activated_menu(&self) -> (r: bool)
        ensures
            r == self.selected_ix is Some,
    {
        self.selected_ix.is_some()
    }

    /// A click on the title of menu `ix`: closes it when it is open, else
    /// opens it. Returns whether the open menu changed.
    pub fn handle_trigger_click(&mut self, ix: usize) -> (changed: bool)
        ensures
            final(self).menu_count == old(self).menu_count,
            old(self).selected_ix == Some(ix) ==> final(self).selected_ix is None,
            old(self).selected_ix != Some(ix) ==> final(self).selected_ix == Some(ix),
            changed,
    {
        let is_selected = self.selected_ix == Some(ix);
        let new_ix = if is_selected {
            None
        } else {
            Some(ix)
        };
        self.set_selected_index(new_ix)
    }

    /// The pointer over the title of menu `ix`: when a menu is open, menu
    /// `ix` opens instead. Returns whether the open menu changed.
    pub fn handle_hover(&mut self, ix: usize, hovered: bool) -> (changed: bool)
        ensures
            final(self).menu_count == old(self).menu_count,
            (!hovered || old(self).selected_ix is None) ==> *final(self) == *old(self) && !changed,
            (hovered && old(self).selected_ix is Some) ==> final(self).selected_ix == Some(ix) && changed == (
            old(self).selected_ix != Some(ix)),
    {
        if !hovered {
            return false;
        }
        if !self.has_activated_menu() {
            return false;
        }
        self.set_selected_index(Some(ix))
    }
}

/// What the menus know of the active editor, to enable their items.
#[derive(Clone, Copy, Debug, PartialEq, Eq, Structural)]
pub struct MenuEditorState {
    pub has_doc: bool,
    pub is_read_only: bool,
    pub can_undo: bool,
    pub can_redo: bool,
    pub has_selection: bool,
    pub can_close_others: bool,
    pub can_close_right: bool,
    pub has_saved: bool,
}

/// What the active group of tabs shows: how many tabs, which is active, and
/// whether some tab has no unsaved changes.
#[derive(Clone, Copy, Debug, PartialEq, Eq, Structural)]
pub struct GroupFacts {
    pub tab_count: usize,
    pub active_index: usize,
    pub any_saved: bool,
}

/// What an editor reports of itself.
#[derive(Clone, Copy, Debug, PartialEq, Eq, Structural)]
pub struct EditorFacts {
    pub is_read_only: bool,
    pub can_undo: bool,
    pub can_redo: bool,
    pub has_selection: bool,
}

impl MenuEditorState {
    /// The menus' view of the editor: without an editor, read-only and
    /// nothing else; with one, undo and redo only when it is writable, and
    /// tab closing by its group (nothing without a group).
    pub fn query(editor: Option<EditorFacts>, group: Option<GroupFacts>) -> (r: Self)
        ensures
            editor is None ==> r == (MenuEditorState {
                has_doc: false,
                is_read_only: true,
                can_undo: false,
                can_redo: false,
                has_selection: false,
                can_close_others: false,
                can_close_right: false,
                has_saved: false,
            }),
            editor is Some ==> {
                let e = editor.unwrap();
                &&& r.has_doc
                &&& r.is_read_only == e.is_read_only
                &&& r.can_undo == (!e.is_read_only && e.can_undo)
                &&& r.can_redo == (!e.is_read_only && e.can_redo)
                &&& r.has_selection == e.has_selection
                &&& r.can_close_others == (group is Some && group.unwrap().tab_count > 1)
                &&& r.can_close_right == (group is Some && group.unwrap().active_index + 1
                    < group.unwrap().tab_count)
                &&& r.has_saved == (group is Some && group.unwrap().any_saved)
            },
    {
        match editor {
            None => MenuEditorState {
                has_doc: false,
                is_read_only: true,
                can_undo: false,
                can_redo: false,
                has_selection: false,
                can_close_others: false,
                can_close_right: false,
                has_saved: false,
            },
            Some(e) => {
                let (can_o, can_r_tab, has_s) = match group {
                    Some(g) => (
                        g.tab_count > 1,
                        g.active_index < g.tab_count && g.tab_count - g.active_index > 1,
                        g.any_saved,
                    ),
                    None => (false, false, false),
                };
                MenuEditorState {
                    has_doc: true,
                    is_read_only: e.is_read_only,
                    can_undo: !e.is_read_only && e.can_undo,
                    can_redo: !e.is_read_only && e.can_redo,
                    has_selection: e.has_selection,
                    can_close_others: can_o,
                    can_close_right: can_r_tab,
                    has_saved: has_s,
                }
            },
        }
    }

    /// The document can be saved: there is one and it is writable.
    pub fn can_save(&self) -> (r: bool)
        ensures
            r == (!self.is_read_only && self.has_doc),
    {
        !self.is_read_only && self.has_doc
    }

    /// The document can be edited: there is one and it is writable.
    pub fn can_edit(&self) -> (r: bool)
        ensures
            r == (!self.is_read_only && self.has_doc),
    {
        !self.is_read_only && self.has_doc
    }
}

} // verus!
