//! The tab bar and the go-to bar: what a tab offers and shows, and the
//! preview line of the go-to bar.
use vstd::prelude::*;
use std::path::PathBuf;
use crate::numtext::{dec_digits, hex_digits, push_decimal, push_hex};
use crate::stringlist::push_str;
use crate::text::{chars_of, string_of, trim, trim_bounds};

verus! {

/// A tab as the tab bar shows it.
pub struct TabItemInfo {
    pub id: usize,
    pub title: String,
    pub is_dirty: bool,
    pub is_active: bool,
    pub path: Option<PathBuf>,
}

/// What the tab bar makes of tab `idx`: the one-based index that activates
/// it, whether "Close Others" and "Close to the Right" are offered, and
/// whether it shows the dot of unsaved changes (else a close button).
#[derive(Clone, Copy, Debug, PartialEq, Eq, Structural)]
pub struct TabEntry {
    pub one_based_index: usize,
    pub can_close_others: bool,
    pub can_close_right: bool,
    pub shows_dirty_dot: bool,
}

/// The entry of tab `idx` among `tab_count` tabs.
pub fn tab_entry(idx: usize, tab_count: usize, is_dirty: bool, is_active: bool) -> (r: TabEntry)
    requires
        idx < tab_count,
    ensures
        r.one_based_index == idx + 1,
        r.can_close_others == (tab_count > 1),
        r.can_close_right == (idx + 1 < tab_count),
        r.shows_dirty_dot == (is_dirty && !is_active),
{
    TabEntry {
        one_based_index: idx + 1,
        can_close_others: tab_count > 1,
        can_close_right: idx + 1 < tab_count,
        shows_dirty_dot: is_dirty && !is_active,
    }
}

/// Whether the go-to query holds nothing but white space (then nothing is
/// parsed).
pub fn query_is_blank(query: &str) -> (r: bool)
    ensures
        r == (trim(query@).len() == 0),
{
    let cs = chars_of(query);
    let (a, b) = trim_bounds(&cs);
    a == b
}

/// The go-to bar's line before anything is typed: the cursor and the size
/// in hexadecimal.
pub fn position_preview(current_cursor: usize, total_size: usize) -> (r: String)
    ensures
        r@ == "Pos: 0x"@ + hex_digits(current_cursor as nat) + " / Size: 0x"@ + hex_digits(total_size as nat),
{
    let mut out: Vec<char> = Vec::new();
    push_str(&mut out, "Pos: 0x");
    push_hex(&mut out, current_cursor as u128);
    push_str(&mut out, " / Size: 0x");
    push_hex(&mut out, total_size as u128);
    string_of(&out)
}

/// The go-to bar's line for a parsed target: the target in hexadecimal and
/// decimal, and, when it lies past the file, a warning with the last
/// offset.
pub fn target_preview(target_offset: usize, is_out_of_bounds: bool, total_size: usize) -> (r: (String, String))
    ensures
        r.0@ == "Target: 0x"@ + hex_digits(target_offset as nat) + " ("@ + dec_digits(target_offset as nat)
            + " dec)"@,
        is_out_of_bounds ==> r.1@ == " \u{26a0} (max 0x"@ + hex_digits(
            (if total_size > 0 {
                total_size - 1
            } else {
                0
            }) as nat,
        ) + ")"@,
        !is_out_of_bounds ==> r.1@ == Seq::<char>::empty(),
{
    let mut out: Vec<char> = Vec::new();
    push_str(&mut out, "Target: 0x");
    push_hex(&mut out, target_offset as u128);
    push_str(&mut out, " (");
    push_decimal(&mut out, target_offset as u128);
    push_str(&mut out, " dec)");
    let mut warn: Vec<char> = Vec::new();
    if is_out_of_bounds {
        push_str(&mut warn, " \u{26a0} (max 0x");
        push_hex(&mut warn, total_size.saturating_sub(1) as u128);
        push_str(&mut warn, ")");
    } else {
        assert(warn@ =~= Seq::<char>::empty());
    }
    (string_of(&out), string_of(&warn))
}

/// What an editor panel keeps between sessions: the file it shows.
pub struct EditorPanelState {
    pub path: Option<PathBuf>,
}

/// The title of an editor panel and of its tab: the file's name ("(untitled)"
/// without one), followed by " *" when it has unsaved changes.
pub fn panel_title(file_name: Option<String>, is_dirty: bool) -> (r: String)
    ensures
        r@ == (match file_name {
            Some(n) => n@,
            None => "(untitled)"@,
        }) + (if is_dirty {
            " *"@
        } else {
            Seq::<char>::empty()
        }),
{
    let mut out: Vec<char> = Vec::new();
    match file_name {
        Some(n) => push_str(&mut out, n.as_str()),
        None => push_str(&mut out, "(untitled)"),
    }
    if is_dirty {
        push_str(&mut out, " *");
    } else {
        assert(out@ =~= out@ + Seq::<char>::empty());
    }
    string_of(&out)
}

/// What a tab holds: an editor, a comparison, the settings or the visual
/// map.
#[derive(Clone, Copy, Debug, PartialEq, Eq, Structural)]
pub enum TabKind {
    Editor,
    Diff,
    Settings,
    VisualMap,
}

/// The title of a tab: an editor's file name ("Untitled" without one), or
/// the name of the other kinds.
pub fn tab_title(kind: TabKind, file_name: Option<String>) -> (r: String)
    ensures
        kind == TabKind::Editor ==> r@ == match file_name {
            Some(n) => n@,
            None => "Untitled"@,
        },
        kind == TabKind::Diff ==> r@ == "Diff"@,
        kind == TabKind::Settings ==> r@ == "Settings"@,
        kind == TabKind::VisualMap ==> r@ == "Visual Map"@,
{
    let mut out: Vec<char> = Vec::new();
    match kind {
        TabKind::Editor => match file_name {
            Some(n) => push_str(&mut out, n.as_str()),
            None => push_str(&mut out, "Untitled"),
        },
        TabKind::Diff => push_str(&mut out, "Diff"),
        TabKind::Settings => push_str(&mut out, "Settings"),
        TabKind::VisualMap => push_str(&mut out, "Visual Map"),
    }
    string_of(&out)
}

} // verus!
