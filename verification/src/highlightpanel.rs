//! The highlight panel: which highlight is selected, which one's comment is
//! being edited and which one's colour picker is open, and the texts it
//! shows.
use vstd::prelude::*;
use crate::numtext::{dec_digits, push_decimal};
use crate::stringlist::push_str;
use crate::text::{chars_of, string_of, trim, trim_bounds};

verus! {

/// The highlight panel's state, by highlight id.
pub struct HighlightPanelState {
    pub selected_id: Option<String>,
    pub editing_id: Option<String>,
    pub color_picker_id: Option<String>,
}

/// The text of an optional id.
pub open spec fn opt_text(s: Option<String>) -> Option<Seq<char>> {
    match s {
        Some(t) => Some(t@),
        None => None,
    }
}

/// Whether `s` holds the text `id`.
fn is_id(s: &Option<String>, id: &str) -> (r: bool)
    ensures
        r == (opt_text(*s) == Some(id@)),
{
    match s {
        Some(t) => {
            assert(opt_text(*s) == Some(t@));
            let a = chars_of(t.as_str());
            let b = chars_of(id);
            if a.len() != b.len() {
                proof {
                    assert(t@.len() != id@.len());
                }
                return false;
            }
            let mut i: usize = 0;
            while i < a.len()
                invariant
                    a@ == t@,
                    b@ == id@,
                    opt_text(*s) == Some(t@),
                    i <= a@.len() == b@.len(),
                    forall|j: int| 0 <= j < i ==> a@[j] == b@[j],
                decreases a@.len() - i,
            {
                if a[i] != b[i] {
                    proof {
                        assert(a@[i as int] != b@[i as int]);
                        assert(t@ != id@);
                    }
                    return false;
                }
                i = i + 1;
            }
            assert(a@ =~= b@);
            true
        },
        None => false,
    }
}

impl HighlightPanelState {
    /// Nothing selected, edited or picked (also after a change of editor, or
    /// once every highlight is cleared).
    pub fn new() -> (r: Self)
        ensures
            r.selected_id is None,
            r.editing_id is None,
            r.color_picker_id is None,
    {
        HighlightPanelState { selected_id: None, editing_id: None, color_picker_id: None }
    }

    /// Starts editing the comment of highlight `id`, which becomes the
    /// selected one; the colour picker closes.
    pub fn start_editing_comment(&mut self, id: String)
        ensures
            opt_text(final(self).editing_id) == Some(id@),
            opt_text(final(self).selected_id) == Some(id@),
            final(self).color_picker_id is None,
    {
        let copy = id.clone();
        self.editing_id = Some(copy);
        self.selected_id = Some(id);
        self.color_picker_id = None;
    }

    /// Ends editing a comment to save it: gives the id of the highlight
    /// whose comment was being edited, if any.
    pub fn save_editing_comment(&mut self) -> (r: Option<String>)
        ensures
            opt_text(r) == opt_text(old(self).editing_id),
            final(self).editing_id is None,
            opt_text(final(self).selected_id) == opt_text(old(self).selected_id),
            opt_text(final(self).color_picker_id) == opt_text(old(self).color_picker_id),
    {
        self.editing_id.take()
    }

    /// Stops editing a comment without saving it.
    pub fn cancel_editing_comment(&mut self)
        ensures
            final(self).editing_id is None,
            opt_text(final(self).selected_id) == opt_text(old(self).selected_id),
            opt_text(final(self).color_picker_id) == opt_text(old(self).color_picker_id),
    {
        self.editing_id = None;
    }

    /// A colour was picked: the picker closes.
    pub fn set_highlight_color(&mut self)
        ensures
            final(self).color_picker_id is None,
            opt_text(final(self).selected_id) == opt_text(old(self).selected_id),
            opt_text(final(self).editing_id) == opt_text(old(self).editing_id),
    {
        self.color_picker_id = None;
    }

    /// Highlight `id` was deleted: it is no longer selected, edited or
    /// picked; the others stay.
    pub fn delete_highlight(&mut self, id: &str)
        ensures
            opt_text(final(self).selected_id) == if opt_text(old(self).selected_id) == Some(id@) {
                None
            } else {
                opt_text(old(self).selected_id)
            },
            opt_text(final(self).editing_id) == if opt_text(old(self).editing_id) == Some(id@) {
                None
            } else {
                opt_text(old(self).editing_id)
            },
            opt_text(final(self).color_picker_id) == if opt_text(old(self).color_picker_id) == Some(id@) {
                None
            } else {
                opt_text(old(self).color_picker_id)
            },
    {
        if is_id(&self.selected_id, id) {
            self.selected_id = None;
        }
        if is_id(&self.editing_id, id) {
            self.editing_id = None;
        }
        if is_id(&self.color_picker_id, id) {
            self.color_picker_id = None;
        }
    }

    /// A click on the colour badge of highlight `id`: its picker closes
    /// when open, else opens.
    pub fn toggle_color_picker(&mut self, id: String)
        ensures
            opt_text(old(self).color_picker_id) == Some(id@) ==> final(self).color_picker_id is None,
            opt_text(old(self).color_picker_id) != Some(id@) ==> opt_text(final(self).color_picker_id) == Some(
                id@,
            ),
            opt_text(final(self).selected_id) == opt_text(old(self).selected_id),
            opt_text(final(self).editing_id) == opt_text(old(self).editing_id),
    {
        if is_id(&self.color_picker_id, id.as_str()) {
            self.color_picker_id = None;
        } else {
            self.color_picker_id = Some(id);
        }
    }

    /// Every highlight was cleared: nothing is selected, edited or picked.
    pub fn clear_all_highlights(&mut self)
        ensures
            final(self).selected_id is None,
            final(self).editing_id is None,
            final(self).color_picker_id is None,
    {
        self.selected_id = None;
        self.editing_id = None;
        self.color_picker_id = None;
    }
}

/// The selection that going to a highlight of `size` bytes at `offset`
/// makes: its first and last bytes, for more than one byte; none otherwise.
pub fn navigate_selection(offset: usize, size: usize) -> (r: Option<(usize, usize)>)
    requires
        size > 1 ==> offset + size - 1 <= usize::MAX,
    ensures
        size > 1 ==> r == Some((offset, (offset + size - 1) as usize)),
        size <= 1 ==> r is None,
{
    if size > 1 {
        Some((offset, offset + (size - 1)))
    } else {
        None
    }
}

/// The question asked before clearing `count` highlights.
pub fn clear_prompt_detail(count: usize) -> (r: String)
    ensures
        r@ == "Are you sure you want to clear all "@ + dec_digits(count as nat) + " highlight"@ + (if count == 1 {
            Seq::<char>::empty()
        } else {
            "s"@
        }) + " and comments? This action cannot be undone."@,
{
    let mut out: Vec<char> = Vec::new();
    push_str(&mut out, "Are you sure you want to clear all ");
    push_decimal(&mut out, count as u128);
    push_str(&mut out, " highlight");
    if count != 1 {
        push_str(&mut out, "s");
    } else {
        assert(out@ =~= out@ + Seq::<char>::empty());
    }
    push_str(&mut out, " and comments? This action cannot be undone.");
    string_of(&out)
}

/// The badge of a highlight's size.
pub fn size_badge(size: usize) -> (r: String)
    ensures
        r@ == dec_digits(size as nat) + " B"@,
{
    let mut out: Vec<char> = Vec::new();
    push_decimal(&mut out, size as u128);
    push_str(&mut out, " B");
    string_of(&out)
}

/// Whether a comment says anything (more than white space); one that does
/// not shows as "(No comment)".
pub fn has_comment(comment: &str) -> (r: bool)
    ensures
        r == (trim(comment@).len() > 0),
{
    let cs = chars_of(comment);
    let (a, b) = trim_bounds(&cs);
    a < b
}

} // verus!
