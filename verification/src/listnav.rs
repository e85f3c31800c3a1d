//! Moving a selection through a list of results: up and down with wrap
//! around, the selection kept among the rows a filter leaves, and the row
//! that the current selection is at.
use vstd::prelude::*;

verus! {

/// The row above `current` among `len` rows, wrapping from the first (or
/// from no selection) to the last.
pub open spec fn prev_row(len: int, current: Option<usize>) -> Option<usize> {
    match current {
        Some(p) => if p == 0 {
            Some((len - 1) as usize)
        } else {
            Some((p - 1) as usize)
        },
        None => Some((len - 1) as usize),
    }
}

/// The row below `current` among `len` rows, wrapping from the last (or
/// from no selection) to the first.
pub open spec fn next_row(len: int, current: Option<usize>) -> Option<usize> {
    match current {
        Some(p) => if p + 1 < len {
            Some((p + 1) as usize)
        } else {
            Some(0usize)
        },
        None => Some(0usize),
    }
}

/// Moving down then up, or up then down, comes back to the row one started
/// from, for any row among `len`.
pub proof fn lemma_wrap_round_trip(len: usize, p: usize)
    requires
        p < len,
    ensures
        prev_row(len as int, next_row(len as int, Some(p))) == Some(p),
        next_row(len as int, prev_row(len as int, Some(p))) == Some(p),
{
}

/// The row above `current` among `len` rows, wrapping from the first (or
/// from no selection) to the last; none when there are no rows.
pub fn wrap_prev(len: usize, current: Option<usize>) -> (r: Option<usize>)
    ensures
        len == 0 ==> r is None,
        len > 0 ==> r == prev_row(len as int, current),
{
    if len == 0 {
        return None;
    }
    match current {
        Some(p) => if p == 0 {
            Some(len - 1)
        } else {
            Some(p - 1)
        },
        None => Some(len - 1),
    }
}

/// The row below `current` among `len` rows, wrapping from the last (or
/// from no selection) to the first; none when there are no rows.
pub fn wrap_next(len: usize, current: Option<usize>) -> (r: Option<usize>)
    ensures
        len == 0 ==> r is None,
        len > 0 ==> r == next_row(len as int, current),
{
    if len == 0 {
        return None;
    }
    match current {
        Some(p) => if p < len - 1 {
            Some(p + 1)
        } else {
            Some(0)
        },
        None => Some(0),
    }
}

/// The first position of `index` in `visible`, if it is there.
pub fn position_of(visible: &Vec<usize>, index: usize) -> (r: Option<usize>)
    ensures
        r is None <==> !visible@.contains(index),
        r is Some ==> r.unwrap() < visible@.len() && visible@[r.unwrap() as int] == index && forall|j: int|
            0 <= j < r.unwrap() ==> visible@[j] != index,
{
    let mut i: usize = 0;
    while i < visible.len()
        invariant
            i <= visible@.len(),
            forall|j: int| 0 <= j < i ==> visible@[j] != index,
        decreases visible@.len() - i,
    {
        if visible[i] == index {
            return Some(i);
        }
        i = i + 1;
    }
    None
}

/// The selection once the rows shown are `visible`: kept when it is shown,
/// else the first row shown (none when no row is). Also the position to
/// scroll to: that of the selection among the rows shown.
pub fn sync_selection_to_filter(selected: Option<usize>, visible: &Vec<usize>) -> (r: (Option<usize>, Option<usize>))
    ensures
        r.0 == (if selected is Some && visible@.contains(selected.unwrap()) {
            selected
        } else if visible@.len() > 0 {
            Some(visible@[0])
        } else {
            None
        }),
        r.0 is None ==> r.1 is None,
        r.0 is Some ==> r.1 is Some && r.1.unwrap() < visible@.len() && visible@[r.1.unwrap() as int]
            == r.0.unwrap() && forall|j: int| 0 <= j < r.1.unwrap() ==> visible@[j] != r.0.unwrap(),
{
    let first = if visible.len() > 0 {
        Some(visible[0])
    } else {
        None
    };
    let new_selected = match selected {
        Some(index) => {
            if position_of(visible, index).is_some() {
                Some(index)
            } else {
                first
            }
        },
        None => first,
    };
    let position = match new_selected {
        Some(index) => {
            let p = position_of(visible, index);
            proof {
                if visible@.len() > 0 && new_selected == Some(visible@[0]) {
                    assert(visible@.contains(visible@[0]));
                }
            }
            p
        },
        None => None,
    };
    (new_selected, position)
}

/// The row that confirming the selection goes to: the selected row when it
/// is shown, else the first row shown.
pub fn select_current(selected: Option<usize>, visible: &Vec<usize>) -> (r: Option<usize>)
    ensures
        r == (if selected is Some && visible@.contains(selected.unwrap()) {
            selected
        } else if visible@.len() > 0 {
            Some(visible@[0])
        } else {
            None
        }),
{
    match selected {
        Some(index) => {
            if position_of(visible, index).is_some() {
                return Some(index);
            }
        },
        None => {},
    }
    if visible.len() > 0 {
        Some(visible[0])
    } else {
        None
    }
}

/// Moving the selection through the rows shown: the position above (or
/// below, when `down`) that of the selected row, wrapping around, and the
/// row at that position; none when no row is shown.
pub fn move_in_visible(visible: &Vec<usize>, selected: Option<usize>, down: bool) -> (r: Option<(usize, usize)>)
    ensures
        visible@.len() == 0 ==> r is None,
        visible@.len() > 0 ==> {
            let current = match selected {
                Some(index) => if visible@.contains(index) {
                    Some(choose|p: int| 0 <= p < visible@.len() && visible@[p] == index && forall|j: int|
                        0 <= j < p ==> visible@[j] != index)
                } else {
                    None
                },
                None => None,
            };
            let n = visible@.len() as int;
            let pos: int = if down {
                match current {
                    Some(p) => if p + 1 < n {
                        p + 1
                    } else {
                        0
                    },
                    None => 0,
                }
            } else {
                match current {
                    Some(p) => if p == 0 {
                        n - 1
                    } else {
                        p - 1
                    },
                    None => n - 1,
                }
            };
            r == Some((pos as usize, visible@[pos]))
        },
{
    if visible.len() == 0 {
        return None;
    }
    let current = match selected {
        Some(index) => position_of(visible, index),
        None => None,
    };
    proof {
        if current is Some {
            let c = current.unwrap() as int;
            let p = choose|p: int| 0 <= p < visible@.len() && visible@[p] == selected.unwrap() && forall|j: int|
                0 <= j < p ==> visible@[j] != selected.unwrap();
            assert(visible@[c] == selected.unwrap());
            if p < c {
                assert(visible@[p] != selected.unwrap());
            }
            if c < p {
                assert(visible@[c] != selected.unwrap());
            }
        }
    }
    let pos = if down {
        wrap_next(visible.len(), current)
    } else {
        wrap_prev(visible.len(), current)
    };
    match pos {
        Some(p) => Some((p, visible[p])),
        None => None,
    }
}

} // verus!
