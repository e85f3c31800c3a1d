//! Row arithmetic of the hex view: which row is at the top, how far it may
//! scroll, which rows and bytes are shown, which byte a click lands on, and
//! the cursor and selection moves to either end of the file.
use vstd::prelude::*;

verus! {

/// `a - b`, or 0 when `b > a`.
pub open spec fn sat_sub(a: int, b: int) -> int {
    if a >= b {
        a - b
    } else {
        0
    }
}

/// The larger of `a` and `b`.
pub open spec fn max2(a: int, b: int) -> int {
    if a >= b {
        a
    } else {
        b
    }
}

/// The smaller of `a` and `b`.
pub open spec fn min2(a: int, b: int) -> int {
    if a <= b {
        a
    } else {
        b
    }
}

/// The last row that may be at the top: a file of `total_rows` rows (at
/// least one) shown `visible_rows` at a time (at least one).
pub open spec fn spec_scroll_limit(total_rows: int, visible_rows: int) -> int {
    sat_sub(max2(total_rows, 1), max2(visible_rows, 1))
}

/// The top row after scrolling to `row`: `row`, kept within the limit.
pub open spec fn spec_clamp_scroll_row(row: int, total_rows: int, visible_rows: int) -> int {
    min2(row, spec_scroll_limit(total_rows, visible_rows))
}

/// The top row that puts `row` at the bottom of `visible_rows` rows.
pub open spec fn spec_bottom_aligned_top(row: int, visible_rows: int) -> int {
    sat_sub(row, sat_sub(visible_rows, 1))
}

/// The top row after making the cursor's row visible: unchanged when the
/// row lies between the top and the last visible row, else scrolled so that
/// it is the top row (when above) or the bottom row (when below).
pub open spec fn spec_reveal_cursor_row(
    cursor_row: int,
    top_row: int,
    visible_rows: int,
    total_rows: int,
    scroll_visible_rows: int,
) -> int {
    let bottom_row = top_row + sat_sub(visible_rows, 1);
    if cursor_row < top_row {
        spec_clamp_scroll_row(cursor_row, total_rows, scroll_visible_rows)
    } else if cursor_row > bottom_row {
        spec_clamp_scroll_row(
            spec_bottom_aligned_top(cursor_row, scroll_visible_rows),
            total_rows,
            scroll_visible_rows,
        )
    } else {
        top_row
    }
}

/// The last row that may be at the top of the view.
pub fn scroll_row_limit(total_rows: usize, visible_rows: usize) -> (r: usize)
    ensures
        r == spec_scroll_limit(total_rows as int, visible_rows as int),
        r < max2(total_rows as int, 1),
{
    let total = if total_rows < 1 {
        1
    } else {
        total_rows
    };
    let visible = if visible_rows < 1 {
        1
    } else {
        visible_rows
    };
    total.saturating_sub(visible)
}

/// The top row after a request to scroll to `row`.
pub fn clamp_scroll_row(row: usize, total_rows: usize, visible_rows: usize) -> (r: usize)
    ensures
        r == spec_clamp_scroll_row(row as int, total_rows as int, visible_rows as int),
        r <= row,
{
    let max_offset = scroll_row_limit(total_rows, visible_rows);
    if row < max_offset {
        row
    } else {
        max_offset
    }
}

/// The row to scroll to so that `row` is the last of `visible_rows` rows.
pub fn bottom_aligned_top(row: usize, visible_rows: usize) -> (r: usize)
    ensures
        r == spec_bottom_aligned_top(row as int, visible_rows as int),
{
    row.saturating_sub(visible_rows.saturating_sub(1))
}

/// The top row after making the cursor visible: `visible_rows` is what the view
/// checks against, `scroll_visible_rows` what its scrolling uses.
pub fn reveal_cursor_row(
    cursor_row: usize,
    top_row: usize,
    visible_rows: usize,
    total_rows: usize,
    scroll_visible_rows: usize,
) -> (r: usize)
    requires
        top_row + visible_rows <= usize::MAX,
    ensures
        r == spec_reveal_cursor_row(
            cursor_row as int,
            top_row as int,
            visible_rows as int,
            total_rows as int,
            scroll_visible_rows as int,
        ),
{
    let bottom_row = top_row + visible_rows.saturating_sub(1);
    if cursor_row < top_row {
        clamp_scroll_row(cursor_row, total_rows, scroll_visible_rows)
    } else if cursor_row > bottom_row {
        clamp_scroll_row(bottom_aligned_top(cursor_row, scroll_visible_rows), total_rows, scroll_visible_rows)
    } else {
        top_row
    }
}

/// After the cursor is revealed, its row is among the rows shown: the new
/// top row is at most the cursor's row, and the cursor's row is less than
/// the top row plus the rows shown (at least one), whenever the cursor's row
/// is a row of the file and the view checks and scrolls by the same number
/// of rows.
pub proof fn lemma_reveal_shows_cursor(
    cursor_row: int,
    top_row: int,
    visible_rows: int,
    total_rows: int,
)
    requires
        0 <= cursor_row < total_rows,
        0 <= top_row,
        0 <= visible_rows,
    ensures
        ({
            let t = spec_reveal_cursor_row(cursor_row, top_row, visible_rows, total_rows, visible_rows);
            t <= cursor_row < t + max2(visible_rows, 1)
        }),
{
}

/// The top row after a wheel turn of `rows_to_scroll` rows (negative: up),
/// kept between 0 and `max_top_row`.
pub fn scroll_by_rows(scroll_offset: usize, rows_to_scroll: isize, max_top_row: usize) -> (r: usize)
    requires
        scroll_offset <= isize::MAX,
        max_top_row <= isize::MAX,
        isize::MIN <= scroll_offset + rows_to_scroll <= isize::MAX,
    ensures
        r == (if scroll_offset + rows_to_scroll < 0 {
            0
        } else if scroll_offset + rows_to_scroll > max_top_row {
            max_top_row as int
        } else {
            scroll_offset + rows_to_scroll
        }),
{
    let moved: isize = (scroll_offset as isize) + rows_to_scroll;
    if moved < 0 {
        0
    } else if moved > max_top_row as isize {
        max_top_row
    } else {
        moved as usize
    }
}

/// The number of rows a page move covers: two less than the rows shown, at
/// least one.
pub fn page_step(visible_rows: usize) -> (r: usize)
    ensures
        r == max2(sat_sub(visible_rows as int, 2), 1),
        r >= 1,
{
    let count = visible_rows.saturating_sub(2);
    if count < 1 {
        1
    } else {
        count
    }
}

/// The bytes the view shows: from the start of the top row (0 past the
/// last row) to the start of the row two past the last visible one, or the
/// end of the file.
pub fn viewport_byte_range(line_starts: &[usize], top_row: usize, visible_rows: usize, total_size: usize) -> (r: (
    usize,
    usize,
))
    requires
        top_row + visible_rows + 2 <= usize::MAX,
    ensures
        r.0 == (if top_row < line_starts@.len() {
            line_starts@[top_row as int] as int
        } else {
            0
        }),
        ({
            let end_row = min2(top_row + visible_rows + 2, line_starts@.len() as int);
            r.1 == if end_row < line_starts@.len() {
                line_starts@[end_row] as int
            } else {
                total_size as int
            }
        }),
{
    let start_byte = if top_row < line_starts.len() {
        line_starts[top_row]
    } else {
        0
    };
    let wanted = top_row + visible_rows + 2;
    let end_row = if wanted < line_starts.len() {
        wanted
    } else {
        line_starts.len()
    };
    let end_byte = if end_row < line_starts.len() {
        line_starts[end_row]
    } else {
        total_size
    };
    (start_byte, end_byte)
}

/// The row under a click `row_in_view` rows below the top row, kept at the
/// last row of `line_count` rows.
pub fn row_at_point(scroll_offset: usize, row_in_view: usize, line_count: usize) -> (r: usize)
    requires
        scroll_offset + row_in_view <= usize::MAX,
    ensures
        r == min2(scroll_offset + row_in_view, sat_sub(line_count as int, 1)),
{
    let wanted = scroll_offset + row_in_view;
    let last = line_count.saturating_sub(1);
    if wanted < last {
        wanted
    } else {
        last
    }
}

/// The bytes of row `row_idx`: its start, and its length up to the next
/// row's start or the end of the buffer.
pub fn row_span(line_starts: &[usize], row_idx: usize, buffer_len: usize) -> (r: (usize, usize))
    requires
        row_idx < line_starts@.len(),
    ensures
        r.0 == line_starts@[row_idx as int],
        r.1 == sat_sub(
            if row_idx + 1 < line_starts@.len() {
                line_starts@[row_idx + 1] as int
            } else {
                buffer_len as int
            },
            r.0 as int,
        ),
{
    let line_offset = line_starts[row_idx];
    let next_offset = if row_idx + 1 < line_starts.len() {
        line_starts[row_idx + 1]
    } else {
        buffer_len
    };
    (line_offset, next_offset.saturating_sub(line_offset))
}

/// The byte of the row that a click in the character column selects: the
/// start of the group that holds byte `raw_idx` of the row, counted from the
/// row's start (0 when that group starts before the row).
pub fn ascii_hit_offset(line_offset: usize, raw_idx: usize, group_bytes: usize) -> (r: usize)
    requires
        group_bytes >= 1,
        line_offset + raw_idx <= usize::MAX,
    ensures
        r == sat_sub(
            ((line_offset + raw_idx) / (group_bytes as int)) * group_bytes,
            line_offset as int,
        ),
        r <= raw_idx,
{
    let abs_offset = line_offset + raw_idx;
    proof {
        vstd::arithmetic::div_mod::lemma_fundamental_div_mod(abs_offset as int, group_bytes as int);
        vstd::arithmetic::div_mod::lemma_mod_pos_bound(abs_offset as int, group_bytes as int);
        vstd::arithmetic::mul::lemma_mul_is_commutative(
            (abs_offset / group_bytes) as int,
            group_bytes as int,
        );
        assert((abs_offset / group_bytes) * group_bytes <= abs_offset);
    }
    let group_start_abs = (abs_offset / group_bytes) * group_bytes;
    group_start_abs.saturating_sub(line_offset)
}

/// The byte a click selects: its place in the row, kept within the row's
/// `chunk_len` bytes, added to the row's start.
pub fn hit_offset_in_row(line_offset: usize, byte_offset_in_row: usize, chunk_len: usize) -> (r: usize)
    requires
        line_offset + chunk_len <= usize::MAX,
    ensures
        r == line_offset + min2(byte_offset_in_row as int, sat_sub(chunk_len as int, 1)),
        chunk_len > 0 ==> line_offset <= r < line_offset + chunk_len,
{
    let last = chunk_len.saturating_sub(1);
    let byte_idx = if byte_offset_in_row < last {
        byte_offset_in_row
    } else {
        last
    };
    line_offset + byte_idx
}

/// The cursor and the selection of an editor: the selection runs from
/// `selection_start` to `selection_end`, both ends included, when both are
/// set.
#[derive(Clone, Copy, Debug, PartialEq, Eq, Structural)]
pub struct CursorState {
    pub cursor_offset: usize,
    pub selection_start: Option<usize>,
    pub selection_end: Option<usize>,
}

impl CursorState {
    /// Moves the cursor to the first byte.
    pub fn home(&mut self)
        ensures
            final(self).cursor_offset == 0,
            final(self).selection_start == old(self).selection_start,
            final(self).selection_end == old(self).selection_end,
    {
        self.cursor_offset = 0;
    }

    /// Moves the cursor to the last byte of a file of `total` bytes (0 when
    /// it is empty).
    pub fn end(&mut self, total: usize)
        ensures
            final(self).cursor_offset == sat_sub(total as int, 1),
            final(self).selection_start == old(self).selection_start,
            final(self).selection_end == old(self).selection_end,
    {
        self.cursor_offset = total.saturating_sub(1);
    }

    /// Extends the selection to the first byte: a selection starts at the
    /// cursor when there was none, and it ends, with the cursor, at 0.
    pub fn select_home(&mut self)
        ensures
            final(self).selection_start == (match old(self).selection_start {
                Some(s) => Some(s),
                None => Some(old(self).cursor_offset),
            }),
            final(self).selection_end == Some(0usize),
            final(self).cursor_offset == 0,
    {
        let curr = self.cursor_offset;
        if self.selection_start.is_none() {
            self.selection_start = Some(curr);
        }
        self.selection_end = Some(0);
        self.cursor_offset = 0;
    }

    /// Extends the selection to the last byte of a file of `total` bytes:
    /// a selection starts at the cursor when there was none, and it ends,
    /// with the cursor, at the last byte.
    pub fn select_end(&mut self, total: usize)
        ensures
            final(self).selection_start == (match old(self).selection_start {
                Some(s) => Some(s),
                None => Some(old(self).cursor_offset),
            }),
            final(self).selection_end == Some(sat_sub(total as int, 1) as usize),
            final(self).cursor_offset == sat_sub(total as int, 1),
    {
        let end_pos = total.saturating_sub(1);
        let curr = self.cursor_offset;
        if self.selection_start.is_none() {
            self.selection_start = Some(curr);
        }
        self.selection_end = Some(end_pos);
        self.cursor_offset = end_pos;
    }
}

} // verus!
