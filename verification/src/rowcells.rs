//! What each cell of a painted hex row shows: which group holds the cursor,
//! which groups are all zero, which are selected and which highlight colour
//! they take; the same for the byte cells of the ASCII column; and on which
//! row a highlight's comment is written.
use vstd::prelude::*;
use crate::hexview::HexGroupInfo;
use crate::highlight::{Highlight, best_cover, highlight_color_for_range};
use crate::highlightpanel::has_comment;
use crate::text::{trim, string_of};
use crate::numtext::{hex_digits, push_hex};

verus! {

/// The cursor lies in the byte range `start..end`.
pub open spec fn covers_cursor(start: int, end: int, cursor: int) -> bool {
    start <= cursor < end
}

/// The range `start..end` meets the selection `min_sel..=max_sel`; an
/// inverted selection meets nothing.
pub open spec fn meets_selection(start: int, end: int, min_sel: int, max_sel: int) -> bool {
    min_sel <= max_sel && start <= max_sel && end > min_sel
}

/// Every byte is zero.
pub open spec fn all_zero(s: Seq<u8>) -> bool {
    forall|i: int| 0 <= i < s.len() ==> s[i] == 0
}

/// The colour of the highlight chosen for `start..end`, if any covers it.
pub open spec fn cover_color<C>(h: Seq<Highlight<C>>, start: int, end: int) -> Option<C> {
    match best_cover(h, start, end) {
        Some(p) => Some(p.1),
        None => None,
    }
}

/// How one group of the hex column is drawn.
#[derive(Clone, Copy, Debug)]
pub struct GroupVisual<C> {
    /// The cursor is inside the group: it gets the cursor frame.
    pub is_cursor: bool,
    /// All of the group's bytes are zero: its text is dimmed.
    pub is_zero: bool,
    /// The group meets the selection: it gets the selection background.
    pub is_selected: bool,
    /// The highlight colour of an unselected group.
    pub highlight: Option<C>,
}

/// The look of group `g` of the row at `line_offset` whose bytes are `chunk`.
pub open spec fn group_visual<C>(
    line_offset: int,
    chunk: Seq<u8>,
    g: HexGroupInfo,
    cursor: int,
    min_sel: int,
    max_sel: int,
    active: Seq<Highlight<C>>,
) -> GroupVisual<C> {
    let start = line_offset + g.chunk_start;
    let end = line_offset + g.chunk_end;
    let selected = meets_selection(start, end, min_sel, max_sel);
    GroupVisual {
        is_cursor: covers_cursor(start, end, cursor),
        is_zero: all_zero(chunk.subrange(g.chunk_start as int, g.chunk_end as int)),
        is_selected: selected,
        highlight: if selected {
            None
        } else {
            cover_color(active, start, end)
        },
    }
}

/// The group lies inside the row's bytes.
pub open spec fn group_in_chunk(g: HexGroupInfo, chunk_len: int) -> bool {
    g.chunk_start <= g.chunk_end <= chunk_len
}

/// Whether bytes `start..end` of `chunk` are all zero.
pub fn bytes_all_zero(chunk: &[u8], start: usize, end: usize) -> (r: bool)
    requires
        start <= end <= chunk@.len(),
    ensures
        r == all_zero(chunk@.subrange(start as int, end as int)),
{
    let mut k = start;
    while k < end
        invariant
            start <= k <= end,
            end <= chunk@.len(),
            forall|i: int| start <= i < k ==> chunk@[i] == 0,
        decreases end - k,
    {
        if chunk[k] != 0 {
            assert(chunk@.subrange(start as int, end as int)[k - start] != 0);
            return false;
        }
        k = k + 1;
    }
    assert forall|i: int| 0 <= i < end - start implies chunk@.subrange(start as int, end as int)[i] == 0 by {
        assert(chunk@[start + i] == 0);
    }
    true
}

/// The look of every group of a hex row: the cursor, zero, selection and
/// highlight state of each, in order.
pub fn group_visuals<C: Copy>(
    line_offset: usize,
    chunk: &[u8],
    groups: &[HexGroupInfo],
    cursor: usize,
    min_sel: usize,
    max_sel: usize,
    active: &[Highlight<C>],
) -> (r: Vec<GroupVisual<C>>)
    requires
        line_offset + chunk@.len() <= usize::MAX,
        forall|i: int| 0 <= i < groups@.len() ==> group_in_chunk(#[trigger] groups@[i], chunk@.len() as int),
    ensures
        r@.len() == groups@.len(),
        forall|i: int|
            0 <= i < groups@.len() ==> #[trigger] r@[i] == group_visual(
                line_offset as int,
                chunk@,
                groups@[i],
                cursor as int,
                min_sel as int,
                max_sel as int,
                active@,
            ),
{
    let mut out: Vec<GroupVisual<C>> = Vec::new();
    let mut k: usize = 0;
    while k < groups.len()
        invariant
            k <= groups@.len(),
            out@.len() == k,
            line_offset + chunk@.len() <= usize::MAX,
            forall|i: int| 0 <= i < groups@.len() ==> group_in_chunk(#[trigger] groups@[i], chunk@.len() as int),
            forall|i: int|
                0 <= i < k ==> #[trigger] out@[i] == group_visual(
                    line_offset as int,
                    chunk@,
                    groups@[i],
                    cursor as int,
                    min_sel as int,
                    max_sel as int,
                    active@,
                ),
        decreases groups@.len() - k,
    {
        let g = groups[k];
        assert(group_in_chunk(groups@[k as int], chunk@.len() as int));
        let start = line_offset + g.chunk_start;
        let end = line_offset + g.chunk_end;
        let is_cursor = cursor >= start && cursor < end;
        let is_zero = bytes_all_zero(chunk, g.chunk_start, g.chunk_end);
        let is_selected = if min_sel <= max_sel {
            start <= max_sel && end > min_sel
        } else {
            false
        };
        let highlight = highlight_color_for_range(start, end, is_selected, active);
        out.push(GroupVisual { is_cursor, is_zero, is_selected, highlight });
        k = k + 1;
    }
    out
}

/// The byte at `byte_pos` meets the selection through its group: the run
/// of `g` bytes, aligned in the file, that holds it.
pub open spec fn cell_group_selected(byte_pos: int, g: int, min_sel: int, max_sel: int) -> bool {
    let group_start = (byte_pos / g) * g;
    meets_selection(group_start, group_start + g, min_sel, max_sel)
}

/// How one byte cell of the ASCII column is drawn.
#[derive(Clone, Copy, Debug)]
pub struct CellVisual<C> {
    /// The cell's group meets the selection.
    pub is_selected: bool,
    /// The highlight colour of an unselected cell.
    pub highlight: Option<C>,
}

/// The look of the ASCII cell of the byte at `byte_pos`.
pub open spec fn cell_visual<C>(
    byte_pos: int,
    g: int,
    min_sel: int,
    max_sel: int,
    active: Seq<Highlight<C>>,
) -> CellVisual<C> {
    let selected = cell_group_selected(byte_pos, g, min_sel, max_sel);
    CellVisual {
        is_selected: selected,
        highlight: if selected {
            None
        } else {
            cover_color(active, byte_pos, byte_pos + 1)
        },
    }
}

/// The look of every byte cell of the ASCII column of a row of `chunk_len`
/// bytes at `line_offset`, with groups of `group_bytes` bytes.
pub fn ascii_cell_visuals<C: Copy>(
    line_offset: usize,
    chunk_len: usize,
    group_bytes: usize,
    min_sel: usize,
    max_sel: usize,
    active: &[Highlight<C>],
) -> (r: Vec<CellVisual<C>>)
    requires
        group_bytes >= 1,
        line_offset + chunk_len + group_bytes <= usize::MAX,
    ensures
        r@.len() == chunk_len,
        forall|j: int|
            0 <= j < chunk_len ==> #[trigger] r@[j] == cell_visual(
                line_offset + j,
                group_bytes as int,
                min_sel as int,
                max_sel as int,
                active@,
            ),
{
    let mut out: Vec<CellVisual<C>> = Vec::new();
    let mut j: usize = 0;
    while j < chunk_len
        invariant
            j <= chunk_len,
            out@.len() == j,
            group_bytes >= 1,
            line_offset + chunk_len + group_bytes <= usize::MAX,
            forall|i: int|
                0 <= i < j ==> #[trigger] out@[i] == cell_visual(
                    line_offset + i,
                    group_bytes as int,
                    min_sel as int,
                    max_sel as int,
                    active@,
                ),
        decreases chunk_len - j,
    {
        let byte_pos = line_offset + j;
        let q = byte_pos / group_bytes;
        proof {
            assert(q * group_bytes <= byte_pos) by (nonlinear_arith)
                requires
                    group_bytes >= 1,
                    q == byte_pos / group_bytes,
            ;
        }
        let group_start = q * group_bytes;
        let group_end = group_start + group_bytes;
        let in_selected_group = if min_sel <= max_sel {
            group_start <= max_sel && group_end > min_sel
        } else {
            false
        };
        let highlight = highlight_color_for_range(byte_pos, byte_pos + 1, in_selected_group, active);
        out.push(CellVisual { is_selected: in_selected_group, highlight });
        j = j + 1;
    }
    out
}

/// A glyph of the ASCII column drawn dimmed: a control character or the
/// middle dot that stands for an undecodable byte.
pub open spec fn glyph_dimmed(c: char) -> bool {
    (c as u32) < 0x20 || (c as u32) == 0x7f || c == '\u{b7}'
}

/// Whether a glyph of the ASCII column is drawn dimmed.
pub fn ascii_glyph_dimmed(c: char) -> (r: bool)
    ensures
        r == glyph_dimmed(c),
{
    let v = c as u32;
    v < 0x20 || v == 0x7f || c == '\u{b7}'
}

/// The row starts are in ascending order.
pub open spec fn starts_ascending(s: Seq<usize>) -> bool {
    forall|i: int, j: int| 0 <= i <= j < s.len() ==> s[i] <= s[j]
}

/// `r` is the row that holds `offset`: the last row starting at or before
/// it, or row 0 when none does.
pub open spec fn is_row_of(s: Seq<usize>, offset: int, r: int) -> bool {
    &&& (s.len() == 0 ==> r == 0)
    &&& (s.len() > 0 ==> 0 <= r < s.len())
    &&& (r == 0 || s[r] <= offset)
    &&& forall|j: int| r < j < s.len() ==> s[j] > offset
}

/// The row that holds `offset`, found by binary search over the row
/// starts.
pub fn line_index(line_starts: &[usize], offset: usize) -> (r: usize)
    requires
        starts_ascending(line_starts@),
    ensures
        is_row_of(line_starts@, offset as int, r as int),
{
    let mut lo: usize = 0;
    let mut hi: usize = line_starts.len();
    while lo < hi
        invariant
            lo <= hi <= line_starts@.len(),
            starts_ascending(line_starts@),
            forall|i: int| 0 <= i < lo ==> line_starts@[i] <= offset,
            forall|i: int| hi <= i < line_starts@.len() ==> line_starts@[i] > offset,
        decreases hi - lo,
    {
        let mid = lo + (hi - lo) / 2;
        if line_starts[mid] <= offset {
            lo = mid + 1;
        } else {
            hi = mid;
        }
    }
    if lo == 0 {
        0
    } else {
        lo - 1
    }
}

/// The comment of a highlight whose first and last rows are `start_row`
/// and `end_row` is written on row `row_idx`: the comment is not blank, and
/// the row is the highlight's first row, or the top visible row when that
/// one is scrolled past, and not past the highlight's last row.
pub open spec fn comment_on_row(
    comment: Seq<char>,
    top_visible_row: int,
    row_idx: int,
    start_row: int,
    end_row: int,
) -> bool {
    let display_row = if start_row >= top_visible_row {
        start_row
    } else {
        top_visible_row
    };
    trim(comment).len() > 0 && row_idx == display_row && row_idx <= end_row
}

/// The last byte of a highlight: its final byte, or its start when it is
/// empty (the end saturating at `usize::MAX`).
pub open spec fn last_byte(h_offset: int, h_size: int) -> int {
    let end = if h_offset + h_size > usize::MAX {
        usize::MAX as int
    } else {
        h_offset + h_size
    };
    let before = if end >= 1 {
        end - 1
    } else {
        0
    };
    if before >= h_offset {
        before
    } else {
        h_offset
    }
}

/// Whether the comment of a highlight is written on row `row_idx` of a
/// view whose top visible row is `top_visible_row`.
pub fn comment_shows_on_row(
    line_starts: &[usize],
    comment: &str,
    h_offset: usize,
    h_size: usize,
    top_visible_row: usize,
    row_idx: usize,
) -> (r: bool)
    requires
        starts_ascending(line_starts@),
    ensures
        r <==> exists|start_row: int, end_row: int|
            is_row_of(line_starts@, h_offset as int, start_row) && is_row_of(
                line_starts@,
                last_byte(h_offset as int, h_size as int),
                end_row,
            ) && comment_on_row(
                comment@,
                top_visible_row as int,
                row_idx as int,
                start_row,
                end_row,
            ),
{
    let start_row = line_index(line_starts, h_offset);
    let end_offset = h_offset.saturating_add(h_size);
    let before = end_offset.saturating_sub(1);
    let last = if before >= h_offset {
        before
    } else {
        h_offset
    };
    let end_row = line_index(line_starts, last);
    let display_row = if start_row >= top_visible_row {
        start_row
    } else {
        top_visible_row
    };
    let shows = has_comment(comment) && row_idx == display_row && row_idx <= end_row;
    proof {
        lemma_row_of_unique(line_starts@, h_offset as int, start_row as int);
        lemma_row_of_unique(line_starts@, last as int, end_row as int);
        assert(last as int == last_byte(h_offset as int, h_size as int));
        if shows {
            assert(is_row_of(line_starts@, h_offset as int, start_row as int) && is_row_of(
                line_starts@,
                last_byte(h_offset as int, h_size as int),
                end_row as int,
            ) && comment_on_row(
                comment@,
                top_visible_row as int,
                row_idx as int,
                start_row as int,
                end_row as int,
            ));
        }
    }
    shows
}

/// Only one row holds an offset.
pub proof fn lemma_row_of_unique(s: Seq<usize>, offset: int, r: int)
    requires
        is_row_of(s, offset, r),
    ensures
        forall|q: int| #[trigger] is_row_of(s, offset, q) ==> q == r,
{
    assert forall|q: int| #[trigger] is_row_of(s, offset, q) implies q == r by {
        if q < r {
            assert(s[r] > offset);
        } else if r < q {
            assert(s[q] > offset);
        }
    }
}

/// The number of groups across the widest row: the row's bytes over the
/// group size, rounded up, and at least one.
pub open spec fn spec_items_in_row(max_bytes_per_row: int, group_bytes: int) -> int {
    let n = (max_bytes_per_row + group_bytes - 1) / group_bytes;
    if n >= 1 {
        n
    } else {
        1
    }
}

/// The number of group columns of the hex header.
pub fn items_in_row(max_bytes_per_row: usize, group_bytes: usize) -> (r: usize)
    requires
        group_bytes >= 1,
    ensures
        r == spec_items_in_row(max_bytes_per_row as int, group_bytes as int),
{
    let q = max_bytes_per_row / group_bytes;
    let rem = max_bytes_per_row % group_bytes;
    if rem != 0 {
        assert(q < usize::MAX) by (nonlinear_arith)
            requires
                group_bytes >= 2,
                q == max_bytes_per_row / group_bytes,
        ;
    }
    let n = q + if rem == 0 {
        0usize
    } else {
        1usize
    };
    proof {
        let m = max_bytes_per_row as int;
        let g = group_bytes as int;
        assert(n == (m + g - 1) / g) by (nonlinear_arith)
            requires
                g >= 1,
                m >= 0,
                n == m / g + if m % g == 0 {
                    0int
                } else {
                    1int
                },
        ;
    }
    if n >= 1 {
        n
    } else {
        1
    }
}

/// The label of the header column of the group `byte_offset` bytes into
/// the row: a plus sign and the offset in upper case hexadecimal.
pub fn header_label(byte_offset: usize) -> (s: String)
    ensures
        s@ == seq!['+'] + hex_digits(byte_offset as nat),
{
    let mut cs: Vec<char> = Vec::new();
    cs.push('+');
    push_hex(&mut cs, byte_offset as u128);
    string_of(&cs)
}

/// The first group of a row that holds the byte `cursor_in_row` of the
/// row, if any.
pub fn cursor_group(groups: &[HexGroupInfo], cursor_in_row: usize) -> (r: Option<usize>)
    ensures
        match r {
            Some(i) => i < groups@.len() && groups@[i as int].chunk_start <= cursor_in_row
                < groups@[i as int].chunk_end && forall|j: int|
                0 <= j < i ==> !(#[trigger] groups@[j].chunk_start <= cursor_in_row
                    < groups@[j].chunk_end),
            None => forall|j: int|
                0 <= j < groups@.len() ==> !(#[trigger] groups@[j].chunk_start <= cursor_in_row
                    < groups@[j].chunk_end),
        },
{
    let mut k: usize = 0;
    while k < groups.len()
        invariant
            k <= groups@.len(),
            forall|j: int|
                0 <= j < k ==> !(#[trigger] groups@[j].chunk_start <= cursor_in_row < groups@[j].chunk_end),
        decreases groups@.len() - k,
    {
        if groups[k].chunk_start <= cursor_in_row && cursor_in_row < groups[k].chunk_end {
            return Some(k);
        }
        k = k + 1;
    }
    None
}

} // verus!
