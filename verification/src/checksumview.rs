//! The checksum panel: which bytes it sums, when it computes, and the text
//! of all its results.
use vstd::prelude::*;
use std::ops::Range;
use crate::hexview::{lower_hex_padded, push_lower_hex_padded};
use crate::numtext::{dec_digits, hex_min_width, hex_padded, push_decimal, push_hex_min_width, push_hex_padded};
use crate::stringlist::push_str;
use crate::text::string_of;

verus! {

/// The bytes the panel sums: the selection, or the whole file.
#[derive(Clone, Copy, Debug, PartialEq, Eq, Structural)]
pub enum CalculationRange {
    Selection,
    EntireFile,
}

/// The results of a calculation over the bytes `range_start..range_end`.
pub struct ChecksumResults {
    pub sum8: u8,
    pub sum16: u16,
    pub sum32: u32,
    pub sum64: u64,
    pub crc16_ccitt: u16,
    pub crc16_arc: u16,
    pub crc32: u32,
    pub adler32: u32,
    pub md5: [u8; 16],
    pub sha256: [u8; 32],
    pub data_len: usize,
    pub range_start: usize,
    pub range_end: usize,
}

/// The automatic calculation skips more bytes than this.
pub const AUTO_CALCULATE_LIMIT: usize = 1000000;

/// The selection the panel sums, when both of its ends are set: the range
/// the editor gives for it.
pub fn selected_range_for_checksum(
    selection_start: Option<usize>,
    selection_end: Option<usize>,
    selected_range_or_cursor: Option<Range<usize>>,
) -> (r: Option<Range<usize>>)
    ensures
        r == if selection_start is Some && selection_end is Some {
            selected_range_or_cursor
        } else {
            None
        },
{
    if selection_start.is_some() && selection_end.is_some() {
        selected_range_or_cursor
    } else {
        None
    }
}

/// The bytes to sum: the selection (an empty range at the cursor without
/// one), or the whole file.
pub fn checksum_range(
    calculation_range: CalculationRange,
    selected: Option<Range<usize>>,
    cursor_offset: usize,
    total_len: usize,
) -> (r: Range<usize>)
    ensures
        calculation_range == CalculationRange::EntireFile ==> r.start == 0 && r.end == total_len,
        calculation_range == CalculationRange::Selection ==> match selected {
            Some(s) => r == s,
            None => r.start == cursor_offset && r.end == cursor_offset,
        },
{
    match calculation_range {
        CalculationRange::Selection => match selected {
            Some(s) => s,
            None => cursor_offset..cursor_offset,
        },
        CalculationRange::EntireFile => 0..total_len,
    }
}

/// Whether to compute over a range of `data_len` bytes: not for an empty
/// range, nor, when computing on every change, for more than the limit.
pub fn should_calculate(data_len: usize, auto_calculate: bool) -> (r: bool)
    ensures
        r == (data_len > 0 && !(auto_calculate && data_len > AUTO_CALCULATE_LIMIT)),
{
    if data_len == 0 {
        return false;
    }
    if auto_calculate && data_len > AUTO_CALCULATE_LIMIT {
        return false;
    }
    true
}

/// The number of bytes of a range (0 when it is reversed).
pub fn range_len(r: &Range<usize>) -> (n: usize)
    ensures
        n == if r.end > r.start {
            r.end - r.start
        } else {
            0
        },
{
    if r.end > r.start {
        r.end - r.start
    } else {
        0
    }
}

/// The bytes as lower-case hexadecimal pairs.
pub open spec fn lower_hex_run(bytes: Seq<u8>) -> Seq<char>
    decreases bytes.len(),
{
    if bytes.len() == 0 {
        Seq::empty()
    } else {
        lower_hex_run(bytes.drop_last()) + lower_hex_padded(bytes.last() as nat, 2)
    }
}

/// Appends the lower-case hexadecimal pairs of the bytes.
fn push_lower_hex_run(out: &mut Vec<char>, bytes: &[u8])
    ensures
        final(out)@ == old(out)@ + lower_hex_run(bytes@),
{
    let ghost start = out@;
    let mut i: usize = 0;
    while i < bytes.len()
        invariant
            i <= bytes@.len(),
            out@ == start + lower_hex_run(bytes@.subrange(0, i as int)),
        decreases bytes@.len() - i,
    {
        proof {
            assert(bytes@.subrange(0, i + 1).drop_last() =~= bytes@.subrange(0, i as int));
            assert(bytes@.subrange(0, i + 1).last() == bytes@[i as int]);
        }
        push_lower_hex_padded(out, bytes[i] as u128, 2);
        proof {
            assert(out@ =~= start + lower_hex_run(bytes@.subrange(0, i + 1)));
        }
        i = i + 1;
    }
    assert(bytes@.subrange(0, i as int) =~= bytes@);
}

/// The text of all results, one per line, labels padded to one width: the
/// sums in hexadecimal and decimal, the other checks in hexadecimal, the
/// digests in lower-case hexadecimal.
pub open spec fn all_results_text(res: ChecksumResults) -> Seq<char> {
    "Sum 8-bit:       0x"@ + hex_padded(res.sum8 as nat, 2) + " ("@ + dec_digits(res.sum8 as nat) + ")\n"@
        + "Sum 16-bit:      0x"@ + hex_padded(res.sum16 as nat, 4) + " ("@ + dec_digits(res.sum16 as nat)
        + ")\n"@ + "Sum 32-bit:      0x"@ + hex_padded(res.sum32 as nat, 8) + " ("@ + dec_digits(
        res.sum32 as nat,
    ) + ")\n"@ + "Sum 64-bit:      0x"@ + hex_padded(res.sum64 as nat, 16) + " ("@ + dec_digits(
        res.sum64 as nat,
    ) + ")\n"@ + "Adler-32:        0x"@ + hex_padded(res.adler32 as nat, 8) + "\n"@
        + "CRC-16 (CCITT):  0x"@ + hex_padded(res.crc16_ccitt as nat, 4) + "\n"@ + "CRC-16 (ARC):    0x"@
        + hex_padded(res.crc16_arc as nat, 4) + "\n"@ + "CRC-32:          0x"@ + hex_padded(res.crc32 as nat, 8)
        + "\n"@ + "MD5:             "@ + lower_hex_run(res.md5@) + "\n"@ + "SHA-256:         "@
        + lower_hex_run(res.sha256@)
}

/// The text of all results, when there are results.
pub fn format_all_results(results: &Option<ChecksumResults>) -> (r: Option<String>)
    ensures
        results is None ==> r is None,
        results is Some ==> r is Some && r.unwrap()@ == all_results_text(results.unwrap()),
{
    let res = match results {
        Some(res) => res,
        None => {
            return None;
        },
    };
    let mut out: Vec<char> = Vec::new();
    push_str(&mut out, "Sum 8-bit:       0x");
    push_hex_padded(&mut out, res.sum8 as u128, 2);
    push_str(&mut out, " (");
    push_decimal(&mut out, res.sum8 as u128);
    push_str(&mut out, ")\n");
    push_str(&mut out, "Sum 16-bit:      0x");
    push_hex_padded(&mut out, res.sum16 as u128, 4);
    push_str(&mut out, " (");
    push_decimal(&mut out, res.sum16 as u128);
    push_str(&mut out, ")\n");
    push_str(&mut out, "Sum 32-bit:      0x");
    push_hex_padded(&mut out, res.sum32 as u128, 8);
    push_str(&mut out, " (");
    push_decimal(&mut out, res.sum32 as u128);
    push_str(&mut out, ")\n");
    push_str(&mut out, "Sum 64-bit:      0x");
    push_hex_padded(&mut out, res.sum64 as u128, 16);
    push_str(&mut out, " (");
    push_decimal(&mut out, res.sum64 as u128);
    push_str(&mut out, ")\n");
    push_str(&mut out, "Adler-32:        0x");
    push_hex_padded(&mut out, res.adler32 as u128, 8);
    push_str(&mut out, "\n");
    push_str(&mut out, "CRC-16 (CCITT):  0x");
    push_hex_padded(&mut out, res.crc16_ccitt as u128, 4);
    push_str(&mut out, "\n");
    push_str(&mut out, "CRC-16 (ARC):    0x");
    push_hex_padded(&mut out, res.crc16_arc as u128, 4);
    push_str(&mut out, "\n");
    push_str(&mut out, "CRC-32:          0x");
    push_hex_padded(&mut out, res.crc32 as u128, 8);
    push_str(&mut out, "\n");
    push_str(&mut out, "MD5:             ");
    push_lower_hex_run(&mut out, res.md5.as_slice());
    push_str(&mut out, "\n");
    push_str(&mut out, "SHA-256:         ");
    push_lower_hex_run(&mut out, res.sha256.as_slice());
    proof {
        assert(out@ =~= all_results_text(*res));
    }
    Some(string_of(&out))
}

/// The text copied for one row: its label and its value.
pub fn row_copy_text(label: &str, value: &str) -> (r: String)
    ensures
        r@ == label@ + ": "@ + value@,
{
    let mut out: Vec<char> = Vec::new();
    push_str(&mut out, label);
    push_str(&mut out, ": ");
    push_str(&mut out, value);
    string_of(&out)
}

/// The line that names the bytes summed: their first and last offsets and
/// their number, or a note that there are none.
pub fn range_description(range: &Range<usize>) -> (r: String)
    ensures
        range.end > range.start ==> r@ == "Range: 0x"@ + hex_min_width(range.start as nat, 8) + " - 0x"@
            + hex_min_width((range.end - 1) as nat, 8) + " ("@ + dec_digits((range.end - range.start) as nat)
            + " bytes)"@,
        range.end <= range.start ==> r@ == "No selection (0 bytes)"@,
{
    let data_len = range_len(range);
    let mut out: Vec<char> = Vec::new();
    if data_len > 0 {
        push_str(&mut out, "Range: 0x");
        push_hex_min_width(&mut out, range.start as u128, 8);
        push_str(&mut out, " - 0x");
        push_hex_min_width(&mut out, (range.end - 1) as u128, 8);
        push_str(&mut out, " (");
        push_decimal(&mut out, data_len as u128);
        push_str(&mut out, " bytes)");
    } else {
        push_str(&mut out, "No selection (0 bytes)");
        assert(out@ =~= "No selection (0 bytes)"@);
    }
    string_of(&out)
}

/// The line that gives the size of the open file.
pub fn file_size_text(total_len: usize) -> (r: String)
    ensures
        r@ == "File Size: "@ + dec_digits(total_len as nat) + " bytes"@,
{
    let mut out: Vec<char> = Vec::new();
    push_str(&mut out, "File Size: ");
    push_decimal(&mut out, total_len as u128);
    push_str(&mut out, " bytes");
    string_of(&out)
}

/// What the panel reads of the editor when it starts a calculation: the
/// selection (when both its ends are set), the cursor and the file's size.
#[derive(Clone, Debug)]
pub struct EditorView {
    pub selected: Option<Range<usize>>,
    pub cursor_offset: usize,
    pub total_len: usize,
}

/// The state of the checksum panel: whether an editor is attached, which
/// bytes it sums, whether it computes on every change, whether a
/// calculation runs, the last results, and the range of the calculation
/// whose results are awaited (none when none is).
pub struct ChecksumPanelState {
    pub has_editor: bool,
    pub calculation_range: CalculationRange,
    pub auto_calculate: bool,
    pub is_calculating: bool,
    pub results: Option<ChecksumResults>,
    pub pending: Option<Range<usize>>,
}

/// `results` are those of a calculation over `range`.
pub open spec fn results_for(results: ChecksumResults, range: Range<usize>) -> bool {
    &&& results.range_start == range.start
    &&& results.range_end == range.end
    &&& results.data_len == spec_range_len(range)
}

/// The range a calculation would cover for the editor `view`.
pub open spec fn range_for(calculation_range: CalculationRange, view: EditorView) -> Range<usize> {
    match calculation_range {
        CalculationRange::EntireFile => 0..view.total_len,
        CalculationRange::Selection => match view.selected {
            Some(s) => s,
            None => view.cursor_offset..view.cursor_offset,
        },
    }
}

/// The number of bytes of a range, over the integers.
pub open spec fn spec_range_len(r: Range<usize>) -> int {
    if r.end > r.start {
        r.end - r.start
    } else {
        0
    }
}

/// A calculation starts for `view`: an editor is attached, and the range is
/// not empty and, when computing on every change, not over the limit.
pub open spec fn starts_for(auto_calculate: bool, calculation_range: CalculationRange, view: Option<EditorView>) -> bool {
    match view {
        None => false,
        Some(v) => {
            let n = spec_range_len(range_for(calculation_range, v));
            n > 0 && !(auto_calculate && n > AUTO_CALCULATE_LIMIT)
        },
    }
}

impl ChecksumPanelState {
    /// A panel without an editor that sums the selection, automatically.
    pub fn new() -> (r: Self)
        ensures
            !r.has_editor,
            r.calculation_range == CalculationRange::Selection,
            r.auto_calculate,
            !r.is_calculating,
            r.results is None,
            r.pending is None,
    {
        ChecksumPanelState {
            has_editor: false,
            calculation_range: CalculationRange::Selection,
            auto_calculate: true,
            is_calculating: false,
            results: None,
            pending: None,
        }
    }

    /// Attaches an editor, or none: the results are dropped, and no
    /// calculation runs or is awaited.
    pub fn set_editor(&mut self, has_editor: bool)
        ensures
            final(self).has_editor == has_editor,
            final(self).calculation_range == old(self).calculation_range,
            final(self).auto_calculate == old(self).auto_calculate,
            !final(self).is_calculating,
            final(self).results is None,
            final(self).pending is None,
    {
        self.has_editor = has_editor;
        self.results = None;
        self.is_calculating = false;
        self.pending = None;
    }

    /// Starts a calculation over the bytes the panel sums, reading the
    /// editor through `view` (none without an editor). Returns the range to
    /// compute, whose results are then awaited in place of any earlier
    /// ones; when none is started, the results are dropped, the panel shows
    /// no calculation running, and a calculation started before is still
    /// awaited.
    pub fn trigger_calculation(&mut self, view: Option<EditorView>) -> (r: Option<Range<usize>>)
        ensures
            final(self).has_editor == old(self).has_editor,
            final(self).calculation_range == old(self).calculation_range,
            final(self).auto_calculate == old(self).auto_calculate,
            final(self).results is None,
            r is Some <==> starts_for(old(self).auto_calculate, old(self).calculation_range, view),
            r is Some ==> r.unwrap() == range_for(old(self).calculation_range, view.unwrap()),
            final(self).is_calculating == r is Some,
            final(self).pending == (if r is Some {
                r
            } else {
                old(self).pending
            }),
    {
        self.results = None;
        self.is_calculating = false;
        let v = match view {
            Some(v) => v,
            None => {
                return None;
            },
        };
        let range = checksum_range(self.calculation_range, v.selected, v.cursor_offset, v.total_len);
        let data_len = range_len(&range);
        if !should_calculate(data_len, self.auto_calculate) {
            return None;
        }
        self.is_calculating = true;
        self.pending = Some(range.start..range.end);
        Some(range)
    }

    /// The editor changed: a new calculation starts when computing on every
    /// change; else nothing changes.
    pub fn on_editor_changed(&mut self, view: Option<EditorView>) -> (r: Option<Range<usize>>)
        ensures
            final(self).calculation_range == old(self).calculation_range,
            final(self).auto_calculate == old(self).auto_calculate,
            !old(self).auto_calculate ==> r is None && final(self).is_calculating == old(self).is_calculating
                && final(self).results == old(self).results,
            old(self).auto_calculate ==> final(self).results is None && (r is Some <==> starts_for(
                true,
                old(self).calculation_range,
                view,
            )) && final(self).is_calculating == r is Some,
            r is Some ==> r.unwrap() == range_for(old(self).calculation_range, view.unwrap()),
    {
        if self.auto_calculate {
            self.trigger_calculation(view)
        } else {
            None
        }
    }

    /// A calculation ended with `results`. They are taken only when they
    /// are those of the awaited calculation: then they are shown, and no
    /// calculation runs or is awaited. Else nothing changes. Returns whether
    /// they were taken.
    pub fn finish_calculation(&mut self, results: ChecksumResults) -> (taken: bool)
        ensures
            taken == (old(self).pending matches Some(p) && results_for(results, p)),
            taken ==> final(self).results == Some(results) && !final(self).is_calculating
                && final(self).pending is None,
            !taken ==> final(self).results == old(self).results && final(self).is_calculating
                == old(self).is_calculating && final(self).pending == old(self).pending,
            final(self).has_editor == old(self).has_editor,
            final(self).calculation_range == old(self).calculation_range,
            final(self).auto_calculate == old(self).auto_calculate,
    {
        let matches_pending = match &self.pending {
            Some(p) => results.range_start == p.start && results.range_end == p.end && results.data_len
                == range_len(p),
            None => false,
        };
        if matches_pending {
            self.results = Some(results);
            self.is_calculating = false;
            self.pending = None;
        }
        matches_pending
    }

    /// Chooses which bytes to sum: a change drops the results and, when
    /// computing on every change, starts a calculation.
    pub fn select_range(&mut self, range: CalculationRange, view: Option<EditorView>) -> (r: Option<
        Range<usize>,
    >)
        ensures
            final(self).calculation_range == range,
            final(self).auto_calculate == old(self).auto_calculate,
            old(self).calculation_range == range ==> r is None && final(self).results == old(self).results
                && final(self).is_calculating == old(self).is_calculating,
            old(self).calculation_range != range ==> final(self).results is None,
            old(self).calculation_range != range && old(self).auto_calculate ==> (r is Some <==> starts_for(
                true,
                range,
                view,
            )) && final(self).is_calculating == r is Some,
            old(self).calculation_range != range && !old(self).auto_calculate ==> r is None
                && final(self).is_calculating == old(self).is_calculating,
            r is Some ==> r.unwrap() == range_for(range, view.unwrap()),
    {
        if self.calculation_range == range {
            return None;
        }
        self.calculation_range = range;
        self.results = None;
        if self.auto_calculate {
            self.trigger_calculation(view)
        } else {
            None
        }
    }

    /// Turns computing on every change on or off; turning it on without
    /// results starts a calculation.
    pub fn toggle_auto(&mut self, view: Option<EditorView>) -> (r: Option<Range<usize>>)
        ensures
            final(self).auto_calculate == !old(self).auto_calculate,
            final(self).calculation_range == old(self).calculation_range,
            !(final(self).auto_calculate && old(self).results is None) ==> r is None && final(self).results
                == old(self).results && final(self).is_calculating == old(self).is_calculating,
            final(self).auto_calculate && old(self).results is None ==> final(self).results is None && (r is Some
                <==> starts_for(true, old(self).calculation_range, view)) && final(self).is_calculating
                == r is Some,
            r is Some ==> r.unwrap() == range_for(old(self).calculation_range, view.unwrap()),
    {
        self.auto_calculate = !self.auto_calculate;
        if self.auto_calculate && self.results.is_none() {
            self.trigger_calculation(view)
        } else {
            None
        }
    }
}

/// Whether the Calculate button can be pressed: an editor is attached, the
/// range is not empty and nothing runs.
pub fn calculate_enabled(has_editor: bool, data_len: usize, is_calculating: bool) -> (r: bool)
    ensures
        r == (has_editor && data_len > 0 && !is_calculating),
{
    has_editor && data_len > 0 && !is_calculating
}

/// What the panel says while it has no results.
#[derive(Clone, Copy, Debug, PartialEq, Eq, Structural)]
pub enum IdleReason {
    /// No file is open.
    NoFile,
    /// The range is empty.
    EmptySelection,
    /// The range is over the limit of the automatic calculation.
    TooLarge,
    /// The calculation waits for the button.
    Ready,
}

/// Why the panel shows no results, in the order it tests its state.
pub fn idle_reason(has_editor: bool, data_len: usize, auto_calculate: bool) -> (r: IdleReason)
    ensures
        r == if !has_editor {
            IdleReason::NoFile
        } else if data_len == 0 {
            IdleReason::EmptySelection
        } else if auto_calculate && data_len > AUTO_CALCULATE_LIMIT {
            IdleReason::TooLarge
        } else {
            IdleReason::Ready
        },
{
    if !has_editor {
        IdleReason::NoFile
    } else if data_len == 0 {
        IdleReason::EmptySelection
    } else if auto_calculate && data_len > AUTO_CALCULATE_LIMIT {
        IdleReason::TooLarge
    } else {
        IdleReason::Ready
    }
}

} // verus!
