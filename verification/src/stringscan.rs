//! The scan state of the strings panel: when a scan's results still hold,
//! which scan's results are taken, and the results each editor left behind
//! when the panel moved to another one.
use vstd::prelude::*;
use std::collections::HashMap;
use crate::statustext::TextEncoding;
use crate::stringlist::{
    SortDirection, StringMatch, filter_rows, filtered_indices, lemma_row_order, row_before, sorted_indices,
    texts_of,
};

verus! {

broadcast use vstd::std_specs::hash::group_hash_axioms;

/// What a scan's results depend on: the text encoding, the state of the
/// document's history and the file's size.
#[derive(Clone, Copy, Debug, PartialEq, Eq, Structural)]
pub struct ScanSignature {
    pub encoding: TextEncoding,
    pub content_state: usize,
    pub byte_len: usize,
}

/// What the panel keeps of an editor it moved away from.
pub struct CachedStringsState {
    pub results: Vec<StringMatch>,
    pub is_truncated: bool,
    pub selected_index: Option<usize>,
    pub has_scanned: bool,
    pub scan_signature: Option<ScanSignature>,
    pub scan_min_length: Option<usize>,
}

/// The scan state of the strings panel: the attached editor (by its id),
/// whether a scan runs, the results, the chosen row, whether a scan ended,
/// the number of the latest scan, what the results were computed from, and
/// what was kept of other editors.
pub struct StringsPanelState {
    pub editor_id: Option<u64>,
    pub is_scanning: bool,
    pub results: Vec<StringMatch>,
    pub is_truncated: bool,
    pub selected_index: Option<usize>,
    pub has_scanned: bool,
    pub scan_generation: usize,
    pub scan_signature: Option<ScanSignature>,
    pub scan_min_length: Option<usize>,
    pub cached_states: HashMap<u64, CachedStringsState>,
}

/// A scan to run: its number and the shortest string it reports.
#[derive(Clone, Copy, Debug, PartialEq, Eq, Structural)]
pub struct ScanRequest {
    pub generation: usize,
    pub min_length: usize,
}

/// The number that follows `g`, wrapping at `usize::MAX`.
pub open spec fn next_generation(g: usize) -> usize {
    if g == usize::MAX {
        0
    } else {
        (g + 1) as usize
    }
}

/// What the panel keeps of its current editor.
pub open spec fn snapshot(s: StringsPanelState) -> CachedStringsState {
    CachedStringsState {
        results: s.results,
        is_truncated: s.is_truncated,
        selected_index: s.selected_index,
        has_scanned: s.has_scanned,
        scan_signature: s.scan_signature,
        scan_min_length: s.scan_min_length,
    }
}

/// Kept results are taken back: no scan had ended for them, or they were
/// computed from the same signature and minimum length.
pub open spec fn accepts(e: CachedStringsState, sig: Option<ScanSignature>, min: Option<usize>) -> bool {
    !e.has_scanned || (e.scan_signature == sig && e.scan_min_length == min)
}

/// The shown results are those of no scan.
pub open spec fn cleared(s: StringsPanelState) -> bool {
    &&& !s.is_scanning
    &&& s.results@.len() == 0
    &&& !s.is_truncated
    &&& s.selected_index is None
    &&& !s.has_scanned
    &&& s.scan_min_length is None
}

/// The shown results are the kept ones `e`.
pub open spec fn shows(s: StringsPanelState, e: CachedStringsState) -> bool {
    &&& s.results == e.results
    &&& s.is_truncated == e.is_truncated
    &&& s.selected_index == e.selected_index
    &&& s.has_scanned == e.has_scanned
    &&& s.scan_min_length == e.scan_min_length
}

/// The shown results and the scan state are those of `t`.
pub open spec fn same_shown(s: StringsPanelState, t: StringsPanelState) -> bool {
    &&& s.is_scanning == t.is_scanning
    &&& shows(s, snapshot(t))
    &&& s.scan_generation == t.scan_generation
    &&& s.scan_signature == t.scan_signature
}

/// The cache after the current editor's state is kept in it.
pub open spec fn stored(s: StringsPanelState) -> Map<u64, CachedStringsState> {
    match s.editor_id {
        Some(id) => s.cached_states@.insert(id, snapshot(s)),
        None => s.cached_states@,
    }
}

/// The first row in the panel's order among those the filter leaves: none
/// when it leaves none; else the first of them without a sorted column,
/// or one that no other such row comes before.
pub open spec fn first_in_order(
    results: Seq<StringMatch>,
    filter: Seq<char>,
    sort: Option<(usize, SortDirection)>,
    first: Option<usize>,
) -> bool {
    let rows = filter_rows(texts_of(results), filter);
    &&& (rows.len() == 0 <==> first is None)
    &&& first is Some ==> rows.contains(first.unwrap())
    &&& first is Some && sort is None ==> first.unwrap() == rows[0]
    &&& first is Some && sort is Some ==> forall|j: usize|
        #[trigger] rows.contains(j) ==> !row_before(results, sort.unwrap().0, sort.unwrap().1, j, first.unwrap())
}

/// `t` (with the answer `r`) is what moving the panel in state `s` to
/// editor `next`, whose scan signature is `signature`, gives: nothing
/// changes for the current editor; else the current editor's results are
/// kept, the panel is cleared, and what was kept of `next` is taken back
/// when it still holds.
pub open spec fn editor_switched(
    s: StringsPanelState,
    t: StringsPanelState,
    next: Option<u64>,
    signature: Option<ScanSignature>,
    minimum_length: Option<usize>,
    r: bool,
) -> bool {
    if s.editor_id == next {
        !r && t.editor_id == next && same_shown(t, s) && t.cached_states@ == s.cached_states@
    } else {
        let kept = stored(s);
        &&& t.editor_id == next
        &&& t.scan_signature == signature
        &&& t.scan_generation == next_generation(s.scan_generation)
        &&& !t.is_scanning
        &&& next is None ==> !r && cleared(t) && t.cached_states@ == kept
        &&& next is Some ==> {
            let id = next.unwrap();
            &&& t.cached_states@ == kept.remove(id)
            &&& r == (kept.contains_key(id) && accepts(kept[id], signature, minimum_length))
            &&& r ==> shows(t, kept[id])
            &&& !r ==> cleared(t)
        }
    }
}

/// Whether two signatures (or their absence) are the same.
pub fn same_signature(a: Option<ScanSignature>, b: Option<ScanSignature>) -> (r: bool)
    ensures
        r == (a == b),
{
    match (a, b) {
        (None, None) => true,
        (Some(x), Some(y)) => x.encoding == y.encoding && x.content_state == y.content_state && x.byte_len
            == y.byte_len,
        _ => false,
    }
}

/// Whether two minimum lengths (or their absence) are the same.
fn same_length(a: Option<usize>, b: Option<usize>) -> (r: bool)
    ensures
        r == (a == b),
{
    match (a, b) {
        (None, None) => true,
        (Some(x), Some(y)) => x == y,
        _ => false,
    }
}

impl StringsPanelState {
    /// A panel without an editor, results or kept state.
    pub fn new() -> (r: Self)
        ensures
            r.editor_id is None,
            cleared(r),
            r.scan_generation == 0,
            r.scan_signature is None,
            r.cached_states@ == Map::<u64, CachedStringsState>::empty(),
    {
        StringsPanelState {
            editor_id: None,
            is_scanning: false,
            results: Vec::new(),
            is_truncated: false,
            selected_index: None,
            has_scanned: false,
            scan_generation: 0,
            scan_signature: None,
            scan_min_length: None,
            cached_states: HashMap::new(),
        }
    }

    /// Drops the results and any running scan: a scan that still ends is
    /// not taken.
    pub fn invalidate_scan(&mut self)
        ensures
            cleared(*final(self)),
            final(self).scan_generation == next_generation(old(self).scan_generation),
            final(self).editor_id == old(self).editor_id,
            final(self).scan_signature == old(self).scan_signature,
            final(self).cached_states@ == old(self).cached_states@,
    {
        self.scan_generation = if self.scan_generation == usize::MAX {
            0
        } else {
            self.scan_generation + 1
        };
        self.is_scanning = false;
        self.results = Vec::new();
        self.is_truncated = false;
        self.selected_index = None;
        self.has_scanned = false;
        self.scan_min_length = None;
    }

    /// Keeps the current editor's results for when the panel comes back to
    /// it; nothing without an editor.
    pub fn cache_current_state(&mut self)
        ensures
            final(self).cached_states@ == stored(*old(self)),
            old(self).editor_id is Some ==> final(self).results@.len() == 0,
            old(self).editor_id is None ==> final(self).results == old(self).results,
            final(self).editor_id == old(self).editor_id,
            final(self).is_scanning == old(self).is_scanning,
            final(self).is_truncated == old(self).is_truncated,
            final(self).selected_index == old(self).selected_index,
            final(self).has_scanned == old(self).has_scanned,
            final(self).scan_generation == old(self).scan_generation,
            final(self).scan_signature == old(self).scan_signature,
            final(self).scan_min_length == old(self).scan_min_length,
    {
        let id = match self.editor_id {
            Some(id) => id,
            None => {
                return;
            },
        };
        let mut results: Vec<StringMatch> = Vec::new();
        std::mem::swap(&mut results, &mut self.results);
        let kept = CachedStringsState {
            results,
            is_truncated: self.is_truncated,
            selected_index: self.selected_index,
            has_scanned: self.has_scanned,
            scan_signature: self.scan_signature,
            scan_min_length: self.scan_min_length,
        };
        self.cached_states.insert(id, kept);
    }

    /// Takes back what was kept of editor `editor_id`, when it still holds
    /// for the current signature and `minimum_length`; the kept state is
    /// dropped either way. Tells whether it was taken back.
    pub fn restore_cached_state(&mut self, editor_id: u64, minimum_length: Option<usize>) -> (r: bool)
        ensures
            final(self).cached_states@ == old(self).cached_states@.remove(editor_id),
            final(self).editor_id == old(self).editor_id,
            final(self).is_scanning == old(self).is_scanning,
            final(self).scan_generation == old(self).scan_generation,
            final(self).scan_signature == old(self).scan_signature,
            r == (old(self).cached_states@.contains_key(editor_id) && accepts(
                old(self).cached_states@[editor_id],
                old(self).scan_signature,
                minimum_length,
            )),
            r ==> shows(*final(self), old(self).cached_states@[editor_id]),
            !r ==> shows(*final(self), snapshot(*old(self))),
    {
        let cached = match self.cached_states.remove(&editor_id) {
            Some(c) => c,
            None => {
                return false;
            },
        };
        let is_current = cached.has_scanned && same_signature(cached.scan_signature, self.scan_signature)
            && same_length(cached.scan_min_length, minimum_length);
        if !is_current && cached.has_scanned {
            return false;
        }
        self.results = cached.results;
        self.is_truncated = cached.is_truncated;
        self.selected_index = cached.selected_index;
        self.has_scanned = cached.has_scanned;
        self.scan_min_length = cached.scan_min_length;
        true
    }

    /// Moves the panel to editor `next` (by id; none for no editor), whose
    /// scan signature is `signature`: the current editor's results are
    /// kept, the panel is cleared, and what was kept of `next` is taken
    /// back when it still holds. Nothing changes when `next` is the current
    /// editor. Tells whether kept results were taken back (the selection
    /// then follows the filter again).
    pub fn set_editor(&mut self, next: Option<u64>, signature: Option<ScanSignature>, minimum_length: Option<
        usize,
    >) -> (r: bool)
        ensures
            editor_switched(*old(self), *final(self), next, signature, minimum_length, r),
    {
        if same_editor(self.editor_id, next) {
            return false;
        }
        self.cache_current_state();
        self.invalidate_scan();
        self.editor_id = next;
        self.scan_signature = signature;
        match next {
            Some(id) => self.restore_cached_state(id, minimum_length),
            None => false,
        }
    }

    /// The document behind the editor may have changed: the results are
    /// dropped when the signature is no longer theirs. Tells whether they
    /// were.
    pub fn scan_if_content_changed(&mut self, signature: Option<ScanSignature>) -> (r: bool)
        ensures
            r == (signature != old(self).scan_signature),
            !r ==> same_shown(*final(self), *old(self)),
            r ==> cleared(*final(self)) && final(self).scan_signature == signature
                && final(self).scan_generation == next_generation(old(self).scan_generation),
            final(self).editor_id == old(self).editor_id,
            final(self).cached_states@ == old(self).cached_states@,
    {
        if same_signature(signature, self.scan_signature) {
            false
        } else {
            self.invalidate_scan();
            self.scan_signature = signature;
            true
        }
    }

    /// Starts a scan for strings of at least `minimum_length` characters
    /// (none when the typed length is not valid) of a document whose
    /// signature is `signature`. The results are dropped first; no scan
    /// starts without an editor or a valid length.
    pub fn trigger_scan(&mut self, signature: Option<ScanSignature>, minimum_length: Option<usize>) -> (r: Option<
        ScanRequest,
    >)
        ensures
            final(self).scan_generation == next_generation(old(self).scan_generation),
            final(self).scan_signature == signature,
            final(self).editor_id == old(self).editor_id,
            final(self).cached_states@ == old(self).cached_states@,
            final(self).results@.len() == 0,
            !final(self).is_truncated,
            final(self).selected_index is None,
            !final(self).has_scanned,
            (old(self).editor_id is None || minimum_length is None) ==> r is None && !final(self).is_scanning
                && final(self).scan_min_length is None,
            (old(self).editor_id is Some && minimum_length is Some) ==> r == Some(
                ScanRequest { generation: final(self).scan_generation, min_length: minimum_length.unwrap() },
            ) && final(self).is_scanning && final(self).scan_min_length == minimum_length,
    {
        self.invalidate_scan();
        self.scan_signature = signature;
        if self.editor_id.is_none() {
            return None;
        }
        let min_length = match minimum_length {
            Some(m) => m,
            None => {
                return None;
            },
        };
        self.scan_min_length = Some(min_length);
        self.is_scanning = true;
        Some(ScanRequest { generation: self.scan_generation, min_length })
    }

    /// Scan number `generation` ended with `results`: taken only when it is
    /// the latest scan, with the first row in the panel's order (under
    /// `filter` and `sort`) chosen. Tells whether it was taken.
    pub fn finish_scan(
        &mut self,
        generation: usize,
        results: Vec<StringMatch>,
        is_truncated: bool,
        filter: &str,
        sort: Option<(usize, SortDirection)>,
    ) -> (r: bool)
        ensures
            r == (generation == old(self).scan_generation),
            !r ==> same_shown(*final(self), *old(self)),
            r ==> !final(self).is_scanning && final(self).results@ == results@ && final(self).is_truncated
                == is_truncated && final(self).has_scanned && first_in_order(
                results@,
                filter@,
                sort,
                final(self).selected_index,
            ) && final(self).scan_min_length == old(self).scan_min_length,
            final(self).scan_generation == old(self).scan_generation,
            final(self).scan_signature == old(self).scan_signature,
            final(self).editor_id == old(self).editor_id,
            final(self).cached_states@ == old(self).cached_states@,
    {
        if generation != self.scan_generation {
            return false;
        }
        let rows = filtered_indices(&results, filter);
        let ghost rows_seq = rows@;
        proof {
            lemma_filter_rows_bounded(texts_of(results@), filter@);
        }
        let order = sorted_indices(&results, rows, sort);
        proof {
            assert(order@.to_multiset() == rows_seq.to_multiset());
            vstd::seq_lib::lemma_multiset_commutative(order@, rows_seq);
        }
        let first = if order.len() > 0 {
            Some(order[0])
        } else {
            None
        };
        proof {
            broadcast use vstd::seq_lib::group_to_multiset_ensures;
            if order@.len() == 0 {
                assert(rows_seq.len() == 0) by {
                    assert(order@.to_multiset().len() == 0);
                    assert(rows_seq.to_multiset().len() == rows_seq.len());
                }
            } else {
                assert(rows_seq.to_multiset().count(order@[0]) > 0);
                assert(rows_seq.contains(order@[0]));
                if sort is None {
                    assert(order@ == rows_seq);
                } else {
                    let (col, dir) = sort.unwrap();
                    assert forall|j: usize| #[trigger] rows_seq.contains(j) implies !row_before(
                        results@,
                        col,
                        dir,
                        j,
                        order@[0],
                    ) by {
                        assert(order@.to_multiset().count(j) > 0);
                        assert(order@.contains(j));
                        let k = choose|k: int| 0 <= k < order@.len() && order@[k] == j;
                        lemma_row_order(results@, col, dir, j, order@[0], j);
                        if k > 0 {
                            assert(!row_before(results@, col, dir, order@[k], order@[0]));
                        }
                    }
                }
            }
        }
        self.is_scanning = false;
        self.is_truncated = is_truncated;
        self.results = results;
        self.has_scanned = true;
        self.selected_index = first;
        true
    }
}

/// Whether two editor ids (or their absence) are the same.
fn same_editor(a: Option<u64>, b: Option<u64>) -> (r: bool)
    ensures
        r == (a == b),
{
    match (a, b) {
        (None, None) => true,
        (Some(x), Some(y)) => x == y,
        _ => false,
    }
}

/// The rows the filter leaves are rows of the results.
pub proof fn lemma_filter_rows_bounded(texts: Seq<Seq<char>>, filter: Seq<char>)
    ensures
        forall|i: int|
            0 <= i < filter_rows(texts, filter).len() ==> #[trigger] filter_rows(texts, filter)[i] < texts.len(),
    decreases texts.len(),
{
    if texts.len() > 0 {
        let before = filter_rows(texts.drop_last(), filter);
        lemma_filter_rows_bounded(texts.drop_last(), filter);
        let all = filter_rows(texts, filter);
        assert forall|i: int| 0 <= i < all.len() implies #[trigger] all[i] < texts.len() by {
            if i < before.len() {
                assert(all[i] == before[i]);
            }
        }
    }
}

/// Moving to another editor and back shows again the results the first
/// editor had, when its document's signature and the minimum length are
/// those its results were computed from (or no scan had ended for it).
pub proof fn lemma_switch_back_restores(
    s0: StringsPanelState,
    s1: StringsPanelState,
    s2: StringsPanelState,
    a: u64,
    b: u64,
    sig_b: Option<ScanSignature>,
    min_b: Option<usize>,
    sig_a: Option<ScanSignature>,
    min_a: Option<usize>,
    r1: bool,
    r2: bool,
)
    requires
        s0.editor_id == Some(a),
        a != b,
        editor_switched(s0, s1, Some(b), sig_b, min_b, r1),
        editor_switched(s1, s2, Some(a), sig_a, min_a, r2),
        s0.has_scanned ==> s0.scan_signature == sig_a && s0.scan_min_length == min_a,
    ensures
        r2,
        shows(s2, snapshot(s0)),
        s2.editor_id == Some(a),
{
    let kept1 = stored(s0);
    assert(kept1.contains_key(a) && kept1[a] == snapshot(s0));
    assert(s1.cached_states@.contains_key(a) && s1.cached_states@[a] == snapshot(s0));
    let kept2 = stored(s1);
    assert(kept2.contains_key(a) && kept2[a] == snapshot(s0));
}

/// A scan is not taken once the results were dropped after it started:
/// dropping them moves the scan number on.
pub proof fn lemma_stale_scan_refused(s: StringsPanelState, t: StringsPanelState, request: ScanRequest)
    requires
        request.generation == s.scan_generation,
        t.scan_generation == next_generation(s.scan_generation),
    ensures
        request.generation != t.scan_generation,
{
}

} // verus!
