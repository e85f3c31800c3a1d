//! Highlights of the hex view: byte ranges with a colour, kept sorted by
//! their start so that the highlights of one row are found by two binary
//! searches, and the colour of a cell chosen among those that cover it.
use vstd::prelude::*;
use std::ops::Range;

verus! {

/// A highlighted byte range and its colour.
pub type Highlight<C> = (Range<usize>, C);

/// The number of bytes of `r` (zero when it is reversed).
pub open spec fn span_len(r: Range<usize>) -> int {
    if r.end > r.start {
        r.end - r.start
    } else {
        0
    }
}

/// `r` shares at least one byte with `start..end`.
pub open spec fn overlaps(r: Range<usize>, start: int, end: int) -> bool {
    r.start < end && r.end > start
}

/// The highlights are in order of their start.
pub open spec fn sorted_by_start<C>(h: Seq<Highlight<C>>) -> bool {
    forall|i: int, j: int| 0 <= i <= j < h.len() ==> #[trigger] h[i].0.start <= #[trigger] h[j].0.start
}

/// The longest span of the highlights, 0 when there are none.
pub open spec fn max_span<C>(h: Seq<Highlight<C>>) -> int
    decreases h.len(),
{
    if h.len() == 0 {
        0
    } else {
        let m = max_span(h.drop_last());
        if span_len(h.last().0) > m {
            span_len(h.last().0)
        } else {
            m
        }
    }
}

/// The number of leading highlights that start before `key`.
pub open spec fn lead_below<C>(h: Seq<Highlight<C>>, key: int) -> int
    decreases h.len(),
{
    if h.len() == 0 {
        0
    } else if h[0].0.start < key {
        1 + lead_below(h.drop_first(), key)
    } else {
        0
    }
}

/// `x` placed into the sorted `s` after every element that does not start
/// after it.
pub open spec fn insert_by_start<C>(s: Seq<Highlight<C>>, x: Highlight<C>) -> Seq<Highlight<C>>
    decreases s.len(),
{
    if s.len() == 0 {
        seq![x]
    } else if s.last().0.start <= x.0.start {
        s.push(x)
    } else {
        insert_by_start(s.drop_last(), x).push(s.last())
    }
}

/// The highlights in order of their start; those with equal starts keep
/// their order (a stable sort).
pub open spec fn sort_by_start<C>(s: Seq<Highlight<C>>) -> Seq<Highlight<C>>
    decreases s.len(),
{
    if s.len() == 0 {
        s
    } else {
        insert_by_start(sort_by_start(s.drop_last()), s.last())
    }
}

/// The colour of a cell at `start..end` among `h`, with the length of the
/// highlight that gave it: the shortest highlight that covers part of the
/// cell, the later one of equal length winning.
pub open spec fn best_cover<C>(h: Seq<Highlight<C>>, start: int, end: int) -> Option<(int, C)>
    decreases h.len(),
{
    if h.len() == 0 {
        None
    } else {
        let prev = best_cover(h.drop_last(), start, end);
        let x = h.last();
        if overlaps(x.0, start, end) && (prev is None || span_len(x.0) <= prev.unwrap().0) {
            Some((span_len(x.0), x.1))
        } else {
            prev
        }
    }
}

/// In a sorted sequence, the first `lead_below` elements are exactly those
/// that start before `key`.
pub proof fn lemma_lead_below<C>(h: Seq<Highlight<C>>, key: int)
    requires
        sorted_by_start(h),
    ensures
        0 <= lead_below(h, key) <= h.len(),
        forall|i: int| 0 <= i < h.len() ==> (i < lead_below(h, key) <==> #[trigger] h[i].0.start < key),
    decreases h.len(),
{
    if h.len() > 0 {
        let t = h.drop_first();
        assert forall|i: int, j: int| 0 <= i <= j < t.len() implies #[trigger] t[i].0.start
            <= #[trigger] t[j].0.start by {
            assert(t[i] == h[i + 1] && t[j] == h[j + 1]);
        }
        lemma_lead_below(t, key);
        assert forall|i: int| 0 <= i < h.len() implies (i < lead_below(h, key) <==> #[trigger] h[i].0.start
            < key) by {
            if i > 0 {
                assert(h[i] == t[i - 1]);
            }
            if h[0].0.start >= key {
                assert(h[0].0.start <= h[i].0.start);
            }
        }
    }
}

/// The first position from which every highlight starts at or after `key`
/// (the highlights being sorted).
fn partition_start_before<C>(h: &[Highlight<C>], key: usize) -> (p: usize)
    requires
        sorted_by_start(h@),
    ensures
        p == lead_below(h@, key as int),
{
    proof {
        lemma_lead_below(h@, key as int);
    }
    let mut lo: usize = 0;
    let mut hi: usize = h.len();
    while lo < hi
        invariant
            0 <= lo <= hi <= h@.len(),
            sorted_by_start(h@),
            0 <= lead_below(h@, key as int) <= h@.len(),
            forall|i: int| 0 <= i < h@.len() ==> (i < lead_below(h@, key as int) <==> #[trigger] h@[i].0.start < key),
            lo <= lead_below(h@, key as int) <= hi,
        decreases hi - lo,
    {
        let mid = lo + (hi - lo) / 2;
        if h[mid].0.start < key {
            lo = mid + 1;
        } else {
            hi = mid;
        }
    }
    lo
}

/// The highlights that may touch the row `offset..next_offset`: those that
/// start at or after `offset - max_len` (saturating) and before
/// `next_offset`, as a run of the sorted list. The run must not end before
/// it starts, which holds whenever `offset <= next_offset`.
pub fn row_highlights<'a, C>(
    highlights: &'a [Highlight<C>],
    max_len: usize,
    offset: usize,
    next_offset: usize,
) -> (r: &'a [Highlight<C>])
    requires
        sorted_by_start(highlights@),
        lead_below(
            highlights@,
            if offset >= max_len {
                offset - max_len
            } else {
                0
            },
        ) <= lead_below(highlights@, next_offset as int),
    ensures
        ({
            let lo = if offset >= max_len {
                offset - max_len
            } else {
                0
            };
            r@ == highlights@.subrange(
                lead_below(highlights@, lo as int),
                lead_below(highlights@, next_offset as int),
            )
        }),
{
    proof {
        lemma_lead_below(highlights@, next_offset as int);
    }
    if highlights.len() == 0 {
        proof {
            assert(highlights@.subrange(0, 0) =~= Seq::<Highlight<C>>::empty());
        }
        return vstd::slice::slice_subrange(highlights, 0, 0);
    }
    let start_search = offset.saturating_sub(max_len);
    proof {
        lemma_lead_below(highlights@, start_search as int);
    }
    let search_start = partition_start_before(highlights, start_search);
    let search_end = partition_start_before(highlights, next_offset);
    vstd::slice::slice_subrange(highlights, search_start, search_end)
}

/// Every highlight that covers part of the row and is no longer than
/// `max_len` is among the row's highlights.
pub proof fn lemma_row_highlights_cover<C>(
    h: Seq<Highlight<C>>,
    max_len: int,
    offset: int,
    next_offset: int,
    i: int,
)
    requires
        sorted_by_start(h),
        0 <= max_len,
        0 <= offset <= next_offset,
        0 <= i < h.len(),
        overlaps(h[i].0, offset, next_offset),
        span_len(h[i].0) <= max_len,
    ensures
        ({
            let lo = if offset >= max_len {
                offset - max_len
            } else {
                0
            };
            lead_below(h, lo) <= i < lead_below(h, next_offset)
        }),
{
    let lo = if offset >= max_len {
        offset - max_len
    } else {
        0
    };
    lemma_lead_below(h, lo);
    lemma_lead_below(h, next_offset);
}

/// The longest span among the highlights (0 for none), the bound that
/// `row_highlights` needs.
pub fn max_highlight_len<C>(highlights: &[Highlight<C>]) -> (m: usize)
    ensures
        m == max_span(highlights@),
        forall|i: int| 0 <= i < highlights@.len() ==> span_len(#[trigger] highlights@[i].0) <= m,
{
    let mut m: usize = 0;
    let mut k: usize = 0;
    while k < highlights.len()
        invariant
            k <= highlights@.len(),
            m == max_span(highlights@.subrange(0, k as int)),
            forall|i: int| 0 <= i < k ==> span_len(#[trigger] highlights@[i].0) <= m,
        decreases highlights@.len() - k,
    {
        let r = &highlights[k].0;
        let len = r.end.saturating_sub(r.start);
        proof {
            assert(highlights@.subrange(0, k + 1).drop_last() =~= highlights@.subrange(0, k as int));
        }
        if len > m {
            m = len;
        }
        k = k + 1;
    }
    proof {
        assert(highlights@.subrange(0, k as int) =~= highlights@);
    }
    m
}

/// The colour of the cell `item_start..item_end`: none when the cell is
/// selected (the selection shows instead), else that of the shortest
/// highlight covering part of the cell, the later one among equals.
pub fn highlight_color_for_range<C: Copy>(
    item_start: usize,
    item_end: usize,
    is_selected: bool,
    active_highlights: &[Highlight<C>],
) -> (r: Option<C>)
    ensures
        is_selected ==> r is None,
        !is_selected ==> r == (match best_cover(active_highlights@, item_start as int, item_end as int) {
            Some(p) => Some(p.1),
            None => None::<C>,
        }),
{
    if is_selected {
        return None;
    }
    let mut smallest_len: usize = usize::MAX;
    let mut color: Option<C> = None;
    let mut k: usize = 0;
    while k < active_highlights.len()
        invariant
            k <= active_highlights@.len(),
            ({
                let b = best_cover(
                    active_highlights@.subrange(0, k as int),
                    item_start as int,
                    item_end as int,
                );
                &&& b is None ==> color is None && smallest_len == usize::MAX
                &&& b is Some ==> color == Some(b.unwrap().1) && smallest_len == b.unwrap().0
                &&& b is Some ==> 0 <= b.unwrap().0 <= usize::MAX
            }),
        decreases active_highlights@.len() - k,
    {
        let range = &active_highlights[k].0;
        let highlight_color = active_highlights[k].1;
        proof {
            assert(active_highlights@.subrange(0, k + 1).drop_last() =~= active_highlights@.subrange(
                0,
                k as int,
            ));
            assert(active_highlights@.subrange(0, k + 1).last() == active_highlights@[k as int]);
        }
        if range.start < item_end && range.end > item_start {
            let len = range.end.saturating_sub(range.start);
            if len <= smallest_len {
                smallest_len = len;
                color = Some(highlight_color);
            }
        }
        k = k + 1;
    }
    proof {
        assert(active_highlights@.subrange(0, k as int) =~= active_highlights@);
    }
    color
}

/// Highlight `i` covers part of `start..end`, no covering highlight is
/// shorter, and every covering highlight after it is longer.
pub open spec fn chosen_cover<C>(h: Seq<Highlight<C>>, start: int, end: int, i: int) -> bool {
    &&& 0 <= i < h.len()
    &&& overlaps(h[i].0, start, end)
    &&& forall|j: int|
        0 <= j < h.len() && overlaps(#[trigger] h[j].0, start, end) ==> span_len(h[i].0) <= span_len(
            h[j].0,
        )
    &&& forall|j: int|
        i < j < h.len() && overlaps(#[trigger] h[j].0, start, end) ==> span_len(h[i].0) < span_len(
            h[j].0,
        )
}

/// The colour chosen for a cell comes from a highlight that covers part of
/// it, no highlight covering it is shorter, and none after it is as short;
/// and there is a colour exactly when some highlight covers part of the cell.
pub proof fn lemma_best_cover<C>(h: Seq<Highlight<C>>, start: int, end: int)
    ensures
        (best_cover(h, start, end) is None) <==> (forall|j: int|
            0 <= j < h.len() ==> !overlaps(#[trigger] h[j].0, start, end)),
        best_cover(h, start, end) is Some ==> exists|i: int|
            #[trigger] chosen_cover(h, start, end, i) && best_cover(h, start, end).unwrap().0
                == span_len(h[i].0) && best_cover(h, start, end).unwrap().1 == h[i].1,
    decreases h.len(),
{
    if h.len() > 0 {
        let d = h.drop_last();
        let n = h.len() - 1;
        lemma_best_cover(d, start, end);
        assert forall|j: int| 0 <= j < d.len() implies d[j] == h[j] by {}
        let prev = best_cover(d, start, end);
        let x = h.last();
        if overlaps(x.0, start, end) && (prev is None || span_len(x.0) <= prev.unwrap().0) {
            if prev is Some {
                let i = choose|i: int|
                    #[trigger] chosen_cover(d, start, end, i) && prev.unwrap().0 == span_len(d[i].0)
                        && prev.unwrap().1 == d[i].1;
                assert(chosen_cover(d, start, end, i));
            }
            assert forall|j: int|
                0 <= j < h.len() && overlaps(#[trigger] h[j].0, start, end) implies span_len(h[n].0)
                <= span_len(h[j].0) by {
                if j < n {
                    assert(h[j] == d[j]);
                    assert(overlaps(d[j].0, start, end));
                }
            }
            assert(chosen_cover(h, start, end, n));
        } else if prev is Some {
            let i = choose|i: int|
                #[trigger] chosen_cover(d, start, end, i) && prev.unwrap().0 == span_len(d[i].0)
                    && prev.unwrap().1 == d[i].1;
            assert(chosen_cover(d, start, end, i));
            assert(h[i] == d[i]);
            assert forall|j: int|
                0 <= j < h.len() && overlaps(#[trigger] h[j].0, start, end) implies span_len(h[i].0)
                <= span_len(h[j].0) by {
                if j < n {
                    assert(h[j] == d[j]);
                    assert(overlaps(d[j].0, start, end));
                }
            }
            assert forall|j: int|
                i < j < h.len() && overlaps(#[trigger] h[j].0, start, end) implies span_len(h[i].0)
                < span_len(h[j].0) by {
                if j < n {
                    assert(h[j] == d[j]);
                    assert(overlaps(d[j].0, start, end));
                }
            }
            assert(chosen_cover(h, start, end, i));
        } else {
            assert forall|j: int| 0 <= j < h.len() implies !overlaps(#[trigger] h[j].0, start, end) by {
                if j < n {
                    assert(h[j] == d[j]);
                }
            }
        }
        if best_cover(h, start, end) is None {
            assert(!overlaps(x.0, start, end));
        }
    }
}

/// Inserting into a sorted sequence after every element that does not
/// start after `x`: the result is `s` with `x` at the first place whose
/// element starts after it, it is sorted, and it holds `s`'s elements and `x`.
pub proof fn lemma_insert_by_start<C>(s: Seq<Highlight<C>>, x: Highlight<C>)
    requires
        sorted_by_start(s),
    ensures
        insert_by_start(s, x) == s.insert(lead_below(s, x.0.start + 1), x),
        sorted_by_start(insert_by_start(s, x)),
        insert_by_start(s, x).to_multiset() =~= s.to_multiset().insert(x),
    decreases s.len(),
{
    broadcast use vstd::seq_lib::group_to_multiset_ensures;

    let key = x.0.start + 1;
    lemma_lead_below(s, key);
    let p = lead_below(s, key);
    if s.len() == 0 {
        assert(insert_by_start(s, x) =~= s.insert(p, x));
        assert(s.to_multiset() =~= vstd::multiset::Multiset::empty());
        assert(seq![x] =~= s.push(x));
    } else if s.last().0.start <= x.0.start {
        assert(p == s.len());
        assert(insert_by_start(s, x) =~= s.insert(p, x));
    } else {
        let d = s.drop_last();
        assert forall|i: int, j: int| 0 <= i <= j < d.len() implies #[trigger] d[i].0.start
            <= #[trigger] d[j].0.start by {
            assert(d[i] == s[i] && d[j] == s[j]);
        }
        lemma_insert_by_start(d, x);
        lemma_lead_below(d, key);
        let q = lead_below(d, key);
        let n = s.len() - 1;
        assert(s[n].0.start >= key);
        assert(p <= n);
        assert(p == q) by {
            if p < q {
                assert(d[p] == s[p]);
                assert(d[p].0.start < key);
                assert(s[p].0.start >= key);
            } else if q < p {
                assert(d[q] == s[q]);
                assert(s[q].0.start < key);
                assert(d[q].0.start >= key);
            }
        }
        let r = insert_by_start(d, x);
        assert(insert_by_start(s, x) == r.push(s.last()));
        assert(r.push(s.last()) =~= s.insert(p, x));
        assert(s =~= d.push(s.last()));
        assert forall|i: int, j: int| 0 <= i <= j < r.len() + 1 implies #[trigger] r.push(s.last())[i].0.start
            <= #[trigger] r.push(s.last())[j].0.start by {
            let t = r.push(s.last());
            if j == r.len() {
                if i < p {
                    assert(t[i] == s[i]);
                } else if i == p {
                    assert(t[i] == x);
                } else {
                    assert(t[i] == s[i - 1]);
                }
            } else {
                assert(t[i] == r[i] && t[j] == r[j]);
            }
        }
    }
}

/// A stable sort by start orders the highlights and keeps every one of them.
pub proof fn lemma_sort_by_start<C>(s: Seq<Highlight<C>>)
    ensures
        sorted_by_start(sort_by_start(s)),
        sort_by_start(s).to_multiset() =~= s.to_multiset(),
        sort_by_start(s).len() == s.len(),
    decreases s.len(),
{
    broadcast use vstd::seq_lib::group_to_multiset_ensures;

    if s.len() > 0 {
        lemma_sort_by_start(s.drop_last());
        lemma_insert_by_start(sort_by_start(s.drop_last()), s.last());
        assert(s =~= s.drop_last().push(s.last()));
        assert(sort_by_start(s).to_multiset().len() == s.to_multiset().len());
    }
}

/// The number of leading highlights that start at or before `key` (the
/// highlights being sorted).
fn partition_start_at_most<C>(h: &Vec<Highlight<C>>, key: usize) -> (p: usize)
    requires
        sorted_by_start(h@),
    ensures
        p == lead_below(h@, key + 1),
        p <= h@.len(),
{
    proof {
        lemma_lead_below(h@, key + 1);
    }
    let mut lo: usize = 0;
    let mut hi: usize = h.len();
    while lo < hi
        invariant
            0 <= lo <= hi <= h@.len(),
            forall|i: int| 0 <= i < h@.len() ==> (i < lead_below(h@, key + 1) <==> #[trigger] h@[i].0.start < key + 1),
            lo <= lead_below(h@, key + 1) <= hi,
        decreases hi - lo,
    {
        let mid = lo + (hi - lo) / 2;
        if h[mid].0.start <= key {
            lo = mid + 1;
        } else {
            hi = mid;
        }
    }
    lo
}

/// The highlights sorted by start, those with equal starts in their given
/// order.
pub fn sort_highlights<C>(highlights: Vec<Highlight<C>>) -> (r: Vec<Highlight<C>>)
    ensures
        r@ == sort_by_start(highlights@),
        sorted_by_start(r@),
        r@.to_multiset() =~= highlights@.to_multiset(),
{
    let ghost input = highlights@;
    let mut rest = highlights;
    let mut out: Vec<Highlight<C>> = Vec::new();
    let ghost mut taken: int = 0;
    while rest.len() > 0
        invariant
            0 <= taken <= input.len(),
            rest@ == input.subrange(taken, input.len() as int),
            out@ == sort_by_start(input.subrange(0, taken)),
            sorted_by_start(out@),
        decreases rest@.len(),
    {
        let x = rest.remove(0);
        proof {
            assert(input.subrange(0, taken + 1).drop_last() =~= input.subrange(0, taken));
            assert(input.subrange(0, taken + 1).last() == x);
            lemma_insert_by_start(out@, x);
        }
        let p = partition_start_at_most(&out, x.0.start);
        out.insert(p, x);
        proof {
            taken = taken + 1;
            assert(rest@ =~= input.subrange(taken, input.len() as int));
        }
    }
    proof {
        assert(input.subrange(0, taken) =~= input);
        lemma_sort_by_start(input);
    }
    out
}

/// The highlights of the hex view, sorted by start, with the length of the
/// longest one, which bounds how far before a row a highlight covering it
/// can start.
pub struct HighlightIndex<C> {
    items: Vec<Highlight<C>>,
    max_len: usize,
}

impl<C> HighlightIndex<C> {
    /// The highlights, in order of their start.
    pub closed spec fn spec_items(&self) -> Seq<Highlight<C>> {
        self.items@
    }

    /// The longest highlight's length.
    pub closed spec fn spec_max_len(&self) -> int {
        self.max_len as int
    }

    /// The highlights are sorted and `max_len` is the longest span.
    pub closed spec fn wf(&self) -> bool {
        &&& sorted_by_start(self.items@)
        &&& self.max_len == max_span(self.items@)
        &&& forall|i: int| 0 <= i < self.items@.len() ==> span_len(#[trigger] self.items@[i].0) <= self.max_len
    }

    /// No highlights.
    pub fn empty() -> (r: Self)
        ensures
            r.wf(),
            r.spec_items() == Seq::<Highlight<C>>::empty(),
            r.spec_max_len() == 0,
    {
        HighlightIndex { items: Vec::new(), max_len: 0 }
    }

    /// Sets the highlights: they are sorted by start (a stable sort) and the
    /// longest length is recorded.
    pub fn set_highlights(highlights: Vec<Highlight<C>>) -> (r: Self)
        ensures
            r.wf(),
            r.spec_items() == sort_by_start(highlights@),
            r.spec_items().to_multiset() =~= highlights@.to_multiset(),
            r.spec_max_len() == max_span(sort_by_start(highlights@)),
    {
        let items = sort_highlights(highlights);
        let max_len = max_highlight_len(items.as_slice());
        HighlightIndex { items, max_len }
    }

    /// Sets highlights that are already sorted by start, recording the
    /// longest length.
    pub fn set_highlights_arc(highlights: Vec<Highlight<C>>) -> (r: Self)
        requires
            sorted_by_start(highlights@),
        ensures
            r.wf(),
            r.spec_items() == highlights@,
            r.spec_max_len() == max_span(highlights@),
    {
        let max_len = max_highlight_len(highlights.as_slice());
        HighlightIndex { items: highlights, max_len }
    }

    /// The highlights, in order of their start.
    pub fn items(&self) -> (r: &[Highlight<C>])
        ensures
            r@ == self.spec_items(),
    {
        self.items.as_slice()
    }

    /// The longest highlight's length.
    pub fn max_len(&self) -> (r: usize)
        ensures
            r == self.spec_max_len(),
    {
        self.max_len
    }

    /// The highlights that may touch the row `offset..next_offset`; among
    /// them is every highlight that covers part of the row.
    pub fn for_row(&self, offset: usize, next_offset: usize) -> (r: &[Highlight<C>])
        requires
            self.wf(),
            offset <= next_offset,
        ensures
            ({
                let lo = if offset >= self.spec_max_len() {
                    offset - self.spec_max_len()
                } else {
                    0
                };
                r@ == self.spec_items().subrange(
                    lead_below(self.spec_items(), lo),
                    lead_below(self.spec_items(), next_offset as int),
                )
            }),
            forall|i: int|
                0 <= i < self.spec_items().len() && overlaps(
                    #[trigger] self.spec_items()[i].0,
                    offset as int,
                    next_offset as int,
                ) ==> r@.contains(self.spec_items()[i]),
    {
        proof {
            let lo = if offset >= self.max_len {
                offset - self.max_len
            } else {
                0
            };
            lemma_lead_below(self.items@, lo as int);
            lemma_lead_below(self.items@, next_offset as int);
            if lead_below(self.items@, lo as int) > lead_below(self.items@, next_offset as int) {
                let i = lead_below(self.items@, next_offset as int);
                assert(self.items@[i].0.start < lo);
            }
        }
        let r = row_highlights(self.items.as_slice(), self.max_len, offset, next_offset);
        proof {
            let lo = if offset >= self.max_len {
                offset - self.max_len
            } else {
                0
            };
            assert forall|i: int|
                0 <= i < self.items@.len() && overlaps(
                    #[trigger] self.items@[i].0,
                    offset as int,
                    next_offset as int,
                ) implies r@.contains(self.items@[i]) by {
                assert(span_len(self.items@[i].0) <= self.max_len);
                lemma_row_highlights_cover(self.items@, self.max_len as int, offset as int, next_offset as int, i);
                let a = lead_below(self.items@, lo as int);
                let b = lead_below(self.items@, next_offset as int);
                lemma_lead_below(self.items@, next_offset as int);
                lemma_lead_below(self.items@, lo as int);
                assert(0 <= a <= i < b <= self.items@.len());
                let sub = self.items@.subrange(a, b);
                assert(r@ == sub);
                assert(sub[i - a] == self.items@[i]);
                assert(r@[i - a] == self.items@[i]);
            }
        }
        r
    }
}

/// The highlights of search results: each match of `pattern_len` bytes,
/// in the colour of the current result when it is the current one, else in
/// the search colour; appended to `highlights`.
pub fn push_search_highlights<C: Copy>(
    highlights: &mut Vec<Highlight<C>>,
    results: &Vec<usize>,
    pattern_len: usize,
    current: Option<usize>,
    search_color: C,
    current_color: C,
)
    requires
        forall|i: int| 0 <= i < results@.len() ==> results@[i] + pattern_len <= usize::MAX,
    ensures
        final(highlights)@.len() == old(highlights)@.len() + results@.len(),
        forall|i: int| 0 <= i < old(highlights)@.len() ==> final(highlights)@[i] == old(highlights)@[i],
        forall|i: int|
            0 <= i < results@.len() ==> {
                let h = #[trigger] final(highlights)@[old(highlights)@.len() + i];
                &&& h.0.start == results@[i]
                &&& h.0.end == results@[i] + pattern_len
                &&& h.1 == if current == Some(results@[i]) {
                    current_color
                } else {
                    search_color
                }
            },
{
    let ghost start = highlights@;
    let mut k: usize = 0;
    while k < results.len()
        invariant
            k <= results@.len(),
            highlights@.len() == start.len() + k,
            forall|i: int| 0 <= i < results@.len() ==> results@[i] + pattern_len <= usize::MAX,
            forall|i: int| 0 <= i < start.len() ==> highlights@[i] == start[i],
            forall|i: int|
                0 <= i < k ==> {
                    let h = #[trigger] highlights@[start.len() + i];
                    &&& h.0.start == results@[i]
                    &&& h.0.end == results@[i] + pattern_len
                    &&& h.1 == if current == Some(results@[i]) {
                        current_color
                    } else {
                        search_color
                    }
                },
        decreases results@.len() - k,
    {
        let result_offset = results[k];
        let color = if current == Some(result_offset) {
            current_color
        } else {
            search_color
        };
        highlights.push((result_offset..result_offset + pattern_len, color));
        k = k + 1;
    }
}

} // verus!
