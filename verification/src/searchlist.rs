//! The search panel: its results capped to a number, where choosing one
//! takes the editor, and the short previews of the bytes each one found.
use vstd::prelude::*;
use crate::numtext::{dec_digits, hex_padded, push_decimal, push_hex_padded};
use crate::stringlist::push_str;
use crate::listnav::{next_row, prev_row, wrap_next, wrap_prev};
use crate::text::{chars_of, string_of, trim, trim_bounds};

verus! {

/// The most results a search reports.
pub const MAX_SEARCH_RESULTS: usize = 10000;

/// A search result: where the match starts.
#[derive(Clone, Copy, Debug, PartialEq, Eq, Structural)]
pub struct SearchResultItem {
    pub offset: usize,
}

/// Where choosing a result takes the editor: its bytes selected, or, for a
/// match of no bytes, the cursor at it.
#[derive(Clone, Copy, Debug, PartialEq, Eq, Structural)]
pub enum SearchJump {
    Select { start: usize, end: usize },
    Cursor(usize),
}

/// The results kept of the offsets a search found: at most
/// `MAX_SEARCH_RESULTS`, the first ones, and whether some were dropped.
pub fn cap_results(raw: Vec<usize>) -> (r: (Vec<SearchResultItem>, bool))
    ensures
        r.1 == (raw@.len() > MAX_SEARCH_RESULTS),
        r.0@.len() == if raw@.len() > MAX_SEARCH_RESULTS {
            MAX_SEARCH_RESULTS as int
        } else {
            raw@.len() as int
        },
        forall|i: int| 0 <= i < r.0@.len() ==> #[trigger] r.0@[i].offset == raw@[i],
{
    let truncated = raw.len() > MAX_SEARCH_RESULTS;
    let keep = if truncated {
        MAX_SEARCH_RESULTS
    } else {
        raw.len()
    };
    let mut items: Vec<SearchResultItem> = Vec::new();
    let mut i: usize = 0;
    while i < keep
        invariant
            i <= keep <= raw@.len(),
            items@.len() == i,
            forall|j: int| 0 <= j < i ==> #[trigger] items@[j].offset == raw@[j],
        decreases keep - i,
    {
        items.push(SearchResultItem { offset: raw[i] });
        i = i + 1;
    }
    (items, truncated)
}

/// Where choosing result `index` takes the editor, for matches of
/// `match_len` bytes: none when there is no such result.
pub fn search_target(results: &Vec<SearchResultItem>, index: usize, match_len: usize) -> (r: Option<SearchJump>)
    ensures
        index >= results@.len() ==> r is None,
        index < results@.len() ==> r == Some(
            {
                let offset = results@[index as int].offset;
                if match_len > 0 {
                    SearchJump::Select {
                        start: offset,
                        end: if offset + match_len <= usize::MAX {
                            (offset + match_len) as usize
                        } else {
                            usize::MAX
                        },
                    }
                } else {
                    SearchJump::Cursor(offset)
                }
            },
        ),
{
    if index >= results.len() {
        return None;
    }
    let offset = results[index].offset;
    if match_len > 0 {
        Some(SearchJump::Select { start: offset, end: offset.saturating_add(match_len) })
    } else {
        Some(SearchJump::Cursor(offset))
    }
}

/// The bytes as upper-case hexadecimal pairs separated by single spaces.
pub open spec fn hex_spaced(bytes: Seq<u8>) -> Seq<char>
    decreases bytes.len(),
{
    if bytes.len() == 0 {
        Seq::empty()
    } else if bytes.len() == 1 {
        hex_padded(bytes[0] as nat, 2)
    } else {
        hex_spaced(bytes.drop_last()) + seq![' '] + hex_padded(bytes.last() as nat, 2)
    }
}

/// The character shown for a byte in a preview: printable ASCII and the
/// space as themselves, anything else as a dot.
pub open spec fn preview_char(b: u8) -> char {
    if 0x20 <= b <= 0x7e {
        b as char
    } else {
        '.'
    }
}

/// The bytes a result's preview shows: from its offset, as many as the
/// match has (at least 4, at most 16), within the data.
pub open spec fn preview_bytes(data: Seq<u8>, offset: int, match_len: int) -> Seq<u8> {
    let snippet = if match_len < 4 {
        4
    } else if match_len > 16 {
        16
    } else {
        match_len
    };
    if offset < data.len() {
        let end = if offset + snippet < data.len() {
            offset + snippet
        } else {
            data.len() as int
        };
        data.subrange(offset, end)
    } else {
        Seq::empty()
    }
}

/// The two previews of a result: its bytes in hexadecimal and as
/// characters (both empty without data).
pub fn format_row_previews(buffer_data: Option<&[u8]>, offset: usize, match_len: usize) -> (r: (String, String))
    ensures
        buffer_data is None ==> r.0@ == Seq::<char>::empty() && r.1@ == Seq::<char>::empty(),
        buffer_data is Some ==> {
            let bytes = preview_bytes(buffer_data.unwrap()@, offset as int, match_len as int);
            &&& r.0@ == hex_spaced(bytes)
            &&& r.1@ == bytes.map_values(|b: u8| preview_char(b))
        },
{
    let snippet_len = if match_len < 4 {
        4
    } else if match_len > 16 {
        16
    } else {
        match_len
    };
    match buffer_data {
        Some(data) => {
            let (start, end) = if offset < data.len() {
                let room = data.len() - offset;
                let take = if snippet_len < room {
                    snippet_len
                } else {
                    room
                };
                (offset, offset + take)
            } else {
                (0, 0)
            };
            let ghost bytes = preview_bytes(data@, offset as int, match_len as int);
            proof {
                if offset >= data@.len() {
                    assert(bytes =~= data@.subrange(0, 0));
                } else {
                    assert(bytes =~= data@.subrange(start as int, end as int));
                }
            }
            let mut hex: Vec<char> = Vec::new();
            let mut ascii: Vec<char> = Vec::new();
            let mut i: usize = start;
            while i < end
                invariant
                    start <= i <= end <= data@.len(),
                    bytes == data@.subrange(start as int, end as int),
                    hex@ == hex_spaced(data@.subrange(start as int, i as int)),
                    ascii@ == data@.subrange(start as int, i as int).map_values(|b: u8| preview_char(b)),
                decreases end - i,
            {
                let b = data[i];
                let ghost prev = data@.subrange(start as int, i as int);
                proof {
                    assert(data@.subrange(start as int, i + 1).drop_last() =~= prev);
                    assert(data@.subrange(start as int, i + 1).last() == b);
                }
                if i > start {
                    hex.push(' ');
                }
                push_hex_padded(&mut hex, b as u128, 2);
                let c = if b >= 0x20 && b <= 0x7e {
                    b as char
                } else {
                    '.'
                };
                ascii.push(c);
                proof {
                    let next = data@.subrange(start as int, i + 1);
                    if i == start {
                        assert(next.len() == 1);
                        assert(next[0] == b);
                        assert(hex@ =~= hex_padded(b as nat, 2));
                    }
                    assert(hex@ =~= hex_spaced(next));
                    assert(ascii@ =~= next.map_values(|b: u8| preview_char(b)));
                }
                i = i + 1;
            }
            (string_of(&hex), string_of(&ascii))
        },
        None => {
            let e1: Vec<char> = Vec::new();
            let e2: Vec<char> = Vec::new();
            (string_of(&e1), string_of(&e2))
        },
    }
}

/// The badge of the search panel's header: scanning, the capped count, the
/// number of matches of the last query, or none before any query.
pub fn search_badge(is_searching: bool, is_truncated: bool, last_query: &str, count: usize) -> (r: Option<
    String,
>)
    ensures
        is_searching ==> r is Some && r.unwrap()@ == "Scanning..."@,
        !is_searching && is_truncated ==> r is Some && r.unwrap()@ == dec_digits(MAX_SEARCH_RESULTS as nat)
            + "+ matches"@,
        !is_searching && !is_truncated && last_query@.len() > 0 ==> r is Some && r.unwrap()@ == dec_digits(
            count as nat,
        ) + " matches"@,
        !is_searching && !is_truncated && last_query@.len() == 0 ==> r is None,
{
    let mut out: Vec<char> = Vec::new();
    if is_searching {
        push_str(&mut out, "Scanning...");
        assert(out@ =~= "Scanning..."@);
    } else if is_truncated {
        push_decimal(&mut out, MAX_SEARCH_RESULTS as u128);
        push_str(&mut out, "+ matches");
    } else if last_query.unicode_len() > 0 {
        push_decimal(&mut out, count as u128);
        push_str(&mut out, " matches");
    } else {
        return None;
    }
    Some(string_of(&out))
}

/// What the body of the search panel shows.
#[derive(Clone, Copy, Debug, PartialEq, Eq, Structural)]
pub enum SearchBody {
    /// No file is open.
    NoFile,
    /// A search is running.
    Scanning,
    /// The last query found nothing.
    NoMatches,
    /// Nothing was searched yet.
    Prompt,
    /// The list of results.
    Results,
}

/// The body of the search panel, in the order the panel tests its state.
pub fn search_body(has_editor: bool, is_searching: bool, results_empty: bool, last_query: &str) -> (r: SearchBody)
    ensures
        r == if !has_editor {
            SearchBody::NoFile
        } else if is_searching {
            SearchBody::Scanning
        } else if results_empty && last_query@.len() > 0 {
            SearchBody::NoMatches
        } else if results_empty {
            SearchBody::Prompt
        } else {
            SearchBody::Results
        },
{
    if !has_editor {
        SearchBody::NoFile
    } else if is_searching {
        SearchBody::Scanning
    } else if results_empty && last_query.unicode_len() > 0 {
        SearchBody::NoMatches
    } else if results_empty {
        SearchBody::Prompt
    } else {
        SearchBody::Results
    }
}

/// The detail line shown when the last query found nothing.
pub fn no_matches_detail(last_query: &str) -> (r: String)
    ensures
        r@ == "No occurrences found for '"@ + last_query@ + "'"@,
{
    let mut out: Vec<char> = Vec::new();
    push_str(&mut out, "No occurrences found for '");
    push_str(&mut out, last_query);
    push_str(&mut out, "'");
    string_of(&out)
}

/// What asking for a search did: the query was blank and the results were
/// cleared, nothing could be searched, or a search started.
#[derive(Clone, Copy, Debug, PartialEq, Eq, Structural)]
pub enum SearchStart {
    Cleared,
    Ignored,
    Started,
}

/// The state of the search panel: whether an editor is attached, whether a
/// search runs, the results and whether they were capped, the chosen
/// result, and the last query with the length of its matches.
pub struct SearchPanelState {
    pub has_editor: bool,
    pub is_searching: bool,
    pub results: Vec<SearchResultItem>,
    pub is_truncated: bool,
    pub selected_index: Option<usize>,
    pub last_query: String,
    pub match_len: usize,
}

/// The offsets of the results.
pub open spec fn offsets_of(items: Seq<SearchResultItem>) -> Seq<usize> {
    items.map_values(|it: SearchResultItem| it.offset)
}

/// The offsets kept of those a search found: the first
/// `MAX_SEARCH_RESULTS`.
pub open spec fn capped(raw: Seq<usize>) -> Seq<usize> {
    if raw.len() > MAX_SEARCH_RESULTS {
        raw.subrange(0, MAX_SEARCH_RESULTS as int)
    } else {
        raw
    }
}

impl SearchPanelState {
    /// A panel without an editor, results or query.
    pub fn new() -> (r: Self)
        ensures
            !r.has_editor,
            !r.is_searching,
            r.results@.len() == 0,
            !r.is_truncated,
            r.selected_index is None,
            r.last_query@.len() == 0,
            r.match_len == 0,
    {
        SearchPanelState {
            has_editor: false,
            is_searching: false,
            results: Vec::new(),
            is_truncated: false,
            selected_index: None,
            last_query: String::new(),
            match_len: 0,
        }
    }

    /// Attaches an editor, or none: the results go and no search runs; the
    /// last query stays.
    pub fn set_editor(&mut self, has_editor: bool)
        ensures
            final(self).has_editor == has_editor,
            !final(self).is_searching,
            final(self).results@.len() == 0,
            !final(self).is_truncated,
            final(self).selected_index is None,
            final(self).last_query@ == old(self).last_query@,
            final(self).match_len == old(self).match_len,
    {
        self.has_editor = has_editor;
        self.results = Vec::new();
        self.is_truncated = false;
        self.selected_index = None;
        self.is_searching = false;
    }

    /// Forgets the results and the query.
    pub fn clear_results(&mut self)
        ensures
            final(self).has_editor == old(self).has_editor,
            final(self).is_searching == old(self).is_searching,
            final(self).results@.len() == 0,
            !final(self).is_truncated,
            final(self).selected_index is None,
            final(self).last_query@.len() == 0,
            final(self).match_len == 0,
    {
        self.results = Vec::new();
        self.is_truncated = false;
        self.selected_index = None;
        self.last_query = String::new();
        self.match_len = 0;
    }

    /// Asks for a search of `query`, whose pattern is `pattern_len` bytes
    /// long (0 when it cannot be read). A blank query clears the results;
    /// without an editor or a pattern nothing happens; else the query is
    /// kept, the old results go and the search starts.
    pub fn trigger_search(&mut self, query: &str, pattern_len: usize) -> (r: SearchStart)
        ensures
            final(self).has_editor == old(self).has_editor,
            trim(query@).len() == 0 ==> r == SearchStart::Cleared && final(self).results@.len() == 0
                && !final(self).is_truncated && final(self).selected_index is None
                && final(self).last_query@.len() == 0 && final(self).match_len == 0
                && final(self).is_searching == old(self).is_searching,
            trim(query@).len() > 0 && (!old(self).has_editor || pattern_len == 0) ==> r == SearchStart::Ignored
                && final(self).results@ == old(self).results@ && final(self).is_truncated == old(self).is_truncated && final(self).selected_index == old(self).selected_index
                && final(self).last_query@ == old(self).last_query@ && final(self).match_len == old(self).match_len && final(self).is_searching == old(self).is_searching,
            trim(query@).len() > 0 && old(self).has_editor && pattern_len > 0 ==> r == SearchStart::Started
                && final(self).results@.len() == 0 && !final(self).is_truncated && final(self).selected_index is None && final(self).last_query@ == query@ && final(self).match_len
                == pattern_len && final(self).is_searching,
    {
        let cs = chars_of(query);
        let (a, b) = trim_bounds(&cs);
        if a == b {
            self.clear_results();
            return SearchStart::Cleared;
        }
        if !self.has_editor || pattern_len == 0 {
            return SearchStart::Ignored;
        }
        self.last_query = string_of(&cs);
        self.match_len = pattern_len;
        self.is_searching = true;
        self.results = Vec::new();
        self.is_truncated = false;
        self.selected_index = None;
        SearchStart::Started
    }

    /// A search ended having found the offsets `raw`: the first
    /// `MAX_SEARCH_RESULTS` become the results, whether more were found is
    /// kept, and the first result is chosen when there is one.
    pub fn finish_search(&mut self, raw: Vec<usize>)
        ensures
            final(self).has_editor == old(self).has_editor,
            !final(self).is_searching,
            offsets_of(final(self).results@) == capped(raw@),
            final(self).is_truncated == (raw@.len() > MAX_SEARCH_RESULTS),
            final(self).results@.len() > 0 ==> final(self).selected_index == Some(0usize),
            final(self).results@.len() == 0 ==> final(self).selected_index == old(self).selected_index,
            final(self).last_query@ == old(self).last_query@,
            final(self).match_len == old(self).match_len,
    {
        let ghost raw_seq = raw@;
        let (items, truncated) = cap_results(raw);
        assert(offsets_of(items@) =~= capped(raw_seq));
        self.is_searching = false;
        self.is_truncated = truncated;
        self.results = items;
        if self.results.len() > 0 {
            self.selected_index = Some(0);
        }
    }

    /// Chooses result `index`: where the editor goes, or none when there is
    /// no such result (and nothing changes).
    pub fn select_item(&mut self, index: usize) -> (r: Option<SearchJump>)
        ensures
            final(self).results@ == old(self).results@,
            final(self).match_len == old(self).match_len,
            final(self).has_editor == old(self).has_editor,
            index < old(self).results@.len() ==> final(self).selected_index == Some(index) && r == Some(
                jump_to(old(self).results@[index as int].offset, old(self).match_len),
            ),
            index >= old(self).results@.len() ==> final(self).selected_index == old(self).selected_index
                && r is None,
    {
        let r = search_target(&self.results, index, self.match_len);
        if index < self.results.len() {
            self.selected_index = Some(index);
        }
        r
    }

    /// Chooses the result above, wrapping from the first to the last (a
    /// chosen index past the results moves to the one before it, which may
    /// not exist either: then nothing changes).
    pub fn move_up(&mut self) -> (r: Option<SearchJump>)
        ensures
            final(self).results@ == old(self).results@,
            old(self).results@.len() == 0 ==> r is None && final(self).selected_index == old(self).selected_index,
            old(self).results@.len() > 0 ==> ({
                let n = prev_row(old(self).results@.len() as int, old(self).selected_index).unwrap();
                &&& n < old(self).results@.len() ==> final(self).selected_index == Some(n) && r == Some(
                    jump_to(old(self).results@[n as int].offset, old(self).match_len),
                )
                &&& n >= old(self).results@.len() ==> final(self).selected_index == old(self).selected_index
                    && r is None
            }),
    {
        match wrap_prev(self.results.len(), self.selected_index) {
            Some(i) => self.select_item(i),
            None => None,
        }
    }

    /// Chooses the result below, wrapping from the last to the first.
    pub fn move_down(&mut self) -> (r: Option<SearchJump>)
        ensures
            final(self).results@ == old(self).results@,
            old(self).results@.len() == 0 ==> r is None && final(self).selected_index == old(self).selected_index,
            old(self).results@.len() > 0 ==> final(self).selected_index == next_row(
                old(self).results@.len() as int,
                old(self).selected_index,
            ) && r == Some(
                jump_to(
                    old(self).results@[final(self).selected_index.unwrap() as int].offset,
                    old(self).match_len,
                ),
            ),
    {
        match wrap_next(self.results.len(), self.selected_index) {
            Some(i) => self.select_item(i),
            None => None,
        }
    }
}

/// Where a result at `offset` takes the editor, for matches of `match_len`
/// bytes.
pub open spec fn jump_to(offset: usize, match_len: usize) -> SearchJump {
    if match_len > 0 {
        SearchJump::Select {
            start: offset,
            end: if offset + match_len <= usize::MAX {
                (offset + match_len) as usize
            } else {
                usize::MAX
            },
        }
    } else {
        SearchJump::Cursor(offset)
    }
}

} // verus!
