//! The strings panel: the strings found in the file, filtered by a query
//! that ignores case, sorted by a column, and summed up in a line of text.
use vstd::prelude::*;
use crate::numtext::{dec_digits, parse_int, parse_int_spec, push_decimal};
use crate::text::{chars_of, string_of, trim, trim_bounds};

verus! {

/// The most strings a scan reports.
pub const MAX_STRING_RESULTS: usize = 10000;

/// A string found in the file: where it starts, how many bytes it takes,
/// and its text.
pub struct StringMatch {
    pub offset: usize,
    pub byte_len: usize,
    pub text: String,
}

/// The direction in which a column sorts the rows.
#[derive(Clone, Copy, Debug, PartialEq, Eq, Structural)]
pub enum SortDirection {
    Ascending,
    Descending,
}

/// The text in lower case, as `str::to_lowercase` gives it.
pub uninterp spec fn lowercase(s: Seq<char>) -> Seq<char>;

/// `str::to_lowercase`: the text with each character in lower case, by the
/// Unicode rules (a character may become several). What it gives is named
/// `lowercase`, a function of the text alone; nothing more is claimed.
#[verifier::external_body]
fn to_lowercase(s: &str) -> (r: String)
    ensures
        r@ == lowercase(s@),
{
    s.to_lowercase()
}

/// `needle` occurs in `hay` at position `i`.
pub open spec fn occurs_at(hay: Seq<char>, needle: Seq<char>, i: int) -> bool {
    0 <= i && i + needle.len() <= hay.len() && hay.subrange(i, i + needle.len()) == needle
}

/// `needle` occurs somewhere in `hay` (the empty text occurs everywhere).
pub open spec fn contains_text(hay: Seq<char>, needle: Seq<char>) -> bool {
    exists|i: int| #[trigger] occurs_at(hay, needle, i)
}

/// Whether `needle` occurs in `hay`.
fn contains_chars(hay: &Vec<char>, needle: &Vec<char>) -> (r: bool)
    ensures
        r == contains_text(hay@, needle@),
{
    let n = needle.len();
    if n > hay.len() {
        proof {
            assert forall|i: int| !occurs_at(hay@, needle@, i) by {}
        }
        return false;
    }
    if n == 0 {
        proof {
            assert(hay@.subrange(0, 0) =~= needle@);
            assert(occurs_at(hay@, needle@, 0));
        }
        return true;
    }
    let len = hay.len();
    let last = len - n;
    let mut i: usize = 0;
    while i <= last
        invariant
            len == hay@.len(),
            n == needle@.len() <= hay@.len(),
            n >= 1,
            last == hay@.len() - n,
            i <= last + 1,
            forall|k: int| 0 <= k < i ==> !occurs_at(hay@, needle@, k),
        decreases last + 1 - i,
    {
        assert(i + n <= hay@.len());
        let mut j: usize = 0;
        while j < n && hay[i + j] == needle[j]
            invariant
                j <= n,
                i + n <= hay@.len(),
                i <= last,
                len == hay@.len(),
                last + n == hay@.len(),
                n == needle@.len(),
                forall|m: int| 0 <= m < j ==> hay@[i + m] == needle@[m],
            decreases n - j,
        {
            j = j + 1;
        }
        if j == n {
            proof {
                assert(hay@.subrange(i as int, i + n) =~= needle@);
                assert(occurs_at(hay@, needle@, i as int));
            }
            return true;
        }
        proof {
            assert(hay@[i + j] != needle@[j as int]);
            assert(!occurs_at(hay@, needle@, i as int)) by {
                if occurs_at(hay@, needle@, i as int) {
                    assert(hay@.subrange(i as int, i + n)[j as int] == hay@[i + j]);
                }
            }
        }
        i = i + 1;
    }
    proof {
        assert forall|k: int| !occurs_at(hay@, needle@, k) by {
            if k >= i {
                assert(k + n > hay@.len());
            }
        }
    }
    false
}

/// The filter typed into the panel: without surrounding white space, in
/// lower case.
pub fn filter_query(input: &str) -> (r: String)
    ensures
        r@ == lowercase(trim(input@)),
{
    let chars = chars_of(input);
    let (a, b) = trim_bounds(&chars);
    let mut trimmed: Vec<char> = Vec::new();
    let mut i: usize = a;
    while i < b
        invariant
            a <= i <= b <= chars@.len(),
            trimmed@ == chars@.subrange(a as int, i as int),
        decreases b - i,
    {
        trimmed.push(chars[i]);
        i = i + 1;
    }
    let s = string_of(&trimmed);
    to_lowercase(s.as_str())
}

/// The shortest string length typed into the panel: a positive decimal
/// number, surrounding white space ignored.
pub fn minimum_length(input: &str) -> (r: Option<usize>)
    ensures
        r == match parse_int_spec(trim(input@), 10, false, 0, usize::MAX as int) {
            Some(v) => if v > 0 {
                Some(v as usize)
            } else {
                None
            },
            None => None,
        },
{
    let chars = chars_of(input);
    let (a, b) = trim_bounds(&chars);
    let mut trimmed: Vec<char> = Vec::new();
    let mut i: usize = a;
    while i < b
        invariant
            a <= i <= b <= chars@.len(),
            trimmed@ == chars@.subrange(a as int, i as int),
        decreases b - i,
    {
        trimmed.push(chars[i]);
        i = i + 1;
    }
    proof {
        assert(trimmed@.subrange(0, trimmed@.len() as int) =~= trimmed@);
    }
    match parse_int(&trimmed, 0, 10, false, 0, usize::MAX as i128) {
        Some(v) => {
            if v > 0 {
                Some(v as usize)
            } else {
                None
            }
        },
        None => None,
    }
}

/// The rows the filter leaves: all rows for an empty filter, else those
/// whose text in lower case holds the filter, in order.
pub open spec fn filter_rows(texts: Seq<Seq<char>>, filter: Seq<char>) -> Seq<usize>
    decreases texts.len(),
{
    if texts.len() == 0 {
        Seq::empty()
    } else {
        let before = filter_rows(texts.drop_last(), filter);
        if filter.len() == 0 || contains_text(lowercase(texts.last()), filter) {
            before.push((texts.len() - 1) as usize)
        } else {
            before
        }
    }
}

/// The texts of the strings.
pub open spec fn texts_of(results: Seq<StringMatch>) -> Seq<Seq<char>> {
    results.map_values(|m: StringMatch| m.text@)
}

/// The rows that the filter (already trimmed and in lower case) leaves.
pub fn filtered_indices(results: &Vec<StringMatch>, filter: &str) -> (r: Vec<usize>)
    ensures
        r@ == filter_rows(texts_of(results@), filter@),
{
    let filter_chars = chars_of(filter);
    let mut out: Vec<usize> = Vec::new();
    let mut i: usize = 0;
    while i < results.len()
        invariant
            i <= results@.len(),
            filter_chars@ == filter@,
            out@ == filter_rows(texts_of(results@).take(i as int), filter@),
        decreases results@.len() - i,
    {
        let keep = if filter_chars.len() == 0 {
            true
        } else {
            let lower = to_lowercase(results[i].text.as_str());
            let lower_chars = chars_of(lower.as_str());
            contains_chars(&lower_chars, &filter_chars)
        };
        proof {
            let t = texts_of(results@);
            assert(t.take(i + 1).drop_last() =~= t.take(i as int));
            assert(t.take(i + 1).last() == results@[i as int].text@);
        }
        if keep {
            out.push(i);
        }
        i = i + 1;
    }
    proof {
        assert(texts_of(results@).take(i as int) =~= texts_of(results@));
    }
    out
}

/// `a` before `b` in the order of characters, the shorter first when one
/// begins the other: -1, 0 or 1.
pub open spec fn text_order(a: Seq<char>, b: Seq<char>) -> int
    decreases a.len(),
{
    if a.len() == 0 {
        if b.len() == 0 {
            0
        } else {
            -1
        }
    } else if b.len() == 0 {
        1
    } else if a[0] < b[0] {
        -1
    } else if a[0] > b[0] {
        1
    } else {
        text_order(a.drop_first(), b.drop_first())
    }
}

/// The comparison of two texts in the order of their characters.
fn compare_text(a: &Vec<char>, b: &Vec<char>) -> (r: i8)
    ensures
        r == text_order(a@, b@),
        -1 <= r <= 1,
{
    proof {
        assert(a@.skip(0) =~= a@);
        assert(b@.skip(0) =~= b@);
        lemma_text_order(a@, b@, b@);
    }
    let mut i: usize = 0;
    while i < a.len() && i < b.len()
        invariant
            i <= a@.len(),
            i <= b@.len(),
            text_order(a@, b@) == text_order(a@.skip(i as int), b@.skip(i as int)),
        decreases a@.len() - i,
    {
        let x = a[i];
        let y = b[i];
        proof {
            assert(a@.skip(i as int)[0] == a@[i as int]);
            assert(b@.skip(i as int)[0] == b@[i as int]);
        }
        if x < y {
            return -1;
        }
        if x > y {
            return 1;
        }
        proof {
            assert(a@.skip(i as int).drop_first() =~= a@.skip(i + 1));
            assert(b@.skip(i as int).drop_first() =~= b@.skip(i + 1));
        }
        i = i + 1;
    }
    proof {
        if i < a@.len() {
            assert(b@.skip(i as int).len() == 0);
        } else if i < b@.len() {
            assert(a@.skip(i as int).len() == 0);
        } else {
            assert(a@.skip(i as int).len() == 0 && b@.skip(i as int).len() == 0);
        }
    }
    if i < a.len() {
        1
    } else if i < b.len() {
        -1
    } else {
        0
    }
}

/// Comparing texts is antisymmetric and transitive.
pub proof fn lemma_text_order(a: Seq<char>, b: Seq<char>, c: Seq<char>)
    ensures
        text_order(a, b) == -text_order(b, a),
        -1 <= text_order(a, b) <= 1,
        text_order(a, b) == 0 ==> a == b,
        text_order(a, b) < 0 && text_order(b, c) < 0 ==> text_order(a, c) < 0,
        text_order(a, b) == 0 && text_order(b, c) < 0 ==> text_order(a, c) < 0,
        text_order(a, b) < 0 && text_order(b, c) == 0 ==> text_order(a, c) < 0,
    decreases a.len(),
{
    if a.len() > 0 && b.len() > 0 && c.len() > 0 {
        lemma_text_order(a.drop_first(), b.drop_first(), c.drop_first());
        if text_order(a, b) == 0 {
            assert(a[0] == b[0]);
            assert(a =~= seq![a[0]] + a.drop_first());
            assert(b =~= seq![b[0]] + b.drop_first());
        }
    } else if a.len() > 0 && b.len() > 0 {
        lemma_text_order(a.drop_first(), b.drop_first(), Seq::empty());
        if text_order(a, b) == 0 {
            assert(a[0] == b[0]);
            assert(a =~= seq![a[0]] + a.drop_first());
            assert(b =~= seq![b[0]] + b.drop_first());
        }
    } else if a.len() == 0 && b.len() == 0 {
        assert(a =~= b);
    }
}

/// The order of rows `x` and `y` for column `col` (0: offset, 1: size,
/// 2: text; other columns do not order): -1, 0 or 1, reversed for a
/// descending sort.
pub open spec fn row_sign(results: Seq<StringMatch>, col: usize, dir: SortDirection, x: usize, y: usize) -> int {
    let l = results[x as int];
    let r = results[y as int];
    let c: int = if col == 0 {
        if l.offset < r.offset {
            -1
        } else if l.offset > r.offset {
            1
        } else {
            0
        }
    } else if col == 1 {
        if l.byte_len < r.byte_len {
            -1
        } else if l.byte_len > r.byte_len {
            1
        } else {
            0
        }
    } else if col == 2 {
        text_order(l.text@, r.text@)
    } else {
        0
    };
    if dir == SortDirection::Descending {
        -c
    } else {
        c
    }
}

/// Row `x` comes before row `y` in the sort: by the column, then by index.
pub open spec fn row_before(results: Seq<StringMatch>, col: usize, dir: SortDirection, x: usize, y: usize) -> bool {
    row_sign(results, col, dir, x, y) < 0 || (row_sign(results, col, dir, x, y) == 0 && x < y)
}

/// Row order is a strict total order on distinct rows.
pub proof fn lemma_row_order(results: Seq<StringMatch>, col: usize, dir: SortDirection, x: usize, y: usize, z: usize)
    requires
        x < results.len(),
        y < results.len(),
        z < results.len(),
    ensures
        !row_before(results, col, dir, x, x),
        x != y ==> (row_before(results, col, dir, x, y) || row_before(results, col, dir, y, x)),
        row_before(results, col, dir, x, y) ==> !row_before(results, col, dir, y, x),
        row_before(results, col, dir, x, y) && row_before(results, col, dir, y, z) ==> row_before(
            results,
            col,
            dir,
            x,
            z,
        ),
{
    let a = results[x as int].text@;
    let b = results[y as int].text@;
    let c = results[z as int].text@;
    lemma_text_order(a, b, c);
    lemma_text_order(b, a, c);
    lemma_text_order(a, a, a);
    lemma_text_order(c, b, a);
    lemma_text_order(b, c, a);
    lemma_text_order(a, c, b);
    if text_order(a, b) == 0 {
        assert(a == b);
    }
    if text_order(b, c) == 0 {
        assert(b == c);
    }
}

/// `a` comes no later than `b` in the order of characters: `a` begins `b`,
/// or, at the first place where they differ, `a` has the smaller character.
pub open spec fn text_le(a: Seq<char>, b: Seq<char>) -> bool {
    ||| (a.len() <= b.len() && a == b.take(a.len() as int))
    ||| exists|k: int| 0 <= k < a.len() && k < b.len() && a.take(k) == b.take(k) && #[trigger] a[k] < b[k]
}

/// A text that does not compare after another comes no later than it in
/// the order of characters.
pub proof fn lemma_text_order_le(a: Seq<char>, b: Seq<char>)
    requires
        text_order(a, b) <= 0,
    ensures
        text_le(a, b),
    decreases a.len(),
{
    if a.len() == 0 {
        assert(a =~= b.take(0));
    } else if a[0] < b[0] {
        assert(a.take(0) =~= b.take(0));
        assert(a[0] < b[0]);
    } else {
        assert(b.len() > 0 && a[0] == b[0]);
        let a1 = a.drop_first();
        let b1 = b.drop_first();
        lemma_text_order_le(a1, b1);
        if a1.len() <= b1.len() && a1 == b1.take(a1.len() as int) {
            assert forall|i: int| 0 <= i < a.len() implies a[i] == b.take(a.len() as int)[i] by {
                if i > 0 {
                    assert(a[i] == a1[i - 1]);
                    assert(b1.take(a1.len() as int)[i - 1] == b[i]);
                }
            }
            assert(a =~= b.take(a.len() as int));
        } else {
            let k = choose|k: int| 0 <= k < a1.len() && k < b1.len() && a1.take(k) == b1.take(k) && #[trigger] a1[k] < b1[k];
            assert(a.take(k + 1) =~= seq![a[0]] + a1.take(k));
            assert(b.take(k + 1) =~= seq![b[0]] + b1.take(k));
            assert(a[k + 1] == a1[k] && b[k + 1] == b1[k]);
        }
    }
}

/// Rows listed in `order` are sorted by column `col` in direction `dir`:
/// by offset, by size, or by text in the order of characters (ascending:
/// each row no later than the rows after it; descending: no earlier).
pub open spec fn column_sorted(results: Seq<StringMatch>, order: Seq<usize>, col: usize, dir: SortDirection) -> bool {
    forall|i: int, j: int|
        0 <= i < j < order.len() ==> {
            let a = results[#[trigger] order[i] as int];
            let b = results[#[trigger] order[j] as int];
            if dir == SortDirection::Ascending {
                &&& col == 0 ==> a.offset <= b.offset
                &&& col == 1 ==> a.byte_len <= b.byte_len
                &&& col == 2 ==> text_le(a.text@, b.text@)
            } else {
                &&& col == 0 ==> a.offset >= b.offset
                &&& col == 1 ==> a.byte_len >= b.byte_len
                &&& col == 2 ==> text_le(b.text@, a.text@)
            }
        }
}

/// A list in which no row comes before a row listed ahead of it is sorted
/// by the column, in the direction asked for.
pub proof fn lemma_column_sorted(results: Seq<StringMatch>, order: Seq<usize>, col: usize, dir: SortDirection)
    requires
        forall|i: int| 0 <= i < order.len() ==> order[i] < results.len(),
        forall|i: int, j: int|
            0 <= i < j < order.len() ==> !row_before(results, col, dir, #[trigger] order[j], #[trigger] order[i]),
    ensures
        column_sorted(results, order, col, dir),
{
    assert forall|i: int, j: int| 0 <= i < j < order.len() implies {
        let a = results[#[trigger] order[i] as int];
        let b = results[#[trigger] order[j] as int];
        if dir == SortDirection::Ascending {
            &&& col == 0 ==> a.offset <= b.offset
            &&& col == 1 ==> a.byte_len <= b.byte_len
            &&& col == 2 ==> text_le(a.text@, b.text@)
        } else {
            &&& col == 0 ==> a.offset >= b.offset
            &&& col == 1 ==> a.byte_len >= b.byte_len
            &&& col == 2 ==> text_le(b.text@, a.text@)
        }
    } by {
        let a = results[order[i] as int];
        let b = results[order[j] as int];
        assert(!row_before(results, col, dir, order[j], order[i]));
        lemma_text_order(a.text@, b.text@, b.text@);
        if col == 2 {
            if dir == SortDirection::Ascending {
                lemma_text_order_le(a.text@, b.text@);
            } else {
                lemma_text_order_le(b.text@, a.text@);
            }
        }
    }
}

/// The order of rows `x` and `y`.
fn compare_rows(results: &Vec<StringMatch>, col: usize, dir: SortDirection, x: usize, y: usize) -> (r: bool)
    requires
        x < results@.len(),
        y < results@.len(),
    ensures
        r == row_before(results@, col, dir, x, y),
{
    let l = &results[x];
    let r = &results[y];
    let c: i8 = if col == 0 {
        if l.offset < r.offset {
            -1
        } else if l.offset > r.offset {
            1
        } else {
            0
        }
    } else if col == 1 {
        if l.byte_len < r.byte_len {
            -1
        } else if l.byte_len > r.byte_len {
            1
        } else {
            0
        }
    } else if col == 2 {
        let lt = chars_of(l.text.as_str());
        let rt = chars_of(r.text.as_str());
        compare_text(&lt, &rt)
    } else {
        0
    };
    let c = if dir == SortDirection::Descending {
        -c
    } else {
        c
    };
    c < 0 || (c == 0 && x < y)
}

/// The rows in sort order: by the sorted column (if any) in its direction,
/// then by index; unchanged when no column is sorted.
pub fn sorted_indices(results: &Vec<StringMatch>, indices: Vec<usize>, sort: Option<(usize, SortDirection)>) -> (r: Vec<
    usize,
>)
    requires
        forall|i: int| 0 <= i < indices@.len() ==> indices@[i] < results@.len(),
    ensures
        sort is None ==> r@ == indices@,
        r@.to_multiset() == indices@.to_multiset(),
        sort is Some ==> forall|i: int, j: int|
            0 <= i < j < r@.len() ==> !row_before(results@, sort.unwrap().0, sort.unwrap().1, #[trigger] r@[j], #[trigger] r@[i]),
        sort is Some ==> column_sorted(results@, r@, sort.unwrap().0, sort.unwrap().1),
{
    let (col, dir) = match sort {
        Some(s) => s,
        None => {
            return indices;
        },
    };
    broadcast use vstd::seq_lib::group_to_multiset_ensures;

    let ghost input = indices@;
    let mut out: Vec<usize> = Vec::new();
    let mut k: usize = 0;
    while k < indices.len()
        invariant
            k <= input.len(),
            input == indices@,
            forall|i: int| 0 <= i < input.len() ==> input[i] < results@.len(),
            forall|i: int| 0 <= i < out@.len() ==> out@[i] < results@.len(),
            out@.to_multiset() == input.take(k as int).to_multiset(),
            forall|i: int, j: int| 0 <= i < j < out@.len() ==> !row_before(results@, col, dir, #[trigger] out@[j], #[trigger] out@[i]),
        decreases input.len() - k,
    {
        let x = indices[k];
        let mut p: usize = out.len();
        while p > 0 && compare_rows(results, col, dir, x, out[p - 1])
            invariant
                p <= out@.len(),
                x < results@.len(),
                forall|i: int| 0 <= i < out@.len() ==> out@[i] < results@.len(),
                forall|i: int| p <= i < out@.len() ==> row_before(results@, col, dir, x, #[trigger] out@[i]),
            decreases p,
        {
            p = p - 1;
        }
        let ghost before = out@;
        out.insert(p, x);
        proof {
            assert(out@ == before.insert(p as int, x));
            before.insert_ensures(p as int, x);
            assert forall|i: int, j: int| 0 <= i < j < out@.len() implies !row_before(
                results@,
                col,
                dir,
                #[trigger] out@[j],
                #[trigger] out@[i],
            ) by {
                let a = out@[i];
                let b = out@[j];
                if j < p {
                    assert(a == before[i] && b == before[j]);
                } else if j == p {
                    assert(b == x);
                    assert(a == before[i]);
                    if p > 0 {
                        // not before the element just left of the insertion point
                        let q = p - 1;
                        lemma_row_order(results@, col, dir, before[q], x, a);
                        lemma_row_order(results@, col, dir, x, before[q], a);
                        lemma_row_order(results@, col, dir, x, a, before[q]);
                        if i < q {
                            lemma_row_order(results@, col, dir, x, a, before[q]);
                        }
                    }
                } else if i == p {
                    assert(a == x);
                    assert(b == before[j - 1]);
                    lemma_row_order(results@, col, dir, x, b, x);
                } else if i < p {
                    assert(a == before[i] && b == before[j - 1]);
                } else {
                    assert(a == before[i - 1] && b == before[j - 1]);
                }
            }
            assert(input.take(k + 1) =~= input.take(k as int).push(x));
            input.take(k as int).to_multiset_ensures();
            assert(before.insert(p as int, x).to_multiset() =~= before.to_multiset().insert(x)) by {
                broadcast use vstd::multiset::group_multiset_axioms;

                let pre = before.subrange(0, p as int);
                let post = before.subrange(p as int, before.len() as int);
                assert(before =~= pre + post);
                assert(before.insert(p as int, x) =~= pre.push(x) + post);
                vstd::seq_lib::lemma_multiset_commutative(pre.push(x), post);
                vstd::seq_lib::lemma_multiset_commutative(pre, post);
                let m1 = (pre.push(x) + post).to_multiset();
                assert(m1 =~= pre.push(x).to_multiset().add(post.to_multiset()));
                pre.to_multiset_ensures();
                assert(pre.push(x).to_multiset() =~= pre.to_multiset().insert(x));
                assert(before.to_multiset() =~= pre.to_multiset().add(post.to_multiset()));
                assert(m1 =~= before.to_multiset().insert(x));
            }
        }
        k = k + 1;
    }
    proof {
        assert(input.take(k as int) =~= input);
        lemma_column_sorted(results@, out@, col, dir);
    }
    out
}

/// The line that sums up a scan: how many strings were found, and that only
/// the first ones are shown when there were too many.
pub fn result_summary(is_truncated: bool, count: usize) -> (r: String)
    ensures
        is_truncated ==> r@ == dec_digits(MAX_STRING_RESULTS as nat) + "+ entries found (showing first "@
            + dec_digits(MAX_STRING_RESULTS as nat) + " entries)"@,
        !is_truncated ==> r@ == dec_digits(count as nat) + (if count == 1 {
            " entry found"@
        } else {
            " entries found"@
        }),
{
    let mut out: Vec<char> = Vec::new();
    if is_truncated {
        push_decimal(&mut out, MAX_STRING_RESULTS as u128);
        push_str(&mut out, "+ entries found (showing first ");
        push_decimal(&mut out, MAX_STRING_RESULTS as u128);
        push_str(&mut out, " entries)");
    } else {
        push_decimal(&mut out, count as u128);
        if count == 1 {
            push_str(&mut out, " entry found");
        } else {
            push_str(&mut out, " entries found");
        }
    }
    string_of(&out)
}

/// Appends the characters of `s` to `out`.
pub fn push_str(out: &mut Vec<char>, s: &str)
    ensures
        final(out)@ == old(out)@ + s@,
{
    let cs = chars_of(s);
    let mut i: usize = 0;
    let ghost start = out@;
    while i < cs.len()
        invariant
            i <= cs@.len(),
            cs@ == s@,
            out@ == start + cs@.subrange(0, i as int),
        decreases cs@.len() - i,
    {
        out.push(cs[i]);
        i = i + 1;
    }
    assert(cs@.subrange(0, i as int) =~= cs@);
}

/// The shortest length after a step of `delta`: down by its size, at least
/// 1, or up, saturating.
pub fn adjust_minimum_length(current: usize, delta: i32) -> (r: usize)
    ensures
        delta < 0 ==> r == (if current > -delta && current + delta >= 1 {
            (current + delta) as usize
        } else {
            1usize
        }),
        delta >= 0 ==> r == (if current + delta <= usize::MAX {
            (current + delta) as usize
        } else {
            usize::MAX
        }),
{
    if delta < 0 {
        let step: u64 = if delta == i32::MIN {
            2147483648
        } else {
            (-delta) as u64
        };
        let step = step as usize;
        let lowered = current.saturating_sub(step);
        if lowered < 1 {
            1
        } else {
            lowered
        }
    } else {
        current.saturating_add(delta as usize)
    }
}

/// The text shown for a string: its first 256 characters, with an ellipsis
/// when there are more.
pub fn preview_text(text: &str) -> (r: String)
    ensures
        text@.len() <= 256 ==> r@ == text@,
        text@.len() > 256 ==> r@ == text@.subrange(0, 256).push('\u{2026}'),
{
    let cs = chars_of(text);
    let mut out: Vec<char> = Vec::new();
    let mut i: usize = 0;
    while i < cs.len() && i < 256
        invariant
            i <= cs@.len(),
            i <= 256,
            out@ == cs@.subrange(0, i as int),
        decreases 256 - i,
    {
        out.push(cs[i]);
        i = i + 1;
    }
    if i < cs.len() {
        out.push('\u{2026}');
    } else {
        assert(out@ =~= cs@);
    }
    string_of(&out)
}

/// Where choosing string `index` takes the editor: its offset and byte
/// length; none when there is no such string.
pub fn string_target(results: &Vec<StringMatch>, index: usize) -> (r: Option<(usize, usize)>)
    ensures
        index >= results@.len() ==> r is None,
        index < results@.len() ==> r == Some((results@[index as int].offset, results@[index as int].byte_len)),
{
    if index < results.len() {
        Some((results[index].offset, results[index].byte_len))
    } else {
        None
    }
}

/// What the body of the strings panel shows.
#[derive(Clone, Copy, Debug, PartialEq, Eq, Structural)]
pub enum StringsBody {
    /// No file is open.
    NoFile,
    /// The minimum length typed is not a positive number.
    InvalidMinimum,
    /// A scan is running.
    Scanning,
    /// No scan ran yet.
    NotScanned,
    /// The scan found no string.
    NoStrings,
    /// The filter hides every string found.
    NoMatches,
    /// The list of strings.
    Results,
}

/// The body of the strings panel, in the order the panel tests its state.
pub fn strings_body(
    has_editor: bool,
    minimum_length_is_valid: bool,
    is_scanning: bool,
    has_scanned: bool,
    results_empty: bool,
    visible_empty: bool,
) -> (r: StringsBody)
    ensures
        r == if !has_editor {
            StringsBody::NoFile
        } else if !minimum_length_is_valid {
            StringsBody::InvalidMinimum
        } else if is_scanning {
            StringsBody::Scanning
        } else if !has_scanned {
            StringsBody::NotScanned
        } else if results_empty {
            StringsBody::NoStrings
        } else if visible_empty {
            StringsBody::NoMatches
        } else {
            StringsBody::Results
        },
{
    if !has_editor {
        StringsBody::NoFile
    } else if !minimum_length_is_valid {
        StringsBody::InvalidMinimum
    } else if is_scanning {
        StringsBody::Scanning
    } else if !has_scanned {
        StringsBody::NotScanned
    } else if results_empty {
        StringsBody::NoStrings
    } else if visible_empty {
        StringsBody::NoMatches
    } else {
        StringsBody::Results
    }
}

} // verus!
