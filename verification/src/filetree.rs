//! The file tree: the entries of a folder turned into items (ignored files
//! and `.git` left out, folders first, then by name), the items that are
//! shown, the cursor's moves among them, and the loading of a folder's
//! children.
use vstd::prelude::*;
use std::path::PathBuf;
use autocorrect::ignorer::Ignorer;
use crate::stringlist::{lemma_text_order, text_order};
use crate::text::chars_of;

verus! {

#[verifier::external_type_specification]
#[verifier::external_body]
pub struct ExPathBuf(PathBuf);

#[verifier::external_type_specification]
#[verifier::external_body]
pub struct ExIgnorer(Ignorer);

/// What the file tree tells its owner: the file with this path was chosen
/// to be opened.
pub enum FileTreeViewEvent {
    OpenFile(String),
}

/// What the file tree keeps between sessions: the folder it shows.
pub struct FileTreeViewState {
    pub root_path: Option<PathBuf>,
}

/// Whether the ignorer `ignorer` excludes the path `path`: the answer of
/// `Ignorer::is_ignored`, which depends on the ignorer (the globs it compiled
/// from the ignore files when it was built) and the path alone.
pub uninterp spec fn ignored_by(ignorer: Ignorer, path: Seq<char>) -> bool;

/// `Ignorer::is_ignored`: whether the globs that the ignorer compiled from
/// the ignore files when it was built exclude `path`, named `ignored_by`.
/// The call reads no disk; its answer depends on the ignorer and the path
/// alone, and what it is is not written out here. Before matching, the
/// ignore crate strips a leading `./`, then the ignorer's root and one
/// separator after it, and panics if what is left still starts with a
/// separator. A path that neither starts with a separator (or a drive) nor
/// holds two separators in a row never leaves one there, so such paths are
/// required.
#[verifier::external_body]
fn is_ignored(ignorer: &Ignorer, path: &str) -> (r: bool)
    requires
        relative_path(path@),
    ensures
        r == ignored_by(*ignorer, path@),
{
    ignorer.is_ignored(path)
}

/// For each entry, whether the ignorer excludes its relative path.
pub open spec fn ignore_flags(ignorer: Ignorer, entries: Seq<DirEntryInfo>) -> Seq<bool> {
    Seq::new(entries.len(), |i: int| ignored_by(ignorer, entries[i].relative@))
}

/// `/` or `\`.
pub open spec fn is_separator(c: char) -> bool {
    c == '/' || c == '\\'
}

/// A path with no root and no empty component: it starts neither with a
/// separator nor with a drive and a separator, and no two separators stand
/// next to each other in it.
pub open spec fn relative_path(p: Seq<char>) -> bool {
    &&& (p.len() == 0 || !is_separator(p[0]))
    &&& !(p.len() >= 3 && p[1] == ':' && is_separator(p[2]))
    &&& forall|i: int| 1 <= i < p.len() ==> !(is_separator(p[i - 1]) && is_separator(#[trigger] p[i]))
}

/// An item of the tree: its id (the full path), its label, its children,
/// whether it is a folder and whether it is expanded.
pub struct FileItem {
    pub id: String,
    pub label: String,
    pub children: Vec<FileItem>,
    pub is_folder: bool,
    pub is_expanded: bool,
}

/// An entry read from a folder: its full path, its path relative to the
/// tree's root, its file name (none when it has no name in UTF-8), whether
/// it is a folder, and whether its relative path ends in `.git`.
pub struct DirEntryInfo {
    pub id: String,
    pub relative: String,
    pub file_name: Option<String>,
    pub is_dir: bool,
    pub is_git: bool,
}

/// The label of an entry: its file name, or "Unknown".
pub open spec fn entry_label(e: DirEntryInfo) -> Seq<char> {
    match e.file_name {
        Some(n) => n@,
        None => "Unknown"@,
    }
}

/// The item made of an entry: a folder holds a placeholder child until its
/// children are loaded.
pub open spec fn entry_item_ok(e: DirEntryInfo, it: FileItem) -> bool {
    &&& it.id@ == e.id@
    &&& it.label@ == entry_label(e)
    &&& it.is_folder == e.is_dir
    &&& !it.is_expanded
    &&& if e.is_dir {
        &&& it.children@.len() == 1
        &&& it.children@[0].id@ == "loading"@
        &&& it.children@[0].label@ == "Loading..."@
        &&& it.children@[0].children@.len() == 0
        &&& !it.children@[0].is_folder
        &&& !it.children@[0].is_expanded
    } else {
        it.children@.len() == 0
    }
}

/// Item `a` comes before item `b`: folders first, then by label.
pub open spec fn item_before(a: FileItem, b: FileItem) -> bool {
    (a.is_folder && !b.is_folder) || (a.is_folder == b.is_folder && text_order(a.label@, b.label@) < 0)
}

/// `x` placed into `s` after every item that does not come after it.
pub open spec fn insert_item(s: Seq<FileItem>, x: FileItem) -> Seq<FileItem>
    decreases s.len(),
{
    if s.len() == 0 {
        seq![x]
    } else if !item_before(x, s.last()) {
        s.push(x)
    } else {
        insert_item(s.drop_last(), x).push(s.last())
    }
}

/// The items sorted, folders first, then by label; equal items keep their
/// order.
pub open spec fn sort_items(s: Seq<FileItem>) -> Seq<FileItem>
    decreases s.len(),
{
    if s.len() == 0 {
        s
    } else {
        insert_item(sort_items(s.drop_last()), s.last())
    }
}

/// No item comes before one that precedes it.
pub open spec fn items_sorted(s: Seq<FileItem>) -> bool {
    forall|i: int, j: int| 0 <= i < j < s.len() ==> !item_before(#[trigger] s[j], #[trigger] s[i])
}

/// Item order is a strict weak order: never both ways, and "not before"
/// is transitive.
pub proof fn lemma_item_order(a: FileItem, b: FileItem, c: FileItem)
    ensures
        !item_before(a, a),
        item_before(a, b) ==> !item_before(b, a),
        !item_before(a, b) && !item_before(b, c) ==> !item_before(a, c),
        item_before(a, b) && !item_before(c, b) ==> item_before(a, c),
{
    lemma_text_order(a.label@, b.label@, c.label@);
    lemma_text_order(a.label@, a.label@, a.label@);
    lemma_text_order(b.label@, a.label@, c.label@);
    lemma_text_order(c.label@, b.label@, a.label@);
    lemma_text_order(a.label@, c.label@, b.label@);
    lemma_text_order(b.label@, c.label@, a.label@);
    lemma_text_order(c.label@, a.label@, b.label@);
}

/// Inserting into sorted items keeps them sorted and adds exactly `x`.
pub proof fn lemma_insert_item(s: Seq<FileItem>, x: FileItem)
    requires
        items_sorted(s),
    ensures
        items_sorted(insert_item(s, x)),
        insert_item(s, x).to_multiset() =~= s.to_multiset().insert(x),
    decreases s.len(),
{
    broadcast use vstd::seq_lib::group_to_multiset_ensures;

    if s.len() == 0 {
        assert(seq![x] =~= s.push(x));
        assert(s.to_multiset() =~= vstd::multiset::Multiset::empty());
    } else if !item_before(x, s.last()) {
        let t = s.push(x);
        assert forall|i: int, j: int| 0 <= i < j < t.len() implies !item_before(#[trigger] t[j], #[trigger] t[i]) by {
            if j == s.len() {
                assert(t[i] == s[i]);
                if i < s.len() - 1 {
                    assert(!item_before(s[s.len() - 1], s[i]));
                }
                lemma_item_order(x, s.last(), s[i]);
            } else {
                assert(t[i] == s[i] && t[j] == s[j]);
            }
        }
    } else {
        let d = s.drop_last();
        let l = s.last();
        assert forall|i: int, j: int| 0 <= i < j < d.len() implies !item_before(#[trigger] d[j], #[trigger] d[i]) by {
            assert(d[i] == s[i] && d[j] == s[j]);
        }
        lemma_insert_item(d, x);
        let r = insert_item(d, x);
        let t = r.push(l);
        assert forall|i: int, j: int| 0 <= i < j < t.len() implies !item_before(#[trigger] t[j], #[trigger] t[i]) by {
            if j == r.len() {
                assert(t[i] == r[i]);
                assert(r.to_multiset().count(r[i]) > 0);
                assert(r.contains(r[i]));
                if r[i] == x {
                    lemma_item_order(x, l, x);
                } else {
                    assert(d.to_multiset().count(r[i]) > 0);
                    let k = choose|k: int| 0 <= k < d.len() && d[k] == r[i];
                    assert(d[k] == s[k]);
                    assert(!item_before(s[s.len() - 1], s[k]));
                }
            } else {
                assert(t[i] == r[i] && t[j] == r[j]);
            }
        }
        assert(s =~= d.push(l));
    }
}

/// Sorting keeps every item and orders them.
pub proof fn lemma_sort_items(s: Seq<FileItem>)
    ensures
        items_sorted(sort_items(s)),
        sort_items(s).to_multiset() =~= s.to_multiset(),
    decreases s.len(),
{
    broadcast use vstd::seq_lib::group_to_multiset_ensures;

    if s.len() > 0 {
        lemma_sort_items(s.drop_last());
        lemma_insert_item(sort_items(s.drop_last()), s.last());
        assert(s =~= s.drop_last().push(s.last()));
    }
}

/// Whether item `a` comes before item `b`.
fn item_is_before(a: &FileItem, b: &FileItem) -> (r: bool)
    ensures
        r == item_before(*a, *b),
{
    if a.is_folder && !b.is_folder {
        return true;
    }
    if a.is_folder != b.is_folder {
        return false;
    }
    let la = chars_of(a.label.as_str());
    let lb = chars_of(b.label.as_str());
    compare_labels(&la, &lb) < 0
}

/// The order of two labels.
fn compare_labels(a: &Vec<char>, b: &Vec<char>) -> (r: i8)
    ensures
        r == text_order(a@, b@),
{
    let mut i: usize = 0;
    proof {
        assert(a@.skip(0) =~= a@);
        assert(b@.skip(0) =~= b@);
    }
    while i < a.len() && i < b.len()
        invariant
            i <= a@.len(),
            i <= b@.len(),
            text_order(a@, b@) == text_order(a@.skip(i as int), b@.skip(i as int)),
        decreases a@.len() - i,
    {
        proof {
            assert(a@.skip(i as int)[0] == a@[i as int]);
            assert(b@.skip(i as int)[0] == b@[i as int]);
        }
        if a[i] < b[i] {
            return -1;
        }
        if a[i] > b[i] {
            return 1;
        }
        proof {
            assert(a@.skip(i as int).drop_first() =~= a@.skip(i + 1));
            assert(b@.skip(i as int).drop_first() =~= b@.skip(i + 1));
        }
        i = i + 1;
    }
    proof {
        if i < a@.len() {
            assert(b@.skip(i as int).len() == 0);
        } else if i < b@.len() {
            assert(a@.skip(i as int).len() == 0);
        } else {
            assert(a@.skip(i as int).len() == 0 && b@.skip(i as int).len() == 0);
        }
    }
    if i < a.len() {
        1
    } else if i < b.len() {
        -1
    } else {
        0
    }
}

/// `x` placed into `v` after every item that does not come after it.
fn insert_file_item(v: Vec<FileItem>, x: FileItem) -> (r: Vec<FileItem>)
    ensures
        r@ == insert_item(v@, x),
    decreases v@.len(),
{
    let mut v = v;
    if v.len() == 0 {
        let mut r: Vec<FileItem> = Vec::new();
        r.push(x);
        assert(r@ =~= seq![x]);
        return r;
    }
    let ghost s = v@;
    let last = v.pop().unwrap();
    assert(v@ =~= s.drop_last());
    if !item_is_before(&x, &last) {
        v.push(last);
        v.push(x);
        assert(v@ =~= s.push(x));
        v
    } else {
        let mut r = insert_file_item(v, x);
        r.push(last);
        r
    }
}

/// The items sorted, folders first, then by label; equal items keep their
/// order.
pub fn sort_file_items(items: Vec<FileItem>) -> (r: Vec<FileItem>)
    ensures
        r@ == sort_items(items@),
        items_sorted(r@),
        r@.to_multiset() =~= items@.to_multiset(),
{
    let ghost input = items@;
    let mut rest = items;
    let mut out: Vec<FileItem> = Vec::new();
    let ghost mut taken: int = 0;
    while rest.len() > 0
        invariant
            0 <= taken <= input.len(),
            rest@ == input.subrange(taken, input.len() as int),
            out@ == sort_items(input.subrange(0, taken)),
        decreases rest@.len(),
    {
        let x = rest.remove(0);
        proof {
            assert(input.subrange(0, taken + 1).drop_last() =~= input.subrange(0, taken));
            assert(input.subrange(0, taken + 1).last() == x);
        }
        out = insert_file_item(out, x);
        proof {
            taken = taken + 1;
            assert(rest@ =~= input.subrange(taken, input.len() as int));
        }
    }
    proof {
        assert(input.subrange(0, taken) =~= input);
        lemma_sort_items(input);
    }
    out
}

/// The entries kept (not ignored, not `.git`), as items.
pub open spec fn kept_entries(entries: Seq<DirEntryInfo>, ignored: Seq<bool>) -> Seq<DirEntryInfo>
    decreases entries.len(),
{
    if entries.len() == 0 {
        Seq::empty()
    } else {
        let before = kept_entries(entries.drop_last(), ignored);
        let i = entries.len() - 1;
        if ignored[i] || entries.last().is_git {
            before
        } else {
            before.push(entries.last())
        }
    }
}

/// The item of an entry.
fn entry_item(e: DirEntryInfo) -> (it: FileItem)
    ensures
        entry_item_ok(e, it),
{
    let label = match e.file_name {
        Some(n) => n,
        None => "Unknown".to_string(),
    };
    proof {
        reveal_strlit("Unknown");
    }
    let mut children: Vec<FileItem> = Vec::new();
    if e.is_dir {
        let placeholder = FileItem {
            id: "loading".to_string(),
            label: "Loading...".to_string(),
            children: Vec::new(),
            is_folder: false,
            is_expanded: false,
        };
        children.push(placeholder);
    }
    FileItem { id: e.id, label, children, is_folder: e.is_dir, is_expanded: false }
}

/// The items of a folder from its entries, given for each whether the
/// ignore files exclude it: the entries neither ignored nor `.git`, as
/// items, sorted with folders first, then by label.
pub fn file_items_from(entries: Vec<DirEntryInfo>, ignored: &Vec<bool>) -> (r: Vec<FileItem>)
    requires
        ignored@.len() == entries@.len(),
    ensures
        r@.len() == kept_entries(entries@, ignored@).len(),
        items_sorted(r@),
        exists|made: Seq<FileItem>|
            made.len() == kept_entries(entries@, ignored@).len() && (forall|i: int|
                0 <= i < made.len() ==> entry_item_ok(#[trigger] kept_entries(entries@, ignored@)[i], made[i]))
                && r@ == sort_items(made),
{
    let ghost input = entries@;
    let n = entries.len();
    let mut rest = entries;
    let mut made: Vec<FileItem> = Vec::new();
    let mut k: usize = 0;
    while rest.len() > 0
        invariant
            k <= input.len(),
            n == input.len(),
            ignored@.len() == input.len(),
            rest@ == input.subrange(k as int, input.len() as int),
            made@.len() == kept_entries(input.take(k as int), ignored@).len(),
            forall|i: int|
                0 <= i < made@.len() ==> entry_item_ok(#[trigger] kept_entries(input.take(k as int), ignored@)[i], made@[i]),
        decreases rest@.len(),
    {
        let e = rest.remove(0);
        proof {
            assert(input.take(k + 1).drop_last() =~= input.take(k as int));
            assert(input.take(k + 1).last() == e);
            assert(input.take(k + 1).len() - 1 == k);
        }
        let skip = ignored[k] || e.is_git;
        if !skip {
            let it = entry_item(e);
            made.push(it);
        }
        k = k + 1;
        proof {
            assert(rest@ =~= input.subrange(k as int, input.len() as int));
        }
    }
    proof {
        assert(input.take(k as int) =~= input);
    }
    let ghost m = made@;
    let r = sort_file_items(made);
    proof {
        assert(r@ == sort_items(m));
        r@.to_multiset_ensures();
        m.to_multiset_ensures();
        assert(r@.len() == m.len());
    }
    r
}

/// The items of a folder from the entries read from it: each entry's
/// relative path is tested against the ignore files, and `file_items_from`
/// makes the items of those that are not excluded.
pub fn build_file_items(ignorer: &Ignorer, entries: Vec<DirEntryInfo>) -> (r: Vec<FileItem>)
    requires
        forall|i: int| 0 <= i < entries@.len() ==> relative_path(#[trigger] entries@[i].relative@),
    ensures
        ({
            let ignored = ignore_flags(*ignorer, entries@);
            &&& items_sorted(r@)
            &&& r@.len() == kept_entries(entries@, ignored).len()
            &&& exists|made: Seq<FileItem>|
                made.len() == kept_entries(entries@, ignored).len() && (forall|i: int|
                    0 <= i < made.len() ==> entry_item_ok(#[trigger] kept_entries(entries@, ignored)[i], made[i]))
                    && r@ == sort_items(made)
        }),
{
    let mut ignored: Vec<bool> = Vec::new();
    let mut i: usize = 0;
    while i < entries.len()
        invariant
            i <= entries@.len(),
            ignored@.len() == i,
            forall|j: int| 0 <= j < i ==> ignored@[j] == ignored_by(*ignorer, #[trigger] entries@[j].relative@),
            forall|j: int| 0 <= j < entries@.len() ==> relative_path(#[trigger] entries@[j].relative@),
        decreases entries@.len() - i,
    {
        let flag = is_ignored(ignorer, entries[i].relative.as_str());
        ignored.push(flag);
        i = i + 1;
    }
    proof {
        assert(ignored@ =~= ignore_flags(*ignorer, entries@));
    }
    file_items_from(entries, &ignored)
}

/// The items shown, in order: each item, then, when it is expanded, the
/// items shown of its children.
pub open spec fn visible(items: Seq<FileItem>) -> Seq<FileItem>
    decreases items,
{
    if items.len() == 0 {
        Seq::empty()
    } else {
        let f = items[0];
        let sub = if f.is_expanded {
            proof {
                assert(decreases_to!(items => items[0]));
                assert(decreases_to!(items[0] => items[0].children));
                assert(decreases_to!(items[0].children => items[0].children@));
            }
            visible(f.children@)
        } else {
            Seq::empty()
        };
        seq![f] + sub + visible(items.drop_first())
    }
}

/// The ids of the items.
pub open spec fn ids(items: Seq<FileItem>) -> Seq<Seq<char>> {
    items.map_values(|it: FileItem| it.id@)
}

/// Showing two joined lists shows the first, then the second.
pub proof fn lemma_visible_add(a: Seq<FileItem>, b: Seq<FileItem>)
    ensures
        visible(a + b) == visible(a) + visible(b),
    decreases a.len(),
{
    if a.len() == 0 {
        assert(a + b =~= b);
        assert(Seq::<FileItem>::empty() + visible(b) =~= visible(b));
    } else {
        lemma_visible_add(a.drop_first(), b);
        assert((a + b).drop_first() =~= a.drop_first() + b);
        assert((a + b)[0] == a[0]);
        let f = a[0];
        let sub = if f.is_expanded {
            visible(f.children@)
        } else {
            Seq::empty()
        };
        assert(visible(a + b) == seq![f] + sub + visible(a.drop_first() + b));
        assert(visible(a) == seq![f] + sub + visible(a.drop_first()));
        assert(seq![f] + sub + (visible(a.drop_first()) + visible(b)) =~= seq![f] + sub + visible(
            a.drop_first(),
        ) + visible(b));
    }
}

/// Appends the ids of the items shown of `items` to `out`.
fn collect_visible_ids(items: &[FileItem], out: &mut Vec<String>)
    ensures
        final(out)@.len() == old(out)@.len() + visible(items@).len(),
        forall|i: int| 0 <= i < old(out)@.len() ==> final(out)@[i] == old(out)@[i],
        forall|i: int|
            0 <= i < visible(items@).len() ==> #[trigger] final(out)@[old(out)@.len() + i]@ == visible(items@)[i].id@,
    decreases items@,
{
    let ghost start = out@;
    let mut k: usize = 0;
    while k < items.len()
        invariant
            k <= items@.len(),
            out@.len() == start.len() + visible(items@.take(k as int)).len(),
            forall|i: int| 0 <= i < start.len() ==> out@[i] == start[i],
            forall|i: int|
                0 <= i < visible(items@.take(k as int)).len() ==> #[trigger] out@[start.len() + i]@ == visible(
                    items@.take(k as int),
                )[i].id@,
        decreases items@.len() - k,
    {
        let item = &items[k];
        let ghost before = out@;
        out.push(item.id.clone());
        let ghost mid = out@;
        if item.is_expanded {
            proof {
                assert(decreases_to!(items@ => items@[k as int]));
                assert(decreases_to!(items@[k as int] => items@[k as int].children));
                assert(decreases_to!(items@[k as int].children => items@[k as int].children@));
            }
            collect_visible_ids(item.children.as_slice(), out);
        }
        proof {
            let f = items@[k as int];
            let one = seq![f];
            assert(one[0] == f);
            assert(one.drop_first() =~= Seq::<FileItem>::empty());
            assert(visible(Seq::<FileItem>::empty()) == Seq::<FileItem>::empty());
            let sub = if f.is_expanded {
                visible(f.children@)
            } else {
                Seq::empty()
            };
            assert(visible(one) =~= seq![f] + sub + Seq::<FileItem>::empty());
            assert(items@.take(k + 1) =~= items@.take(k as int) + one);
            lemma_visible_add(items@.take(k as int), one);
            let pv = visible(items@.take(k as int));
            let nv = visible(items@.take(k + 1));
            assert(nv == pv + (seq![f] + sub + Seq::<FileItem>::empty()));
            assert(mid.len() == start.len() + pv.len() + 1);
            assert forall|i: int| 0 <= i < nv.len() implies #[trigger] out@[start.len() + i]@ == nv[i].id@ by {
                if i < pv.len() {
                    assert(out@[start.len() + i] == mid[start.len() + i]);
                    assert(mid[start.len() + i] == before[start.len() + i]);
                    assert(before[start.len() + i]@ == pv[i].id@);
                    assert(nv[i] == pv[i]);
                } else if i == pv.len() {
                    assert(out@[start.len() + i] == mid[start.len() + i]);
                    assert(nv[i] == f);
                } else {
                    let q = i - pv.len() - 1;
                    assert(nv[i] == sub[q]);
                    assert(f.is_expanded);
                    assert(out@[mid.len() + q]@ == visible(f.children@)[q].id@);
                    assert(mid.len() + q == start.len() + i);
                }
            }
        }
        k = k + 1;
    }
    assert(items@.take(k as int) =~= items@);
}

/// The ids of the items shown, in order.
pub fn visible_ids(items: &Vec<FileItem>) -> (r: Vec<String>)
    ensures
        r@.len() == visible(items@).len(),
        forall|i: int| 0 <= i < r@.len() ==> #[trigger] r@[i]@ == visible(items@)[i].id@,
{
    let mut out: Vec<String> = Vec::new();
    collect_visible_ids(items.as_slice(), &mut out);
    proof {
        assert forall|i: int| 0 <= i < out@.len() implies #[trigger] out@[i]@ == visible(items@)[i].id@ by {
            assert(out@[0 + i] == out@[i]);
        }
    }
    out
}

/// The first position of an item with id `id` among `shown`.
fn position_of_id(shown: &Vec<String>, id: &String) -> (r: Option<usize>)
    ensures
        r is None <==> forall|j: int| 0 <= j < shown@.len() ==> (#[trigger] shown@[j])@ != id@,
        r is Some ==> r.unwrap() < shown@.len() && shown@[r.unwrap() as int]@ == id@ && forall|j: int|
            0 <= j < r.unwrap() ==> (#[trigger] shown@[j])@ != id@,
{
    let mut i: usize = 0;
    while i < shown.len()
        invariant
            i <= shown@.len(),
            forall|j: int| 0 <= j < i ==> (#[trigger] shown@[j])@ != id@,
        decreases shown@.len() - i,
    {
        if shown[i] == *id {
            return Some(i);
        }
        i = i + 1;
    }
    None
}

/// The position the cursor moves to among the items shown (their ids in
/// `shown`): one up (`direction` -1, not past the first) or down (1, not
/// past the last) from the selected item, staying for any other direction;
/// the first item when the selected one is not shown; none when nothing is
/// shown.
pub fn move_cursor(shown: &Vec<String>, selected_id: Option<&String>, direction: i8) -> (r: Option<usize>)
    ensures
        shown@.len() == 0 ==> r is None,
        shown@.len() > 0 ==> {
            let n = shown@.len() as int;
            let current: Option<int> = match selected_id {
                Some(id) => if exists|j: int| 0 <= j < n && (#[trigger] shown@[j])@ == id@ {
                    Some(
                        choose|p: int|
                            0 <= p < n && shown@[p]@ == id@ && forall|j: int| 0 <= j < p ==> (#[trigger] shown@[j])@ != id@,
                    )
                } else {
                    None
                },
                None => None,
            };
            r == Some(
                (match current {
                    Some(i) => if direction == -1 {
                        if i > 0 {
                            i - 1
                        } else {
                            0
                        }
                    } else if direction == 1 {
                        if i + 1 < n {
                            i + 1
                        } else {
                            n - 1
                        }
                    } else {
                        i
                    },
                    None => 0,
                }) as usize,
            )
        },
{
    if shown.len() == 0 {
        return None;
    }
    let current = match selected_id {
        Some(id) => position_of_id(shown, id),
        None => None,
    };
    proof {
        if current is Some {
            let id = selected_id.unwrap();
            let c = current.unwrap() as int;
            assert((shown@[c])@ == id@);
            let p = choose|p: int|
                0 <= p < shown@.len() && shown@[p]@ == id@ && forall|j: int| 0 <= j < p ==> (#[trigger] shown@[j])@ != id@;
            if p < c {
                assert((shown@[p])@ != id@);
            }
            if c < p {
                assert((shown@[c])@ != id@);
            }
        }
    }
    let last_index = shown.len() - 1;
    let next_index = match current {
        Some(index) => if direction == -1 {
            index.saturating_sub(1)
        } else if direction == 1 {
            if index < last_index {
                index + 1
            } else {
                last_index
            }
        } else {
            index
        },
        None => 0,
    };
    Some(next_index)
}

/// The item reached by `path` (an index, then child indices) going down
/// only through folders.
pub open spec fn item_at(items: Seq<FileItem>, path: Seq<usize>) -> Option<FileItem>
    decreases path.len(),
{
    if path.len() == 0 || path[0] >= items.len() {
        None
    } else if path.len() == 1 {
        Some(items[path[0] as int])
    } else if items[path[0] as int].is_folder {
        item_at(items[path[0] as int].children@, path.drop_first())
    } else {
        None
    }
}

/// Some item reached through folders has id `target`.
pub open spec fn holds_id(items: Seq<FileItem>, target: Seq<char>) -> bool {
    exists|path: Seq<usize>| #![trigger item_at(items, path)] item_at(items, path) is Some && item_at(items, path).unwrap().id@ == target
}

/// `new` is `old` with the children of the item at `path` replaced by
/// `children`, everything else the same.
pub open spec fn replaced_at(old: Seq<FileItem>, new: Seq<FileItem>, path: Seq<usize>, children: Seq<FileItem>) -> bool
    decreases path.len(),
{
    &&& path.len() > 0
    &&& path[0] < old.len()
    &&& new.len() == old.len()
    &&& forall|j: int| 0 <= j < old.len() && j != path[0] ==> #[trigger] new[j] == old[j]
    &&& {
        let o = old[path[0] as int];
        let n = new[path[0] as int];
        &&& n.id == o.id
        &&& n.label == o.label
        &&& n.is_folder == o.is_folder
        &&& n.is_expanded == o.is_expanded
        &&& if path.len() == 1 {
            n.children@ == children
        } else {
            replaced_at(o.children@, n.children@, path.drop_first(), children)
        }
    }
}

/// How deep the items nest.
pub open spec fn item_depth(items: Seq<FileItem>) -> nat
    decreases items,
{
    if items.len() == 0 {
        0
    } else {
        let here = 1 + item_depth(items[0].children@);
        let rest = item_depth(items.drop_first());
        proof {
            assert(decreases_to!(items => items[0]));
            assert(decreases_to!(items[0] => items[0].children));
            assert(decreases_to!(items[0].children => items[0].children@));
        }
        if here >= rest {
            here
        } else {
            rest
        }
    }
}

/// Each item's children nest less deeply than the list.
pub proof fn lemma_item_depth(items: Seq<FileItem>, k: int)
    requires
        0 <= k < items.len(),
    ensures
        item_depth(items[k].children@) < item_depth(items),
    decreases items.len(),
{
    if k > 0 {
        lemma_item_depth(items.drop_first(), k - 1);
        assert(items.drop_first()[k - 1] == items[k]);
    }
}

/// Item `j` has id `target`, or is a folder under which an item with that
/// id is reached.
pub open spec fn has_target_at(items: Seq<FileItem>, j: int, target: Seq<char>) -> bool {
    items[j].id@ == target || (items[j].is_folder && holds_id(items[j].children@, target))
}

/// An item with id `target` reached through folders is the item itself or
/// one under a folder among the items.
pub proof fn lemma_holds_id_elim(items: Seq<FileItem>, target: Seq<char>) -> (j: int)
    requires
        holds_id(items, target),
    ensures
        0 <= j < items.len(),
        has_target_at(items, j, target),
{
    let path = choose|path: Seq<usize>| #![trigger item_at(items, path)] item_at(items, path) is Some && item_at(items, path).unwrap().id@ == target;
    let j = path[0] as int;
    if path.len() > 1 {
        assert(item_at(items[j].children@, path.drop_first()) is Some);
        assert(holds_id(items[j].children@, target));
    }
    j
}

/// An item with id `target`, or a folder holding one, among the items
/// means an item with that id is reached through folders.
pub proof fn lemma_holds_id_intro(items: Seq<FileItem>, target: Seq<char>, j: int)
    requires
        items.len() <= usize::MAX,
        0 <= j < items.len(),
        has_target_at(items, j, target),
    ensures
        holds_id(items, target),
{
    let path0 = seq![j as usize];
    assert(path0[0] as int == j);
    if items[j].id@ == target {
        assert(item_at(items, path0) == Some(items[j]));
    } else {
        let sub = choose|p: Seq<usize>|
            #![trigger item_at(items[j].children@, p)] item_at(items[j].children@, p) is Some && item_at(items[j].children@, p).unwrap().id@ == target;
        let path = path0 + sub;
        assert(path[0] as int == j);
        assert(path.drop_first() =~= sub);
        assert(sub.len() > 0);
        assert(item_at(items, path) == item_at(items[j].children@, sub));
    }
}

/// Whether an item with id `target_id` is reached through folders.
fn holds_target(items: &Vec<FileItem>, target_id: &str) -> (r: bool)
    ensures
        r == holds_id(items@, target_id@),
    decreases items@,
{
    proof {
        assert(items@.len() == items.len());
    }
    let mut i: usize = 0;
    while i < items.len()
        invariant
            i <= items@.len(),
            items@.len() <= usize::MAX,
            forall|j: int| 0 <= j < i ==> !#[trigger] has_target_at(items@, j, target_id@),
        decreases items@.len() - i,
    {
        if same_text(items[i].id.as_str(), target_id) {
            proof {
                lemma_holds_id_intro(items@, target_id@, i as int);
            }
            return true;
        }
        if items[i].is_folder {
            proof {
                assert(decreases_to!(items@ => items@[i as int]));
                assert(decreases_to!(items@[i as int] => items@[i as int].children));
            }
            if holds_target(&items[i].children, target_id) {
                proof {
                    lemma_holds_id_intro(items@, target_id@, i as int);
                }
                return true;
            }
        }
        proof {
            assert(!has_target_at(items@, i as int, target_id@));
        }
        i = i + 1;
    }
    proof {
        if holds_id(items@, target_id@) {
            let j = lemma_holds_id_elim(items@, target_id@);
            assert(!has_target_at(items@, j, target_id@));
        }
    }
    false
}

/// Replaces the children of an item with id `target_id` reached through
/// folders (the first one in order) by `children`.
fn replace_children(items: &mut Vec<FileItem>, target_id: &str, children: Vec<FileItem>)
    requires
        holds_id(old(items)@, target_id@),
    ensures
        exists|path: Seq<usize>|
            #![trigger item_at(old(items)@, path)] item_at(old(items)@, path) is Some && item_at(old(items)@, path).unwrap().id@
                == target_id@ && replaced_at(old(items)@, final(items)@, path, children@),
    decreases item_depth(old(items)@),
{
    proof {
        assert(items@.len() == items.len());
    }
    let ghost start = items@;
    let ghost ch = children@;
    let mut i: usize = 0;
    while i < items.len()
        invariant
            i <= items@.len(),
            items@ == start,
            start == old(items)@,
            start.len() <= usize::MAX,
            holds_id(start, target_id@),
            children@ == ch,
            forall|j: int| 0 <= j < i ==> !#[trigger] has_target_at(start, j, target_id@),
        decreases items@.len() - i,
    {
        if same_text(items[i].id.as_str(), target_id) {
            let mut it = items.remove(i);
            let ghost o = it;
            it.children = children;
            items.insert(i, it);
            proof {
                let path = seq![i as usize];
                assert(o == start[i as int]);
                assert(item_at(start, path) == Some(o));
                assert(items@ =~= start.update(i as int, items@[i as int]));
                let n = items@[i as int];
                assert(n.id == o.id && n.label == o.label && n.is_folder == o.is_folder && n.is_expanded == o.is_expanded);
                assert(n.children@ == ch);
                assert(path.len() == 1 && path[0] == i);
                assert(forall|j: int| 0 <= j < start.len() && j != path[0] ==> #[trigger] items@[j] == start[j]);
                assert(replaced_at(start, items@, path, ch));
                assert(item_at(start, path) is Some && item_at(start, path).unwrap().id@ == target_id@
                    && replaced_at(start, items@, path, ch));
            }
            return;
        }
        if items[i].is_folder && holds_target(&items[i].children, target_id) {
            let mut it = items.remove(i);
            let ghost o = it;
            proof {
                assert(o == start[i as int]);
                lemma_item_depth(start, i as int);
            }
            replace_children(&mut it.children, target_id, children);
            let ghost nc = it.children@;
            items.insert(i, it);
            proof {
                let sub = choose|p: Seq<usize>|
                    #![trigger item_at(o.children@, p)] item_at(o.children@, p) is Some && item_at(o.children@, p).unwrap().id@
                        == target_id@ && replaced_at(o.children@, nc, p, ch);
                let path = seq![i as usize] + sub;
                assert(path.drop_first() =~= sub);
                assert(path[0] == i);
                assert(sub.len() > 0);
                assert(path.len() > 1);
                assert(start[i as int].is_folder);
                assert(item_at(start, path) == item_at(o.children@, sub));
                assert(items@ =~= start.update(i as int, items@[i as int]));
                let n = items@[i as int];
                assert(n.id == o.id && n.label == o.label && n.is_folder == o.is_folder && n.is_expanded == o.is_expanded);
                assert(n.children@ == nc);
                assert(forall|j: int| 0 <= j < start.len() && j != path[0] ==> #[trigger] items@[j] == start[j]);
                assert(replaced_at(start, items@, path, ch));
                assert(item_at(start, path) is Some && item_at(start, path).unwrap().id@ == target_id@
                    && replaced_at(start, items@, path, ch));
            }
            return;
        }
        proof {
            assert(!has_target_at(start, i as int, target_id@));
        }
        i = i + 1;
    }
    proof {
        assert(i == start.len());
        let j = lemma_holds_id_elim(start, target_id@);
        assert(!has_target_at(start, j, target_id@));
        assert(false);
    }
}

/// Whether two texts are the same.
fn same_text(a: &str, b: &str) -> (r: bool)
    ensures
        r == (a@ == b@),
{
    let x = chars_of(a);
    let y = chars_of(b);
    if x.len() != y.len() {
        return false;
    }
    let mut i: usize = 0;
    while i < x.len()
        invariant
            x@ == a@,
            y@ == b@,
            i <= x@.len() == y@.len(),
            forall|j: int| 0 <= j < i ==> x@[j] == y@[j],
        decreases x@.len() - i,
    {
        if x[i] != y[i] {
            return false;
        }
        i = i + 1;
    }
    assert(x@ =~= y@);
    true
}

/// Puts `children` as the children of the item with id `target_id`
/// (reached through folders); returns whether there was one.
pub fn update_item_children(items: &mut Vec<FileItem>, target_id: &str, children: Vec<FileItem>) -> (r: bool)
    ensures
        r == holds_id(old(items)@, target_id@),
        r ==> exists|path: Seq<usize>|
            #![trigger item_at(old(items)@, path)] item_at(old(items)@, path) is Some && item_at(old(items)@, path).unwrap().id@ == target_id@
                && replaced_at(old(items)@, final(items)@, path, children@),
        !r ==> final(items)@ == old(items)@,
{
    if holds_target(items, target_id) {
        replace_children(items, target_id, children);
        true
    } else {
        false
    }
}

/// The id `id` is among `ids`.
pub open spec fn holds_text(ids: Seq<String>, id: String) -> bool {
    exists|j: int| 0 <= j < ids.len() && (#[trigger] ids[j])@ == id@
}

/// The selected ids after a click on the item `id`: its first occurrence
/// taken out when it is there, else `id` added at the end.
pub open spec fn selection_toggled(ids: Seq<String>, id: String) -> Seq<String> {
    if holds_text(ids, id) {
        let p = choose|p: int|
            0 <= p < ids.len() && ids[p]@ == id@ && forall|j: int| 0 <= j < p ==> (#[trigger] ids[j])@ != id@;
        ids.remove(p)
    } else {
        ids.push(id)
    }
}

/// Clicking an item that is not selected, then clicking it again, gives
/// back the selection one started with.
pub proof fn lemma_toggle_selection_twice(ids: Seq<String>, id: String)
    requires
        !holds_text(ids, id),
    ensures
        selection_toggled(selection_toggled(ids, id), id) == ids,
{
    let once = ids.push(id);
    assert(once[ids.len() as int]@ == id@);
    assert(holds_text(once, id));
    let p = choose|p: int|
        0 <= p < once.len() && once[p]@ == id@ && forall|j: int| 0 <= j < p ==> (#[trigger] once[j])@ != id@;
    if p < ids.len() {
        assert(once[p] == ids[p]);
        assert(holds_text(ids, id));
    }
    assert(once.remove(p) =~= ids);
}

/// Adds the item with id `id` to the selected ones, or takes it out when it
/// is there.
pub fn toggle_selection(selected_ids: &mut Vec<String>, id: String)
    ensures
        final(selected_ids)@ == selection_toggled(old(selected_ids)@, id),
{
    let pos = position_of_id(selected_ids, &id);
    proof {
        if pos is Some {
            let old_ids = selected_ids@;
            let c = pos.unwrap() as int;
            assert((old_ids[c])@ == id@);
            let p = choose|p: int|
                0 <= p < old_ids.len() && old_ids[p]@ == id@ && forall|j: int| 0 <= j < p ==> (#[trigger] old_ids[j])@ != id@;
            if p < c {
                assert((old_ids[p])@ != id@);
            }
            if c < p {
                assert((old_ids[c])@ != id@);
            }
        }
    }
    match pos {
        Some(p) => {
            selected_ids.remove(p);
        },
        None => {
            selected_ids.push(id);
        },
    }
}

/// Two selected items can be compared when exactly two are selected and
/// neither is a folder; then their ids, in order.
pub fn compare_pair(selected: &Vec<FileItem>) -> (r: Option<(String, String)>)
    ensures
        r is Some <==> (selected@.len() == 2 && !selected@[0].is_folder && !selected@[1].is_folder),
        r is Some ==> r.unwrap().0@ == selected@[0].id@ && r.unwrap().1@ == selected@[1].id@,
{
    if selected.len() == 2 && !selected[0].is_folder && !selected[1].is_folder {
        Some((selected[0].id.clone(), selected[1].id.clone()))
    } else {
        None
    }
}

/// Choosing an item opens it when it is a file (not a folder): the event
/// carries the item's full path.
pub fn open_file_event(item: &FileItem) -> (r: Option<FileTreeViewEvent>)
    ensures
        r is Some <==> !item.is_folder,
        r matches Some(FileTreeViewEvent::OpenFile(p)) ==> p@ == item.id@,
{
    if item.is_folder {
        None
    } else {
        Some(FileTreeViewEvent::OpenFile(item.id.clone()))
    }
}

} // verus!
