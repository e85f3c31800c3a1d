//! The structure tree: the fields that a structure definition parsed out of
//! the file, shown as a list in which expanded fields are followed by their
//! children, with the selection kept on the field under the cursor.
use vstd::prelude::*;

verus! {

/// A parsed field: where its bytes are, and its sub-fields.
pub struct FieldNode {
    pub offset: usize,
    pub size: usize,
    pub children: Vec<FieldNode>,
}

/// A row of the flattened list: the field's path of child indices from the
/// top level, its bytes, its depth, whether it has children and whether it
/// is collapsed.
pub struct FlattenedField {
    pub path: Vec<usize>,
    pub offset: usize,
    pub size: usize,
    pub depth: usize,
    pub has_children: bool,
    pub is_collapsed: bool,
}

/// A row of the flattened list as a value.
pub struct FlatEntry {
    pub path: Seq<usize>,
    pub offset: usize,
    pub size: usize,
    pub depth: usize,
    pub has_children: bool,
    pub is_collapsed: bool,
}

impl View for FlattenedField {
    type V = FlatEntry;

    open spec fn view(&self) -> FlatEntry {
        FlatEntry {
            path: self.path@,
            offset: self.offset,
            size: self.size,
            depth: self.depth,
            has_children: self.has_children,
            is_collapsed: self.is_collapsed,
        }
    }
}

/// The rows of a list of flattened fields.
pub open spec fn entries(v: Seq<FlattenedField>) -> Seq<FlatEntry> {
    v.map_values(|f: FlattenedField| f@)
}

/// The flattened list of `fields`, the first of which has index
/// `start_index` among its siblings under `parent`, at depth `depth`: each
/// field's row, followed, when it has children and its path is expanded,
/// by the flattened list of its children one level deeper.
pub open spec fn flatten_seq(
    fields: Seq<FieldNode>,
    depth: int,
    parent: Seq<usize>,
    expanded: Set<Seq<usize>>,
    start_index: int,
) -> Seq<FlatEntry>
    decreases fields,
{
    if fields.len() == 0 {
        Seq::empty()
    } else {
        let f = fields[0];
        let path = parent.push(start_index as usize);
        let has_children = f.children@.len() > 0;
        let is_expanded = expanded.contains(path);
        let entry = FlatEntry {
            path,
            offset: f.offset,
            size: f.size,
            depth: depth as usize,
            has_children,
            is_collapsed: !is_expanded,
        };
        let sub = if has_children && is_expanded {
            proof {
                assert(decreases_to!(fields => fields[0]));
                assert(decreases_to!(fields[0] => fields[0].children));
                assert(decreases_to!(fields[0].children => fields[0].children@));
            }
            flatten_seq(f.children@, depth + 1, path, expanded, 0)
        } else {
            Seq::empty()
        };
        seq![entry] + sub + flatten_seq(fields.drop_first(), depth, parent, expanded, start_index + 1)
    }
}

/// How deep the fields nest: 0 for none, else one more than the deepest
/// children.
pub open spec fn nesting(fields: Seq<FieldNode>) -> nat
    decreases fields,
{
    if fields.len() == 0 {
        0
    } else {
        let here = 1 + nesting(fields[0].children@);
        let rest = nesting(fields.drop_first());
        proof {
            assert(decreases_to!(fields => fields[0]));
            assert(decreases_to!(fields[0] => fields[0].children));
            assert(decreases_to!(fields[0].children => fields[0].children@));
        }
        if here >= rest {
            here
        } else {
            rest
        }
    }
}

/// Every field of a list nests no deeper than the list, and its children
/// one level less.
pub proof fn lemma_nesting(fields: Seq<FieldNode>, k: int)
    requires
        0 <= k < fields.len(),
    ensures
        1 + nesting(fields[k].children@) <= nesting(fields),
    decreases fields.len(),
{
    if k > 0 {
        lemma_nesting(fields.drop_first(), k - 1);
        assert(fields.drop_first()[k - 1] == fields[k]);
    }
}

/// Flattening two joined lists is flattening the first, then the second
/// with indices that continue after the first.
pub proof fn lemma_flatten_add(
    a: Seq<FieldNode>,
    b: Seq<FieldNode>,
    depth: int,
    parent: Seq<usize>,
    expanded: Set<Seq<usize>>,
    start: int,
)
    ensures
        flatten_seq(a + b, depth, parent, expanded, start) == flatten_seq(a, depth, parent, expanded, start)
            + flatten_seq(b, depth, parent, expanded, start + a.len()),
    decreases a.len(),
{
    if a.len() == 0 {
        assert(a + b =~= b);
        assert(Seq::<FlatEntry>::empty() + flatten_seq(b, depth, parent, expanded, start) =~= flatten_seq(
            b,
            depth,
            parent,
            expanded,
            start,
        ));
    } else {
        lemma_flatten_add(a.drop_first(), b, depth, parent, expanded, start + 1);
        assert((a + b).drop_first() =~= a.drop_first() + b);
        assert((a + b)[0] == a[0]);
        let f = a[0];
        let path = parent.push(start as usize);
        let has_children = f.children@.len() > 0;
        let is_expanded = expanded.contains(path);
        let entry = FlatEntry {
            path,
            offset: f.offset,
            size: f.size,
            depth: depth as usize,
            has_children,
            is_collapsed: !is_expanded,
        };
        let sub = if has_children && is_expanded {
            flatten_seq(f.children@, depth + 1, path, expanded, 0)
        } else {
            Seq::empty()
        };
        assert(flatten_seq(a + b, depth, parent, expanded, start) == seq![entry] + sub + flatten_seq(
            a.drop_first() + b,
            depth,
            parent,
            expanded,
            start + 1,
        ));
        assert(flatten_seq(a, depth, parent, expanded, start) == seq![entry] + sub + flatten_seq(
            a.drop_first(),
            depth,
            parent,
            expanded,
            start + 1,
        ));
        assert(seq![entry] + sub + (flatten_seq(a.drop_first(), depth, parent, expanded, start + 1)
            + flatten_seq(b, depth, parent, expanded, start + 1 + a.drop_first().len())) =~= seq![entry]
            + sub + flatten_seq(a.drop_first(), depth, parent, expanded, start + 1) + flatten_seq(
            b,
            depth,
            parent,
            expanded,
            start + a.len(),
        ));
    }
}

/// The paths of the expanded fields, each once.
pub struct ExpandedPaths {
    paths: Vec<Vec<usize>>,
}

/// `a` and `b` hold the same indices.
fn same_path(a: &Vec<usize>, b: &Vec<usize>) -> (r: bool)
    ensures
        r == (a@ == b@),
{
    if a.len() != b.len() {
        return false;
    }
    let mut i: usize = 0;
    while i < a.len()
        invariant
            i <= a@.len() == b@.len(),
            forall|j: int| 0 <= j < i ==> a@[j] == b@[j],
        decreases a@.len() - i,
    {
        if a[i] != b[i] {
            return false;
        }
        i = i + 1;
    }
    assert(a@ =~= b@);
    true
}

/// A copy of the path `p`.
fn copy_path(p: &Vec<usize>) -> (r: Vec<usize>)
    ensures
        r@ == p@,
{
    let mut r: Vec<usize> = Vec::new();
    let mut i: usize = 0;
    while i < p.len()
        invariant
            i <= p@.len(),
            r@ == p@.subrange(0, i as int),
        decreases p@.len() - i,
    {
        r.push(p[i]);
        i = i + 1;
    }
    assert(r@ =~= p@);
    r
}

impl ExpandedPaths {
    /// The expanded paths.
    pub closed spec fn view_set(&self) -> Set<Seq<usize>> {
        Set::new(|p: Seq<usize>| exists|i: int| 0 <= i < self.paths@.len() && #[trigger] self.paths@[i]@ == p)
    }

    /// Each path is held once.
    pub closed spec fn wf(&self) -> bool {
        forall|i: int, j: int|
            0 <= i < j < self.paths@.len() ==> #[trigger] self.paths@[i]@ != #[trigger] self.paths@[j]@
    }

    /// No path is expanded.
    pub fn new() -> (r: Self)
        ensures
            r.wf(),
            r.view_set() == Set::<Seq<usize>>::empty(),
    {
        let r = ExpandedPaths { paths: Vec::new() };
        assert(r.view_set() =~= Set::<Seq<usize>>::empty());
        r
    }

    /// Where `path` is held, if it is.
    fn position(&self, path: &Vec<usize>) -> (r: Option<usize>)
        ensures
            r is None <==> !self.view_set().contains(path@),
            r is Some ==> r.unwrap() < self.paths@.len() && self.paths@[r.unwrap() as int]@ == path@,
    {
        let mut i: usize = 0;
        while i < self.paths.len()
            invariant
                i <= self.paths@.len(),
                forall|j: int| 0 <= j < i ==> self.paths@[j]@ != path@,
            decreases self.paths@.len() - i,
        {
            if same_path(&self.paths[i], path) {
                return Some(i);
            }
            i = i + 1;
        }
        None
    }

    /// Whether `path` is expanded.
    pub fn contains(&self, path: &Vec<usize>) -> (r: bool)
        ensures
            r == self.view_set().contains(path@),
    {
        self.position(path).is_some()
    }

    /// Marks `path` expanded.
    pub fn insert(&mut self, path: Vec<usize>)
        requires
            old(self).wf(),
        ensures
            final(self).wf(),
            final(self).view_set() == old(self).view_set().insert(path@),
    {
        if self.position(&path).is_none() {
            let ghost p = path@;
            self.paths.push(path);
            proof {
                assert(self.paths@[self.paths@.len() - 1]@ == p);
                assert(self.view_set() =~= old(self).view_set().insert(p)) by {
                    assert forall|q: Seq<usize>| self.view_set().contains(q) implies old(self).view_set().insert(
                        p,
                    ).contains(q) by {
                        let i = choose|i: int| 0 <= i < self.paths@.len() && #[trigger] self.paths@[i]@ == q;
                        if i < old(self).paths@.len() {
                            assert(old(self).paths@[i] == self.paths@[i]);
                        }
                    }
                    assert forall|q: Seq<usize>| old(self).view_set().insert(p).contains(q) implies self.view_set().contains(
                        q,
                    ) by {
                        if q != p {
                            let i = choose|i: int|
                                0 <= i < old(self).paths@.len() && #[trigger] old(self).paths@[i]@ == q;
                            assert(old(self).paths@[i] == self.paths@[i]);
                        }
                    }
                }
            }
        } else {
            proof {
                assert(self.view_set() =~= old(self).view_set().insert(path@));
            }
        }
    }

    /// Marks `path` collapsed.
    pub fn remove(&mut self, path: &Vec<usize>)
        requires
            old(self).wf(),
        ensures
            final(self).wf(),
            final(self).view_set() == old(self).view_set().remove(path@),
    {
        match self.position(path) {
            Some(i) => {
                let ghost before = self.paths@;
                let _removed = self.paths.remove(i);
                proof {
                    let after = self.paths@;
                    assert forall|a: int, b: int| 0 <= a < b < after.len() implies #[trigger] after[a]@
                        != #[trigger] after[b]@ by {
                        let a0 = if a < i { a } else { a + 1 };
                        let b0 = if b < i { b } else { b + 1 };
                        assert(after[a] == before[a0] && after[b] == before[b0]);
                    }
                    assert(self.view_set() =~= old(self).view_set().remove(path@)) by {
                        assert forall|q: Seq<usize>| self.view_set().contains(q) implies old(self).view_set().remove(
                            path@,
                        ).contains(q) by {
                            let a = choose|a: int| 0 <= a < after.len() && #[trigger] after[a]@ == q;
                            let a0 = if a < i { a } else { a + 1 };
                            assert(after[a] == before[a0]);
                            assert(a0 != i);
                        }
                        assert forall|q: Seq<usize>| old(self).view_set().remove(path@).contains(q) implies self.view_set().contains(
                            q,
                        ) by {
                            let b = choose|b: int| 0 <= b < before.len() && #[trigger] before[b]@ == q;
                            assert(b != i);
                            let a = if b < i { b } else { b - 1 };
                            assert(after[a] == before[b]);
                        }
                    }
                }
            },
            None => {
                proof {
                    assert(self.view_set() =~= old(self).view_set().remove(path@));
                }
            },
        }
    }

    /// Collapses every path.
    pub fn clear(&mut self)
        ensures
            final(self).wf(),
            final(self).view_set() == Set::<Seq<usize>>::empty(),
    {
        self.paths = Vec::new();
        assert(self.view_set() =~= Set::<Seq<usize>>::empty());
    }
}

/// Appends to `results` the flattened list of `fields`, the first of which
/// has index `index_offset` among its siblings under `parent_path`, at
/// depth `depth`.
pub fn flatten_fields(
    fields: &[FieldNode],
    depth: usize,
    parent_path: &Vec<usize>,
    expanded_paths: &ExpandedPaths,
    results: &mut Vec<FlattenedField>,
    index_offset: usize,
)
    requires
        depth + nesting(fields@) <= usize::MAX,
        index_offset + fields@.len() <= usize::MAX,
    ensures
        entries(final(results)@) == entries(old(results)@) + flatten_seq(
            fields@,
            depth as int,
            parent_path@,
            expanded_paths.view_set(),
            index_offset as int,
        ),
    decreases fields@,
{
    let ghost start = entries(results@);
    let ghost exp = expanded_paths.view_set();
    let mut k: usize = 0;
    while k < fields.len()
        invariant
            k <= fields@.len(),
            depth + nesting(fields@) <= usize::MAX,
            index_offset + fields@.len() <= usize::MAX,
            exp == expanded_paths.view_set(),
            entries(results@) == start + flatten_seq(
                fields@.take(k as int),
                depth as int,
                parent_path@,
                exp,
                index_offset as int,
            ),
        decreases fields@.len() - k,
    {
        let field = &fields[k];
        let idx = index_offset + k;
        let mut current_path = copy_path(parent_path);
        current_path.push(idx);
        let has_children = field.children.len() > 0;
        let is_expanded = expanded_paths.contains(&current_path);
        let ghost before = entries(results@);
        let ghost path = current_path@;
        results.push(
            FlattenedField {
                path: copy_path(&current_path),
                offset: field.offset,
                size: field.size,
                depth,
                has_children,
                is_collapsed: !is_expanded,
            },
        );
        proof {
            assert(entries(results@) =~= before.push(results@[results@.len() - 1]@));
        }
        let ghost mid = entries(results@);
        if has_children && is_expanded {
            proof {
                lemma_nesting(fields@, k as int);
                assert(decreases_to!(fields@ => fields@[k as int]));
                assert(decreases_to!(fields@[k as int] => fields@[k as int].children));
                assert(decreases_to!(fields@[k as int].children => fields@[k as int].children@));
            }
            flatten_fields(field.children.as_slice(), depth + 1, &current_path, expanded_paths, results, 0);
        }
        proof {
            let f = fields@[k as int];
            let entry = FlatEntry {
                path,
                offset: f.offset,
                size: f.size,
                depth: depth as usize,
                has_children,
                is_collapsed: !is_expanded,
            };
            let sub = if has_children && is_expanded {
                flatten_seq(f.children@, depth + 1, path, exp, 0)
            } else {
                Seq::empty()
            };
            assert(entries(results@) =~= before + (seq![entry] + sub));
            let one = seq![f];
            assert(one[0] == f);
            assert(one.drop_first() =~= Seq::<FieldNode>::empty());
            assert(path == parent_path@.push((index_offset + k) as usize));
            assert(flatten_seq(Seq::<FieldNode>::empty(), depth as int, parent_path@, exp, index_offset + k + 1)
                == Seq::<FlatEntry>::empty());
            assert(flatten_seq(one, depth as int, parent_path@, exp, index_offset + k) =~= seq![entry] + sub
                + Seq::<FlatEntry>::empty());
            assert(fields@.take(k + 1) =~= fields@.take(k as int) + one);
            lemma_flatten_add(fields@.take(k as int), one, depth as int, parent_path@, exp, index_offset as int);
        }
        k = k + 1;
    }
    assert(fields@.take(k as int) =~= fields@);
}

/// The field at `path` (a top-level index, then child indices), if every
/// index is in range.
pub open spec fn node_at(fields: Seq<FieldNode>, path: Seq<usize>) -> Option<FieldNode>
    decreases path.len(),
{
    if path.len() == 0 || path[0] >= fields.len() {
        None
    } else if path.len() == 1 {
        Some(fields[path[0] as int])
    } else {
        node_at(fields[path[0] as int].children@, path.drop_first())
    }
}

/// The offset of the first leaf under `field`, following first children.
pub open spec fn first_leaf_offset(field: FieldNode) -> usize
    decreases field,
{
    if field.children@.len() == 0 {
        field.offset
    } else {
        proof {
            assert(decreases_to!(field => field.children));
            assert(decreases_to!(field.children => field.children@));
            assert(decreases_to!(field.children@ => field.children@[0]));
        }
        first_leaf_offset(field.children@[0])
    }
}

/// The field at `path` among `fields`, if every index is in range.
pub fn field_at_path<'a>(fields: &'a Vec<FieldNode>, path: &[usize]) -> (r: Option<&'a FieldNode>)
    ensures
        r is None <==> node_at(fields@, path@) is None,
        r is Some ==> *r.unwrap() == node_at(fields@, path@).unwrap(),
{
    if path.len() == 0 || path[0] >= fields.len() {
        return None;
    }
    let mut target_field: &FieldNode = &fields[path[0]];
    proof {
        assert(path@.drop_first() =~= path@.subrange(1, path@.len() as int));
    }
    let mut i: usize = 1;
    while i < path.len()
        invariant
            1 <= i <= path@.len(),
            path@.len() > i ==> node_at(fields@, path@) == node_at(
                target_field.children@,
                path@.subrange(i as int, path@.len() as int),
            ),
            path@.len() == i ==> node_at(fields@, path@) == Some(*target_field),
        decreases path@.len() - i,
    {
        let idx = path[i];
        if idx >= target_field.children.len() {
            proof {
                let rest = path@.subrange(i as int, path@.len() as int);
                assert(rest[0] == idx);
            }
            return None;
        }
        proof {
            let rest = path@.subrange(i as int, path@.len() as int);
            assert(rest[0] == idx);
            assert(rest.drop_first() =~= path@.subrange(i + 1, path@.len() as int));
        }
        target_field = &target_field.children[idx];
        i = i + 1;
    }
    Some(target_field)
}

/// The offset of the first leaf under `field`.
pub fn find_first_leaf_offset(field: &FieldNode) -> (r: usize)
    ensures
        r == first_leaf_offset(*field),
{
    let mut current: &FieldNode = field;
    while current.children.len() > 0
        invariant
            first_leaf_offset(*current) == first_leaf_offset(*field),
        decreases *current,
    {
        proof {
            assert(decreases_to!(*current => current.children));
            assert(decreases_to!(current.children => current.children@));
            assert(decreases_to!(current.children@ => current.children@[0]));
        }
        current = &current.children[0];
    }
    current.offset
}

/// Row `e` holds the byte at `cursor`: within its bytes, or at its offset
/// when it has none.
pub open spec fn covers(e: FlatEntry, cursor: int) -> bool {
    if e.size > 0 {
        e.offset <= cursor < e.offset + e.size
    } else {
        cursor == e.offset
    }
}

/// Row `a` is a better place for the cursor than row `b`: a leaf before a
/// container, then the deeper, then the shorter.
pub open spec fn ranks_above(a: FlatEntry, b: FlatEntry) -> bool {
    let la = !a.has_children;
    let lb = !b.has_children;
    (la && !lb) || (la == lb && a.depth > b.depth) || (la == lb && a.depth == b.depth && a.size < b.size)
}

/// Row `i` is the row chosen for the cursor among rows `from..`: it covers
/// the cursor, no covering row ranks above it, and it ranks above every
/// covering row before it.
pub open spec fn best_row(es: Seq<FlatEntry>, cursor: int, from: int, i: int) -> bool {
    &&& from <= i < es.len()
    &&& covers(es[i], cursor)
    &&& forall|j: int| from <= j < es.len() && covers(#[trigger] es[j], cursor) ==> !ranks_above(es[j], es[i])
    &&& forall|j: int| from <= j < i && covers(#[trigger] es[j], cursor) ==> ranks_above(es[i], es[j])
}

/// The row chosen for the cursor is the best place for it among the rows
/// from `from` on that cover the cursor: a leaf whenever any of them is a
/// leaf; among those of its kind (leaf or container), the deepest; among
/// those as deep, the shortest; and it comes strictly ahead of every
/// covering row listed before it, so of rows that tie the first is taken.
pub proof fn lemma_best_row_is_best(es: Seq<FlatEntry>, cursor: int, from: int, i: int, j: int)
    requires
        best_row(es, cursor, from, i),
        from <= j < es.len(),
        covers(es[j], cursor),
    ensures
        covers(es[i], cursor),
        !es[j].has_children ==> !es[i].has_children,
        es[j].has_children == es[i].has_children ==> es[j].depth <= es[i].depth,
        es[j].has_children == es[i].has_children && es[j].depth == es[i].depth ==> es[i].size <= es[j].size,
        j < i ==> {
            ||| (!es[i].has_children && es[j].has_children)
            ||| (es[i].has_children == es[j].has_children && es[i].depth > es[j].depth)
            ||| (es[i].has_children == es[j].has_children && es[i].depth == es[j].depth && es[i].size
                < es[j].size)
        },
{
    assert(!ranks_above(es[j], es[i]));
    if j < i {
        assert(ranks_above(es[i], es[j]));
    }
}

/// Whether row `f` holds the byte at `cursor`.
fn covers_cursor(f: &FlattenedField, cursor: usize) -> (r: bool)
    ensures
        r == covers(f@, cursor as int),
{
    if f.size > 0 {
        cursor >= f.offset && cursor - f.offset < f.size
    } else {
        cursor == f.offset
    }
}

/// The row chosen for the cursor among rows `from..`, if any covers it.
fn best_row_from(rows: &Vec<FlattenedField>, cursor: usize, from: usize) -> (r: Option<usize>)
    requires
        from <= rows@.len(),
    ensures
        r is None <==> forall|j: int| from <= j < rows@.len() ==> !covers(#[trigger] entries(rows@)[j], cursor as int),
        r is Some ==> best_row(entries(rows@), cursor as int, from as int, r.unwrap() as int),
{
    let ghost es = entries(rows@);
    let mut best: Option<usize> = None;
    let mut i: usize = from;
    while i < rows.len()
        invariant
            from <= i <= rows@.len(),
            es == entries(rows@),
            best is None ==> forall|j: int| from <= j < i ==> !covers(#[trigger] es[j], cursor as int),
            best is Some ==> {
                let b = best.unwrap() as int;
                &&& from <= b < i
                &&& covers(es[b], cursor as int)
                &&& forall|j: int| from <= j < i && covers(#[trigger] es[j], cursor as int) ==> !ranks_above(es[j], es[b])
                &&& forall|j: int| from <= j < b && covers(#[trigger] es[j], cursor as int) ==> ranks_above(es[b], es[j])
            },
        decreases rows@.len() - i,
    {
        let field = &rows[i];
        proof {
            assert(es[i as int] == field@);
        }
        if covers_cursor(field, cursor) {
            match best {
                None => {
                    best = Some(i);
                },
                Some(b) => {
                    let cur = &rows[b];
                    proof {
                        assert(es[b as int] == cur@);
                    }
                    let is_leaf = !field.has_children;
                    let best_is_leaf = !cur.has_children;
                    if (is_leaf && !best_is_leaf) || (is_leaf == best_is_leaf && field.depth > cur.depth) || (
                    is_leaf == best_is_leaf && field.depth == cur.depth && field.size < cur.size) {
                        best = Some(i);
                    }
                },
            }
        }
        i = i + 1;
    }
    best
}

/// The bytes `start..end`.
#[derive(Clone, Copy, Debug, PartialEq, Eq, Structural)]
pub struct ByteRange {
    pub start: usize,
    pub end: usize,
}

/// Where selecting a row takes the editor: the bytes to select and the
/// cursor (none without an editor), and the offset to show.
#[derive(Clone, Copy, Debug, PartialEq, Eq, Structural)]
pub struct ItemNavigation {
    pub selection: Option<ByteRange>,
    pub cursor: Option<usize>,
    pub offset: usize,
    pub size: usize,
}

/// The structure tree's state: the parsed top-level fields (none without a
/// parse), the flattened list, the expanded paths, the selected row, and
/// where the last search for the cursor's row stopped.
pub struct StructTree {
    fields: Option<Vec<FieldNode>>,
    flattened_fields: Vec<FlattenedField>,
    expanded_paths: ExpandedPaths,
    selected_index: Option<usize>,
    last_selection_cursor: Option<usize>,
    last_selection_scan_len: usize,
}

/// The fields of a parse, none when there is no parse.
pub open spec fn field_list(fields: Option<Vec<FieldNode>>) -> Seq<FieldNode> {
    match fields {
        Some(v) => v@,
        None => Seq::empty(),
    }
}

impl StructTree {
    /// The parsed top-level fields.
    pub closed spec fn spec_fields(&self) -> Seq<FieldNode> {
        field_list(self.fields)
    }

    /// The rows of the flattened list.
    pub closed spec fn rows(&self) -> Seq<FlatEntry> {
        entries(self.flattened_fields@)
    }

    /// The expanded paths.
    pub closed spec fn expanded(&self) -> Set<Seq<usize>> {
        self.expanded_paths.view_set()
    }

    /// The selected row.
    pub closed spec fn selected(&self) -> Option<usize> {
        self.selected_index
    }

    /// The cursor at the last search for its row.
    pub closed spec fn last_cursor(&self) -> Option<usize> {
        self.last_selection_cursor
    }

    /// How many rows the last search covered.
    pub closed spec fn scan_len(&self) -> usize {
        self.last_selection_scan_len
    }

    /// The flattened list is the flattening of the fields under the expanded
    /// paths, and the fields nest within what a depth can count.
    pub closed spec fn wf(&self) -> bool {
        &&& self.expanded_paths.wf()
        &&& nesting(field_list(self.fields)) <= usize::MAX
        &&& entries(self.flattened_fields@) == flatten_seq(
            field_list(self.fields),
            0,
            Seq::empty(),
            self.expanded_paths.view_set(),
            0,
        )
    }

    /// A tree with no parse.
    pub fn new() -> (r: Self)
        ensures
            r.wf(),
            r.spec_fields() == Seq::<FieldNode>::empty(),
            r.rows() == Seq::<FlatEntry>::empty(),
            r.expanded() == Set::<Seq<usize>>::empty(),
            r.selected() is None,
            r.last_cursor() is None,
            r.scan_len() == 0,
    {
        let r = StructTree {
            fields: None,
            flattened_fields: Vec::new(),
            expanded_paths: ExpandedPaths::new(),
            selected_index: None,
            last_selection_cursor: None,
            last_selection_scan_len: 0,
        };
        assert(entries(r.flattened_fields@) =~= Seq::<FlatEntry>::empty());
        r
    }

    /// The flattened list.
    pub fn flattened_fields(&self) -> (r: &Vec<FlattenedField>)
        ensures
            entries(r@) == self.rows(),
    {
        &self.flattened_fields
    }

    /// The selected row.
    pub fn selected_index(&self) -> (r: Option<usize>)
        ensures
            r == self.selected(),
    {
        self.selected_index
    }

    /// Flattens the fields again under the expanded paths; the next search
    /// for the cursor's row starts over.
    pub fn rebuild_flattened(&mut self)
        requires
            old(self).wf(),
        ensures
            final(self).wf(),
            final(self).rows() == old(self).rows(),
            final(self).spec_fields() == old(self).spec_fields(),
            final(self).expanded() == old(self).expanded(),
            final(self).selected() == old(self).selected(),
            final(self).last_cursor() is None,
            final(self).scan_len() == 0,
    {
        self.rebuild();
    }

    /// Flattens the fields again under the expanded paths.
    fn rebuild(&mut self)
        requires
            nesting(old(self).spec_fields()) <= usize::MAX,
            old(self).expanded_paths.wf(),
        ensures
            final(self).wf(),
            final(self).rows() == flatten_seq(old(self).spec_fields(), 0, Seq::empty(), old(self).expanded(), 0),
            final(self).spec_fields() == old(self).spec_fields(),
            final(self).expanded() == old(self).expanded(),
            final(self).selected() == old(self).selected(),
            final(self).last_cursor() is None,
            final(self).scan_len() == 0,
    {
        let mut flattened: Vec<FlattenedField> = Vec::new();
        let root: Vec<usize> = Vec::new();
        match &self.fields {
            Some(res) => {
                proof {
                    assert(entries(flattened@) =~= Seq::<FlatEntry>::empty());
                    assert(root@ =~= Seq::<usize>::empty());
                }
                let top = res.as_slice();
                proof {
                    assert(top@ == res@);
                    assert(top@.len() == top.len());
                }
                flatten_fields(top, 0, &root, &self.expanded_paths, &mut flattened, 0);
                proof {
                    assert(Seq::<FlatEntry>::empty() + flatten_seq(res@, 0, root@, self.expanded_paths.view_set(), 0)
                        =~= flatten_seq(res@, 0, root@, self.expanded_paths.view_set(), 0));
                }
            },
            None => {
                proof {
                    assert(entries(flattened@) =~= Seq::<FlatEntry>::empty());
                }
            },
        }
        self.flattened_fields = flattened;
        self.last_selection_cursor = None;
        self.last_selection_scan_len = 0;
    }

    /// Replaces the parse: every path is collapsed, the list is rebuilt, and
    /// nothing is selected.
    pub fn set_parse_result(&mut self, fields: Option<Vec<FieldNode>>)
        requires
            nesting(field_list(fields)) <= usize::MAX,
        ensures
            final(self).wf(),
            final(self).spec_fields() == field_list(fields),
            final(self).expanded() == Set::<Seq<usize>>::empty(),
            final(self).rows() == flatten_seq(field_list(fields), 0, Seq::empty(), Set::<Seq<usize>>::empty(), 0),
            final(self).selected() is None,
            final(self).last_cursor() is None,
            final(self).scan_len() == 0,
    {
        self.expanded_paths.clear();
        self.fields = fields;
        self.rebuild();
        self.selected_index = None;
        self.last_selection_cursor = None;
        self.last_selection_scan_len = 0;
    }

    /// Adds fields that a parse still running has found after those the
    /// tree has: they are flattened and their rows appended.
    pub fn append_fields(&mut self, new_fields: Vec<FieldNode>)
        requires
            old(self).wf(),
            nesting(old(self).spec_fields() + new_fields@) <= usize::MAX,
            old(self).spec_fields().len() + new_fields@.len() <= usize::MAX,
        ensures
            final(self).wf(),
            final(self).spec_fields() == old(self).spec_fields() + new_fields@,
            final(self).rows() == old(self).rows() + flatten_seq(
                new_fields@,
                0,
                Seq::empty(),
                old(self).expanded(),
                old(self).spec_fields().len() as int,
            ),
            final(self).expanded() == old(self).expanded(),
            final(self).selected() == old(self).selected(),
            final(self).last_cursor() == old(self).last_cursor(),
            final(self).scan_len() == old(self).scan_len(),
    {
        let ghost old_fields = field_list(self.fields);
        let previous_field_count = match &self.fields {
            Some(v) => v.len(),
            None => 0,
        };
        let root: Vec<usize> = Vec::new();
        proof {
            assert(root@ =~= Seq::<usize>::empty());
            lemma_nesting_add(old_fields, new_fields@);
        }
        flatten_fields(
            new_fields.as_slice(),
            0,
            &root,
            &self.expanded_paths,
            &mut self.flattened_fields,
            previous_field_count,
        );
        let mut all = match self.fields.take() {
            Some(v) => v,
            None => Vec::new(),
        };
        let mut add = new_fields;
        all.append(&mut add);
        self.fields = Some(all);
        proof {
            lemma_flatten_add(old_fields, new_fields@, 0, Seq::empty(), self.expanded_paths.view_set(), 0);
        }
    }
    /// Brings the selection to the row under the cursor. The selected row
    /// stays when it covers the cursor; else the rows are searched (from
    /// where the last search stopped, when the cursor has not moved and
    /// nothing is selected) for the best covering row, which is selected, or
    /// the selection is dropped when none covers the cursor. Returns the row
    /// to scroll to when the selection moved to a new row.
    pub fn sync_selected_index_from_cursor(&mut self, cursor_offset: usize) -> (r: Option<usize>)
        requires
            old(self).wf(),
        ensures
            final(self).wf(),
            final(self).rows() == old(self).rows(),
            final(self).spec_fields() == old(self).spec_fields(),
            final(self).expanded() == old(self).expanded(),
            ({
                let es = old(self).rows();
                let n = es.len();
                let c = cursor_offset as int;
                let sel = old(self).selected();
                let keeps = sel is Some && sel.unwrap() < n && covers(es[sel.unwrap() as int], c);
                let changed = old(self).last_cursor() != Some(cursor_offset);
                let scan_start = if !changed && sel is None && old(self).scan_len() <= n {
                    old(self).scan_len() as int
                } else {
                    0
                };
                if n == 0 {
                    &&& r is None
                    &&& final(self).selected() == sel
                    &&& final(self).last_cursor() == Some(cursor_offset)
                    &&& final(self).scan_len() == 0
                } else if keeps {
                    &&& r is None
                    &&& final(self).selected() == sel
                    &&& final(self).last_cursor() == Some(cursor_offset)
                    &&& final(self).scan_len() == n
                } else if scan_start == n {
                    &&& r is None
                    &&& final(self).selected() == sel
                    &&& final(self).last_cursor() == old(self).last_cursor()
                    &&& final(self).scan_len() == old(self).scan_len()
                } else {
                    &&& final(self).last_cursor() == Some(cursor_offset)
                    &&& final(self).scan_len() == n
                    &&& (forall|j: int| scan_start <= j < n ==> !covers(#[trigger] es[j], c))
                        ==> final(self).selected() is None && r is None
                    &&& (exists|j: int| scan_start <= j < n && covers(#[trigger] es[j], c)) ==> {
                        &&& final(self).selected() is Some
                        &&& best_row(es, c, scan_start, final(self).selected().unwrap() as int)
                        &&& forall|j: int|
                            scan_start <= j < n && covers(#[trigger] es[j], c) ==> {
                                let b = es[final(self).selected().unwrap() as int];
                                &&& (!es[j].has_children ==> !b.has_children)
                                &&& (es[j].has_children == b.has_children ==> es[j].depth <= b.depth)
                                &&& (es[j].has_children == b.has_children && es[j].depth == b.depth
                                    ==> b.size <= es[j].size)
                            }
                        &&& r == if sel == final(self).selected() {
                            None
                        } else {
                            final(self).selected()
                        }
                    }
                }
            }),
    {
        let n = self.flattened_fields.len();
        if n == 0 {
            self.last_selection_cursor = Some(cursor_offset);
            self.last_selection_scan_len = 0;
            return None;
        }
        match self.selected_index {
            Some(curr_idx) => {
                if curr_idx < n {
                    let field = &self.flattened_fields[curr_idx];
                    if covers_cursor(field, cursor_offset) {
                        self.last_selection_cursor = Some(cursor_offset);
                        self.last_selection_scan_len = n;
                        return None;
                    }
                }
            },
            None => {},
        }
        let cursor_changed = self.last_selection_cursor != Some(cursor_offset);
        let scan_start = if !cursor_changed && self.selected_index.is_none() && self.last_selection_scan_len <= n {
            self.last_selection_scan_len
        } else {
            0
        };
        if scan_start == n {
            return None;
        }
        let best_match = best_row_from(&self.flattened_fields, cursor_offset, scan_start);
        proof {
            if best_match is Some {
                let es = entries(self.flattened_fields@);
                let i = best_match.unwrap() as int;
                assert forall|j: int| scan_start <= j < n && covers(#[trigger] es[j], cursor_offset as int) implies {
                    let b = es[i];
                    &&& (!es[j].has_children ==> !b.has_children)
                    &&& (es[j].has_children == b.has_children ==> es[j].depth <= b.depth)
                    &&& (es[j].has_children == b.has_children && es[j].depth == b.depth ==> b.size <= es[j].size)
                } by {
                    lemma_best_row_is_best(es, cursor_offset as int, scan_start as int, i, j);
                }
            }
        }
        self.last_selection_cursor = Some(cursor_offset);
        self.last_selection_scan_len = n;
        match best_match {
            Some(idx) => {
                if self.selected_index != Some(idx) {
                    self.selected_index = Some(idx);
                    Some(idx)
                } else {
                    None
                }
            },
            None => {
                self.selected_index = None;
                None
            },
        }
    }

    /// Selects row `idx` and says where the editor goes: with an editor of
    /// `total` bytes (`Some`), a row with bytes selects them, kept within the
    /// file, and puts the cursor at their start; any other row puts the
    /// cursor at its offset (for a container without bytes, the offset of
    /// its first leaf), kept within the file. Nothing happens when there is
    /// no such row.
    pub fn select_item(&mut self, idx: usize, total: Option<usize>) -> (r: Option<ItemNavigation>)
        requires
            old(self).wf(),
        ensures
            final(self).wf(),
            final(self).rows() == old(self).rows(),
            final(self).spec_fields() == old(self).spec_fields(),
            final(self).expanded() == old(self).expanded(),
            final(self).last_cursor() == old(self).last_cursor(),
            final(self).scan_len() == old(self).scan_len(),
            idx >= old(self).rows().len() ==> r is None && final(self).selected() == old(self).selected(),
            idx < old(self).rows().len() ==> final(self).selected() == Some(idx) && r == Some(
                item_navigation(old(self).rows()[idx as int], old(self).spec_fields(), total),
            ),
    {
        if idx >= self.flattened_fields.len() {
            return None;
        }
        self.selected_index = Some(idx);
        let item = &self.flattened_fields[idx];
        let offset = if item.size == 0 && item.has_children {
            match &self.fields {
                Some(fields) => match field_at_path(fields, item.path.as_slice()) {
                    Some(parsed_field) => find_first_leaf_offset(parsed_field),
                    None => item.offset,
                },
                None => {
                    proof {
                        assert(node_at(Seq::<FieldNode>::empty(), item.path@) is None);
                    }
                    item.offset
                },
            }
        } else {
            item.offset
        };
        let nav = match total {
            None => ItemNavigation { selection: None, cursor: None, offset, size: item.size },
            Some(t) => {
                if t > 0 && item.size > 0 {
                    let last = t - 1;
                    let start = if item.offset < last {
                        item.offset
                    } else {
                        last
                    };
                    let end = if item.offset >= last {
                        last
                    } else if item.size - 1 >= last - item.offset {
                        last
                    } else {
                        item.offset + (item.size - 1)
                    };
                    ItemNavigation {
                        selection: Some(ByteRange { start, end: end + 1 }),
                        cursor: Some(start),
                        offset: start,
                        size: item.size,
                    }
                } else {
                    let clamped = if offset < t {
                        offset
                    } else {
                        t
                    };
                    ItemNavigation { selection: None, cursor: Some(clamped), offset: clamped, size: item.size }
                }
            },
        };
        Some(nav)
    }

    /// Expands row `idx` when it is collapsed, collapses it when expanded
    /// (only rows with children), and rebuilds the list; the selection stays
    /// at `idx`, or goes to the last row when the list got shorter. Returns
    /// whether anything changed.
    pub fn toggle_collapse_at(&mut self, idx: usize) -> (r: bool)
        requires
            old(self).wf(),
        ensures
            final(self).wf(),
            final(self).spec_fields() == old(self).spec_fields(),
            r == (idx < old(self).rows().len() && old(self).rows()[idx as int].has_children),
            !r ==> final(self).rows() == old(self).rows() && final(self).expanded() == old(self).expanded()
                && final(self).selected() == old(self).selected() && final(self).last_cursor()
                == old(self).last_cursor() && final(self).scan_len() == old(self).scan_len(),
            r ==> {
                let path = old(self).rows()[idx as int].path;
                &&& final(self).expanded() == if old(self).expanded().contains(path) {
                    old(self).expanded().remove(path)
                } else {
                    old(self).expanded().insert(path)
                }
                &&& final(self).rows() == flatten_seq(
                    old(self).spec_fields(),
                    0,
                    Seq::empty(),
                    final(self).expanded(),
                    0,
                )
                &&& final(self).selected() == if idx < final(self).rows().len() {
                    Some(idx)
                } else if final(self).rows().len() > 0 {
                    Some((final(self).rows().len() - 1) as usize)
                } else {
                    old(self).selected()
                }
                &&& final(self).last_cursor() is None
                &&& final(self).scan_len() == 0
            },
    {
        if idx >= self.flattened_fields.len() {
            return false;
        }
        if !self.flattened_fields[idx].has_children {
            return false;
        }
        let path = copy_path(&self.flattened_fields[idx].path);
        if self.expanded_paths.contains(&path) {
            self.expanded_paths.remove(&path);
        } else {
            self.expanded_paths.insert(path);
        }
        self.rebuild();
        let n = self.flattened_fields.len();
        if idx < n {
            self.selected_index = Some(idx);
        } else if n > 0 {
            self.selected_index = Some(n - 1);
        }
        true
    }

    /// The row a move up goes to: the one above the selected row (the first
    /// row when none is selected); none when the list is empty.
    pub fn move_up(&self) -> (r: Option<usize>)
        ensures
            self.rows().len() == 0 ==> r is None,
            self.rows().len() > 0 ==> r == Some(
                match self.selected() {
                    Some(i) => if i > 0 {
                        (i - 1) as usize
                    } else {
                        0usize
                    },
                    None => 0usize,
                },
            ),
    {
        if self.flattened_fields.len() == 0 {
            return None;
        }
        let next_idx = match self.selected_index {
            Some(idx) => idx.saturating_sub(1),
            None => 0,
        };
        Some(next_idx)
    }

    /// The row a move down goes to: the one below the selected row, at most
    /// the last (the first row when none is selected); none when the list is
    /// empty.
    pub fn move_down(&self) -> (r: Option<usize>)
        ensures
            self.rows().len() == 0 ==> r is None,
            self.rows().len() > 0 ==> r == Some(
                match self.selected() {
                    Some(i) => if i + 1 < self.rows().len() {
                        (i + 1) as usize
                    } else {
                        (self.rows().len() - 1) as usize
                    },
                    None => 0usize,
                },
            ),
    {
        let n = self.flattened_fields.len();
        if n == 0 {
            return None;
        }
        let max_idx = n - 1;
        let next_idx = match self.selected_index {
            Some(idx) => if idx >= max_idx {
                max_idx
            } else {
                idx + 1
            },
            None => 0,
        };
        Some(next_idx)
    }

    /// Expands the selected row when it has children and is collapsed.
    pub fn expand(&mut self)
        requires
            old(self).wf(),
        ensures
            final(self).wf(),
            final(self).spec_fields() == old(self).spec_fields(),
            ({
                let sel = old(self).selected();
                let es = old(self).rows();
                if sel is Some && sel.unwrap() < es.len() && es[sel.unwrap() as int].has_children
                    && es[sel.unwrap() as int].is_collapsed {
                    &&& final(self).expanded() == old(self).expanded().insert(es[sel.unwrap() as int].path)
                    &&& final(self).rows() == flatten_seq(
                        old(self).spec_fields(),
                        0,
                        Seq::empty(),
                        final(self).expanded(),
                        0,
                    )
                } else {
                    &&& final(self).expanded() == old(self).expanded()
                    &&& final(self).rows() == old(self).rows()
                    &&& final(self).selected() == old(self).selected()
                }
            }),
    {
        match self.selected_index {
            Some(idx) => {
                if idx < self.flattened_fields.len() {
                    let field = &self.flattened_fields[idx];
                    if field.has_children && field.is_collapsed {
                        proof {
                            lemma_row_collapsed(self.spec_fields(), self.expanded(), idx as int);
                        }
                        self.toggle_collapse_at(idx);
                    }
                }
            },
            None => {},
        }
    }

    /// Collapses the selected row when it has children and is expanded;
    /// else, for a row below the top level, gives the row of its parent to
    /// select: the nearest row above it one level up.
    pub fn collapse(&mut self) -> (r: Option<usize>)
        requires
            old(self).wf(),
        ensures
            final(self).wf(),
            final(self).spec_fields() == old(self).spec_fields(),
            ({
                let sel = old(self).selected();
                let es = old(self).rows();
                if sel is Some && sel.unwrap() < es.len() {
                    let i = sel.unwrap() as int;
                    let e = es[i];
                    if e.has_children && !e.is_collapsed {
                        &&& r is None
                        &&& final(self).expanded() == old(self).expanded().remove(e.path)
                        &&& final(self).rows() == flatten_seq(
                            old(self).spec_fields(),
                            0,
                            Seq::empty(),
                            final(self).expanded(),
                            0,
                        )
                    } else {
                        &&& final(self).expanded() == old(self).expanded()
                        &&& final(self).rows() == old(self).rows()
                        &&& final(self).selected() == old(self).selected()
                        &&& r is None <==> (e.depth == 0 || forall|p: int|
                            0 <= p < i ==> (#[trigger] es[p]).depth != e.depth - 1)
                        &&& r is Some ==> {
                            let p = r.unwrap() as int;
                            &&& 0 <= p < i
                            &&& es[p].depth == e.depth - 1
                            &&& forall|q: int| p < q < i ==> (#[trigger] es[q]).depth != e.depth - 1
                        }
                    }
                } else {
                    &&& r is None
                    &&& final(self).expanded() == old(self).expanded()
                    &&& final(self).rows() == old(self).rows()
                    &&& final(self).selected() == old(self).selected()
                }
            }),
    {
        let idx = match self.selected_index {
            Some(i) => i,
            None => {
                return None;
            },
        };
        if idx >= self.flattened_fields.len() {
            return None;
        }
        let has_children = self.flattened_fields[idx].has_children;
        let is_collapsed = self.flattened_fields[idx].is_collapsed;
        let depth = self.flattened_fields[idx].depth;
        if has_children && !is_collapsed {
            proof {
                lemma_row_collapsed(self.spec_fields(), self.expanded(), idx as int);
            }
            self.toggle_collapse_at(idx);
            return None;
        }
        if depth == 0 {
            return None;
        }
        parent_row(&self.flattened_fields, idx, depth - 1)
    }

    /// Collapses every row and rebuilds the list; the selection is kept
    /// within the shorter list.
    pub fn collapse_all(&mut self)
        requires
            old(self).wf(),
        ensures
            final(self).wf(),
            final(self).spec_fields() == old(self).spec_fields(),
            final(self).expanded() == Set::<Seq<usize>>::empty(),
            final(self).rows() == flatten_seq(old(self).spec_fields(), 0, Seq::empty(), Set::<Seq<usize>>::empty(), 0),
            final(self).selected() == match old(self).selected() {
                Some(i) => Some(
                    if i < final(self).rows().len() {
                        i
                    } else if final(self).rows().len() > 0 {
                        (final(self).rows().len() - 1) as usize
                    } else {
                        0usize
                    },
                ),
                None => None,
            },
    {
        self.expanded_paths.clear();
        self.rebuild();
        let n = self.flattened_fields.len();
        self.selected_index = match self.selected_index {
            Some(idx) => Some(
                if idx < n.saturating_sub(1) {
                    idx
                } else {
                    n.saturating_sub(1)
                },
            ),
            None => None,
        };
    }

    /// Expands every row that has children and rebuilds the list.
    pub fn expand_all(&mut self)
        requires
            old(self).wf(),
        ensures
            final(self).wf(),
            final(self).spec_fields() == old(self).spec_fields(),
            final(self).expanded() == old(self).expanded().union(
                branch_paths(old(self).spec_fields(), Seq::empty(), 0),
            ),
            final(self).rows() == flatten_seq(old(self).spec_fields(), 0, Seq::empty(), final(self).expanded(), 0),
            final(self).selected() == old(self).selected(),
    {
        let root: Vec<usize> = Vec::new();
        proof {
            assert(root@ =~= Seq::<usize>::empty());
        }
        match &self.fields {
            Some(res) => {
                collect_branches(res.as_slice(), &root, &mut self.expanded_paths);
            },
            None => {
                proof {
                    assert(branch_paths(Seq::<FieldNode>::empty(), Seq::empty(), 0) == Set::<Seq<usize>>::empty());
                    assert(self.expanded_paths.view_set().union(Set::<Seq<usize>>::empty()) =~= self.expanded_paths.view_set());
                }
            },
        }
        self.rebuild();
    }
}

/// The nearest row above row `idx` at depth `target_depth`.
fn parent_row(rows: &Vec<FlattenedField>, idx: usize, target_depth: usize) -> (r: Option<usize>)
    requires
        idx < rows@.len(),
    ensures
        r is None <==> forall|p: int| 0 <= p < idx ==> (#[trigger] entries(rows@)[p]).depth != target_depth,
        r is Some ==> {
            let p = r.unwrap() as int;
            &&& 0 <= p < idx
            &&& entries(rows@)[p].depth == target_depth
            &&& forall|q: int| p < q < idx ==> (#[trigger] entries(rows@)[q]).depth != target_depth
        },
{
    let mut p: usize = idx;
    while p > 0
        invariant
            p <= idx < rows@.len(),
            forall|q: int| p <= q < idx ==> (#[trigger] entries(rows@)[q]).depth != target_depth,
        decreases p,
    {
        p = p - 1;
        proof {
            assert(entries(rows@)[p as int] == rows@[p as int]@);
        }
        if rows[p].depth == target_depth {
            return Some(p);
        }
    }
    None
}

/// A row's `is_collapsed` says whether its path is not expanded, and its
/// path has its field's index last.
pub proof fn lemma_row_collapsed(fields: Seq<FieldNode>, expanded: Set<Seq<usize>>, i: int)
    requires
        0 <= i < flatten_seq(fields, 0, Seq::empty(), expanded, 0).len(),
    ensures
        flatten_seq(fields, 0, Seq::empty(), expanded, 0)[i].is_collapsed == !expanded.contains(
            flatten_seq(fields, 0, Seq::empty(), expanded, 0)[i].path,
        ),
{
    lemma_rows_collapsed(fields, 0, Seq::empty(), expanded, 0);
}

/// Every row of a flattened list says whether its path is expanded.
pub proof fn lemma_rows_collapsed(
    fields: Seq<FieldNode>,
    depth: int,
    parent: Seq<usize>,
    expanded: Set<Seq<usize>>,
    start: int,
)
    ensures
        forall|i: int|
            0 <= i < flatten_seq(fields, depth, parent, expanded, start).len() ==> (#[trigger] flatten_seq(
                fields,
                depth,
                parent,
                expanded,
                start,
            )[i]).is_collapsed == !expanded.contains(flatten_seq(fields, depth, parent, expanded, start)[i].path),
    decreases fields,
{
    if fields.len() > 0 {
        let f = fields[0];
        let path = parent.push(start as usize);
        let has_children = f.children@.len() > 0;
        let is_expanded = expanded.contains(path);
        if has_children && is_expanded {
            assert(decreases_to!(fields => fields[0]));
            assert(decreases_to!(fields[0] => fields[0].children));
            assert(decreases_to!(fields[0].children => fields[0].children@));
            lemma_rows_collapsed(f.children@, depth + 1, path, expanded, 0);
        }
        lemma_rows_collapsed(fields.drop_first(), depth, parent, expanded, start + 1);
        let all = flatten_seq(fields, depth, parent, expanded, start);
        let sub = if has_children && is_expanded {
            flatten_seq(f.children@, depth + 1, path, expanded, 0)
        } else {
            Seq::empty()
        };
        let rest = flatten_seq(fields.drop_first(), depth, parent, expanded, start + 1);
        assert forall|i: int| 0 <= i < all.len() implies (#[trigger] all[i]).is_collapsed == !expanded.contains(
            all[i].path,
        ) by {
            if i == 0 {
            } else if i < 1 + sub.len() {
                assert(all[i] == sub[i - 1]);
            } else {
                assert(all[i] == rest[i - 1 - sub.len()]);
            }
        }
    }
}

/// The paths of the fields that have children, the first of `fields`
/// having index `start` under `parent`.
pub open spec fn branch_paths(fields: Seq<FieldNode>, parent: Seq<usize>, start: int) -> Set<Seq<usize>>
    decreases fields,
{
    if fields.len() == 0 {
        Set::empty()
    } else {
        let f = fields[0];
        let path = parent.push(start as usize);
        let here = if f.children@.len() > 0 {
            proof {
                assert(decreases_to!(fields => fields[0]));
                assert(decreases_to!(fields[0] => fields[0].children));
                assert(decreases_to!(fields[0].children => fields[0].children@));
            }
            Set::empty().insert(path).union(branch_paths(f.children@, path, 0))
        } else {
            Set::empty()
        };
        here.union(branch_paths(fields.drop_first(), parent, start + 1))
    }
}

/// The paths of the branches of two joined lists are those of each.
pub proof fn lemma_branch_paths_add(a: Seq<FieldNode>, b: Seq<FieldNode>, parent: Seq<usize>, start: int)
    ensures
        branch_paths(a + b, parent, start) == branch_paths(a, parent, start).union(
            branch_paths(b, parent, start + a.len()),
        ),
    decreases a.len(),
{
    if a.len() == 0 {
        assert(a + b =~= b);
        assert(branch_paths(a + b, parent, start) =~= Set::<Seq<usize>>::empty().union(
            branch_paths(b, parent, start),
        ));
    } else {
        lemma_branch_paths_add(a.drop_first(), b, parent, start + 1);
        assert((a + b).drop_first() =~= a.drop_first() + b);
        assert((a + b)[0] == a[0]);
        let f = a[0];
        let path = parent.push(start as usize);
        let here = if f.children@.len() > 0 {
            Set::empty().insert(path).union(branch_paths(f.children@, path, 0))
        } else {
            Set::<Seq<usize>>::empty()
        };
        assert(branch_paths(a + b, parent, start) == here.union(branch_paths(a.drop_first() + b, parent, start + 1)));
        assert(branch_paths(a, parent, start) == here.union(branch_paths(a.drop_first(), parent, start + 1)));
        assert(branch_paths(a + b, parent, start) =~= branch_paths(a, parent, start).union(
            branch_paths(b, parent, start + a.len()),
        ));
    }
}

/// Adds to `out` the paths of the fields that have children, the first of
/// `fields` having index 0 under `parent_path`.
fn collect_branches(fields: &[FieldNode], parent_path: &Vec<usize>, out: &mut ExpandedPaths)
    requires
        old(out).wf(),
    ensures
        final(out).wf(),
        final(out).view_set() == old(out).view_set().union(branch_paths(fields@, parent_path@, 0)),
    decreases fields@,
{
    let ghost start = out.view_set();
    let mut k: usize = 0;
    while k < fields.len()
        invariant
            k <= fields@.len(),
            out.wf(),
            out.view_set() == start.union(branch_paths(fields@.take(k as int), parent_path@, 0)),
        decreases fields@.len() - k,
    {
        let field = &fields[k];
        let mut path = copy_path(parent_path);
        path.push(k);
        let ghost p = path@;
        let ghost before = out.view_set();
        if field.children.len() > 0 {
            out.insert(copy_path(&path));
            proof {
                assert(decreases_to!(fields@ => fields@[k as int]));
                assert(decreases_to!(fields@[k as int] => fields@[k as int].children));
                assert(decreases_to!(fields@[k as int].children => fields@[k as int].children@));
            }
            collect_branches(field.children.as_slice(), &path, out);
        }
        proof {
            let f = fields@[k as int];
            let one = seq![f];
            assert(one[0] == f);
            assert(one.drop_first() =~= Seq::<FieldNode>::empty());
            assert(branch_paths(Seq::<FieldNode>::empty(), parent_path@, k + 1) == Set::<Seq<usize>>::empty());
            let here = if f.children@.len() > 0 {
                Set::empty().insert(p).union(branch_paths(f.children@, p, 0))
            } else {
                Set::<Seq<usize>>::empty()
            };
            assert(branch_paths(one, parent_path@, k as int) =~= here.union(Set::<Seq<usize>>::empty()));
            assert(fields@.take(k + 1) =~= fields@.take(k as int) + one);
            lemma_branch_paths_add(fields@.take(k as int), one, parent_path@, 0);
            assert(out.view_set() =~= start.union(branch_paths(fields@.take(k + 1), parent_path@, 0)));
        }
        k = k + 1;
    }
    assert(fields@.take(k as int) =~= fields@);
}

/// What identifies a parse of the structure: how many fields it has so far,
/// the document version and parse generation it was made for, and whether
/// it is still running.
#[derive(Clone, Copy, Debug, PartialEq, Eq, Structural)]
pub struct ParseStamp {
    pub field_count: usize,
    pub doc_version: usize,
    pub generation: usize,
    pub is_parsing: bool,
}

/// A new parse continues the one the tree shows (so its new fields can be
/// appended): same document version and generation, no fewer fields, and
/// the tree holds exactly the fields the earlier one had.
pub fn can_append(previous: ParseStamp, current: ParseStamp, existing_field_count: usize) -> (r: bool)
    ensures
        r == (previous.doc_version == current.doc_version && previous.generation == current.generation
            && current.field_count >= previous.field_count && existing_field_count == previous.field_count),
{
    previous.doc_version == current.doc_version && previous.generation == current.generation
        && current.field_count >= previous.field_count && existing_field_count == previous.field_count
}

/// The parse that was running has finished.
pub fn is_finishing(previous: ParseStamp, current: ParseStamp) -> (r: bool)
    ensures
        r == (previous.is_parsing && !current.is_parsing),
{
    previous.is_parsing && !current.is_parsing
}

/// Where selecting a row takes the editor: for a row with bytes, in an
/// editor of `total` bytes, those bytes selected and kept within the file,
/// with the cursor at their start; else the cursor at the row's offset (for
/// a container without bytes, that of its first leaf), kept within the file.
pub open spec fn item_navigation(item: FlatEntry, fields: Seq<FieldNode>, total: Option<usize>) -> ItemNavigation {
    let offset = if item.size == 0 && item.has_children {
        match node_at(fields, item.path) {
            Some(f) => first_leaf_offset(f),
            None => item.offset,
        }
    } else {
        item.offset
    };
    match total {
        None => ItemNavigation { selection: None, cursor: None, offset, size: item.size },
        Some(t) => if t > 0 && item.size > 0 {
            let start = if item.offset < t - 1 {
                item.offset as int
            } else {
                t - 1
            };
            let end = if item.offset + item.size - 1 < t - 1 {
                item.offset + item.size - 1
            } else {
                t - 1
            };
            ItemNavigation {
                selection: Some(ByteRange { start: start as usize, end: (end + 1) as usize }),
                cursor: Some(start as usize),
                offset: start as usize,
                size: item.size,
            }
        } else {
            let clamped = if offset < t {
                offset
            } else {
                t
            };
            ItemNavigation { selection: None, cursor: Some(clamped), offset: clamped, size: item.size }
        },
    }
}

/// Joining two lists of fields nests as deep as the deeper of the two.
pub proof fn lemma_nesting_add(a: Seq<FieldNode>, b: Seq<FieldNode>)
    ensures
        nesting(b) <= nesting(a + b),
        nesting(a) <= nesting(a + b),
    decreases a.len(),
{
    if a.len() > 0 {
        lemma_nesting_add(a.drop_first(), b);
        assert((a + b).drop_first() =~= a.drop_first() + b);
        assert((a + b)[0] == a[0]);
    } else {
        assert(a + b =~= b);
    }
}

/// `expanded` with path `p` expanded when it was collapsed and collapsed
/// when it was expanded.
pub open spec fn toggled(expanded: Set<Seq<usize>>, p: Seq<usize>) -> Set<Seq<usize>> {
    if expanded.contains(p) {
        expanded.remove(p)
    } else {
        expanded.insert(p)
    }
}

/// Two sets of expanded paths that differ at most at `p`.
pub open spec fn agree_off(e: Set<Seq<usize>>, f: Set<Seq<usize>>, p: Seq<usize>) -> bool {
    forall|q: Seq<usize>| q != p ==> (e.contains(q) <==> f.contains(q))
}

/// Every row of a flattened list lies under `parent`, one level below it
/// or deeper, at a sibling index from `start` on.
proof fn lemma_flatten_shape(
    fields: Seq<FieldNode>,
    depth: int,
    parent: Seq<usize>,
    expanded: Set<Seq<usize>>,
    start: int,
)
    requires
        0 <= start,
        start + fields.len() <= usize::MAX + 1,
    ensures
        forall|i: int|
            0 <= i < flatten_seq(fields, depth, parent, expanded, start).len() ==> {
                let q = #[trigger] flatten_seq(fields, depth, parent, expanded, start)[i].path;
                &&& q.len() > parent.len()
                &&& q.subrange(0, parent.len() as int) == parent
                &&& q[parent.len() as int] >= start
            },
    decreases fields,
{
    if fields.len() > 0 {
        let f = fields[0];
        let path = parent.push(start as usize);
        let rest = fields.drop_first();
        let all = flatten_seq(fields, depth, parent, expanded, start);
        let tail = flatten_seq(rest, depth, parent, expanded, start + 1);
        lemma_flatten_shape(rest, depth, parent, expanded, start + 1);
        let sub = if f.children@.len() > 0 && expanded.contains(path) {
            assert(decreases_to!(fields => fields[0]));
            assert(decreases_to!(fields[0] => fields[0].children));
            assert(decreases_to!(fields[0].children => fields[0].children@));
            assert(f.children.len() == f.children@.len());
            lemma_flatten_shape(f.children@, depth + 1, path, expanded, 0);
            flatten_seq(f.children@, depth + 1, path, expanded, 0)
        } else {
            Seq::empty()
        };
        assert(all == seq![all[0]] + sub + tail);
        assert forall|i: int| 0 <= i < all.len() implies {
            let q = #[trigger] all[i].path;
            &&& q.len() > parent.len()
            &&& q.subrange(0, parent.len() as int) == parent
            &&& q[parent.len() as int] >= start
        } by {
            if i == 0 {
                assert(all[0].path == path);
                assert(path.subrange(0, parent.len() as int) =~= parent);
            } else if i < 1 + sub.len() {
                let q = sub[i - 1].path;
                assert(all[i] == sub[i - 1]);
                assert(q.subrange(0, path.len() as int) == path);
                assert(q.subrange(0, parent.len() as int) =~= path.subrange(0, parent.len() as int));
                assert(path.subrange(0, parent.len() as int) =~= parent);
                assert(q[parent.len() as int] == q.subrange(0, path.len() as int)[parent.len() as int]);
            } else {
                assert(all[i] == tail[i - 1 - sub.len()]);
            }
        }
    }
}

/// No two rows of a flattened list have the same path.
proof fn lemma_flatten_paths_distinct(
    fields: Seq<FieldNode>,
    depth: int,
    parent: Seq<usize>,
    expanded: Set<Seq<usize>>,
    start: int,
)
    requires
        0 <= start,
        start + fields.len() <= usize::MAX + 1,
    ensures
        forall|i: int, j: int|
            0 <= i < j < flatten_seq(fields, depth, parent, expanded, start).len() ==> #[trigger] flatten_seq(
                fields,
                depth,
                parent,
                expanded,
                start,
            )[i].path != #[trigger] flatten_seq(fields, depth, parent, expanded, start)[j].path,
    decreases fields,
{
    if fields.len() > 0 {
        let f = fields[0];
        let path = parent.push(start as usize);
        let rest = fields.drop_first();
        let all = flatten_seq(fields, depth, parent, expanded, start);
        let tail = flatten_seq(rest, depth, parent, expanded, start + 1);
        lemma_flatten_shape(rest, depth, parent, expanded, start + 1);
        lemma_flatten_paths_distinct(rest, depth, parent, expanded, start + 1);
        let sub = if f.children@.len() > 0 && expanded.contains(path) {
            assert(decreases_to!(fields => fields[0]));
            assert(decreases_to!(fields[0] => fields[0].children));
            assert(decreases_to!(fields[0].children => fields[0].children@));
            assert(f.children.len() == f.children@.len());
            lemma_flatten_shape(f.children@, depth + 1, path, expanded, 0);
            lemma_flatten_paths_distinct(f.children@, depth + 1, path, expanded, 0);
            flatten_seq(f.children@, depth + 1, path, expanded, 0)
        } else {
            Seq::empty()
        };
        assert(all == seq![all[0]] + sub + tail);
        assert(all[0].path == path);
        assert forall|i: int, j: int| 0 <= i < j < all.len() implies #[trigger] all[i].path != #[trigger] all[j].path by {
            let pl = parent.len() as int;
            if j < 1 + sub.len() {
                assert(all[j] == sub[j - 1]);
                if i == 0 {
                    assert(sub[j - 1].path.len() > path.len());
                } else {
                    assert(all[i] == sub[i - 1]);
                }
            } else if i < 1 + sub.len() {
                let qj = tail[j - 1 - sub.len()].path;
                assert(all[j] == tail[j - 1 - sub.len()]);
                assert(qj[pl] >= start + 1);
                if i == 0 {
                    assert(path[pl] == start);
                } else {
                    let qi = sub[i - 1].path;
                    assert(all[i] == sub[i - 1]);
                    assert(qi.subrange(0, path.len() as int) == path);
                    assert(qi[pl] == qi.subrange(0, path.len() as int)[pl]);
                    assert(qi[pl] == start);
                }
            } else {
                assert(all[i] == tail[i - 1 - sub.len()]);
                assert(all[j] == tail[j - 1 - sub.len()]);
            }
        }
    }
}

/// Expanding or collapsing a path that no row has changes no row.
proof fn lemma_flatten_unseen(
    fields: Seq<FieldNode>,
    depth: int,
    parent: Seq<usize>,
    e: Set<Seq<usize>>,
    f: Set<Seq<usize>>,
    p: Seq<usize>,
    start: int,
)
    requires
        agree_off(e, f, p),
        forall|i: int|
            0 <= i < flatten_seq(fields, depth, parent, e, start).len() ==> #[trigger] flatten_seq(
                fields,
                depth,
                parent,
                e,
                start,
            )[i].path != p,
    ensures
        flatten_seq(fields, depth, parent, f, start) == flatten_seq(fields, depth, parent, e, start),
    decreases fields,
{
    if fields.len() > 0 {
        let fld = fields[0];
        let path = parent.push(start as usize);
        let rest = fields.drop_first();
        let all = flatten_seq(fields, depth, parent, e, start);
        assert(all[0].path == path);
        assert(path != p);
        assert(e.contains(path) == f.contains(path));
        let sub = if fld.children@.len() > 0 && e.contains(path) {
            flatten_seq(fld.children@, depth + 1, path, e, 0)
        } else {
            Seq::empty()
        };
        let tail = flatten_seq(rest, depth, parent, e, start + 1);
        assert(all == seq![all[0]] + sub + tail);
        if fld.children@.len() > 0 && e.contains(path) {
            assert(decreases_to!(fields => fields[0]));
            assert(decreases_to!(fields[0] => fields[0].children));
            assert(decreases_to!(fields[0].children => fields[0].children@));
            assert forall|i: int| 0 <= i < sub.len() implies #[trigger] sub[i].path != p by {
                assert(all[1 + i] == sub[i]);
            }
            lemma_flatten_unseen(fld.children@, depth + 1, path, e, f, p, 0);
        }
        assert forall|i: int| 0 <= i < tail.len() implies #[trigger] tail[i].path != p by {
            assert(all[1 + sub.len() + i] == tail[i]);
        }
        lemma_flatten_unseen(rest, depth, parent, e, f, p, start + 1);
    }
}

/// Expanding or collapsing the path of row `idx` changes no row before it,
/// and leaves the row itself at `idx` with its path and its children.
proof fn lemma_flatten_prefix(
    fields: Seq<FieldNode>,
    depth: int,
    parent: Seq<usize>,
    e: Set<Seq<usize>>,
    f: Set<Seq<usize>>,
    p: Seq<usize>,
    start: int,
    idx: int,
)
    requires
        agree_off(e, f, p),
        0 <= idx < flatten_seq(fields, depth, parent, e, start).len(),
        flatten_seq(fields, depth, parent, e, start)[idx].path == p,
        forall|j: int| 0 <= j < idx ==> #[trigger] flatten_seq(fields, depth, parent, e, start)[j].path != p,
    ensures
        idx < flatten_seq(fields, depth, parent, f, start).len(),
        flatten_seq(fields, depth, parent, f, start).take(idx) == flatten_seq(fields, depth, parent, e, start).take(
            idx,
        ),
        flatten_seq(fields, depth, parent, f, start)[idx].path == p,
        flatten_seq(fields, depth, parent, f, start)[idx].has_children == flatten_seq(
            fields,
            depth,
            parent,
            e,
            start,
        )[idx].has_children,
    decreases fields,
{
    let fld = fields[0];
    let path = parent.push(start as usize);
    let rest = fields.drop_first();
    let all = flatten_seq(fields, depth, parent, e, start);
    let all2 = flatten_seq(fields, depth, parent, f, start);
    let expanded_e = fld.children@.len() > 0 && e.contains(path);
    let expanded_f = fld.children@.len() > 0 && f.contains(path);
    let sub = if expanded_e {
        flatten_seq(fld.children@, depth + 1, path, e, 0)
    } else {
        Seq::empty()
    };
    let sub2 = if expanded_f {
        flatten_seq(fld.children@, depth + 1, path, f, 0)
    } else {
        Seq::empty()
    };
    let tail = flatten_seq(rest, depth, parent, e, start + 1);
    let tail2 = flatten_seq(rest, depth, parent, f, start + 1);
    assert(all == seq![all[0]] + sub + tail);
    assert(all2 == seq![all2[0]] + sub2 + tail2);
    assert(all[0].path == path && all2[0].path == path);
    assert(all[0].has_children == all2[0].has_children);
    if idx == 0 {
        assert(all2.take(0) =~= all.take(0));
    } else {
        assert(all[0].path != p);
        assert(e.contains(path) == f.contains(path));
        assert(all2[0] == all[0]);
        if expanded_e {
            assert(decreases_to!(fields => fields[0]));
            assert(decreases_to!(fields[0] => fields[0].children));
            assert(decreases_to!(fields[0].children => fields[0].children@));
        }
        if idx < 1 + sub.len() {
            assert(all[idx] == sub[idx - 1]);
            assert forall|j: int| 0 <= j < idx - 1 implies #[trigger] sub[j].path != p by {
                assert(all[1 + j] == sub[j]);
            }
            lemma_flatten_prefix(fld.children@, depth + 1, path, e, f, p, 0, idx - 1);
            assert(all2[idx] == sub2[idx - 1]);
            assert(all2.take(idx) =~= seq![all2[0]] + sub2.take(idx - 1));
            assert(all.take(idx) =~= seq![all[0]] + sub.take(idx - 1));
        } else {
            if expanded_e {
                assert forall|j: int| 0 <= j < sub.len() implies #[trigger] sub[j].path != p by {
                    assert(all[1 + j] == sub[j]);
                }
                lemma_flatten_unseen(fld.children@, depth + 1, path, e, f, p, 0);
            }
            assert(sub2 == sub);
            let k = idx - 1 - sub.len();
            assert(all[idx] == tail[k]);
            assert forall|j: int| 0 <= j < k implies #[trigger] tail[j].path != p by {
                assert(all[1 + sub.len() + j] == tail[j]);
            }
            lemma_flatten_prefix(rest, depth, parent, e, f, p, start + 1, k);
            assert(all2[idx] == tail2[k]);
            assert(all2.take(idx) =~= seq![all2[0]] + sub2 + tail2.take(k));
            assert(all.take(idx) =~= seq![all[0]] + sub + tail.take(k));
        }
    }
}

/// Toggling a row twice gives back the expanded paths and the rows: after
/// the first toggle the row is still at its place, with its path and its
/// children, so the second toggle acts on the same path.
pub proof fn lemma_toggle_twice(fields: Seq<FieldNode>, expanded: Set<Seq<usize>>, idx: int)
    requires
        fields.len() <= usize::MAX,
        0 <= idx < flatten_seq(fields, 0, Seq::empty(), expanded, 0).len(),
    ensures
        ({
            let rows = flatten_seq(fields, 0, Seq::empty(), expanded, 0);
            let p = rows[idx].path;
            let once = toggled(expanded, p);
            let rows1 = flatten_seq(fields, 0, Seq::empty(), once, 0);
            &&& idx < rows1.len()
            &&& rows1[idx].path == p
            &&& rows1[idx].has_children == rows[idx].has_children
            &&& toggled(once, rows1[idx].path) == expanded
            &&& flatten_seq(fields, 0, Seq::empty(), toggled(once, rows1[idx].path), 0) == rows
        }),
{
    let rows = flatten_seq(fields, 0, Seq::empty(), expanded, 0);
    let p = rows[idx].path;
    let once = toggled(expanded, p);
    lemma_flatten_paths_distinct(fields, 0, Seq::empty(), expanded, 0);
    assert forall|j: int| 0 <= j < idx implies #[trigger] rows[j].path != p by {}
    lemma_flatten_prefix(fields, 0, Seq::empty(), expanded, once, p, 0, idx);
    assert(toggled(once, p) =~= expanded);
}

} // verus!
