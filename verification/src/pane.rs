//! The tree of editor panes: leaves are groups of tabs, inner nodes split
//! their area in two, side by side or one above the other. Groups are
//! removed (a split left with one side gives way to it), split to hold a new
//! group, and found by their id.
use vstd::prelude::*;

verus! {

/// How a group is split to make room for a new one.
#[derive(Clone, Copy, Debug, PartialEq, Eq, Structural)]
pub enum SplitDirection {
    Horizontal,
    Vertical,
}

/// Where a dragged tab is dropped on a group: beside it (which splits the
/// group) or in its middle (which adds the tab to it).
#[derive(Clone, Copy, Debug, PartialEq, Eq, Structural)]
pub enum DropPlacement {
    Left,
    Right,
    Top,
    Bottom,
    Center,
}

/// A tab being dragged out of a group.
#[derive(Clone, Copy, Debug, PartialEq, Eq, Structural)]
pub struct TabDrag {
    pub from_group_id: usize,
    pub tab_id: usize,
}

/// A node of the pane tree: a group, or a split of two panes, left and right
/// (`HSplit`) or top and bottom (`VSplit`).
pub enum PaneNode<G> {
    Leaf { id: usize, group: G },
    HSplit { id: usize, left: Box<PaneNode<G>>, right: Box<PaneNode<G>> },
    VSplit { id: usize, top: Box<PaneNode<G>>, bottom: Box<PaneNode<G>> },
}

impl<G> PaneNode<G> {
    /// The groups of the tree with their ids, from left to right and from
    /// top to bottom.
    pub open spec fn leaves(self) -> Seq<(usize, G)>
        decreases self,
    {
        match self {
            PaneNode::Leaf { id, group } => seq![(id, group)],
            PaneNode::HSplit { left, right, .. } => (*left).leaves() + (*right).leaves(),
            PaneNode::VSplit { top, bottom, .. } => (*top).leaves() + (*bottom).leaves(),
        }
    }
}

/// The groups of a tree that may be empty.
pub open spec fn opt_leaves<G>(node: Option<PaneNode<G>>) -> Seq<(usize, G)> {
    match node {
        Some(n) => n.leaves(),
        None => Seq::empty(),
    }
}

/// The ids of the groups, in order.
pub open spec fn ids_of<G>(leaves: Seq<(usize, G)>) -> Seq<usize> {
    leaves.map_values(|l: (usize, G)| l.0)
}

/// No two groups have the same id.
pub open spec fn unique_ids<G>(leaves: Seq<(usize, G)>) -> bool {
    forall|i: int, j: int| 0 <= i < j < leaves.len() ==> #[trigger] leaves[i].0 != #[trigger] leaves[j].0
}

/// Some group has id `id`.
pub open spec fn has_id<G>(leaves: Seq<(usize, G)>, id: usize) -> bool {
    exists|i: int| 0 <= i < leaves.len() && #[trigger] leaves[i].0 == id
}

/// The test that keeps every group but the one with id `target`.
pub open spec fn other_than<G>(target: usize) -> spec_fn((usize, G)) -> bool {
    |l: (usize, G)| l.0 != target
}

/// The groups after removing group `target`.
pub proof fn lemma_leaf_filter<G>(id: usize, group: G, target: usize)
    ensures
        seq![(id, group)].filter(other_than::<G>(target)) == if id != target {
            seq![(id, group)]
        } else {
            Seq::<(usize, G)>::empty()
        },
{
    let s = seq![(id, group)];
    let p = other_than::<G>(target);
    reveal_with_fuel(Seq::filter, 2);
    assert(s.drop_last() =~= Seq::<(usize, G)>::empty());
    assert(s.last() == (id, group));
    assert(Seq::<(usize, G)>::empty().filter(p) =~= Seq::<(usize, G)>::empty());
    assert(p((id, group)) == (id != target));
    assert(Seq::<(usize, G)>::empty().push((id, group)) =~= s);
}

/// The tree without group `target_id`: every split keeps its id and its
/// direction; a split that loses one side is replaced by the other side,
/// and one that loses both disappears.
pub open spec fn removed<G>(node: PaneNode<G>, target_id: usize) -> Option<PaneNode<G>>
    decreases node,
{
    match node {
        PaneNode::Leaf { id, group } => if id == target_id {
            None
        } else {
            Some(PaneNode::Leaf { id, group })
        },
        PaneNode::HSplit { id, left, right } => match (removed(*left, target_id), removed(*right, target_id)) {
            (Some(l), Some(r)) => Some(PaneNode::HSplit { id, left: Box::new(l), right: Box::new(r) }),
            (Some(l), None) => Some(l),
            (None, Some(r)) => Some(r),
            (None, None) => None,
        },
        PaneNode::VSplit { id, top, bottom } => match (removed(*top, target_id), removed(*bottom, target_id)) {
            (Some(t), Some(b)) => Some(PaneNode::VSplit { id, top: Box::new(t), bottom: Box::new(b) }),
            (Some(t), None) => Some(t),
            (None, Some(b)) => Some(b),
            (None, None) => None,
        },
    }
}

/// A tree that may be empty without group `target_id`.
pub open spec fn opt_removed<G>(root: Option<PaneNode<G>>, target_id: usize) -> Option<PaneNode<G>> {
    match root {
        Some(n) => removed(n, target_id),
        None => None,
    }
}

/// The tree without group `target_id`: a split that loses one side is
/// replaced by the other side, and one that loses both disappears.
pub fn remove_node<G>(node: PaneNode<G>, target_id: usize) -> (r: Option<PaneNode<G>>)
    ensures
        r == removed(node, target_id),
        opt_leaves(r) == node.leaves().filter(other_than::<G>(target_id)),
    decreases node,
{
    broadcast use Seq::filter_distributes_over_add;

    match node {
        PaneNode::Leaf { id, group } => {
            proof {
                lemma_leaf_filter(id, group, target_id);
            }
            if id == target_id {
                None
            } else {
                Some(PaneNode::Leaf { id, group })
            }
        },
        PaneNode::HSplit { id, left, right } => {
            let ghost l0 = (*left).leaves();
            let ghost r0 = (*right).leaves();
            let left_opt = remove_node(*left, target_id);
            let right_opt = remove_node(*right, target_id);
            proof {
                assert((l0 + r0).filter(other_than::<G>(target_id)) == l0.filter(
                    other_than::<G>(target_id),
                ) + r0.filter(other_than::<G>(target_id)));
            }
            match (left_opt, right_opt) {
                (Some(l), Some(r)) => Some(PaneNode::HSplit { id, left: Box::new(l), right: Box::new(r) }),
                (Some(l), None) => {
                    proof {
                        assert(l.leaves() + Seq::<(usize, G)>::empty() =~= l.leaves());
                    }
                    Some(l)
                },
                (None, Some(r)) => {
                    proof {
                        assert(Seq::<(usize, G)>::empty() + r.leaves() =~= r.leaves());
                    }
                    Some(r)
                },
                (None, None) => {
                    proof {
                        assert(Seq::<(usize, G)>::empty() + Seq::<(usize, G)>::empty() =~= Seq::<
                            (usize, G),
                        >::empty());
                    }
                    None
                },
            }
        },
        PaneNode::VSplit { id, top, bottom } => {
            let ghost t0 = (*top).leaves();
            let ghost b0 = (*bottom).leaves();
            let top_opt = remove_node(*top, target_id);
            let bottom_opt = remove_node(*bottom, target_id);
            proof {
                assert((t0 + b0).filter(other_than::<G>(target_id)) == t0.filter(
                    other_than::<G>(target_id),
                ) + b0.filter(other_than::<G>(target_id)));
            }
            match (top_opt, bottom_opt) {
                (Some(t), Some(b)) => Some(PaneNode::VSplit { id, top: Box::new(t), bottom: Box::new(b) }),
                (Some(t), None) => {
                    proof {
                        assert(t.leaves() + Seq::<(usize, G)>::empty() =~= t.leaves());
                    }
                    Some(t)
                },
                (None, Some(b)) => {
                    proof {
                        assert(Seq::<(usize, G)>::empty() + b.leaves() =~= b.leaves());
                    }
                    Some(b)
                },
                (None, None) => {
                    proof {
                        assert(Seq::<(usize, G)>::empty() + Seq::<(usize, G)>::empty() =~= Seq::<
                            (usize, G),
                        >::empty());
                    }
                    None
                },
            }
        },
    }
}

/// The node that takes the place of group `target` when `new_node` is put
/// beside it: the two side by side or one above the other, the new one on
/// the side named by `placement` (`Center` keeps the group alone).
pub open spec fn split_pair<G>(
    split_id: usize,
    placement: DropPlacement,
    target: PaneNode<G>,
    new_node: PaneNode<G>,
) -> PaneNode<G> {
    match placement {
        DropPlacement::Left => PaneNode::HSplit {
            id: split_id,
            left: Box::new(new_node),
            right: Box::new(target),
        },
        DropPlacement::Right => PaneNode::HSplit {
            id: split_id,
            left: Box::new(target),
            right: Box::new(new_node),
        },
        DropPlacement::Top => PaneNode::VSplit {
            id: split_id,
            top: Box::new(new_node),
            bottom: Box::new(target),
        },
        DropPlacement::Bottom => PaneNode::VSplit {
            id: split_id,
            top: Box::new(target),
            bottom: Box::new(new_node),
        },
        DropPlacement::Center => target,
    }
}

/// The tree with each group whose id is `target_id` split to hold
/// `new_node` beside it.
pub open spec fn split_tree<G>(
    node: PaneNode<G>,
    target_id: usize,
    split_id: usize,
    placement: DropPlacement,
    new_node: PaneNode<G>,
) -> PaneNode<G>
    decreases node,
{
    match node {
        PaneNode::Leaf { id, group } => if id == target_id {
            split_pair(split_id, placement, PaneNode::Leaf { id, group }, new_node)
        } else {
            node
        },
        PaneNode::HSplit { id, left, right } => PaneNode::HSplit {
            id,
            left: Box::new(split_tree(*left, target_id, split_id, placement, new_node)),
            right: Box::new(split_tree(*right, target_id, split_id, placement, new_node)),
        },
        PaneNode::VSplit { id, top, bottom } => PaneNode::VSplit {
            id,
            top: Box::new(split_tree(*top, target_id, split_id, placement, new_node)),
            bottom: Box::new(split_tree(*bottom, target_id, split_id, placement, new_node)),
        },
    }
}

/// The groups that take the place of group `t` when groups `added` are put
/// beside it on the side named by `placement`.
pub open spec fn placed_leaves<G>(
    placement: DropPlacement,
    t: (usize, G),
    added: Seq<(usize, G)>,
) -> Seq<(usize, G)> {
    match placement {
        DropPlacement::Left | DropPlacement::Top => added + seq![t],
        DropPlacement::Right | DropPlacement::Bottom => seq![t] + added,
        DropPlacement::Center => seq![t],
    }
}

/// The groups with each one whose id is `target_id` given `added` beside it.
pub open spec fn expand_leaves<G>(
    leaves: Seq<(usize, G)>,
    target_id: usize,
    placement: DropPlacement,
    added: Seq<(usize, G)>,
) -> Seq<(usize, G)>
    decreases leaves.len(),
{
    if leaves.len() == 0 {
        leaves
    } else {
        let t = leaves.last();
        expand_leaves(leaves.drop_last(), target_id, placement, added) + if t.0 == target_id {
            placed_leaves(placement, t, added)
        } else {
            seq![t]
        }
    }
}

/// Expanding the groups of two joined lists is joining their expansions.
pub proof fn lemma_expand_add<G>(
    a: Seq<(usize, G)>,
    b: Seq<(usize, G)>,
    target_id: usize,
    placement: DropPlacement,
    added: Seq<(usize, G)>,
)
    ensures
        expand_leaves(a + b, target_id, placement, added) == expand_leaves(a, target_id, placement, added)
            + expand_leaves(b, target_id, placement, added),
    decreases b.len(),
{
    if b.len() == 0 {
        assert(a + b =~= a);
        assert(expand_leaves(a, target_id, placement, added) + expand_leaves(b, target_id, placement, added)
            =~= expand_leaves(a, target_id, placement, added));
    } else {
        lemma_expand_add(a, b.drop_last(), target_id, placement, added);
        assert((a + b).drop_last() =~= a + b.drop_last());
        assert((a + b).last() == b.last());
        let t = b.last();
        let tail = if t.0 == target_id {
            placed_leaves(placement, t, added)
        } else {
            seq![t]
        };
        assert(expand_leaves(a + b, target_id, placement, added) =~= expand_leaves(a, target_id, placement, added)
            + expand_leaves(b.drop_last(), target_id, placement, added) + tail);
    }
}

/// Groups none of which has id `target_id` are left as they are.
pub proof fn lemma_expand_absent<G>(
    leaves: Seq<(usize, G)>,
    target_id: usize,
    placement: DropPlacement,
    added: Seq<(usize, G)>,
)
    requires
        !has_id(leaves, target_id),
    ensures
        expand_leaves(leaves, target_id, placement, added) == leaves,
    decreases leaves.len(),
{
    if leaves.len() > 0 {
        let d = leaves.drop_last();
        assert(!has_id(d, target_id)) by {
            if has_id(d, target_id) {
                let i = choose|i: int| 0 <= i < d.len() && #[trigger] d[i].0 == target_id;
                assert(leaves[i] == d[i]);
            }
        }
        lemma_expand_absent(d, target_id, placement, added);
        assert(leaves[leaves.len() - 1].0 != target_id);
        assert(d + seq![leaves.last()] =~= leaves);
    }
}

/// The groups of the tree after the split are its groups with `new_node`'s
/// groups put beside each group with id `target_id`.
pub proof fn lemma_split_tree_leaves<G>(
    node: PaneNode<G>,
    target_id: usize,
    split_id: usize,
    placement: DropPlacement,
    new_node: PaneNode<G>,
)
    ensures
        split_tree(node, target_id, split_id, placement, new_node).leaves() == expand_leaves(
            node.leaves(),
            target_id,
            placement,
            new_node.leaves(),
        ),
    decreases node,
{
    let added = new_node.leaves();
    match node {
        PaneNode::Leaf { id, group } => {
            let t = (id, group);
            assert(seq![t].drop_last() =~= Seq::<(usize, G)>::empty());
            assert(seq![t].last() == t);
            let leaf = PaneNode::Leaf { id, group };
            assert(leaf.leaves() == seq![t]);
            assert(expand_leaves(Seq::<(usize, G)>::empty(), target_id, placement, added) == Seq::<
                (usize, G),
            >::empty());
            if id == target_id {
                assert(expand_leaves(seq![t], target_id, placement, added) =~= placed_leaves(
                    placement,
                    t,
                    added,
                ));
                let st = split_tree(node, target_id, split_id, placement, new_node);
                assert(st == split_pair(split_id, placement, leaf, new_node));
                match placement {
                    DropPlacement::Left => {
                        assert(st.leaves() == added + leaf.leaves());
                    },
                    DropPlacement::Right => {
                        assert(st.leaves() == leaf.leaves() + added);
                    },
                    DropPlacement::Top => {
                        assert(st.leaves() == added + leaf.leaves());
                    },
                    DropPlacement::Bottom => {
                        assert(st.leaves() == leaf.leaves() + added);
                    },
                    DropPlacement::Center => {},
                }
            } else {
                assert(expand_leaves(seq![t], target_id, placement, added) =~= seq![t]);
            }
        },
        PaneNode::HSplit { id, left, right } => {
            lemma_split_tree_leaves(*left, target_id, split_id, placement, new_node);
            lemma_split_tree_leaves(*right, target_id, split_id, placement, new_node);
            lemma_expand_add((*left).leaves(), (*right).leaves(), target_id, placement, added);
        },
        PaneNode::VSplit { id, top, bottom } => {
            lemma_split_tree_leaves(*top, target_id, split_id, placement, new_node);
            lemma_split_tree_leaves(*bottom, target_id, split_id, placement, new_node);
            lemma_expand_add((*top).leaves(), (*bottom).leaves(), target_id, placement, added);
        },
    }
}

/// A tree without group `target_id` is left as it is by the split.
pub proof fn lemma_split_tree_absent<G>(
    node: PaneNode<G>,
    target_id: usize,
    split_id: usize,
    placement: DropPlacement,
    new_node: PaneNode<G>,
)
    requires
        !has_id(node.leaves(), target_id),
    ensures
        split_tree(node, target_id, split_id, placement, new_node) == node,
    decreases node,
{
    match node {
        PaneNode::Leaf { id, group } => {
            assert(node.leaves()[0].0 == id);
        },
        PaneNode::HSplit { id, left, right } => {
            lemma_has_id_add((*left).leaves(), (*right).leaves(), target_id);
            lemma_split_tree_absent(*left, target_id, split_id, placement, new_node);
            lemma_split_tree_absent(*right, target_id, split_id, placement, new_node);
        },
        PaneNode::VSplit { id, top, bottom } => {
            lemma_has_id_add((*top).leaves(), (*bottom).leaves(), target_id);
            lemma_split_tree_absent(*top, target_id, split_id, placement, new_node);
            lemma_split_tree_absent(*bottom, target_id, split_id, placement, new_node);
        },
    }
}

/// An id occurs in two joined lists when it occurs in one of them; ids
/// unique in the joined list are unique in each part, and no id occurs in
/// both.
pub proof fn lemma_has_id_add<G>(a: Seq<(usize, G)>, b: Seq<(usize, G)>, target_id: usize)
    ensures
        has_id(a + b, target_id) == (has_id(a, target_id) || has_id(b, target_id)),
        unique_ids(a + b) ==> unique_ids(a) && unique_ids(b),
        unique_ids(a + b) && has_id(a, target_id) ==> !has_id(b, target_id),
{
    let s = a + b;
    if has_id(s, target_id) {
        let i = choose|i: int| 0 <= i < s.len() && #[trigger] s[i].0 == target_id;
        if i < a.len() {
            assert(s[i] == a[i]);
        } else {
            assert(s[i] == b[i - a.len()]);
        }
    }
    if has_id(a, target_id) {
        let i = choose|i: int| 0 <= i < a.len() && #[trigger] a[i].0 == target_id;
        assert(s[i] == a[i]);
    }
    if has_id(b, target_id) {
        let i = choose|i: int| 0 <= i < b.len() && #[trigger] b[i].0 == target_id;
        assert(s[i + a.len()] == b[i]);
    }
    if unique_ids(s) {
        assert forall|i: int, j: int| 0 <= i < j < a.len() implies #[trigger] a[i].0 != #[trigger] a[j].0 by {
            assert(s[i] == a[i] && s[j] == a[j]);
        }
        assert forall|i: int, j: int| 0 <= i < j < b.len() implies #[trigger] b[i].0 != #[trigger] b[j].0 by {
            assert(s[i + a.len()] == b[i] && s[j + a.len()] == b[j]);
        }
        if has_id(a, target_id) && has_id(b, target_id) {
            let i = choose|i: int| 0 <= i < a.len() && #[trigger] a[i].0 == target_id;
            let j = choose|j: int| 0 <= j < b.len() && #[trigger] b[j].0 == target_id;
            assert(s[i] == a[i] && s[j + a.len()] == b[j]);
        }
    }
}

/// Puts `new_node` beside the group with id `target_id`, on the side named
/// by `placement`, under a new split with id `split_id`. When no group has
/// that id, the tree is unchanged and `new_node` is handed back.
pub fn replace_node<G>(
    node: PaneNode<G>,
    target_id: usize,
    split_id: usize,
    placement: DropPlacement,
    new_node: PaneNode<G>,
) -> (r: (PaneNode<G>, Option<PaneNode<G>>))
    requires
        unique_ids(node.leaves()),
    ensures
        has_id(node.leaves(), target_id) ==> r.1 is None && r.0 == split_tree(
            node,
            target_id,
            split_id,
            placement,
            new_node,
        ),
        !has_id(node.leaves(), target_id) ==> r.1 == Some(new_node) && r.0 == node,
    decreases node,
{
    match node {
        PaneNode::Leaf { id, group } => {
            if id == target_id {
                let target = PaneNode::Leaf { id, group };
                let joined = match placement {
                    DropPlacement::Left => PaneNode::HSplit {
                        id: split_id,
                        left: Box::new(new_node),
                        right: Box::new(target),
                    },
                    DropPlacement::Right => PaneNode::HSplit {
                        id: split_id,
                        left: Box::new(target),
                        right: Box::new(new_node),
                    },
                    DropPlacement::Top => PaneNode::VSplit {
                        id: split_id,
                        top: Box::new(new_node),
                        bottom: Box::new(target),
                    },
                    DropPlacement::Bottom => PaneNode::VSplit {
                        id: split_id,
                        top: Box::new(target),
                        bottom: Box::new(new_node),
                    },
                    DropPlacement::Center => target,
                };
                proof {
                    assert(PaneNode::Leaf { id, group }.leaves()[0].0 == target_id);
                }
                (joined, None)
            } else {
                proof {
                    assert(!has_id(PaneNode::Leaf { id, group }.leaves(), target_id)) by {
                        assert(PaneNode::Leaf { id, group }.leaves().len() == 1);
                    }
                }
                (PaneNode::Leaf { id, group }, Some(new_node))
            }
        },
        PaneNode::HSplit { id, left, right } => {
            let ghost l0 = *left;
            let ghost r0 = *right;
            proof {
                lemma_has_id_add(l0.leaves(), r0.leaves(), target_id);
            }
            let (l2, rest) = replace_node(*left, target_id, split_id, placement, new_node);
            match rest {
                None => {
                    proof {
                        lemma_split_tree_absent(r0, target_id, split_id, placement, new_node);
                    }
                    (PaneNode::HSplit { id, left: Box::new(l2), right }, None)
                },
                Some(nn) => {
                    let (r2, rest2) = replace_node(*right, target_id, split_id, placement, nn);
                    proof {
                        if has_id(r0.leaves(), target_id) {
                            lemma_split_tree_absent(l0, target_id, split_id, placement, new_node);
                        }
                    }
                    (PaneNode::HSplit { id, left: Box::new(l2), right: Box::new(r2) }, rest2)
                },
            }
        },
        PaneNode::VSplit { id, top, bottom } => {
            let ghost t0 = *top;
            let ghost b0 = *bottom;
            proof {
                lemma_has_id_add(t0.leaves(), b0.leaves(), target_id);
            }
            let (t2, rest) = replace_node(*top, target_id, split_id, placement, new_node);
            match rest {
                None => {
                    proof {
                        lemma_split_tree_absent(b0, target_id, split_id, placement, new_node);
                    }
                    (PaneNode::VSplit { id, top: Box::new(t2), bottom }, None)
                },
                Some(nn) => {
                    let (b2, rest2) = replace_node(*bottom, target_id, split_id, placement, nn);
                    proof {
                        if has_id(b0.leaves(), target_id) {
                            lemma_split_tree_absent(t0, target_id, split_id, placement, new_node);
                        }
                    }
                    (PaneNode::VSplit { id, top: Box::new(t2), bottom: Box::new(b2) }, rest2)
                },
            }
        },
    }
}

/// With unique ids, splitting group `k` puts the new groups beside it and
/// leaves the others as they were.
pub proof fn lemma_expand_unique<G>(
    leaves: Seq<(usize, G)>,
    k: int,
    placement: DropPlacement,
    added: Seq<(usize, G)>,
)
    requires
        unique_ids(leaves),
        0 <= k < leaves.len(),
    ensures
        expand_leaves(leaves, leaves[k].0, placement, added) == leaves.subrange(0, k) + placed_leaves(
            placement,
            leaves[k],
            added,
        ) + leaves.subrange(k + 1, leaves.len() as int),
{
    let t = leaves[k];
    let pre = leaves.subrange(0, k);
    let post = leaves.subrange(k + 1, leaves.len() as int);
    assert(leaves =~= pre + seq![t] + post);
    assert(!has_id(pre, t.0)) by {
        if has_id(pre, t.0) {
            let i = choose|i: int| 0 <= i < pre.len() && #[trigger] pre[i].0 == t.0;
            assert(leaves[i] == pre[i]);
        }
    }
    assert(!has_id(post, t.0)) by {
        if has_id(post, t.0) {
            let i = choose|i: int| 0 <= i < post.len() && #[trigger] post[i].0 == t.0;
            assert(leaves[k + 1 + i] == post[i]);
        }
    }
    lemma_expand_add(pre + seq![t], post, t.0, placement, added);
    lemma_expand_add(pre, seq![t], t.0, placement, added);
    lemma_expand_absent(pre, t.0, placement, added);
    lemma_expand_absent(post, t.0, placement, added);
    assert(seq![t].drop_last() =~= Seq::<(usize, G)>::empty());
    assert(seq![t].last() == t);
    assert(expand_leaves(Seq::<(usize, G)>::empty(), t.0, placement, added) == Seq::<(usize, G)>::empty());
    assert(Seq::<(usize, G)>::empty() + placed_leaves(placement, t, added) =~= placed_leaves(
        placement,
        t,
        added,
    ));
    assert(expand_leaves(seq![t], t.0, placement, added) =~= placed_leaves(placement, t, added));
}

/// Keeping some of the groups keeps their ids unique, and keeps only groups
/// that were there and pass the test.
pub proof fn lemma_filter_groups<G>(s: Seq<(usize, G)>, p: spec_fn((usize, G)) -> bool)
    requires
        unique_ids(s),
    ensures
        unique_ids(s.filter(p)),
        forall|x: (usize, G)| #[trigger] s.filter(p).contains(x) ==> s.contains(x) && p(x),
    decreases s.len(),
{
    broadcast use Seq::lemma_filter_contains_rev, Seq::lemma_filter_pred;

    assert forall|x: (usize, G)| #[trigger] s.filter(p).contains(x) implies s.contains(x) && p(x) by {
        let i = choose|i: int| 0 <= i < s.filter(p).len() && s.filter(p)[i] == x;
        assert(p(s.filter(p)[i]));
    }
    reveal(Seq::filter);
    if s.len() > 0 {
        let d = s.drop_last();
        let n = s.len() - 1;
        assert forall|i: int, j: int| 0 <= i < j < d.len() implies #[trigger] d[i].0 != #[trigger] d[j].0 by {
            assert(d[i] == s[i] && d[j] == s[j]);
        }
        lemma_filter_groups(d, p);
        let fd = d.filter(p);
        if p(s.last()) {
            let f = fd.push(s.last());
            assert(s.filter(p) == f);
            assert forall|i: int, j: int| 0 <= i < j < f.len() implies #[trigger] f[i].0 != #[trigger] f[j].0 by {
                if j == f.len() - 1 {
                    assert(f[i] == fd[i]);
                    assert(fd.contains(fd[i]));
                    assert(d.contains(fd[i]));
                    let k = choose|k: int| 0 <= k < d.len() && d[k] == fd[i];
                    assert(s[k] == d[k]);
                    assert(f[j] == s[n]);
                } else {
                    assert(f[i] == fd[i] && f[j] == fd[j]);
                }
            }
        } else {
            assert(s.filter(p) == fd);
        }
    }
}

/// A tree has at least one group.
pub proof fn lemma_leaves_nonempty<G>(node: PaneNode<G>)
    ensures
        node.leaves().len() >= 1,
    decreases node,
{
    match node {
        PaneNode::Leaf { .. } => {},
        PaneNode::HSplit { left, right, .. } => {
            lemma_leaves_nonempty(*left);
        },
        PaneNode::VSplit { top, bottom, .. } => {
            lemma_leaves_nonempty(*top);
        },
    }
}

/// The first group with id `group_id`, searching left before right and top
/// before bottom.
fn find_in<'a, G>(node: &'a PaneNode<G>, group_id: usize) -> (r: Option<&'a G>)
    ensures
        r is None <==> !has_id(node.leaves(), group_id),
        r is Some ==> exists|i: int|
            0 <= i < node.leaves().len() && #[trigger] node.leaves()[i].0 == group_id && *r.unwrap()
                == node.leaves()[i].1 && forall|j: int| 0 <= j < i ==> node.leaves()[j].0 != group_id,
    decreases node,
{
    match node {
        PaneNode::Leaf { id, group } => {
            proof {
                assert(*node == PaneNode::Leaf { id: *id, group: *group });
                assert(node.leaves() =~= seq![(*id, *group)]);
                assert(node.leaves()[0] == (*id, *group));
                assert(node.leaves().len() == 1);
            }
            if *id == group_id {
                proof {
                    assert(node.leaves()[0].0 == group_id);
                }
                Some(group)
            } else {
                proof {
                    assert(!has_id(node.leaves(), group_id));
                }
                None
            }
        },
        PaneNode::HSplit { left, right, .. } => {
            proof {
                lemma_has_id_add((**left).leaves(), (**right).leaves(), group_id);
            }
            let found = find_in(left, group_id);
            match found {
                Some(g) => {
                    proof {
                        let s = (**left).leaves() + (**right).leaves();
                        let i = choose|i: int|
                            0 <= i < (**left).leaves().len() && #[trigger] (**left).leaves()[i].0 == group_id
                                && *g == (**left).leaves()[i].1 && forall|j: int|
                                0 <= j < i ==> (**left).leaves()[j].0 != group_id;
                        assert(s[i] == (**left).leaves()[i]);
                        assert forall|j: int| 0 <= j < i implies s[j].0 != group_id by {
                            assert(s[j] == (**left).leaves()[j]);
                        }
                    }
                    Some(g)
                },
                None => {
                    let r = find_in(right, group_id);
                    proof {
                        if r is Some {
                            let s = (**left).leaves() + (**right).leaves();
                            let n = (**left).leaves().len();
                            let i = choose|i: int|
                                0 <= i < (**right).leaves().len() && #[trigger] (**right).leaves()[i].0
                                    == group_id && *r.unwrap() == (**right).leaves()[i].1 && forall|j: int|
                                    0 <= j < i ==> (**right).leaves()[j].0 != group_id;
                            assert(s[n + i] == (**right).leaves()[i]);
                            assert forall|j: int| 0 <= j < n + i implies s[j].0 != group_id by {
                                if j < n {
                                    assert(s[j] == (**left).leaves()[j]);
                                    if s[j].0 == group_id {
                                        assert((**left).leaves()[j].0 == group_id);
                                    }
                                } else {
                                    assert(s[j] == (**right).leaves()[j - n]);
                                }
                            }
                        }
                    }
                    r
                },
            }
        },
        PaneNode::VSplit { top, bottom, .. } => {
            proof {
                lemma_has_id_add((**top).leaves(), (**bottom).leaves(), group_id);
            }
            let found = find_in(top, group_id);
            match found {
                Some(g) => {
                    proof {
                        let s = (**top).leaves() + (**bottom).leaves();
                        let i = choose|i: int|
                            0 <= i < (**top).leaves().len() && #[trigger] (**top).leaves()[i].0 == group_id
                                && *g == (**top).leaves()[i].1 && forall|j: int|
                                0 <= j < i ==> (**top).leaves()[j].0 != group_id;
                        assert(s[i] == (**top).leaves()[i]);
                        assert forall|j: int| 0 <= j < i implies s[j].0 != group_id by {
                            assert(s[j] == (**top).leaves()[j]);
                        }
                    }
                    Some(g)
                },
                None => {
                    let r = find_in(bottom, group_id);
                    proof {
                        if r is Some {
                            let s = (**top).leaves() + (**bottom).leaves();
                            let n = (**top).leaves().len();
                            let i = choose|i: int|
                                0 <= i < (**bottom).leaves().len() && #[trigger] (**bottom).leaves()[i].0
                                    == group_id && *r.unwrap() == (**bottom).leaves()[i].1 && forall|j: int|
                                    0 <= j < i ==> (**bottom).leaves()[j].0 != group_id;
                            assert(s[n + i] == (**bottom).leaves()[i]);
                            assert forall|j: int| 0 <= j < n + i implies s[j].0 != group_id by {
                                if j < n {
                                    assert(s[j] == (**top).leaves()[j]);
                                    if s[j].0 == group_id {
                                        assert((**top).leaves()[j].0 == group_id);
                                    }
                                } else {
                                    assert(s[j] == (**bottom).leaves()[j - n]);
                                }
                            }
                        }
                    }
                    r
                },
            }
        },
    }
}

/// Appends, for each group of `node` in order, whether it is the group
/// `active`.
fn collect_active_flags<G>(node: &PaneNode<G>, active: Option<usize>, acc: &mut Vec<bool>)
    ensures
        final(acc)@.len() == old(acc)@.len() + node.leaves().len(),
        forall|i: int| 0 <= i < old(acc)@.len() ==> final(acc)@[i] == old(acc)@[i],
        forall|i: int|
            0 <= i < node.leaves().len() ==> final(acc)@[old(acc)@.len() + i] == (active == Some(
                #[trigger] node.leaves()[i].0,
            )),
    decreases node,
{
    match node {
        PaneNode::Leaf { id, .. } => {
            let is_active = match active {
                Some(a) => a == *id,
                None => false,
            };
            acc.push(is_active);
        },
        PaneNode::HSplit { left, right, .. } => {
            let ghost a0 = acc@;
            collect_active_flags(left, active, acc);
            let ghost a1 = acc@;
            collect_active_flags(right, active, acc);
            proof {
                let l = (**left).leaves();
                let r = (**right).leaves();
                assert forall|i: int| 0 <= i < node.leaves().len() implies acc@[a0.len() + i] == (active
                    == Some(#[trigger] node.leaves()[i].0)) by {
                    if i < l.len() {
                        assert(node.leaves()[i] == l[i]);
                        assert(acc@[a0.len() + i] == a1[a0.len() + i]);
                    } else {
                        assert(node.leaves()[i] == r[i - l.len()]);
                    }
                }
            }
        },
        PaneNode::VSplit { top, bottom, .. } => {
            let ghost a0 = acc@;
            collect_active_flags(top, active, acc);
            let ghost a1 = acc@;
            collect_active_flags(bottom, active, acc);
            proof {
                let t = (**top).leaves();
                let b = (**bottom).leaves();
                assert forall|i: int| 0 <= i < node.leaves().len() implies acc@[a0.len() + i] == (active
                    == Some(#[trigger] node.leaves()[i].0)) by {
                    if i < t.len() {
                        assert(node.leaves()[i] == t[i]);
                        assert(acc@[a0.len() + i] == a1[a0.len() + i]);
                    } else {
                        assert(node.leaves()[i] == b[i - t.len()]);
                    }
                }
            }
        },
    }
}

/// Appends the groups of `node` to `acc`, in order.
fn collect_groups<'a, G>(node: &'a PaneNode<G>, acc: &mut Vec<&'a G>)
    ensures
        final(acc)@.len() == old(acc)@.len() + node.leaves().len(),
        forall|i: int| 0 <= i < old(acc)@.len() ==> final(acc)@[i] == old(acc)@[i],
        forall|i: int|
            0 <= i < node.leaves().len() ==> *final(acc)@[old(acc)@.len() + i] == #[trigger] node.leaves()[i].1,
    decreases node,
{
    match node {
        PaneNode::Leaf { group, .. } => {
            acc.push(group);
        },
        PaneNode::HSplit { left, right, .. } => {
            let ghost a0 = acc@;
            collect_groups(left, acc);
            let ghost a1 = acc@;
            collect_groups(right, acc);
            proof {
                let l = (**left).leaves();
                let r = (**right).leaves();
                assert forall|i: int| 0 <= i < node.leaves().len() implies *acc@[a0.len() + i]
                    == #[trigger] node.leaves()[i].1 by {
                    if i < l.len() {
                        assert(node.leaves()[i] == l[i]);
                        assert(acc@[a0.len() + i] == a1[a0.len() + i]);
                    } else {
                        assert(node.leaves()[i] == r[i - l.len()]);
                    }
                }
            }
        },
        PaneNode::VSplit { top, bottom, .. } => {
            let ghost a0 = acc@;
            collect_groups(top, acc);
            let ghost a1 = acc@;
            collect_groups(bottom, acc);
            proof {
                let t = (**top).leaves();
                let b = (**bottom).leaves();
                assert forall|i: int| 0 <= i < node.leaves().len() implies *acc@[a0.len() + i]
                    == #[trigger] node.leaves()[i].1 by {
                    if i < t.len() {
                        assert(node.leaves()[i] == t[i]);
                        assert(acc@[a0.len() + i] == a1[a0.len() + i]);
                    } else {
                        assert(node.leaves()[i] == b[i - t.len()]);
                    }
                }
            }
        },
    }
}

/// The side of a group on which a split in `direction` puts the new group:
/// to the right, or below.
pub open spec fn placement_of(direction: SplitDirection) -> DropPlacement {
    match direction {
        SplitDirection::Horizontal => DropPlacement::Right,
        SplitDirection::Vertical => DropPlacement::Bottom,
    }
}

/// A tree that may be empty after putting `new_node` beside group
/// `target_id` under a split with id `split_id`: unchanged when there is no
/// such group.
pub open spec fn opt_split<G>(
    root: Option<PaneNode<G>>,
    target_id: usize,
    split_id: usize,
    placement: DropPlacement,
    new_node: PaneNode<G>,
) -> Option<PaneNode<G>> {
    match root {
        Some(n) => if has_id(n.leaves(), target_id) {
            Some(split_tree(n, target_id, split_id, placement, new_node))
        } else {
            Some(n)
        },
        None => None,
    }
}

/// The groups after putting group `new_group` beside group `target_id`, on
/// the side named by `placement`; unchanged when there is no such group.
pub open spec fn groups_after_split<G>(
    groups: Seq<(usize, G)>,
    target_id: usize,
    placement: DropPlacement,
    new_group: (usize, G),
) -> Seq<(usize, G)> {
    if has_id(groups, target_id) {
        expand_leaves(groups, target_id, placement, seq![new_group])
    } else {
        groups
    }
}

/// The active group after group `removed` leaves a tree whose groups are
/// now `groups`: the first group when the active one was removed (none when
/// no group is left), else the same.
pub open spec fn active_after_remove<G>(
    active: Option<usize>,
    removed: usize,
    groups: Seq<(usize, G)>,
) -> Option<usize> {
    if active == Some(removed) {
        if groups.len() > 0 {
            Some(groups[0].0)
        } else {
            None
        }
    } else {
        active
    }
}

/// The panes of the editor window: a tree of groups (or nothing), the active
/// group, and the next ids to give to groups, splits and tabs.
pub struct PaneTree<G> {
    root: Option<PaneNode<G>>,
    active_group_id: Option<usize>,
    next_group_id: usize,
    next_split_id: usize,
    next_tab_id: usize,
}

impl<G> PaneTree<G> {
    /// The tree of panes, none when no group is open.
    pub closed spec fn root(&self) -> Option<PaneNode<G>> {
        self.root
    }

    /// The groups, in order, with their ids.
    pub closed spec fn groups(&self) -> Seq<(usize, G)> {
        opt_leaves(self.root)
    }

    /// The groups are those of the tree.
    pub proof fn lemma_groups_of_root(&self)
        ensures
            self.groups() == opt_leaves(self.root()),
    {
    }

    /// The active group's id.
    pub closed spec fn active(&self) -> Option<usize> {
        self.active_group_id
    }

    /// The id the next group will get.
    pub closed spec fn spec_next_group_id(&self) -> usize {
        self.next_group_id
    }

    /// The id the next split will get.
    pub closed spec fn spec_next_split_id(&self) -> usize {
        self.next_split_id
    }

    /// The id the next tab will get.
    pub closed spec fn spec_next_tab_id(&self) -> usize {
        self.next_tab_id
    }

    /// No two groups share an id, and every group's id is below the next one
    /// to be given.
    pub closed spec fn wf(&self) -> bool {
        &&& unique_ids(opt_leaves(self.root))
        &&& forall|i: int|
            0 <= i < opt_leaves(self.root).len() ==> #[trigger] opt_leaves(self.root)[i].0 < self.next_group_id
    }

    /// An empty tree; ids start at 1.
    pub fn new() -> (r: Self)
        ensures
            r.wf(),
            r.groups() == Seq::<(usize, G)>::empty(),
            r.root() is None,
            r.active() is None,
            r.spec_next_group_id() == 1,
            r.spec_next_split_id() == 1,
            r.spec_next_tab_id() == 1,
    {
        PaneTree { root: None, active_group_id: None, next_group_id: 1, next_split_id: 1, next_tab_id: 1 }
    }

    /// Whether no group is open.
    pub fn is_empty(&self) -> (r: bool)
        ensures
            r == (self.groups().len() == 0),
    {
        proof {
            if self.root is Some {
                lemma_leaves_nonempty(self.root.unwrap());
            }
        }
        self.root.is_none()
    }

    /// The active group's id.
    pub fn active_group_id(&self) -> (r: Option<usize>)
        ensures
            r == self.active(),
    {
        self.active_group_id
    }

    /// The tree of panes, none when no group is open: what is drawn.
    pub fn root_node(&self) -> (r: &Option<PaneNode<G>>)
        ensures
            *r == self.root(),
    {
        &self.root
    }

    /// The first group with id `group_id`, if there is one.
    pub fn find_group(&self, group_id: usize) -> (r: Option<&G>)
        ensures
            r is None <==> !has_id(self.groups(), group_id),
            r is Some ==> exists|i: int|
                0 <= i < self.groups().len() && #[trigger] self.groups()[i].0 == group_id && *r.unwrap()
                    == self.groups()[i].1 && forall|j: int| 0 <= j < i ==> self.groups()[j].0 != group_id,
    {
        match &self.root {
            Some(root) => {
                let r = find_in(root, group_id);
                proof {
                    assert(self.groups() == root.leaves());
                    if r is Some {
                        let l = root.leaves();
                        let i = choose|i: int|
                            0 <= i < l.len() && #[trigger] l[i].0 == group_id && *r.unwrap() == l[i].1
                                && forall|j: int| 0 <= j < i ==> l[j].0 != group_id;
                        assert(self.groups()[i].0 == group_id);
                    }
                }
                r
            },
            None => None,
        }
    }

    /// The active group, if it is in the tree.
    pub fn active_group(&self) -> (r: Option<&G>)
        ensures
            r is None <==> (self.active() is None || !has_id(self.groups(), self.active().unwrap())),
            r is Some ==> exists|i: int|
                0 <= i < self.groups().len() && #[trigger] self.groups()[i].0 == self.active().unwrap()
                    && *r.unwrap() == self.groups()[i].1,
    {
        match self.active_group_id {
            Some(id) => self.find_group(id),
            None => None,
        }
    }

    /// The groups, in order.
    pub fn all_groups(&self) -> (r: Vec<&G>)
        ensures
            r@.len() == self.groups().len(),
            forall|i: int| 0 <= i < self.groups().len() ==> *r@[i] == #[trigger] self.groups()[i].1,
    {
        let mut groups: Vec<&G> = Vec::new();
        match &self.root {
            Some(root) => {
                collect_groups(root, &mut groups);
            },
            None => {},
        }
        groups
    }

    /// For each group, in order, whether it is the active one: what every
    /// group is told when the active group changes.
    pub fn active_states(&self) -> (r: Vec<bool>)
        ensures
            r@.len() == self.groups().len(),
            forall|i: int| 0 <= i < self.groups().len() ==> r@[i] == (self.active() == Some(#[trigger] self.groups()[i].0)),
    {
        let mut flags: Vec<bool> = Vec::new();
        match &self.root {
            Some(root) => {
                collect_active_flags(root, self.active_group_id, &mut flags);
            },
            None => {},
        }
        flags
    }

    /// Gives out the id of a new group.
    pub fn create_group(&mut self) -> (id: usize)
        requires
            old(self).wf(),
            old(self).spec_next_group_id() < usize::MAX,
        ensures
            final(self).wf(),
            id == old(self).spec_next_group_id(),
            !has_id(final(self).groups(), id),
            final(self).spec_next_group_id() == old(self).spec_next_group_id() + 1,
            final(self).groups() == old(self).groups(),
            final(self).root() == old(self).root(),
            final(self).active() == old(self).active(),
            final(self).spec_next_split_id() == old(self).spec_next_split_id(),
            final(self).spec_next_tab_id() == old(self).spec_next_tab_id(),
    {
        let id = self.next_group_id;
        self.next_group_id = self.next_group_id + 1;
        proof {
            if has_id(opt_leaves(self.root), id) {
                let i = choose|i: int| 0 <= i < opt_leaves(self.root).len() && #[trigger] opt_leaves(self.root)[i].0 == id;
                assert(opt_leaves(self.root)[i].0 < id);
            }
        }
        id
    }

    /// Opens a tab: it gets the next tab id and goes to the active group, or
    /// to the first group when the active one is not in the tree, or, in an
    /// empty tree, to `fresh_group`, which becomes the tree. The group it
    /// goes to becomes active. Returns the tab's id and the group's.
    pub fn open_tab(&mut self, fresh_group: Option<(usize, G)>) -> (r: (usize, usize))
        requires
            old(self).wf(),
            old(self).spec_next_tab_id() < usize::MAX,
            fresh_group is Some <==> old(self).groups().len() == 0,
            fresh_group is Some ==> fresh_group.unwrap().0 < old(self).spec_next_group_id(),
        ensures
            final(self).wf(),
            r.0 == old(self).spec_next_tab_id(),
            final(self).spec_next_tab_id() == old(self).spec_next_tab_id() + 1,
            final(self).spec_next_group_id() == old(self).spec_next_group_id(),
            final(self).spec_next_split_id() == old(self).spec_next_split_id(),
            final(self).groups() == (match fresh_group {
                Some(g) => seq![g],
                None => old(self).groups(),
            }),
            final(self).root() == (match fresh_group {
                Some(g) => Some(PaneNode::Leaf { id: g.0, group: g.1 }),
                None => old(self).root(),
            }),
            r.1 == (if old(self).active() is Some && has_id(old(self).groups(), old(self).active().unwrap()) {
                old(self).active().unwrap()
            } else if old(self).groups().len() > 0 {
                old(self).groups()[0].0
            } else {
                fresh_group.unwrap().0
            }),
            final(self).active() == Some(r.1),
    {
        let tab_id = self.next_tab_id;
        self.next_tab_id = self.next_tab_id + 1;
        let found_active = match self.active_group_id {
            Some(active_id) => match &self.root {
                Some(root) => {
                    let g = find_in(root, active_id);
                    g.is_some()
                },
                None => false,
            },
            None => false,
        };
        let target_group_id = if found_active {
            match self.active_group_id {
                Some(id) => id,
                None => 0,
            }
        } else {
            match &self.root {
                Some(root) => {
                    proof {
                        lemma_leaves_nonempty(*root);
                    }
                    first_group_id(root)
                },
                None => {
                    match fresh_group {
                        Some((id, group)) => {
                            self.root = Some(PaneNode::Leaf { id, group });
                            proof {
                                assert(opt_leaves(self.root) =~= seq![(id, group)]);
                            }
                            id
                        },
                        None => 0,
                    }
                },
            }
        };
        self.active_group_id = Some(target_group_id);
        (tab_id, target_group_id)
    }

    /// Splits group `target_group_id` in `direction` to put `new_group` to
    /// its right or below it; the new group becomes active. The new tab that
    /// the new group will hold gets the next tab id, which is returned. When
    /// no group has that id the tree is unchanged.
    pub fn split_group(&mut self, target_group_id: usize, direction: SplitDirection, new_group: (usize, G)) -> (tab_id: usize)
        requires
            old(self).wf(),
            old(self).spec_next_tab_id() < usize::MAX,
            old(self).spec_next_split_id() < usize::MAX,
            new_group.0 < old(self).spec_next_group_id(),
            !has_id(old(self).groups(), new_group.0),
        ensures
            final(self).wf(),
            tab_id == old(self).spec_next_tab_id(),
            final(self).spec_next_tab_id() == old(self).spec_next_tab_id() + 1,
            final(self).spec_next_split_id() == old(self).spec_next_split_id() + 1,
            final(self).spec_next_group_id() == old(self).spec_next_group_id(),
            final(self).groups() == groups_after_split(
                old(self).groups(),
                target_group_id,
                placement_of(direction),
                new_group,
            ),
            final(self).root() == opt_split(
                old(self).root(),
                target_group_id,
                old(self).spec_next_split_id(),
                placement_of(direction),
                PaneNode::Leaf { id: new_group.0, group: new_group.1 },
            ),
            final(self).active() == Some(new_group.0),
    {
        let tab_id = self.next_tab_id;
        self.next_tab_id = self.next_tab_id + 1;
        let placement = match direction {
            SplitDirection::Horizontal => DropPlacement::Right,
            SplitDirection::Vertical => DropPlacement::Bottom,
        };
        let new_id = new_group.0;
        self.put_beside(target_group_id, placement, new_group);
        self.active_group_id = Some(new_id);
        tab_id
    }

    /// Puts `new_group` beside group `target_group_id` under a split with
    /// the next split id.
    fn put_beside(&mut self, target_group_id: usize, placement: DropPlacement, new_group: (usize, G))
        requires
            old(self).wf(),
            old(self).spec_next_split_id() < usize::MAX,
            new_group.0 < old(self).spec_next_group_id(),
            !has_id(old(self).groups(), new_group.0),
        ensures
            final(self).wf(),
            final(self).spec_next_split_id() == old(self).spec_next_split_id() + 1,
            final(self).spec_next_tab_id() == old(self).spec_next_tab_id(),
            final(self).spec_next_group_id() == old(self).spec_next_group_id(),
            final(self).active() == old(self).active(),
            final(self).groups() == groups_after_split(
                old(self).groups(),
                target_group_id,
                placement,
                new_group,
            ),
            final(self).root() == opt_split(
                old(self).root(),
                target_group_id,
                old(self).spec_next_split_id(),
                placement,
                PaneNode::Leaf { id: new_group.0, group: new_group.1 },
            ),
    {
        let split_id = self.next_split_id;
        self.next_split_id = self.next_split_id + 1;
        let (new_id, new_g) = new_group;
        let new_leaf = PaneNode::Leaf { id: new_id, group: new_g };
        proof {
            assert(new_leaf.leaves() =~= seq![new_group]);
        }
        let old_root = self.root.take();
        match old_root {
            Some(root) => {
                let ghost r0 = root;
                let (replaced, _unused) = replace_node(root, target_group_id, split_id, placement, new_leaf);
                self.root = Some(replaced);
                proof {
                    if has_id(r0.leaves(), target_group_id) {
                        lemma_split_tree_leaves(r0, target_group_id, split_id, placement, new_leaf);
                        let l = r0.leaves();
                        let k = choose|k: int| 0 <= k < l.len() && #[trigger] l[k].0 == target_group_id;
                        lemma_expand_unique(l, k, placement, seq![new_group]);
                        lemma_split_wf(l, k, placement, new_group, self.next_group_id);
                    }
                }
            },
            None => {
                self.root = None;
            },
        }
    }

    /// Drops a dragged tab on group `target_group_id`. `removed_tab` tells
    /// whether the tab left its old group (`None` when that group does not
    /// hold it) and, if so, whether that group is now empty. Nothing changes
    /// when the old group is not in the tree or did not hold the tab. Beside
    /// the target (`new_group` holds the tab), the target is split to hold
    /// the new group, which becomes active; in its middle the tree is
    /// unchanged. Then, when the tab's old group is left empty, it is
    /// removed.
    pub fn split_with_drop(
        &mut self,
        drag: TabDrag,
        target_group_id: usize,
        placement: DropPlacement,
        new_group: Option<(usize, G)>,
        removed_tab: Option<bool>,
    )
        requires
            old(self).wf(),
            old(self).spec_next_split_id() < usize::MAX,
            (placement == DropPlacement::Center) <==> new_group is None,
            new_group is Some ==> new_group.unwrap().0 < old(self).spec_next_group_id() && !has_id(
                old(self).groups(),
                new_group.unwrap().0,
            ),
        ensures
            final(self).wf(),
            final(self).spec_next_tab_id() == old(self).spec_next_tab_id(),
            final(self).spec_next_group_id() == old(self).spec_next_group_id(),
            removed_tab is None || !has_id(old(self).groups(), drag.from_group_id) ==> {
                &&& final(self).root() == old(self).root()
                &&& final(self).groups() == old(self).groups()
                &&& final(self).active() == old(self).active()
                &&& final(self).spec_next_split_id() == old(self).spec_next_split_id()
            },
            removed_tab is Some && has_id(old(self).groups(), drag.from_group_id) ==> ({
                let from_group_empty = removed_tab.unwrap();
                let mid_root = match new_group {
                    Some(g) => opt_split(
                        old(self).root(),
                        target_group_id,
                        old(self).spec_next_split_id(),
                        placement,
                        PaneNode::Leaf { id: g.0, group: g.1 },
                    ),
                    None => old(self).root(),
                };
                let mid_groups = match new_group {
                    Some(g) => groups_after_split(old(self).groups(), target_group_id, placement, g),
                    None => old(self).groups(),
                };
                let mid_active = match new_group {
                    Some(g) => Some(g.0),
                    None => old(self).active(),
                };
                &&& final(self).spec_next_split_id() == old(self).spec_next_split_id() + (if new_group is Some {
                    1int
                } else {
                    0
                })
                &&& if from_group_empty {
                    &&& final(self).root() == opt_removed(mid_root, drag.from_group_id)
                    &&& final(self).groups() == mid_groups.filter(other_than::<G>(drag.from_group_id))
                    &&& final(self).active() == active_after_remove(
                        mid_active,
                        drag.from_group_id,
                        final(self).groups(),
                    )
                } else {
                    &&& final(self).root() == mid_root
                    &&& final(self).groups() == mid_groups
                    &&& final(self).active() == mid_active
                }
            }),
    {
        let from_group_empty = match removed_tab {
            Some(empty) => empty,
            None => {
                return ;
            },
        };
        if self.find_group(drag.from_group_id).is_none() {
            return ;
        }
        match new_group {
            Some(g) => {
                let id = g.0;
                self.put_beside(target_group_id, placement, g);
                self.active_group_id = Some(id);
            },
            None => {},
        }
        if from_group_empty {
            self.remove_group(drag.from_group_id);
        }
    }

    /// Records that a dragged tab has moved to group `to_group_id`: `moved`
    /// tells whether the tab's old group held it, and `from_group_empty`
    /// whether that group is left empty. When both groups are in the tree
    /// and the tab moved, the target group becomes active and the old group
    /// is removed when it is left empty; else nothing changes.
    pub fn move_tab(&mut self, drag: TabDrag, to_group_id: usize, moved: bool, from_group_empty: bool)
        requires
            old(self).wf(),
        ensures
            final(self).wf(),
            final(self).spec_next_tab_id() == old(self).spec_next_tab_id(),
            final(self).spec_next_group_id() == old(self).spec_next_group_id(),
            final(self).spec_next_split_id() == old(self).spec_next_split_id(),
            ({
                let proceeds = moved && has_id(old(self).groups(), drag.from_group_id) && has_id(
                    old(self).groups(),
                    to_group_id,
                );
                &&& !proceeds ==> final(self).root() == old(self).root() && final(self).groups()
                    == old(self).groups() && final(self).active() == old(self).active()
                &&& proceeds && !from_group_empty ==> final(self).root() == old(self).root()
                    && final(self).groups() == old(self).groups() && final(self).active() == Some(
                    to_group_id,
                )
                &&& proceeds && from_group_empty ==> final(self).root() == opt_removed(
                    old(self).root(),
                    drag.from_group_id,
                ) && final(self).groups() == old(self).groups().filter(other_than::<G>(drag.from_group_id))
                    && final(self).active() == active_after_remove(
                    Some(to_group_id),
                    drag.from_group_id,
                    final(self).groups(),
                )
            }),
    {
        if !moved || self.find_group(drag.from_group_id).is_none() || self.find_group(to_group_id).is_none() {
            return ;
        }
        self.active_group_id = Some(to_group_id);
        if from_group_empty {
            self.remove_group(drag.from_group_id);
        }
    }

    /// Removes group `group_id` from the tree; when it was the active one,
    /// the first group left becomes active (none when no group is left).
    pub fn remove_group(&mut self, group_id: usize)
        requires
            old(self).wf(),
        ensures
            final(self).wf(),
            final(self).groups() == old(self).groups().filter(other_than::<G>(group_id)),
            final(self).root() == opt_removed(old(self).root(), group_id),
            !has_id(final(self).groups(), group_id),
            final(self).active() == active_after_remove(old(self).active(), group_id, final(self).groups()),
            final(self).spec_next_tab_id() == old(self).spec_next_tab_id(),
            final(self).spec_next_group_id() == old(self).spec_next_group_id(),
            final(self).spec_next_split_id() == old(self).spec_next_split_id(),
    {
        let ghost before = opt_leaves(self.root);
        let old_root = self.root.take();
        match old_root {
            Some(root) => {
                self.root = remove_node(root, group_id);
            },
            None => {
                proof {
                    reveal(Seq::filter);
                }
                self.root = None;
            },
        }
        proof {
            lemma_filter_groups(before, other_than::<G>(group_id));
            let after = opt_leaves(self.root);
            assert forall|i: int| 0 <= i < after.len() implies #[trigger] after[i].0 < self.next_group_id by {
                assert(after.contains(after[i]));
                let j = choose|j: int| 0 <= j < before.len() && before[j] == after[i];
                assert(before[j].0 < self.next_group_id);
            }
            if has_id(after, group_id) {
                let i = choose|i: int| 0 <= i < after.len() && #[trigger] after[i].0 == group_id;
                assert(after.contains(after[i]));
                assert(other_than::<G>(group_id)(after[i]));
            }
        }
        if self.active_group_id == Some(group_id) {
            self.active_group_id = match &self.root {
                Some(root) => {
                    proof {
                        lemma_leaves_nonempty(*root);
                    }
                    Some(first_group_id(root))
                },
                None => None,
            };
        }
    }

    /// Makes group `group_id` the active one.
    pub fn set_active_group(&mut self, group_id: usize)
        ensures
            final(self).active() == Some(group_id),
            final(self).groups() == old(self).groups(),
            final(self).root() == old(self).root(),
            final(self).wf() == old(self).wf(),
            final(self).spec_next_tab_id() == old(self).spec_next_tab_id(),
            final(self).spec_next_group_id() == old(self).spec_next_group_id(),
            final(self).spec_next_split_id() == old(self).spec_next_split_id(),
    {
        self.active_group_id = Some(group_id);
    }
}

/// The id of the first group of the tree.
fn first_group_id<G>(node: &PaneNode<G>) -> (id: usize)
    ensures
        node.leaves().len() > 0,
        id == node.leaves()[0].0,
    decreases node,
{
    proof {
        lemma_leaves_nonempty(*node);
    }
    match node {
        PaneNode::Leaf { id, .. } => *id,
        PaneNode::HSplit { left, right, .. } => {
            let id = first_group_id(left);
            proof {
                assert(node.leaves()[0] == (**left).leaves()[0]);
            }
            id
        },
        PaneNode::VSplit { top, bottom, .. } => {
            let id = first_group_id(top);
            proof {
                assert(node.leaves()[0] == (**top).leaves()[0]);
            }
            id
        },
    }
}

/// Splitting group `k` of groups with unique ids below `next` to hold a group
/// whose id is below `next` and not among them keeps the ids unique and
/// below `next`.
pub proof fn lemma_split_wf<G>(
    l: Seq<(usize, G)>,
    k: int,
    placement: DropPlacement,
    new_group: (usize, G),
    next: usize,
)
    requires
        unique_ids(l),
        0 <= k < l.len(),
        forall|i: int| 0 <= i < l.len() ==> #[trigger] l[i].0 < next,
        new_group.0 < next,
        !has_id(l, new_group.0),
    ensures
        ({
            let s = l.subrange(0, k) + placed_leaves(placement, l[k], seq![new_group]) + l.subrange(
                k + 1,
                l.len() as int,
            );
            &&& unique_ids(s)
            &&& forall|i: int| 0 <= i < s.len() ==> #[trigger] s[i].0 < next
        }),
{
    let s = l.subrange(0, k) + placed_leaves(placement, l[k], seq![new_group]) + l.subrange(
        k + 1,
        l.len() as int,
    );
    let t = l[k];
    let pl = placed_leaves(placement, t, seq![new_group]);
    // Each element of s is an element of l or the new group.
    assert forall|i: int| 0 <= i < s.len() implies (#[trigger] s[i] == new_group) || (exists|j: int|
        0 <= j < l.len() && s[i] == l[j] && (j < k ==> i == j) && (j > k ==> i == j + pl.len() - 1)
        && (j == k ==> k <= i < k + pl.len())) by {
        if i < k {
            assert(s[i] == l[i]);
        } else if i < k + pl.len() {
            assert(s[i] == pl[i - k]);
            match placement {
                DropPlacement::Left | DropPlacement::Top => {
                    if i - k == 1 {
                        assert(s[i] == l[k]);
                    }
                },
                DropPlacement::Right | DropPlacement::Bottom => {
                    if i - k == 0 {
                        assert(s[i] == l[k]);
                    }
                },
                DropPlacement::Center => {
                    assert(s[i] == l[k]);
                },
            }
        } else {
            assert(s[i] == l[i - pl.len() + 1]);
        }
    }
    assert forall|i: int| 0 <= i < s.len() implies #[trigger] s[i].0 < next by {
        if s[i] != new_group {
            let j = choose|j: int|
                0 <= j < l.len() && s[i] == l[j] && (j < k ==> i == j) && (j > k ==> i == j + pl.len() - 1)
                    && (j == k ==> k <= i < k + pl.len());
            assert(l[j].0 < next);
        }
    }
    assert forall|a: int, b: int| 0 <= a < b < s.len() implies #[trigger] s[a].0 != #[trigger] s[b].0 by {
        let na = s[a] == new_group;
        let nb = s[b] == new_group;
        if na && nb {
            match placement {
                DropPlacement::Center => {},
                _ => {
                    assert(false) by {
                        if a < k {
                            assert(s[a] == l[a]);
                            assert(l[a].0 == new_group.0);
                        } else if a < k + pl.len() {
                            if b < k + pl.len() {
                                assert(b - k == a - k + 1);
                                assert(s[a] == l[k] || s[b] == l[k]);
                                assert(l[k].0 == new_group.0);
                            } else {
                                assert(s[b] == l[b - pl.len() + 1]);
                                assert(l[b - pl.len() + 1].0 == new_group.0);
                            }
                        } else {
                            assert(s[a] == l[a - pl.len() + 1]);
                            assert(l[a - pl.len() + 1].0 == new_group.0);
                        }
                    }
                },
            }
        } else if na {
            let jb = choose|j: int|
                0 <= j < l.len() && s[b] == l[j] && (j < k ==> b == j) && (j > k ==> b == j + pl.len() - 1)
                    && (j == k ==> k <= b < k + pl.len());
            assert(l[jb].0 != new_group.0);
        } else if nb {
            let ja = choose|j: int|
                0 <= j < l.len() && s[a] == l[j] && (j < k ==> a == j) && (j > k ==> a == j + pl.len() - 1)
                    && (j == k ==> k <= a < k + pl.len());
            assert(l[ja].0 != new_group.0);
        } else {
            let ja = choose|j: int|
                0 <= j < l.len() && s[a] == l[j] && (j < k ==> a == j) && (j > k ==> a == j + pl.len() - 1)
                    && (j == k ==> k <= a < k + pl.len());
            let jb = choose|j: int|
                0 <= j < l.len() && s[b] == l[j] && (j < k ==> b == j) && (j > k ==> b == j + pl.len() - 1)
                    && (j == k ==> k <= b < k + pl.len());
            if ja == jb {
                assert(ja == k);
                match placement {
                    DropPlacement::Center => {},
                    _ => {
                        assert(b - k == a - k + 1);
                        assert(s[a] == new_group || s[b] == new_group);
                    },
                }
            } else if ja < jb {
                assert(l[ja].0 != l[jb].0);
            } else {
                assert(l[jb].0 != l[ja].0);
            }
        }
    }
}

/// Putting groups other than `new_group` aside again: the groups with
/// `new_group` placed beside the target, less `new_group`, are the groups one
/// started with.
proof fn lemma_expand_then_filter<G>(
    leaves: Seq<(usize, G)>,
    target_id: usize,
    placement: DropPlacement,
    new_group: (usize, G),
)
    requires
        !has_id(leaves, new_group.0),
    ensures
        expand_leaves(leaves, target_id, placement, seq![new_group]).filter(other_than::<G>(new_group.0)) == leaves,
    decreases leaves.len(),
{
    broadcast use Seq::filter_distributes_over_add;

    let p = other_than::<G>(new_group.0);
    if leaves.len() > 0 {
        let t = leaves.last();
        let rest = leaves.drop_last();
        assert(!has_id(rest, new_group.0)) by {
            if has_id(rest, new_group.0) {
                let i = choose|i: int| 0 <= i < rest.len() && #[trigger] rest[i].0 == new_group.0;
                assert(leaves[i].0 == new_group.0);
            }
        }
        assert(t.0 != new_group.0) by {
            assert(leaves[leaves.len() - 1].0 == t.0);
        }
        lemma_expand_then_filter(rest, target_id, placement, new_group);
        lemma_leaf_filter(t.0, t.1, new_group.0);
        lemma_leaf_filter(new_group.0, new_group.1, new_group.0);
        let piece = if t.0 == target_id {
            placed_leaves(placement, t, seq![new_group])
        } else {
            seq![t]
        };
        assert(seq![(t.0, t.1)] == seq![t]);
        assert(seq![(new_group.0, new_group.1)] == seq![new_group]);
        assert(piece.filter(p) == seq![t]) by {
            if t.0 == target_id {
                match placement {
                    DropPlacement::Left | DropPlacement::Top => {
                        assert(piece == seq![new_group] + seq![t]);
                        assert(Seq::<(usize, G)>::empty() + seq![t] =~= seq![t]);
                    },
                    DropPlacement::Right | DropPlacement::Bottom => {
                        assert(piece == seq![t] + seq![new_group]);
                        assert(seq![t] + Seq::<(usize, G)>::empty() =~= seq![t]);
                    },
                    DropPlacement::Center => {},
                }
            }
        }
        assert(rest + seq![t] =~= leaves);
    } else {
        reveal(Seq::filter);
        assert(leaves.filter(p) =~= leaves);
    }
}

/// Splitting a group to put a new group beside it, then removing the new
/// group, gives back the groups one started with.
pub proof fn lemma_split_then_remove<G>(
    groups: Seq<(usize, G)>,
    target_id: usize,
    direction: SplitDirection,
    new_group: (usize, G),
)
    requires
        !has_id(groups, new_group.0),
    ensures
        groups_after_split(groups, target_id, placement_of(direction), new_group).filter(
            other_than::<G>(new_group.0),
        ) == groups,
{
    if has_id(groups, target_id) {
        lemma_expand_then_filter(groups, target_id, placement_of(direction), new_group);
    } else {
        assert forall|i: int| 0 <= i < groups.len() implies #[trigger] groups[i].0 != new_group.0 by {}
        lemma_filter_keeps_all(groups, other_than::<G>(new_group.0));
    }
}

/// A filter that every element passes keeps the sequence.
proof fn lemma_filter_keeps_all<A>(s: Seq<A>, p: spec_fn(A) -> bool)
    requires
        forall|i: int| 0 <= i < s.len() ==> p(#[trigger] s[i]),
    ensures
        s.filter(p) == s,
    decreases s.len(),
{
    reveal(Seq::filter);
    if s.len() > 0 {
        lemma_filter_keeps_all(s.drop_last(), p);
        assert(s.drop_last().push(s.last()) =~= s);
    } else {
        assert(s.filter(p) =~= s);
    }
}

} // verus!
