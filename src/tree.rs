//! The key tree: one node per path segment, built from the items in key order,
//! with completion flags and the rows that the expand flags leave visible.
use crate::path::{child_path, join_child, split_dots, split_key};
use crate::sorted::{last_wins, lemma_sorted_unique, strictly_sorted};
use crate::session::App;
use crate::store::{item_entries, translated, TranslationItem, TranslationStore};
use vstd::prelude::*;

verus! {

/// One node of the key tree; a node with no children is a leaf.
#[derive(Debug)]
pub struct TreeNode {
    pub key_segment: String,
    pub full_path: String,
    pub translation: Option<TranslationItem>,
    pub children: Vec<TreeNode>,
    pub expanded: bool,
    pub fully_translated: bool,
}

/// What a tree node holds, as mathematical values.
pub struct NodeView {
    pub seg: Seq<char>,
    pub path: Seq<char>,
    pub item: Option<TranslationItem>,
    pub children: Seq<NodeView>,
    pub expanded: bool,
    pub done: bool,
}

pub open spec fn node_view(n: TreeNode) -> NodeView
    decreases n,
{
    NodeView {
        seg: n.key_segment@,
        path: n.full_path@,
        item: n.translation,
        children: forest_view(n.children@),
        expanded: n.expanded,
        done: n.fully_translated,
    }
}

pub open spec fn forest_view(s: Seq<TreeNode>) -> Seq<NodeView>
    decreases s,
{
    if s.len() == 0 {
        Seq::empty()
    } else {
        forest_view(s.drop_last()).push(node_view(s.last()))
    }
}

pub proof fn lemma_forest_view(s: Seq<TreeNode>)
    ensures
        forest_view(s).len() == s.len(),
        forall|i: int| 0 <= i < s.len() ==> #[trigger] forest_view(s)[i] == node_view(s[i]),
    decreases s.len(),
{
    if s.len() > 0 {
        lemma_forest_view(s.drop_last());
        assert forall|i: int| 0 <= i < s.len() implies #[trigger] forest_view(s)[i] == node_view(
            s[i],
        ) by {
            if i < s.len() - 1 {
                assert(s.drop_last()[i] == s[i]);
            }
        }
    }
}

/// Index of the first node whose segment is `k`, or -1.
pub open spec fn find_node(f: Seq<NodeView>, k: Seq<char>) -> int
    decreases f.len(),
{
    if f.len() == 0 {
        -1
    } else if find_node(f.drop_last(), k) >= 0 {
        find_node(f.drop_last(), k)
    } else if f.last().seg == k {
        f.len() - 1
    } else {
        -1
    }
}

pub proof fn lemma_find_node(f: Seq<NodeView>, k: Seq<char>)
    ensures
        -1 <= find_node(f, k) < f.len(),
        find_node(f, k) >= 0 ==> f[find_node(f, k)].seg == k,
        find_node(f, k) >= 0 ==> forall|i: int| 0 <= i < find_node(f, k) ==> (#[trigger] f[i]).seg != k,
        find_node(f, k) == -1 ==> forall|i: int| 0 <= i < f.len() ==> (#[trigger] f[i]).seg != k,
    decreases f.len(),
{
    if f.len() > 0 {
        lemma_find_node(f.drop_last(), k);
        assert forall|i: int| 0 <= i < f.len() - 1 implies (#[trigger] f[i]).seg == f.drop_last()[i].seg by {}
    }
}

/// A new node for segment `k` at `path`: no item, no children, collapsed.
pub open spec fn fresh_node(k: Seq<char>, path: Seq<char>) -> NodeView {
    NodeView { seg: k, path, item: None, children: Seq::empty(), expanded: false, done: false }
}

/// `f` with `item` attached at the path `segs` below `prefix`: at each level the first node
/// with the segment is reused, or a new one is added at the end.
pub open spec fn insert_node(
    f: Seq<NodeView>,
    segs: Seq<Seq<char>>,
    prefix: Option<Seq<char>>,
    item: TranslationItem,
) -> Seq<NodeView>
    decreases segs.len(),
{
    if segs.len() == 0 {
        f
    } else {
        let k = segs[0];
        let pos = find_node(f, k);
        let base = if pos >= 0 {
            f
        } else {
            f.push(fresh_node(k, child_path(prefix, k)))
        };
        let p = if pos >= 0 {
            pos
        } else {
            f.len() as int
        };
        let node = base[p];
        if segs.len() == 1 {
            base.update(p, NodeView { item: Some(item), ..node })
        } else {
            base.update(
                p,
                NodeView {
                    children: insert_node(node.children, segs.drop_first(), Some(node.path), item),
                    ..node
                },
            )
        }
    }
}

/// The forest that the items make when inserted in the order given.
pub open spec fn build_forest(items: Seq<TranslationItem>) -> Seq<NodeView>
    decreases items.len(),
{
    if items.len() == 0 {
        Seq::empty()
    } else {
        insert_node(build_forest(items.drop_last()), split_dots(items.last().key@), None, items.last())
    }
}

/// The items in ascending key order, one per key, the later of two items with one key kept.
pub open spec fn sorted_items(items: Seq<TranslationItem>) -> Seq<TranslationItem> {
    choose|s: Seq<TranslationItem>|
        strictly_sorted(item_entries(s)) && last_wins(item_entries(s)) == last_wins(item_entries(items))
}

/// Whether a node and everything below it is translated.
pub open spec fn node_done(n: NodeView) -> bool
    decreases n,
{
    if n.children.len() == 0 {
        match n.item {
            Some(it) => translated(it),
            None => false,
        }
    } else {
        forest_done(n.children)
    }
}

/// Whether every node of the forest is done.
pub open spec fn forest_done(f: Seq<NodeView>) -> bool
    decreases f,
{
    if f.len() == 0 {
        true
    } else {
        forest_done(f.drop_last()) && node_done(f.last())
    }
}

/// The node with its completion flag, and those of all below it, recomputed.
pub open spec fn mark_node(n: NodeView) -> NodeView
    decreases n,
{
    NodeView { children: mark_forest(n.children), done: node_done(n), ..n }
}

pub open spec fn mark_forest(f: Seq<NodeView>) -> Seq<NodeView>
    decreases f,
{
    if f.len() == 0 {
        Seq::empty()
    } else {
        mark_forest(f.drop_last()).push(mark_node(f.last()))
    }
}

pub proof fn lemma_mark_forest(f: Seq<NodeView>)
    ensures
        mark_forest(f).len() == f.len(),
        forall|i: int| 0 <= i < f.len() ==> #[trigger] mark_forest(f)[i] == mark_node(f[i]),
    decreases f.len(),
{
    if f.len() > 0 {
        lemma_mark_forest(f.drop_last());
        assert forall|i: int| 0 <= i < f.len() implies #[trigger] mark_forest(f)[i] == mark_node(
            f[i],
        ) by {
            if i < f.len() - 1 {
                assert(f.drop_last()[i] == f[i]);
            }
        }
    }
}

/// The view of an optional path prefix.
pub open spec fn prefix_view(prefix: Option<&str>) -> Option<Seq<char>> {
    match prefix {
        Some(p) => Some(p@),
        None => None,
    }
}

/// The position of the first node whose segment is `k`.
pub(crate) fn find_child(nodes: &Vec<TreeNode>, k: &String) -> (r: Option<usize>)
    ensures
        match r {
            Some(i) => i < nodes.len() && find_node(forest_view(nodes@), k@) == i,
            None => find_node(forest_view(nodes@), k@) == -1,
        },
{
    proof {
        lemma_forest_view(nodes@);
        lemma_find_node(forest_view(nodes@), k@);
    }
    let ghost fv = forest_view(nodes@);
    let mut j: usize = 0;
    while j < nodes.len()
        invariant
            j <= nodes.len(),
            fv == forest_view(nodes@),
            fv.len() == nodes.len(),
            forall|i: int| 0 <= i < nodes.len() ==> #[trigger] fv[i] == node_view(nodes@[i]),
            forall|i: int| 0 <= i < j ==> (#[trigger] fv[i]).seg != k@,
            -1 <= find_node(fv, k@) < fv.len(),
            find_node(fv, k@) >= 0 ==> fv[find_node(fv, k@)].seg == k@,
            find_node(fv, k@) >= 0 ==> forall|i: int| 0 <= i < find_node(fv, k@) ==> (#[trigger] fv[i]).seg != k@,
            find_node(fv, k@) == -1 ==> forall|i: int| 0 <= i < fv.len() ==> (#[trigger] fv[i]).seg != k@,
        decreases nodes.len() - j,
    {
        if nodes[j].key_segment == *k {
            proof {
                assert(fv[j as int].seg == k@);
            }
            return Some(j);
        }
        proof {
            assert(fv[j as int].seg != k@);
        }
        j = j + 1;
    }
    None
}

/// A tree node with an empty child list, collapsed, not marked translated.
fn new_node(seg: &String, full_path: String) -> (r: TreeNode)
    ensures
        node_view(r) == fresh_node(seg@, full_path@),
{
    let r = TreeNode {
        key_segment: seg.clone(),
        full_path,
        translation: None,
        children: Vec::new(),
        expanded: false,
        fully_translated: false,
    };
    proof {
        assert(forest_view(r.children@) =~= Seq::<NodeView>::empty());
    }
    r
}

/// Attaches `item` at the path `segs[idx..]` below the nodes, whose own path is `prefix`.
fn insert_item(
    nodes: &mut Vec<TreeNode>,
    segs: &Vec<String>,
    idx: usize,
    prefix: Option<&str>,
    item: &TranslationItem,
)
    requires
        idx <= segs.len(),
    ensures
        forest_view(final(nodes)@) == insert_node(
            forest_view(old(nodes)@),
            segs@.map_values(|s: String| s@).subrange(idx as int, segs.len() as int),
            prefix_view(prefix),
            *item,
        ),
    decreases segs.len() - idx,
{
    let ghost sv = segs@.map_values(|s: String| s@);
    let ghost rest = sv.subrange(idx as int, segs.len() as int);
    let ghost fv = forest_view(nodes@);
    let ghost pv = prefix_view(prefix);
    if idx == segs.len() {
        return;
    }
    proof {
        assert(rest[0] == segs@[idx as int]@);
        assert(rest.drop_first() =~= sv.subrange(idx + 1, segs.len() as int));
        lemma_forest_view(nodes@);
    }
    let k = &segs[idx];
    let pos = match find_child(nodes, k) {
        Some(p) => p,
        None => {
            let path = join_child(prefix, k.as_str());
            nodes.push(new_node(k, path));
            nodes.len() - 1
        },
    };
    let ghost base = nodes@;
    proof {
        lemma_forest_view(nodes@);
        lemma_find_node(fv, k@);
        if find_node(fv, k@) < 0 {
            assert(forest_view(nodes@) =~= fv.push(fresh_node(k@, child_path(pv, k@))));
        } else {
            assert(forest_view(nodes@) == fv);
        }
    }
    let mut node = nodes.remove(pos);
    if idx + 1 == segs.len() {
        node.translation = Some(item.duplicate());
    } else {
        let ghost before = node;
        insert_item(&mut node.children, segs, idx + 1, Some(node.full_path.as_str()), item);
        proof {
            assert(node.full_path == before.full_path);
        }
    }
    nodes.insert(pos, node);
    proof {
        assert(nodes@ =~= base.update(pos as int, node));
        lemma_forest_view(nodes@);
        lemma_forest_view(base);
        assert(forest_view(nodes@) =~= insert_node(fv, rest, pv, *item));
    }
}

/// The depth below `d`, kept at the largest `usize` rather than wrapping.
pub open spec fn next_depth(d: nat) -> nat {
    if d < usize::MAX {
        d + 1
    } else {
        d
    }
}

/// The rows (path, depth) shown for the forest: each node, then, if it is expanded, its children's rows.
pub open spec fn visible_rows(f: Seq<NodeView>, depth: nat) -> Seq<(Seq<char>, nat)>
    decreases f,
{
    if f.len() == 0 {
        Seq::empty()
    } else {
        visible_rows(f.drop_last(), depth) + node_rows(f.last(), depth)
    }
}

pub open spec fn node_rows(n: NodeView, depth: nat) -> Seq<(Seq<char>, nat)>
    decreases n,
{
    seq![(n.path, depth)] + if n.expanded {
        visible_rows(n.children, next_depth(depth))
    } else {
        Seq::empty()
    }
}

/// The rows as mathematical values.
pub open spec fn rows_view(v: Seq<(String, usize)>) -> Seq<(Seq<char>, nat)> {
    v.map_values(|r: (String, usize)| (r.0@, r.1 as nat))
}

/// The node reached by following `segs` from the top, taking the first match at each level.
pub open spec fn node_by_segs(f: Seq<NodeView>, segs: Seq<Seq<char>>) -> Option<NodeView>
    decreases segs.len(),
{
    if segs.len() == 0 {
        None
    } else {
        let pos = find_node(f, segs[0]);
        if pos < 0 {
            None
        } else if segs.len() == 1 {
            Some(f[pos])
        } else {
            node_by_segs(f[pos].children, segs.drop_first())
        }
    }
}

/// The forest with the expand flag flipped on the node at `segs`, if it has children.
pub open spec fn toggle_forest(f: Seq<NodeView>, segs: Seq<Seq<char>>) -> Seq<NodeView>
    decreases segs.len(),
{
    if segs.len() == 0 {
        f
    } else {
        let pos = find_node(f, segs[0]);
        if pos < 0 {
            f
        } else if segs.len() == 1 {
            if f[pos].children.len() > 0 {
                f.update(pos, NodeView { expanded: !f[pos].expanded, ..f[pos] })
            } else {
                f
            }
        } else {
            f.update(pos, NodeView { children: toggle_forest(f[pos].children, segs.drop_first()), ..f[pos] })
        }
    }
}

/// The forest with the translation of the item on the node at `segs`, if it has one, set to `text`.
pub open spec fn retarget_forest(f: Seq<NodeView>, segs: Seq<Seq<char>>, text: Option<String>) -> Seq<NodeView>
    decreases segs.len(),
{
    if segs.len() == 0 {
        f
    } else {
        let pos = find_node(f, segs[0]);
        if pos < 0 {
            f
        } else if segs.len() == 1 {
            match f[pos].item {
                Some(it) => f.update(pos, NodeView { item: Some(TranslationItem { target_text: text, ..it }), ..f[pos] }),
                None => f,
            }
        } else {
            f.update(
                pos,
                NodeView { children: retarget_forest(f[pos].children, segs.drop_first(), text), ..f[pos] },
            )
        }
    }
}

/// The nodes with their completion flags, and those of all below them, recomputed; and
/// whether all of them are done.
pub(crate) fn mark_owned(nodes: Vec<TreeNode>) -> (r: (Vec<TreeNode>, bool))
    ensures
        forest_view(r.0@) == mark_forest(forest_view(nodes@)),
        r.1 == forest_done(forest_view(nodes@)),
    decreases nodes,
{
    let ghost f0 = forest_view(nodes@);
    let ghost n0 = nodes@;
    proof {
        lemma_forest_view(nodes@);
        lemma_mark_forest(f0);
        assert(f0.subrange(0, 0) =~= Seq::<NodeView>::empty());
    }
    let mut v = nodes;
    let mut all = true;
    let mut i: usize = 0;
    while i < v.len()
        invariant
            i <= v.len(),
            v.len() == n0.len(),
            n0 == nodes@,
            f0.len() == n0.len(),
            forall|k: int| i <= k < n0.len() ==> #[trigger] v@[k] == n0[k],
            forall|k: int| 0 <= k < n0.len() ==> #[trigger] f0[k] == node_view(n0[k]),
            forall|k: int| 0 <= k < i ==> #[trigger] node_view(v@[k]) == mark_node(f0[k]),
            all == forest_done(f0.subrange(0, i as int)),
        decreases v.len() - i,
    {
        let mut node = v.remove(i);
        let ghost before = node;
        let mut children: Vec<TreeNode> = Vec::new();
        std::mem::swap(&mut children, &mut node.children);
        let done = if children.len() == 0 {
            node.children = children;
            match &node.translation {
                Some(t) => t.is_translated(),
                None => false,
            }
        } else {
            proof {
                assert(decreases_to!(nodes => nodes@));
                assert(decreases_to!(nodes@ => nodes@[i as int]));
                assert(decreases_to!(nodes@[i as int] => nodes@[i as int].children));
            }
            let (marked, d) = mark_owned(children);
            node.children = marked;
            d
        };
        node.fully_translated = done;
        proof {
            lemma_forest_view(before.children@);
            if before.children.len() == 0 {
                assert(forest_view(node.children@) =~= mark_forest(forest_view(before.children@)));
            }
            assert(node_view(node) == mark_node(f0[i as int]));
            assert(f0.subrange(0, i + 1).drop_last() =~= f0.subrange(0, i as int));
        }
        v.insert(i, node);
        all = all && done;
        i = i + 1;
    }
    proof {
        assert(f0.subrange(0, i as int) =~= f0);
        lemma_forest_view(v@);
        assert(forest_view(v@) =~= mark_forest(f0));
    }
    (v, all)
}

/// Appends the rows of the nodes, at `depth`, to `out`.
pub(crate) fn push_rows(nodes: &Vec<TreeNode>, depth: usize, out: &mut Vec<(String, usize)>)
    ensures
        rows_view(final(out)@) == rows_view(old(out)@) + visible_rows(forest_view(nodes@), depth as nat),
    decreases nodes@,
{
    let ghost f = forest_view(nodes@);
    let ghost start = rows_view(out@);
    proof {
        lemma_forest_view(nodes@);
        assert(f.subrange(0, 0) =~= Seq::<NodeView>::empty());
        assert(start + visible_rows(f.subrange(0, 0), depth as nat) =~= start);
    }
    let mut i: usize = 0;
    while i < nodes.len()
        invariant
            i <= nodes.len(),
            f == forest_view(nodes@),
            f.len() == nodes.len(),
            forall|k: int| 0 <= k < nodes.len() ==> #[trigger] f[k] == node_view(nodes@[k]),
            rows_view(out@) == start + visible_rows(f.subrange(0, i as int), depth as nat),
        decreases nodes.len() - i,
    {
        let node = &nodes[i];
        let ghost mid = rows_view(out@);
        out.push((node.full_path.clone(), depth));
        proof {
            assert(rows_view(out@) =~= mid + seq![(node.full_path@, depth as nat)]);
        }
        if node.expanded {
            let d = if depth < usize::MAX {
                depth + 1
            } else {
                depth
            };
            proof {
                assert(decreases_to!(nodes@ => nodes@[i as int]));
                assert(decreases_to!(nodes@[i as int] => nodes@[i as int].children));
                assert(decreases_to!(nodes@[i as int].children => nodes@[i as int].children@));
            }
            push_rows(&node.children, d, out);
        }
        proof {
            assert(f.subrange(0, i + 1).drop_last() =~= f.subrange(0, i as int));
            assert(f.subrange(0, i + 1).last() == node_view(*node));
            let nr = node_rows(node_view(*node), depth as nat);
            if node.expanded {
                assert(nr =~= seq![(node.full_path@, depth as nat)] + visible_rows(forest_view(node.children@), next_depth(depth as nat)));
            } else {
                assert(nr =~= seq![(node.full_path@, depth as nat)]);
            }
            assert(rows_view(out@) =~= start + visible_rows(f.subrange(0, i + 1), depth as nat));
        }
        i = i + 1;
    }
    proof {
        assert(f.subrange(0, i as int) =~= f);
    }
}

/// Flips the expand flag of the node at `segs[idx..]`, if it has children.
pub(crate) fn toggle_at(nodes: &mut Vec<TreeNode>, segs: &Vec<String>, idx: usize)
    requires
        idx <= segs.len(),
    ensures
        forest_view(final(nodes)@) == toggle_forest(
            forest_view(old(nodes)@),
            segs@.map_values(|s: String| s@).subrange(idx as int, segs.len() as int),
        ),
    decreases segs.len() - idx,
{
    let ghost sv = segs@.map_values(|s: String| s@);
    let ghost rest = sv.subrange(idx as int, segs.len() as int);
    let ghost fv = forest_view(nodes@);
    if idx == segs.len() {
        return;
    }
    proof {
        assert(rest[0] == segs@[idx as int]@);
        assert(rest.drop_first() =~= sv.subrange(idx + 1, segs.len() as int));
        lemma_forest_view(nodes@);
    }
    match find_child(nodes, &segs[idx]) {
        None => {},
        Some(pos) => {
            let ghost base = nodes@;
            let mut node = nodes.remove(pos);
            if idx + 1 == segs.len() {
                if node.children.len() > 0 {
                    node.expanded = !node.expanded;
                }
            } else {
                toggle_at(&mut node.children, segs, idx + 1);
            }
            nodes.insert(pos, node);
            proof {
                assert(nodes@ =~= base.update(pos as int, node));
                lemma_forest_view(nodes@);
                lemma_forest_view(base);
                lemma_forest_view(node.children@);
                assert(forest_view(nodes@) =~= toggle_forest(fv, rest));
            }
        },
    }
}

/// Sets the translation of the item on the node at `segs[idx..]`, if it has one.
pub(crate) fn retarget_at(nodes: &mut Vec<TreeNode>, segs: &Vec<String>, idx: usize, text: &Option<String>)
    requires
        idx <= segs.len(),
    ensures
        forest_view(final(nodes)@) == retarget_forest(
            forest_view(old(nodes)@),
            segs@.map_values(|s: String| s@).subrange(idx as int, segs.len() as int),
            *text,
        ),
    decreases segs.len() - idx,
{
    let ghost sv = segs@.map_values(|s: String| s@);
    let ghost rest = sv.subrange(idx as int, segs.len() as int);
    let ghost fv = forest_view(nodes@);
    if idx == segs.len() {
        return;
    }
    proof {
        assert(rest[0] == segs@[idx as int]@);
        assert(rest.drop_first() =~= sv.subrange(idx + 1, segs.len() as int));
        lemma_forest_view(nodes@);
    }
    match find_child(nodes, &segs[idx]) {
        None => {},
        Some(pos) => {
            let ghost base = nodes@;
            let mut node = nodes.remove(pos);
            if idx + 1 == segs.len() {
                match node.translation {
                    Some(it) => {
                        let copy = match text {
                            Some(t) => Some(t.clone()),
                            None => None,
                        };
                        node.translation = Some(TranslationItem { target_text: copy, ..it });
                    },
                    None => {},
                }
            } else {
                retarget_at(&mut node.children, segs, idx + 1, text);
            }
            nodes.insert(pos, node);
            proof {
                assert(nodes@ =~= base.update(pos as int, node));
                lemma_forest_view(nodes@);
                lemma_forest_view(base);
                lemma_forest_view(node.children@);
                assert(forest_view(nodes@) =~= retarget_forest(fv, rest, *text));
            }
        },
    }
}

/// Whether each leaf below a node (the node itself, when it has no children) is translated,
/// in tree order.
pub open spec fn leaf_states(n: NodeView) -> Seq<bool>
    decreases n,
{
    if n.children.len() == 0 {
        seq![
            match n.item {
                Some(it) => translated(it),
                None => false,
            },
        ]
    } else {
        forest_leaf_states(n.children)
    }
}

pub open spec fn forest_leaf_states(f: Seq<NodeView>) -> Seq<bool>
    decreases f,
{
    if f.len() == 0 {
        Seq::empty()
    } else {
        forest_leaf_states(f.drop_last()) + leaf_states(f.last())
    }
}

pub open spec fn all_true(s: Seq<bool>) -> bool {
    forall|i: int| 0 <= i < s.len() ==> #[trigger] s[i]
}

/// Every node's completion flag is the AND of the states of the leaves below it.
pub open spec fn flags_consistent(n: NodeView) -> bool
    decreases n,
{
    &&& n.done == all_true(leaf_states(n))
    &&& forest_consistent(n.children)
}

/// Every tree of the forest has consistent completion flags.
pub open spec fn forest_consistent(f: Seq<NodeView>) -> bool
    decreases f,
{
    if f.len() == 0 {
        true
    } else {
        forest_consistent(f.drop_last()) && flags_consistent(f.last())
    }
}

proof fn lemma_all_true_concat(a: Seq<bool>, b: Seq<bool>)
    ensures
        all_true(a + b) == (all_true(a) && all_true(b)),
{
    if all_true(a) && all_true(b) {
        assert forall|i: int| 0 <= i < (a + b).len() implies #[trigger] (a + b)[i] by {
            if i >= a.len() {
                assert((a + b)[i] == b[i - a.len()]);
            }
        }
    }
    if all_true(a + b) {
        assert forall|i: int| 0 <= i < a.len() implies #[trigger] a[i] by {
            assert((a + b)[i] == a[i]);
        }
        assert forall|i: int| 0 <= i < b.len() implies #[trigger] b[i] by {
            assert((a + b)[a.len() + i] == b[i]);
        }
    }
}

/// Marking keeps the leaves, and a node's computed flag is the AND of its leaves.
proof fn lemma_mark_leaves(n: NodeView)
    ensures
        leaf_states(mark_node(n)) == leaf_states(n),
        node_done(n) == all_true(leaf_states(n)),
    decreases n,
{
    if n.children.len() > 0 {
        lemma_mark_forest_leaves(n.children);
    } else {
        assert(mark_forest(n.children) =~= Seq::<NodeView>::empty());
        let l = leaf_states(n);
        assert(l.len() == 1);
        if all_true(l) {
            assert(l[0]);
        }
        if l[0] {
            assert forall|i: int| 0 <= i < l.len() implies #[trigger] l[i] by {}
        }
    }
}

proof fn lemma_mark_forest_leaves(f: Seq<NodeView>)
    ensures
        forest_leaf_states(mark_forest(f)) == forest_leaf_states(f),
        forest_done(f) == all_true(forest_leaf_states(f)),
    decreases f,
{
    if f.len() > 0 {
        lemma_mark_forest_leaves(f.drop_last());
        lemma_mark_leaves(f.last());
        lemma_all_true_concat(forest_leaf_states(f.drop_last()), leaf_states(f.last()));
        assert(mark_forest(f).drop_last() == mark_forest(f.drop_last()));
        lemma_mark_forest(f);
    } else {
        assert(all_true(Seq::<bool>::empty()));
    }
}

/// After the flags are recomputed, every node's completion flag is the AND of the
/// translated states of the leaves below it, at every depth.
pub proof fn lemma_marked_flags_consistent(n: NodeView)
    ensures
        flags_consistent(mark_node(n)),
    decreases n,
{
    lemma_mark_leaves(n);
    lemma_marked_forest_consistent(n.children);
}

/// The same for every tree of a recomputed forest.
pub proof fn lemma_marked_forest_consistent(f: Seq<NodeView>)
    ensures
        forest_consistent(mark_forest(f)),
    decreases f,
{
    if f.len() > 0 {
        lemma_marked_forest_consistent(f.drop_last());
        lemma_marked_flags_consistent(f.last());
        assert(mark_forest(f).drop_last() == mark_forest(f.drop_last()));
    }
}

/// No two different items share a key.
pub open spec fn keys_identify(s: Seq<TranslationItem>) -> bool {
    forall|i: int, j: int|
        0 <= i < s.len() && 0 <= j < s.len() && (#[trigger] s[i]).key@ == (#[trigger] s[j]).key@ ==> s[i] == s[j]
}

proof fn lemma_identified_map(s: Seq<TranslationItem>)
    requires
        keys_identify(s),
    ensures
        forall|k: Seq<char>| #[trigger] last_wins(item_entries(s)).contains_key(k) <==> exists|i: int|
            0 <= i < s.len() && s[i].key@ == k,
        forall|i: int| 0 <= i < s.len() ==> #[trigger] last_wins(item_entries(s))[s[i].key@] == s[i],
    decreases s.len(),
{
    if s.len() > 0 {
        let t = s.drop_last();
        assert(keys_identify(t)) by {
            assert forall|i: int, j: int|
                0 <= i < t.len() && 0 <= j < t.len() && (#[trigger] t[i]).key@ == (#[trigger] t[j]).key@ implies t[i] == t[j] by {
                assert(t[i] == s[i] && t[j] == s[j]);
            }
        }
        lemma_identified_map(t);
        assert(item_entries(s).drop_last() =~= item_entries(t));
        let m = last_wins(item_entries(s));
        assert(m == last_wins(item_entries(t)).insert(s.last().key@, s.last()));
        assert forall|k: Seq<char>| #[trigger] m.contains_key(k) <==> exists|i: int| 0 <= i < s.len() && s[i].key@ == k by {
            if m.contains_key(k) && k != s.last().key@ {
                let i = choose|i: int| 0 <= i < t.len() && t[i].key@ == k;
                assert(s[i] == t[i]);
            }
            if exists|i: int| 0 <= i < s.len() && s[i].key@ == k {
                let i = choose|i: int| 0 <= i < s.len() && s[i].key@ == k;
                if i < s.len() - 1 {
                    assert(t[i] == s[i]);
                }
            }
        }
        assert forall|i: int| 0 <= i < s.len() implies #[trigger] m[s[i].key@] == s[i] by {
            if s[i].key@ == s.last().key@ {
                assert(s[i] == s[s.len() - 1]);
            } else {
                assert(t[i] == s[i]);
            }
        }
    }
}

/// Building the tree twice from the same items, in any order, gives the same tree: the
/// same nodes in the same order with the same paths. The items are a set: no two
/// different items share a key.
pub proof fn lemma_build_order_independent(a: Seq<TranslationItem>, b: Seq<TranslationItem>)
    requires
        keys_identify(a),
        keys_identify(b),
        a.to_set() == b.to_set(),
    ensures
        sorted_items(a) == sorted_items(b),
        build_forest(sorted_items(a)) == build_forest(sorted_items(b)),
{
    lemma_identified_map(a);
    lemma_identified_map(b);
    let ma = last_wins(item_entries(a));
    let mb = last_wins(item_entries(b));
    assert forall|k: Seq<char>| #[trigger] ma.contains_key(k) implies mb.contains_key(k) && ma[k] == mb[k] by {
        let i = choose|i: int| 0 <= i < a.len() && a[i].key@ == k;
        assert(a.to_set().contains(a[i]));
        assert(b.to_set().contains(a[i]));
        let j = choose|j: int| 0 <= j < b.len() && b[j] == a[i];
        assert(mb[b[j].key@] == b[j]);
    }
    assert forall|k: Seq<char>| #[trigger] mb.contains_key(k) implies ma.contains_key(k) by {
        let j = choose|j: int| 0 <= j < b.len() && b[j].key@ == k;
        assert(b.to_set().contains(b[j]));
        assert(a.to_set().contains(b[j]));
        let i = choose|i: int| 0 <= i < a.len() && a[i] == b[j];
        assert(a[i].key@ == k);
    }
    assert(ma =~= mb);
}

/// Whether the index sequence `a` leads to a node: one index per level, each in range.
pub open spec fn valid_addr(f: Seq<NodeView>, a: Seq<int>) -> bool
    decreases a.len(),
{
    &&& a.len() >= 1
    &&& 0 <= a[0] < f.len()
    &&& a.len() > 1 ==> valid_addr(f[a[0]].children, a.drop_first())
}

/// The node that the index sequence `a` leads to.
pub open spec fn node_at(f: Seq<NodeView>, a: Seq<int>) -> NodeView
    decreases a.len(),
{
    if a.len() <= 1 {
        f[a[0]]
    } else {
        node_at(f[a[0]].children, a.drop_first())
    }
}

/// Whether every ancestor of the node that `a` leads to is expanded.
pub open spec fn ancestors_expanded(f: Seq<NodeView>, a: Seq<int>) -> bool
    decreases a.len(),
{
    a.len() <= 1 || (f[a[0]].expanded && ancestors_expanded(f[a[0]].children, a.drop_first()))
}

proof fn lemma_addr_in_prefix(f: Seq<NodeView>, t: Seq<NodeView>, a: Seq<int>)
    requires
        t.len() <= f.len(),
        forall|i: int| 0 <= i < t.len() ==> #[trigger] t[i] == f[i],
        a.len() >= 1,
        0 <= a[0] < t.len(),
    ensures
        valid_addr(t, a) == valid_addr(f, a),
        node_at(t, a) == node_at(f, a),
        ancestors_expanded(t, a) == ancestors_expanded(f, a),
{
    assert(t[a[0]] == f[a[0]]);
}

proof fn lemma_open_node_shown(f: Seq<NodeView>, a: Seq<int>, d: nat) -> (j: int)
    requires
        valid_addr(f, a),
        ancestors_expanded(f, a),
    ensures
        0 <= j < visible_rows(f, d).len(),
        visible_rows(f, d)[j].0 == node_at(f, a).path,
    decreases f,
{
    let n = f.len() as int;
    let t = f.drop_last();
    let pre = visible_rows(t, d);
    let last = f.last();
    assert(visible_rows(f, d) == pre + node_rows(last, d));
    if a[0] < n - 1 {
        lemma_addr_in_prefix(f, t, a);
        let j = lemma_open_node_shown(t, a, d);
        assert(visible_rows(f, d)[j] == pre[j]);
        j
    } else if a.len() == 1 {
        assert(node_rows(last, d)[0] == (last.path, d));
        assert(visible_rows(f, d)[pre.len() as int] == node_rows(last, d)[0]);
        pre.len() as int
    } else {
        let a2 = a.drop_first();
        assert(decreases_to!(f => f[n - 1]));
        assert(decreases_to!(f[n - 1] => f[n - 1].children));
        let j2 = lemma_open_node_shown(last.children, a2, next_depth(d));
        let nr = node_rows(last, d);
        assert(nr == seq![(last.path, d)] + visible_rows(last.children, next_depth(d)));
        assert(nr[1 + j2] == visible_rows(last.children, next_depth(d))[j2]);
        assert(visible_rows(f, d)[pre.len() + 1 + j2] == nr[1 + j2]);
        pre.len() + 1 + j2
    }
}

proof fn lemma_shown_node_open(f: Seq<NodeView>, d: nat, j: int) -> (a: Seq<int>)
    requires
        0 <= j < visible_rows(f, d).len(),
    ensures
        valid_addr(f, a),
        ancestors_expanded(f, a),
        node_at(f, a).path == visible_rows(f, d)[j].0,
    decreases f,
{
    let n = f.len() as int;
    if n == 0 {
        assert(false);
    }
    let t = f.drop_last();
    let pre = visible_rows(t, d);
    let last = f.last();
    let nr = node_rows(last, d);
    assert(visible_rows(f, d) == pre + nr);
    if j < pre.len() {
        assert(visible_rows(f, d)[j] == pre[j]);
        let a = lemma_shown_node_open(t, d, j);
        lemma_addr_in_prefix(f, t, a);
        a
    } else if j == pre.len() {
        assert(visible_rows(f, d)[j] == nr[0]);
        seq![n - 1]
    } else {
        let j2 = j - pre.len() - 1;
        if !last.expanded {
            assert(nr =~= seq![(last.path, d)]);
            assert(false);
        }
        assert(nr == seq![(last.path, d)] + visible_rows(last.children, next_depth(d)));
        assert(visible_rows(f, d)[j] == nr[j - pre.len()]);
        assert(nr[j - pre.len()] == visible_rows(last.children, next_depth(d))[j2]);
        assert(decreases_to!(f => f[n - 1]));
        assert(decreases_to!(f[n - 1] => f[n - 1].children));
        let a2 = lemma_shown_node_open(last.children, next_depth(d), j2);
        let a = seq![n - 1] + a2;
        assert(a.drop_first() =~= a2);
        a
    }
}

/// Whether some node with path `p` is reached through expanded ancestors.
pub open spec fn open_node_has_path(f: Seq<NodeView>, p: Seq<char>) -> bool {
    exists|a: Seq<int>| valid_addr(f, a) && ancestors_expanded(f, a) && node_at(f, a).path == p
}

/// A node's path is in the visible rows iff the node can be reached through expanded
/// ancestors: every node whose ancestors are all expanded has a row, and every row shows
/// the path of such a node.
pub proof fn lemma_visible_iff_ancestors_expanded(f: Seq<NodeView>, d: nat)
    ensures
        forall|a: Seq<int>| valid_addr(f, a) && #[trigger] ancestors_expanded(f, a) ==> exists|j: int|
            0 <= j < visible_rows(f, d).len() && visible_rows(f, d)[j].0 == node_at(f, a).path,
        forall|j: int| 0 <= j < visible_rows(f, d).len() ==> open_node_has_path(f, (#[trigger] visible_rows(f, d)[j]).0),
{
    assert forall|a: Seq<int>| valid_addr(f, a) && #[trigger] ancestors_expanded(f, a) implies exists|j: int|
        0 <= j < visible_rows(f, d).len() && visible_rows(f, d)[j].0 == node_at(f, a).path by {
        let j = lemma_open_node_shown(f, a, d);
    }
    assert forall|j: int| 0 <= j < visible_rows(f, d).len() implies open_node_has_path(f, (#[trigger] visible_rows(f, d)[j]).0) by {
        let a = lemma_shown_node_open(f, d, j);
        assert(valid_addr(f, a) && ancestors_expanded(f, a) && node_at(f, a).path == visible_rows(f, d)[j].0);
    }
}

proof fn lemma_rows_update(f: Seq<NodeView>, i: int, x: NodeView, d: nat)
    requires
        0 <= i < f.len(),
        node_rows(x, d) == node_rows(f[i], d),
    ensures
        visible_rows(f.update(i, x), d) == visible_rows(f, d),
    decreases f.len(),
{
    let g = f.update(i, x);
    if i == f.len() - 1 {
        assert(g.drop_last() =~= f.drop_last());
    } else {
        assert(g.drop_last() =~= f.drop_last().update(i, x));
        lemma_rows_update(f.drop_last(), i, x, d);
    }
}

/// Recomputing the completion flags leaves the rows as they were.
pub proof fn lemma_rows_mark(f: Seq<NodeView>, d: nat)
    ensures
        visible_rows(mark_forest(f), d) == visible_rows(f, d),
    decreases f,
{
    if f.len() > 0 {
        lemma_rows_mark(f.drop_last(), d);
        let n = f.last();
        assert(decreases_to!(f => f[f.len() - 1]));
        lemma_rows_mark(n.children, next_depth(d));
        assert(mark_forest(f).drop_last() == mark_forest(f.drop_last()));
        assert(node_rows(mark_node(n), d) == node_rows(n, d));
    }
}

/// Setting a translation in the tree leaves the rows as they were.
pub proof fn lemma_rows_retarget(f: Seq<NodeView>, segs: Seq<Seq<char>>, text: Option<String>, d: nat)
    ensures
        visible_rows(retarget_forest(f, segs, text), d) == visible_rows(f, d),
    decreases segs.len(),
{
    if segs.len() > 0 {
        let pos = find_node(f, segs[0]);
        lemma_find_node(f, segs[0]);
        if pos >= 0 {
            let n = f[pos];
            if segs.len() == 1 {
                match n.item {
                    Some(it) => {
                        lemma_rows_update(f, pos, NodeView { item: Some(TranslationItem { target_text: text, ..it }), ..n }, d);
                    },
                    None => {},
                }
            } else {
                let c = retarget_forest(n.children, segs.drop_first(), text);
                lemma_rows_retarget(n.children, segs.drop_first(), text, next_depth(d));
                lemma_rows_update(f, pos, NodeView { children: c, ..n }, d);
            }
        }
    }
}

impl TreeNode {
    pub fn is_leaf(&self) -> (r: bool)
        ensures
            r == (self.children.len() == 0),
    {
        self.children.len() == 0
    }
}

impl App {
    /// The key tree of `items`, built from them in ascending key order.
    pub fn build_tree(items: Vec<TranslationItem>) -> (r: Vec<TreeNode>)
        ensures
            forest_view(r@) == build_forest(sorted_items(items@)),
    {
        let store = TranslationStore::new(items);
        let sorted = store.all_items;
        proof {
            let s = sorted_items(items@);
            assert(strictly_sorted(item_entries(s)) && last_wins(item_entries(s)) == last_wins(item_entries(items@)));
            lemma_sorted_unique(item_entries(s), item_entries(sorted@));
            assert(s =~= sorted@) by {
                assert forall|i: int| 0 <= i < s.len() implies s[i] == sorted@[i] by {
                    assert(item_entries(s)[i] == item_entries(sorted@)[i]);
                }
            }
        }
        let mut root_nodes: Vec<TreeNode> = Vec::new();
        let mut i: usize = 0;
        proof {
            assert(forest_view(root_nodes@) =~= Seq::<NodeView>::empty());
            assert(sorted@.subrange(0, 0) =~= Seq::<TranslationItem>::empty());
        }
        while i < sorted.len()
            invariant
                i <= sorted.len(),
                sorted@ == sorted_items(items@),
                forest_view(root_nodes@) == build_forest(sorted@.subrange(0, i as int)),
            decreases sorted.len() - i,
        {
            let segs = split_key(sorted[i].key.as_str());
            proof {
                assert(sorted@.subrange(0, i + 1).drop_last() =~= sorted@.subrange(0, i as int));
                assert(segs@.map_values(|s: String| s@).subrange(0, segs.len() as int) =~= segs@.map_values(|s: String| s@));
            }
            insert_item(&mut root_nodes, &segs, 0, None, &sorted[i]);
            i = i + 1;
        }
        proof {
            assert(sorted@.subrange(0, i as int) =~= sorted@);
        }
        root_nodes
    }
}

} // verus!
