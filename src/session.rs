//! The editing session: the store, its key tree, the visible rows and the
//! selection, with the operations that keys and edits perform on them.
use crate::path::{split_dots, split_key, lemma_split_nonempty};
use crate::sorted::last_wins;
use crate::store::{count_translated, item_entries, opt_view, TranslationItem, TranslationStore};
use crate::tree::{
    NodeView, build_forest, find_child, forest_view, mark_forest, mark_owned, node_by_segs, node_view, push_rows, retarget_at,
    retarget_forest, rows_view, lemma_rows_mark, lemma_rows_retarget, sorted_items, toggle_at, toggle_forest, visible_rows, forest_done, lemma_forest_view,
    TreeNode,
};
use vstd::prelude::*;

verus! {

/// Whether keys move the selection or edit a translation.
#[derive(Debug, PartialEq, Eq, Structural, Clone, Copy)]
pub enum AppMode {
    Normal,
    Editing,
}

/// The editing session: the store, its key tree, the visible rows and the selection.
pub struct App {
    pub tree: Vec<TreeNode>,
    pub visible_nodes: Vec<(String, usize)>,
    pub selected_index: usize,
    pub translation_store: TranslationStore,
    pub mode: AppMode,
}

/// The selection after the rows changed to `len` of them: kept when still in range,
/// else the last row, or 0 when there is none.
pub open spec fn clamp_selection(sel: usize, len: nat) -> usize {
    if (sel as nat) < len {
        sel
    } else if len > 0 {
        (len - 1) as usize
    } else {
        0
    }
}

/// A copy of the items, equal to them.
fn copy_items(v: &Vec<TranslationItem>) -> (r: Vec<TranslationItem>)
    ensures
        r@ == v@,
{
    let mut r: Vec<TranslationItem> = Vec::new();
    let mut i: usize = 0;
    while i < v.len()
        invariant
            i <= v.len(),
            r@ == v@.subrange(0, i as int),
        decreases v.len() - i,
    {
        r.push(v[i].duplicate());
        proof {
            assert(r@ =~= v@.subrange(0, i + 1));
        }
        i = i + 1;
    }
    proof {
        assert(v@.subrange(0, i as int) =~= v@);
    }
    r
}

/// The position of the first row showing `path`.
fn find_row(rows: &Vec<(String, usize)>, path: &String) -> (r: Option<usize>)
    ensures
        match r {
            Some(i) => i < rows.len() && rows@[i as int].0@ == path@,
            None => forall|i: int| 0 <= i < rows.len() ==> (#[trigger] rows@[i]).0@ != path@,
        },
{
    let mut i: usize = 0;
    while i < rows.len()
        invariant
            i <= rows.len(),
            forall|k: int| 0 <= k < i ==> (#[trigger] rows@[k]).0@ != path@,
        decreases rows.len() - i,
    {
        if rows[i].0 == *path {
            return Some(i);
        }
        i = i + 1;
    }
    None
}

impl App {
    /// The store is sorted, the rows are those of the tree, and the selection is in range.
    pub open spec fn wf(&self) -> bool {
        &&& self.translation_store.wf()
        &&& rows_view(self.visible_nodes@) == visible_rows(forest_view(self.tree@), 0)
        &&& self.selected_index == clamp_selection(self.selected_index, self.visible_nodes.len() as nat)
    }

    /// The path of the selected row, if the selection is on a row.
    pub open spec fn selected_path(&self) -> Option<Seq<char>> {
        if self.selected_index < self.visible_nodes.len() {
            Some(self.visible_nodes@[self.selected_index as int].0@)
        } else {
            None
        }
    }

    /// The node of the selected row, if any.
    pub open spec fn selected_node(&self) -> Option<NodeView> {
        match self.selected_path() {
            Some(p) => node_by_segs(forest_view(self.tree@), split_dots(p)),
            None => None,
        }
    }

    /// `after` is this session with the translation of the selected item set to `text`, in the
    /// store and in the tree, and the completion flags recomputed.
    pub open spec fn retargeted(&self, after: App, text: Option<String>) -> bool {
        match self.selected_path() {
            Some(p) => {
                &&& self.translation_store.item_map().contains_key(p) ==> after.translation_store.item_map()
                    == self.translation_store.item_map().insert(
                    p,
                    TranslationItem { target_text: text, ..self.translation_store.item_map()[p] },
                )
                &&& !self.translation_store.item_map().contains_key(p) ==> after.translation_store
                    == self.translation_store
                &&& forest_view(after.tree@) == mark_forest(retarget_forest(forest_view(self.tree@), split_dots(p), text))
            },
            None => after.tree == self.tree && after.translation_store == self.translation_store,
        }
    }

    /// A session over `items`: the store, the tree with its completion flags, all collapsed,
    /// and the first row selected.
    pub fn new(items: Vec<TranslationItem>) -> (r: App)
        ensures
            r.wf(),
            r.translation_store.item_map() == last_wins(item_entries(items@)),
            forest_view(r.tree@) == mark_forest(build_forest(sorted_items(items@))),
            r.selected_index == 0,
            r.mode == AppMode::Normal,
    {
        let copy = copy_items(&items);
        let translation_store = TranslationStore::new(items);
        let mut tree = App::build_tree(copy);
        App::update_node_translation_status(&mut tree);
        let mut app = App {
            tree,
            visible_nodes: Vec::new(),
            selected_index: 0,
            translation_store,
            mode: AppMode::Normal,
        };
        app.update_visible_nodes();
        app
    }

    /// Recomputes the completion flags of the nodes and all below them; tells whether all are done.
    pub fn update_node_translation_status(nodes: &mut Vec<TreeNode>) -> (r: bool)
        ensures
            forest_view(final(nodes)@) == mark_forest(forest_view(old(nodes)@)),
            r == forest_done(forest_view(old(nodes)@)),
    {
        let mut taken: Vec<TreeNode> = Vec::new();
        std::mem::swap(&mut taken, nodes);
        let (marked, all) = mark_owned(taken);
        *nodes = marked;
        all
    }

    /// Appends the rows of the nodes, at `depth`, to `visible_list`.
    pub fn generate_visible_list_recursive(nodes: &Vec<TreeNode>, depth: usize, visible_list: &mut Vec<(String, usize)>)
        ensures
            rows_view(final(visible_list)@) == rows_view(old(visible_list)@) + visible_rows(forest_view(nodes@), depth as nat),
    {
        push_rows(nodes, depth, visible_list);
    }

    /// Recomputes the visible rows and brings the selection back into range.
    pub fn update_visible_nodes(&mut self)
        ensures
            rows_view(final(self).visible_nodes@) == visible_rows(forest_view(old(self).tree@), 0),
            final(self).selected_index == clamp_selection(old(self).selected_index, final(self).visible_nodes.len() as nat),
            final(self).tree == old(self).tree,
            final(self).translation_store == old(self).translation_store,
            final(self).mode == old(self).mode,
    {
        let mut rows: Vec<(String, usize)> = Vec::new();
        push_rows(&self.tree, 0, &mut rows);
        proof {
            assert(rows_view(Seq::<(String, usize)>::empty()) =~= Seq::<(Seq<char>, nat)>::empty());
            assert(rows_view(rows@) =~= visible_rows(forest_view(self.tree@), 0));
        }
        self.visible_nodes = rows;
        if self.selected_index >= self.visible_nodes.len() {
            if self.visible_nodes.len() > 0 {
                self.selected_index = self.visible_nodes.len() - 1;
            } else {
                self.selected_index = 0;
            }
        }
    }

    /// The number of translated items and the number of all items.
    pub fn get_translation_progress(&self) -> (r: (usize, usize))
        ensures
            r.0 == count_translated(self.translation_store.all_items@),
            r.1 == self.translation_store.all_items.len(),
    {
        self.translation_store.progress()
    }

    /// Moves the selection one row down, unless it is on the last row.
    pub fn next(&mut self)
        requires
            old(self).wf(),
        ensures
            final(self).wf(),
            final(self).selected_index == if old(self).selected_index + 1 < old(self).visible_nodes.len() {
                old(self).selected_index + 1
            } else {
                old(self).selected_index as int
            },
            final(self).tree == old(self).tree,
            final(self).visible_nodes == old(self).visible_nodes,
            final(self).translation_store == old(self).translation_store,
            final(self).mode == old(self).mode,
    {
        if self.selected_index + 1 < self.visible_nodes.len() {
            self.selected_index = self.selected_index + 1;
        }
    }

    /// Moves the selection one row up, unless it is on the first row.
    pub fn previous(&mut self)
        requires
            old(self).wf(),
        ensures
            final(self).wf(),
            final(self).selected_index == if old(self).selected_index > 0 {
                old(self).selected_index - 1
            } else {
                0
            },
            final(self).tree == old(self).tree,
            final(self).visible_nodes == old(self).visible_nodes,
            final(self).translation_store == old(self).translation_store,
            final(self).mode == old(self).mode,
    {
        if self.selected_index > 0 {
            self.selected_index = self.selected_index - 1;
        }
    }

    /// The path of the selected row.
    pub fn get_selected_path(&self) -> (r: Option<String>)
        ensures
            opt_view(r) == self.selected_path(),
    {
        if self.selected_index < self.visible_nodes.len() {
            Some(self.visible_nodes[self.selected_index].0.clone())
        } else {
            None
        }
    }

    /// The node at `path`, following the first node with each segment.
    pub fn get_node(&self, path: &str) -> (r: Option<&TreeNode>)
        ensures
            match r {
                Some(n) => node_by_segs(forest_view(self.tree@), split_dots(path@)) == Some(node_view(*n)),
                None => node_by_segs(forest_view(self.tree@), split_dots(path@)) is None,
            },
    {
        let segs = split_key(path);
        let ghost sv = segs@.map_values(|s: String| s@);
        proof {
            lemma_split_nonempty(path@);
            assert(sv.subrange(0, segs.len() as int) =~= sv);
        }
        let mut level: &Vec<TreeNode> = &self.tree;
        let mut idx: usize = 0;
        loop
            invariant
                idx < segs.len(),
                sv == segs@.map_values(|s: String| s@),
                sv == split_dots(path@),
                node_by_segs(forest_view(self.tree@), sv) == node_by_segs(
                    forest_view(level@),
                    sv.subrange(idx as int, segs.len() as int),
                ),
            decreases segs.len() - idx,
        {
            let ghost rest = sv.subrange(idx as int, segs.len() as int);
            proof {
                assert(rest[0] == segs@[idx as int]@);
                assert(rest.drop_first() =~= sv.subrange(idx + 1, segs.len() as int));
                lemma_forest_view(level@);
            }
            match find_child(level, &segs[idx]) {
                None => {
                    return None;
                },
                Some(pos) => {
                    if idx + 1 == segs.len() {
                        return Some(&level[pos]);
                    }
                    level = &level[pos].children;
                    idx = idx + 1;
                },
            }
        }
    }

    /// The node of the selected row.
    pub fn get_selected_node(&self) -> (r: Option<&TreeNode>)
        ensures
            match self.selected_path() {
                Some(p) => match r {
                    Some(n) => node_by_segs(forest_view(self.tree@), split_dots(p)) == Some(node_view(*n)),
                    None => node_by_segs(forest_view(self.tree@), split_dots(p)) is None,
                },
                None => r is None,
            },
    {
        match self.get_selected_path() {
            Some(path) => self.get_node(path.as_str()),
            None => None,
        }
    }

    /// Expands or collapses the selected node, then keeps the selection on it.
    pub fn toggle_expand(&mut self)
        requires
            old(self).wf(),
        ensures
            final(self).wf(),
            final(self).translation_store == old(self).translation_store,
            final(self).mode == old(self).mode,
            match old(self).selected_path() {
                Some(p) => {
                    &&& forest_view(final(self).tree@) == toggle_forest(forest_view(old(self).tree@), split_dots(p))
                    &&& (exists|i: int| 0 <= i < final(self).visible_nodes.len() && (#[trigger] final(self).visible_nodes@[i]).0@ == p)
                        ==> final(self).selected_path() == Some(p)
                },
                None => final(self).tree == old(self).tree && final(self).visible_nodes == old(self).visible_nodes
                    && final(self).selected_index == old(self).selected_index,
            },
    {
        if self.selected_index < self.visible_nodes.len() {
            let path = self.visible_nodes[self.selected_index].0.clone();
            let segs = split_key(path.as_str());
            proof {
                assert(segs@.map_values(|s: String| s@).subrange(0, segs.len() as int) =~= segs@.map_values(|s: String| s@));
            }
            toggle_at(&mut self.tree, &segs, 0);
            self.update_visible_nodes();
            match find_row(&self.visible_nodes, &path) {
                Some(i) => {
                    self.selected_index = i;
                },
                None => {},
            }
        }
    }

    /// Expands (`expand`) or collapses the selected node when it has children and is not so already.
    pub fn set_selected_expanded(&mut self, expand: bool)
        requires
            old(self).wf(),
        ensures
            final(self).wf(),
            final(self).translation_store == old(self).translation_store,
            final(self).mode == old(self).mode,
            match old(self).selected_node() {
                Some(n) => if n.children.len() > 0 && n.expanded != expand {
                    let p = old(self).selected_path()->0;
                    &&& forest_view(final(self).tree@) == toggle_forest(forest_view(old(self).tree@), split_dots(p))
                    &&& (exists|i: int| 0 <= i < final(self).visible_nodes.len() && (#[trigger] final(self).visible_nodes@[i]).0@ == p)
                        ==> final(self).selected_path() == Some(p)
                } else {
                    final(self).tree == old(self).tree && final(self).visible_nodes == old(self).visible_nodes
                        && final(self).selected_index == old(self).selected_index
                },
                None => final(self).tree == old(self).tree && final(self).visible_nodes == old(self).visible_nodes
                    && final(self).selected_index == old(self).selected_index,
            },
    {
        let flip = match self.get_selected_node() {
            Some(node) => node.children.len() > 0 && node.expanded != expand,
            None => false,
        };
        if flip {
            self.toggle_expand();
        }
    }

    /// Sets the translation of the selected item, in the store and in the tree, and
    /// recomputes the completion flags.
    pub fn set_selected_target(&mut self, text: Option<String>)
        requires
            old(self).wf(),
        ensures
            final(self).wf(),
            final(self).mode == old(self).mode,
            old(self).retargeted(*final(self), text),
            rows_view(final(self).visible_nodes@) == rows_view(old(self).visible_nodes@),
            final(self).selected_index == old(self).selected_index,
    {
        if self.selected_index < self.visible_nodes.len() {
            let path = self.visible_nodes[self.selected_index].0.clone();
            let copy = match &text {
                Some(t) => Some(t.clone()),
                None => None,
            };
            proof {
                assert(copy == text);
            }
            self.translation_store.set_target(path.as_str(), copy);
            let segs = split_key(path.as_str());
            proof {
                assert(segs@.map_values(|s: String| s@).subrange(0, segs.len() as int) =~= segs@.map_values(|s: String| s@));
            }
            let ghost f0 = forest_view(self.tree@);
            retarget_at(&mut self.tree, &segs, 0, &text);
            App::update_node_translation_status(&mut self.tree);
            proof {
                let f1 = retarget_forest(f0, split_dots(path@), text);
                lemma_rows_retarget(f0, split_dots(path@), text, 0);
                lemma_rows_mark(f1, 0);
            }
            let ghost before = self.visible_nodes@;
            self.update_visible_nodes();
            proof {
                assert(rows_view(self.visible_nodes@).len() == self.visible_nodes@.len());
                assert(rows_view(before).len() == before.len());
            }
        }
    }

    /// Saves edited text to the selected item: empty text clears the translation.
    pub fn save_textarea_to_translation(&mut self, new_text: String)
        requires
            old(self).wf(),
        ensures
            final(self).wf(),
            final(self).mode == old(self).mode,
            old(self).retargeted(
                *final(self),
                if new_text@.len() == 0 {
                    None
                } else {
                    Some(new_text)
                },
            ),
    {
        if new_text.as_str().unicode_len() == 0 {
            self.set_selected_target(None);
        } else {
            self.set_selected_target(Some(new_text));
        }
    }

    /// Starts editing when the selected node is a leaf; gives its source text and
    /// translation (empty when unset) to edit.
    pub fn enter_editing_mode(&mut self) -> (r: Option<(String, String)>)
        requires
            old(self).wf(),
        ensures
            final(self).wf(),
            (r is Some) == match old(self).selected_node() {
                Some(n) => n.children.len() == 0,
                None => false,
            },
            r is Some ==> final(self).mode == AppMode::Editing,
            r is None ==> final(self).mode == old(self).mode,
            match r {
                Some(texts) => {
                    let item = old(self).selected_node()->0.item;
                    &&& texts.0@ == match item {
                        Some(it) => it.source_text@,
                        None => Seq::<char>::empty(),
                    }
                    &&& texts.1@ == match item {
                        Some(it) => match it.target_text {
                            Some(t) => t@,
                            None => Seq::<char>::empty(),
                        },
                        None => Seq::<char>::empty(),
                    }
                },
                None => true,
            },
            final(self).tree == old(self).tree,
            final(self).visible_nodes == old(self).visible_nodes,
            final(self).selected_index == old(self).selected_index,
            final(self).translation_store == old(self).translation_store,
    {
        let texts = match self.get_selected_node() {
            Some(node) => {
                if node.children.len() == 0 {
                    let source = match &node.translation {
                        Some(t) => t.source_text.clone(),
                        None => String::new(),
                    };
                    let target = match &node.translation {
                        Some(t) => match &t.target_text {
                            Some(x) => x.clone(),
                            None => String::new(),
                        },
                        None => String::new(),
                    };
                    Some((source, target))
                } else {
                    None
                }
            },
            None => None,
        };
        if texts.is_some() {
            self.mode = AppMode::Editing;
        }
        texts
    }

    /// Leaves editing, saving the edited text to the selected item.
    pub fn exit_editing_mode_and_save(&mut self, new_text: String)
        requires
            old(self).wf(),
        ensures
            final(self).wf(),
            final(self).mode == AppMode::Normal,
            old(self).retargeted(
                *final(self),
                if new_text@.len() == 0 {
                    None
                } else {
                    Some(new_text)
                },
            ),
    {
        self.save_textarea_to_translation(new_text);
        self.mode = AppMode::Normal;
    }

    /// Leaves editing without saving.
    pub fn exit_editing_mode_without_saving(&mut self)
        ensures
            final(self).mode == AppMode::Normal,
            final(self).tree == old(self).tree,
            final(self).visible_nodes == old(self).visible_nodes,
            final(self).selected_index == old(self).selected_index,
            final(self).translation_store == old(self).translation_store,
    {
        self.mode = AppMode::Normal;
    }
}

} // verus!
