//! Why unflattening and then flattening a store gives its translations back.
//!
//! The argument runs over segment paths: `doc_get` looks a path up in a document
//! the way `insert_doc` walks it, inserting sets exactly one path, and the flat
//! form of a document with distinct names maps each joined leaf path to its text.
use crate::document::{doc_pairs, find_entry, flat_map, insert_doc, lemma_find_entry, obj_pairs, unflatten_items, DocView};
use crate::path::{child_path, join_dots, lemma_join_split, lemma_split_nonempty, split_dots};
use crate::sorted::{last_wins, lemma_last_wins_concat, lemma_last_wins_keys, lemma_last_wins_rekey, rekey};
use crate::store::TranslationItem;
use vstd::prelude::*;

verus! {

/// The text at segment path `q`, following the first entry with each name.
pub open spec fn doc_get(es: Seq<(Seq<char>, DocView)>, q: Seq<Seq<char>>) -> Option<Seq<char>>
    decreases q.len(),
{
    if q.len() == 0 {
        None
    } else {
        let pos = find_entry(es, q[0]);
        if pos < 0 {
            None
        } else {
            match es[pos].1 {
                DocView::Text(t) => if q.len() == 1 {
                    Some(t)
                } else {
                    None
                },
                DocView::Obj(inner) => if q.len() == 1 {
                    None
                } else {
                    doc_get(inner, q.drop_first())
                },
            }
        }
    }
}

/// Nothing stands in the way of setting a text at `segs`: no string on the way, and no
/// object at the end.
pub open spec fn path_clear(es: Seq<(Seq<char>, DocView)>, segs: Seq<Seq<char>>) -> bool
    decreases segs.len(),
{
    if segs.len() == 0 {
        true
    } else {
        let pos = find_entry(es, segs[0]);
        if pos < 0 {
            true
        } else {
            match es[pos].1 {
                DocView::Text(_) => segs.len() == 1,
                DocView::Obj(inner) => segs.len() > 1 && path_clear(inner, segs.drop_first()),
            }
        }
    }
}

proof fn lemma_find_entry_same_names(a: Seq<(Seq<char>, DocView)>, b: Seq<(Seq<char>, DocView)>, k: Seq<char>)
    requires
        a.len() == b.len(),
        forall|i: int| 0 <= i < a.len() ==> (#[trigger] a[i]).0 == b[i].0,
    ensures
        find_entry(a, k) == find_entry(b, k),
    decreases a.len(),
{
    if a.len() > 0 {
        lemma_find_entry_same_names(a.drop_last(), b.drop_last(), k);
    }
}

proof fn lemma_find_entry_push(es: Seq<(Seq<char>, DocView)>, k: Seq<char>, x: DocView, k2: Seq<char>)
    requires
        find_entry(es, k) == -1,
    ensures
        find_entry(es.push((k, x)), k2) == if k2 == k {
            es.len() as int
        } else {
            find_entry(es, k2)
        },
{
    assert(es.push((k, x)).drop_last() =~= es);
}

proof fn lemma_same_head_tail(q: Seq<Seq<char>>, s: Seq<Seq<char>>)
    requires
        q.len() >= 1,
        s.len() >= 1,
        q[0] == s[0],
    ensures
        (q == s) == (q.drop_first() == s.drop_first()),
{
    if q.drop_first() == s.drop_first() {
        assert(q.drop_first().len() == q.len() - 1);
        assert(s.drop_first().len() == s.len() - 1);
        assert(q.len() == s.len());
        assert forall|i: int| 0 <= i < q.len() implies q[i] == s[i] by {
            if i > 0 {
                assert(q[i] == q.drop_first()[i - 1]);
                assert(s[i] == s.drop_first()[i - 1]);
            }
        }
        assert(q =~= s);
    }
}

/// Setting a text at a clear path changes what that path holds, and nothing else.
pub proof fn lemma_get_insert(es: Seq<(Seq<char>, DocView)>, segs: Seq<Seq<char>>, t: Seq<char>, q: Seq<Seq<char>>)
    requires
        segs.len() >= 1,
        path_clear(es, segs),
    ensures
        doc_get(insert_doc(es, segs, t), q) == if q == segs {
            Some(t)
        } else {
            doc_get(es, q)
        },
    decreases segs.len(),
{
    let k = segs[0];
    let pos = find_entry(es, k);
    lemma_find_entry(es, k);
    let r = insert_doc(es, segs, t);
    if q.len() == 0 {
        return;
    }
    let k2 = q[0];
    let rest = segs.drop_first();
    let empty = Seq::<(Seq<char>, DocView)>::empty();
    if k2 == k {
        lemma_same_head_tail(q, segs);
    }
    if pos >= 0 {
        let x = if segs.len() == 1 {
            DocView::Text(t)
        } else {
            DocView::Obj(insert_doc(es[pos].1->Obj_0, rest, t))
        };
        assert(r == es.update(pos, (k, x)));
        lemma_find_entry_same_names(r, es, k2);
        lemma_find_entry(es, k2);
        if k2 == k {
            assert(find_entry(r, k) == pos);
            assert(r[pos].1 == x);
            if segs.len() > 1 {
                assert(es[pos].1 is Obj);
                if q.len() > 1 {
                    lemma_get_insert(es[pos].1->Obj_0, rest, t, q.drop_first());
                    assert(doc_get(r, q) == doc_get(insert_doc(es[pos].1->Obj_0, rest, t), q.drop_first()));
                    assert(doc_get(es, q) == doc_get(es[pos].1->Obj_0, q.drop_first()));
                } else {
                    assert(doc_get(r, q) == None::<Seq<char>>);
                    assert(doc_get(es, q) == None::<Seq<char>>);
                }
            } else {
                assert(es[pos].1 is Text);
                if q.len() > 1 {
                    assert(doc_get(r, q) == None::<Seq<char>>);
                    assert(doc_get(es, q) == None::<Seq<char>>);
                } else {
                    assert(q.len() == 1);
                    assert(doc_get(r, q) == Some(t));
                    assert(q == segs);
                }
            }
        } else {
            let other = find_entry(es, k2);
            if other >= 0 {
                assert(r[other] == es[other]);
            }
        }
    } else {
        let x = if segs.len() == 1 {
            DocView::Text(t)
        } else {
            DocView::Obj(insert_doc(empty, rest, t))
        };
        assert(r == es.push((k, x)));
        lemma_find_entry_push(es, k, x, k2);
        lemma_find_entry(es, k2);
        if k2 == k {
            assert(find_entry(r, k) == es.len());
            assert(r[es.len() as int].1 == x);
            assert(doc_get(es, q) == None::<Seq<char>>);
            if segs.len() > 1 {
                if q.len() > 1 {
                    lemma_get_insert(empty, rest, t, q.drop_first());
                    assert(doc_get(r, q) == doc_get(insert_doc(empty, rest, t), q.drop_first()));
                    assert(doc_get(empty, q.drop_first()) == None::<Seq<char>>);
                } else {
                    assert(doc_get(r, q) == None::<Seq<char>>);
                }
            } else {
                if q.len() > 1 {
                    assert(doc_get(r, q) == None::<Seq<char>>);
                } else {
                    assert(doc_get(r, q) == Some(t));
                    assert(q == segs);
                }
            }
        } else {
            let other = find_entry(es, k2);
            if other >= 0 {
                assert(r[other] == es[other]);
            }
            assert(doc_get(r, q) == doc_get(es, q));
        }
    }
}

/// Every object in the value has at least one entry.
pub open spec fn value_nonempty(d: DocView) -> bool
    decreases d,
{
    match d {
        DocView::Text(_) => true,
        DocView::Obj(inner) => inner.len() > 0 && entries_nonempty(inner),
    }
}

pub open spec fn entries_nonempty(es: Seq<(Seq<char>, DocView)>) -> bool
    decreases es,
{
    es.len() == 0 || (entries_nonempty(es.drop_last()) && value_nonempty(es.last().1))
}

proof fn lemma_entries_nonempty(es: Seq<(Seq<char>, DocView)>)
    ensures
        entries_nonempty(es) <==> forall|i: int| 0 <= i < es.len() ==> #[trigger] value_nonempty(es[i].1),
    decreases es.len(),
{
    if es.len() > 0 {
        lemma_entries_nonempty(es.drop_last());
        if forall|i: int| 0 <= i < es.len() ==> #[trigger] value_nonempty(es[i].1) {
            assert forall|i: int| 0 <= i < es.drop_last().len() implies #[trigger] value_nonempty(es.drop_last()[i].1) by {
                assert(es.drop_last()[i] == es[i]);
            }
            assert(value_nonempty(es[es.len() - 1].1));
        }
        if entries_nonempty(es) {
            assert forall|i: int| 0 <= i < es.len() implies #[trigger] value_nonempty(es[i].1) by {
                if i < es.len() - 1 {
                    assert(es.drop_last()[i] == es[i]);
                }
            }
        }
    }
}

/// `p` is a proper prefix of `s`, segment by segment.
pub open spec fn proper_prefix(p: Seq<Seq<char>>, s: Seq<Seq<char>>) -> bool {
    p.len() < s.len() && s.subrange(0, p.len() as int) == p
}

/// A non-empty object holds some text.
proof fn lemma_some_leaf(inner: Seq<(Seq<char>, DocView)>) -> (r: Seq<Seq<char>>)
    requires
        inner.len() > 0,
        entries_nonempty(inner),
    ensures
        doc_get(inner, r) is Some,
    decreases inner,
{
    lemma_entries_nonempty(inner);
    let k = inner[0].0;
    lemma_find_entry(inner, k);
    assert(inner[0].0 == k);
    assert(find_entry(inner, k) == 0);
    match inner[0].1 {
        DocView::Text(_) => seq![k],
        DocView::Obj(deeper) => {
            assert(value_nonempty(inner[0].1));
            assert(decreases_to!(inner => inner[0]));
            let r2 = lemma_some_leaf(deeper);
            let r = seq![k] + r2;
            assert(r.drop_first() =~= r2);
            r
        },
    }
}

/// A path is clear when no text sits on a proper prefix of it and none below it.
proof fn lemma_clear_from_get(es: Seq<(Seq<char>, DocView)>, segs: Seq<Seq<char>>)
    requires
        segs.len() >= 1,
        entries_nonempty(es),
        forall|q: Seq<Seq<char>>| #[trigger] doc_get(es, q) is Some ==> !proper_prefix(q, segs) && !proper_prefix(segs, q),
    ensures
        path_clear(es, segs),
    decreases segs.len(),
{
    let k = segs[0];
    let pos = find_entry(es, k);
    lemma_find_entry(es, k);
    lemma_entries_nonempty(es);
    if pos >= 0 {
        match es[pos].1 {
            DocView::Text(_) => {
                let q = seq![k];
                assert(doc_get(es, q) is Some);
                if segs.len() > 1 {
                    assert(segs.subrange(0, 1) =~= q);
                }
            },
            DocView::Obj(inner) => {
                assert(value_nonempty(es[pos].1));
                if segs.len() == 1 {
                    let r = lemma_some_leaf(inner);
                    let q = seq![k] + r;
                    assert(q.drop_first() =~= r);
                    assert(doc_get(es, q) is Some);
                    assert(q.subrange(0, 1) =~= segs);
                } else {
                    let rest = segs.drop_first();
                    assert forall|q2: Seq<Seq<char>>| #[trigger] doc_get(inner, q2) is Some implies !proper_prefix(q2, rest)
                        && !proper_prefix(rest, q2) by {
                        let q = seq![k] + q2;
                        assert(q.drop_first() =~= q2);
                        assert(doc_get(es, q) is Some);
                        if proper_prefix(q2, rest) {
                            assert(segs.subrange(0, q.len() as int) =~= q);
                        }
                        if proper_prefix(rest, q2) {
                            assert(segs =~= seq![k] + rest);
                            assert(q.subrange(0, segs.len() as int) =~= segs);
                        }
                    }
                    lemma_clear_from_get(inner, rest);
                }
            },
        }
    }
}

/// Setting a text keeps every object non-empty.
proof fn lemma_insert_nonempty(es: Seq<(Seq<char>, DocView)>, segs: Seq<Seq<char>>, t: Seq<char>)
    requires
        segs.len() >= 1,
        entries_nonempty(es),
    ensures
        entries_nonempty(insert_doc(es, segs, t)),
        insert_doc(es, segs, t).len() > 0,
    decreases segs.len(),
{
    let k = segs[0];
    let pos = find_entry(es, k);
    lemma_find_entry(es, k);
    lemma_entries_nonempty(es);
    let r = insert_doc(es, segs, t);
    let rest = segs.drop_first();
    let empty = Seq::<(Seq<char>, DocView)>::empty();
    if segs.len() > 1 {
        if pos >= 0 {
            if es[pos].1 is Obj {
                assert(value_nonempty(es[pos].1));
                lemma_insert_nonempty(es[pos].1->Obj_0, rest, t);
            }
        } else {
            lemma_insert_nonempty(empty, rest, t);
        }
    }
    assert forall|i: int| 0 <= i < r.len() implies #[trigger] value_nonempty(r[i].1) by {
        if i < es.len() && i != pos {
            assert(r[i] == es[i]);
        }
    }
    lemma_entries_nonempty(r);
}

/// The translation that the items give to segment path `q`: that of the last item whose key
/// splits into `q`.
pub open spec fn placed(items: Seq<TranslationItem>, q: Seq<Seq<char>>) -> Option<Seq<char>>
    decreases items.len(),
{
    if items.len() == 0 {
        None
    } else if split_dots(items.last().key@) == q && items.last().target_text is Some {
        Some(items.last().target_text->0@)
    } else {
        placed(items.drop_last(), q)
    }
}

proof fn lemma_placed_from(items: Seq<TranslationItem>, q: Seq<Seq<char>>) -> (i: int)
    requires
        placed(items, q) is Some,
    ensures
        0 <= i < items.len(),
        split_dots(items[i].key@) == q,
    decreases items.len(),
{
    if split_dots(items.last().key@) == q && items.last().target_text is Some {
        items.len() - 1
    } else {
        let i = lemma_placed_from(items.drop_last(), q);
        assert(items.drop_last()[i] == items[i]);
        i
    }
}

/// No item's key is, segment by segment, a proper prefix of another's.
pub open spec fn segment_prefix_free(items: Seq<TranslationItem>) -> bool {
    forall|i: int, j: int|
        0 <= i < items.len() && 0 <= j < items.len() ==> !proper_prefix(
            #[trigger] split_dots(items[i].key@),
            #[trigger] split_dots(items[j].key@),
        )
}

/// Unflattening puts each translation at the segment path of its key, and nothing elsewhere.
pub proof fn lemma_unflatten_places(items: Seq<TranslationItem>)
    requires
        segment_prefix_free(items),
    ensures
        entries_nonempty(unflatten_items(items)),
        forall|q: Seq<Seq<char>>| #[trigger] doc_get(unflatten_items(items), q) == placed(items, q),
    decreases items.len(),
{
    if items.len() > 0 {
        let t = items.drop_last();
        assert(segment_prefix_free(t)) by {
            assert forall|i: int, j: int| 0 <= i < t.len() && 0 <= j < t.len() implies !proper_prefix(
                #[trigger] split_dots(t[i].key@),
                #[trigger] split_dots(t[j].key@),
            ) by {
                assert(t[i] == items[i] && t[j] == items[j]);
                assert(split_dots(items[i].key@) == split_dots(t[i].key@));
                assert(split_dots(items[j].key@) == split_dots(t[j].key@));
            }
        }
        lemma_unflatten_places(t);
        let d = unflatten_items(t);
        let last = items.last();
        match last.target_text {
            Some(txt) => {
                let segs = split_dots(last.key@);
                crate::path::lemma_split_nonempty(last.key@);
                assert forall|q: Seq<Seq<char>>| #[trigger] doc_get(d, q) is Some implies !proper_prefix(q, segs)
                    && !proper_prefix(segs, q) by {
                    let i = lemma_placed_from(t, q);
                    assert(t[i] == items[i]);
                    let n = items.len() - 1;
                    assert(!proper_prefix(split_dots(items[i].key@), split_dots(items[n].key@)));
                    assert(!proper_prefix(split_dots(items[n].key@), split_dots(items[i].key@)));
                }
                lemma_clear_from_get(d, segs);
                lemma_insert_nonempty(d, segs, txt@);
                assert forall|q: Seq<Seq<char>>| #[trigger] doc_get(unflatten_items(items), q) == placed(items, q) by {
                    lemma_get_insert(d, segs, txt@, q);
                }
            },
            None => {},
        }
    }
}

/// The path below `p` that the segments `q` lead to.
pub open spec fn extend(p: Option<Seq<char>>, q: Seq<Seq<char>>) -> Seq<char>
    decreases q.len(),
{
    if q.len() == 0 {
        match p {
            Some(x) => x,
            None => Seq::empty(),
        }
    } else {
        extend(Some(child_path(p, q[0])), q.drop_first())
    }
}

pub open spec fn extend_fn(p: Option<Seq<char>>) -> spec_fn(Seq<Seq<char>>) -> Seq<char> {
    |q: Seq<Seq<char>>| extend(p, q)
}

pub open spec fn prefix_fn(n: Seq<char>) -> spec_fn(Seq<Seq<char>>) -> Seq<Seq<char>> {
    |q: Seq<Seq<char>>| seq![n] + q
}

/// The (segment path, text) pairs of the entries, paths relative to the object.
pub open spec fn rel_pairs(es: Seq<(Seq<char>, DocView)>) -> Seq<(Seq<Seq<char>>, Seq<char>)>
    decreases es,
{
    if es.len() == 0 {
        Seq::empty()
    } else {
        rel_pairs(es.drop_last()) + rekey(value_rel_pairs(es.last().1), prefix_fn(es.last().0))
    }
}

pub open spec fn value_rel_pairs(d: DocView) -> Seq<(Seq<Seq<char>>, Seq<char>)>
    decreases d,
{
    match d {
        DocView::Text(t) => seq![(Seq::<Seq<char>>::empty(), t)],
        DocView::Obj(inner) => rel_pairs(inner),
    }
}

/// The text at relative path `q` of a value.
pub open spec fn value_get(d: DocView, q: Seq<Seq<char>>) -> Option<Seq<char>> {
    match d {
        DocView::Text(t) => if q.len() == 0 {
            Some(t)
        } else {
            None
        },
        DocView::Obj(inner) => if q.len() == 0 {
            None
        } else {
            doc_get(inner, q)
        },
    }
}

/// The names of every object are distinct.
pub open spec fn names_ok(es: Seq<(Seq<char>, DocView)>) -> bool
    decreases es,
{
    es.len() == 0 || (names_ok(es.drop_last()) && find_entry(es.drop_last(), es.last().0) == -1 && value_names_ok(
        es.last().1,
    ))
}

pub open spec fn value_names_ok(d: DocView) -> bool
    decreases d,
{
    match d {
        DocView::Text(_) => true,
        DocView::Obj(inner) => names_ok(inner),
    }
}

proof fn lemma_link_obj(es: Seq<(Seq<char>, DocView)>, p: Option<Seq<char>>)
    ensures
        obj_pairs(es, p) == rekey(rel_pairs(es), extend_fn(p)),
    decreases es,
{
    if es.len() > 0 {
        let t = es.drop_last();
        let n = es.last().0;
        let v = es.last().1;
        lemma_link_obj(t, p);
        assert(decreases_to!(es => es[es.len() - 1]));
        lemma_link_value(v, child_path(p, n));
        let a = rekey(value_rel_pairs(v), prefix_fn(n));
        assert(rekey(a, extend_fn(p)) =~= rekey(value_rel_pairs(v), extend_fn(Some(child_path(p, n))))) by {
            assert forall|i: int| 0 <= i < a.len() implies #[trigger] rekey(a, extend_fn(p))[i] == rekey(
                value_rel_pairs(v),
                extend_fn(Some(child_path(p, n))),
            )[i] by {
                let q = value_rel_pairs(v)[i].0;
                assert((seq![n] + q).drop_first() =~= q);
            }
        }
        assert(rekey(rel_pairs(t) + a, extend_fn(p)) =~= rekey(rel_pairs(t), extend_fn(p)) + rekey(a, extend_fn(p)));
    } else {
        assert(rekey(rel_pairs(es), extend_fn(p)) =~= Seq::<(Seq<char>, Seq<char>)>::empty());
    }
}

proof fn lemma_link_value(d: DocView, path: Seq<char>)
    ensures
        doc_pairs(d, path) == rekey(value_rel_pairs(d), extend_fn(Some(path))),
    decreases d,
{
    match d {
        DocView::Text(t) => {
            assert(rekey(value_rel_pairs(d), extend_fn(Some(path))) =~= seq![(path, t)]);
        },
        DocView::Obj(inner) => {
            lemma_link_obj(inner, Some(path));
        },
    }
}

proof fn lemma_rel_map(es: Seq<(Seq<char>, DocView)>)
    requires
        names_ok(es),
    ensures
        forall|q: Seq<Seq<char>>| #[trigger] last_wins(rel_pairs(es)).contains_key(q) == (doc_get(es, q) is Some),
        forall|q: Seq<Seq<char>>| #[trigger] last_wins(rel_pairs(es)).contains_key(q) ==> last_wins(rel_pairs(es))[q]
            == doc_get(es, q)->0,
    decreases es,
{
    if es.len() > 0 {
        let t = es.drop_last();
        let n = es.last().0;
        let v = es.last().1;
        lemma_rel_map(t);
        assert(decreases_to!(es => es[es.len() - 1]));
        lemma_value_rel_map(v);
        let a = value_rel_pairs(v);
        let ra = rekey(a, prefix_fn(n));
        assert forall|i: int, j: int| 0 <= i < a.len() && 0 <= j < a.len() && prefix_fn(n)(#[trigger] a[i].0) == prefix_fn(n)(
            #[trigger] a[j].0,
        ) implies a[i].0 == a[j].0 by {
            assert((seq![n] + a[i].0).drop_first() =~= a[i].0);
            assert((seq![n] + a[j].0).drop_first() =~= a[j].0);
        }
        lemma_last_wins_rekey(a, prefix_fn(n));
        lemma_last_wins_concat(rel_pairs(t), ra);
        lemma_find_entry(t, n);
        assert(es == t.push((n, v)));
        assert(rel_pairs(es) == rel_pairs(t) + ra);
        let m = last_wins(rel_pairs(es));
        assert(m == last_wins(rel_pairs(t)).union_prefer_right(last_wins(ra)));
        assert forall|q: Seq<Seq<char>>| #[trigger] m.contains_key(q) == (doc_get(es, q) is Some) && (m.contains_key(q)
            ==> m[q] == doc_get(es, q)->0) by {
            if q.len() > 0 {
                lemma_find_entry_push(t, n, v, q[0]);
                lemma_find_entry(t, q[0]);
                let rest = q.drop_first();
                if q[0] == n {
                    assert(q =~= seq![n] + rest);
                    assert(prefix_fn(n)(rest) == q);
                    assert(doc_get(t, q) is None);
                    assert(!last_wins(rel_pairs(t)).contains_key(q));
                    assert(es[t.len() as int].1 == v);
                    assert(doc_get(es, q) == value_get(v, rest));
                    if last_wins(ra).contains_key(q) {
                        let k = choose|k: Seq<Seq<char>>| last_wins(a).contains_key(k) && prefix_fn(n)(k) == q;
                        assert((seq![n] + k).drop_first() =~= k);
                        assert(k == rest);
                    }
                    if last_wins(a).contains_key(rest) {
                        assert(last_wins(ra).contains_key(prefix_fn(n)(rest)));
                    }
                } else {
                    if last_wins(ra).contains_key(q) {
                        let k = choose|k: Seq<Seq<char>>| last_wins(a).contains_key(k) && prefix_fn(n)(k) == q;
                        assert((seq![n] + k)[0] == n);
                    }
                    assert(!last_wins(ra).contains_key(q));
                    let other = find_entry(t, q[0]);
                    if other >= 0 {
                        assert(es[other] == t[other]);
                    }
                    assert(doc_get(es, q) == doc_get(t, q));
                }
            } else {
                if last_wins(ra).contains_key(q) {
                    let k = choose|k: Seq<Seq<char>>| last_wins(a).contains_key(k) && prefix_fn(n)(k) == q;
                    assert((seq![n] + k).len() > 0);
                }
                assert(doc_get(t, q) is None);
            }
        }
    }
}

proof fn lemma_value_rel_map(d: DocView)
    requires
        value_names_ok(d),
    ensures
        forall|q: Seq<Seq<char>>| #[trigger] last_wins(value_rel_pairs(d)).contains_key(q) == (value_get(d, q) is Some),
        forall|q: Seq<Seq<char>>| #[trigger] last_wins(value_rel_pairs(d)).contains_key(q) ==> last_wins(
            value_rel_pairs(d),
        )[q] == value_get(d, q)->0,
    decreases d,
{
    match d {
        DocView::Text(t) => {
            let e = Seq::<Seq<char>>::empty();
            let s = value_rel_pairs(d);
            assert(s == seq![(e, t)]);
            assert(s.drop_last() =~= Seq::<(Seq<Seq<char>>, Seq<char>)>::empty());
            assert(last_wins(s.drop_last()) =~= Map::<Seq<Seq<char>>, Seq<char>>::empty());
            assert(s.last() == (e, t));
            assert(last_wins(s) == Map::<Seq<Seq<char>>, Seq<char>>::empty().insert(e, t));
            assert forall|q: Seq<Seq<char>>| #[trigger] last_wins(s).contains_key(q) == (value_get(d, q) is Some) && (
            last_wins(s).contains_key(q) ==> last_wins(s)[q] == value_get(d, q)->0) by {
                if q.len() == 0 {
                    assert(q =~= e);
                }
            }
        },
        DocView::Obj(inner) => {
            assert(value_rel_pairs(d) == rel_pairs(inner));
            lemma_rel_map(inner);
            assert forall|q: Seq<Seq<char>>| #[trigger] last_wins(value_rel_pairs(d)).contains_key(q) == (value_get(d, q) is Some) by {
                if q.len() == 0 {
                    assert(doc_get(inner, q) is None);
                }
            }
        },
    }
}

proof fn lemma_names_ok_iff(es: Seq<(Seq<char>, DocView)>)
    ensures
        names_ok(es) <==> (forall|i: int, j: int| 0 <= i < j < es.len() ==> (#[trigger] es[i]).0 != (#[trigger] es[j]).0)
            && (forall|i: int| 0 <= i < es.len() ==> #[trigger] value_names_ok(es[i].1)),
    decreases es.len(),
{
    if es.len() > 0 {
        let t = es.drop_last();
        let n = es.len() - 1;
        lemma_names_ok_iff(t);
        lemma_find_entry(t, es[n].0);
        let distinct = forall|i: int, j: int| 0 <= i < j < es.len() ==> (#[trigger] es[i]).0 != (#[trigger] es[j]).0;
        let values = forall|i: int| 0 <= i < es.len() ==> #[trigger] value_names_ok(es[i].1);
        if names_ok(es) {
            assert forall|i: int, j: int| 0 <= i < j < es.len() implies (#[trigger] es[i]).0 != (#[trigger] es[j]).0 by {
                assert(t[i] == es[i]);
                if j < n {
                    assert(t[j] == es[j]);
                }
            }
            assert forall|i: int| 0 <= i < es.len() implies #[trigger] value_names_ok(es[i].1) by {
                if i < n {
                    assert(t[i] == es[i]);
                }
            }
        }
        if distinct && values {
            assert forall|i: int, j: int| 0 <= i < j < t.len() implies (#[trigger] t[i]).0 != (#[trigger] t[j]).0 by {
                assert(t[i] == es[i] && t[j] == es[j]);
            }
            assert forall|i: int| 0 <= i < t.len() implies #[trigger] value_names_ok(t[i].1) by {
                assert(t[i] == es[i]);
            }
            if find_entry(t, es[n].0) >= 0 {
                let f = find_entry(t, es[n].0);
                assert(t[f] == es[f]);
            }
            assert(value_names_ok(es[n].1));
        }
    }
}

proof fn lemma_insert_names(es: Seq<(Seq<char>, DocView)>, segs: Seq<Seq<char>>, t: Seq<char>)
    requires
        names_ok(es),
        segs.len() >= 1,
    ensures
        names_ok(insert_doc(es, segs, t)),
    decreases segs.len(),
{
    let k = segs[0];
    let pos = find_entry(es, k);
    lemma_find_entry(es, k);
    lemma_names_ok_iff(es);
    let r = insert_doc(es, segs, t);
    let rest = segs.drop_first();
    let empty = Seq::<(Seq<char>, DocView)>::empty();
    if segs.len() > 1 {
        if pos >= 0 {
            if es[pos].1 is Obj {
                assert(value_names_ok(es[pos].1));
                lemma_insert_names(es[pos].1->Obj_0, rest, t);
            }
        } else {
            lemma_insert_names(empty, rest, t);
        }
    }
    assert forall|i: int, j: int| 0 <= i < j < r.len() implies (#[trigger] r[i]).0 != (#[trigger] r[j]).0 by {
        if j < es.len() {
            assert(r[i].0 == es[i].0 && r[j].0 == es[j].0);
        } else {
            assert(r[i] == es[i]);
        }
    }
    assert forall|i: int| 0 <= i < r.len() implies #[trigger] value_names_ok(r[i].1) by {
        if i < es.len() && i != pos {
            assert(r[i] == es[i]);
        }
    }
    lemma_names_ok_iff(r);
}

proof fn lemma_unflatten_names(items: Seq<TranslationItem>)
    ensures
        names_ok(unflatten_items(items)),
    decreases items.len(),
{
    if items.len() > 0 {
        lemma_unflatten_names(items.drop_last());
        lemma_split_nonempty(items.last().key@);
        match items.last().target_text {
            Some(txt) => lemma_insert_names(unflatten_items(items.drop_last()), split_dots(items.last().key@), txt@),
            None => {},
        }
    }
}

proof fn lemma_extend_join(p: Seq<Seq<char>>, r: Seq<Seq<char>>)
    requires
        p.len() >= 1,
    ensures
        extend(Some(join_dots(p)), r) == join_dots(p + r),
    decreases r.len(),
{
    if r.len() == 0 {
        assert(p + r =~= p);
    } else {
        let other = p.push(r[0]);
        assert(other.drop_last() =~= p);
        assert(join_dots(other) == join_dots(p) + seq!['.'] + r[0]);
        lemma_extend_join(other, r.drop_first());
        assert(other + r.drop_first() =~= p + r);
    }
}

proof fn lemma_extend_top(q: Seq<Seq<char>>)
    requires
        q.len() >= 1,
    ensures
        extend(None, q) == join_dots(q),
{
    let p = seq![q[0]];
    assert(join_dots(p) == q[0]);
    lemma_extend_join(p, q.drop_first());
    assert(p + q.drop_first() =~= q);
}

/// The translations of the items, by key, a later item winning.
pub open spec fn translations(items: Seq<TranslationItem>) -> Map<Seq<char>, Seq<char>>
    decreases items.len(),
{
    if items.len() == 0 {
        Map::empty()
    } else {
        let r = translations(items.drop_last());
        match items.last().target_text {
            Some(t) => r.insert(items.last().key@, t@),
            None => r,
        }
    }
}

proof fn lemma_split_injective(a: Seq<char>, b: Seq<char>)
    ensures
        (split_dots(a) == split_dots(b)) == (a == b),
{
    lemma_join_split(a);
    lemma_join_split(b);
}

proof fn lemma_placed_translations(items: Seq<TranslationItem>, k: Seq<char>)
    ensures
        placed(items, split_dots(k)) == if translations(items).contains_key(k) {
            Some(translations(items)[k])
        } else {
            None
        },
    decreases items.len(),
{
    if items.len() > 0 {
        lemma_placed_translations(items.drop_last(), k);
        lemma_split_injective(items.last().key@, k);
    }
}

proof fn lemma_all_set_keys(items: Seq<TranslationItem>)
    requires
        forall|i: int| 0 <= i < items.len() ==> (#[trigger] items[i]).target_text is Some,
    ensures
        forall|i: int| 0 <= i < items.len() ==> translations(items).contains_key(#[trigger] items[i].key@),
    decreases items.len(),
{
    if items.len() > 0 {
        let t = items.drop_last();
        assert forall|i: int| 0 <= i < t.len() implies (#[trigger] t[i]).target_text is Some by {
            assert(t[i] == items[i]);
        }
        lemma_all_set_keys(t);
        assert(items[items.len() - 1].target_text is Some);
        assert forall|i: int| 0 <= i < items.len() implies translations(items).contains_key(#[trigger] items[i].key@) by {
            if i < items.len() - 1 {
                assert(t[i] == items[i]);
            }
        }
    }
}

/// Unflattening a store and flattening the result gives back the translations of the store,
/// key by key. Keys that are both a value and a namespace (one key's segments a proper
/// prefix of another's) are left out: the shorter key's text would stand where the longer
/// one needs an object.
pub proof fn lemma_round_trip(items: Seq<TranslationItem>)
    requires
        segment_prefix_free(items),
    ensures
        flat_map(unflatten_items(items)) == translations(items),
{
    let u = unflatten_items(items);
    lemma_unflatten_places(items);
    lemma_unflatten_names(items);
    lemma_rel_map(u);
    lemma_link_obj(u, None);
    let s = rel_pairs(u);
    let f = extend_fn(None);
    lemma_last_wins_keys(s);
    assert forall|i: int| 0 <= i < s.len() implies exists|x: int|
        0 <= x < items.len() && split_dots(items[x].key@) == #[trigger] s[i].0 && f(s[i].0) == items[x].key@ by {
        let q = s[i].0;
        assert(last_wins(s).contains_key(q));
        let x = lemma_placed_from(items, q);
        lemma_split_nonempty(items[x].key@);
        lemma_extend_top(q);
        lemma_join_split(items[x].key@);
    }
    assert forall|i: int, j: int| 0 <= i < s.len() && 0 <= j < s.len() && f(#[trigger] s[i].0) == f(#[trigger] s[j].0)
        implies s[i].0 == s[j].0 by {
        let x = choose|x: int| 0 <= x < items.len() && split_dots(items[x].key@) == s[i].0 && f(s[i].0) == items[x].key@;
        let y = choose|y: int| 0 <= y < items.len() && split_dots(items[y].key@) == s[j].0 && f(s[j].0) == items[y].key@;
    }
    lemma_last_wins_rekey(s, f);
    let fm = flat_map(u);
    assert(fm == last_wins(rekey(s, f)));
    let tr = translations(items);
    assert forall|k: Seq<char>| #[trigger] fm.contains_key(k) implies tr.contains_key(k) && fm[k] == tr[k] by {
        let q = choose|q: Seq<Seq<char>>| last_wins(s).contains_key(q) && f(q) == k;
        let x = lemma_placed_from(items, q);
        lemma_split_nonempty(items[x].key@);
        lemma_extend_top(q);
        lemma_join_split(items[x].key@);
        lemma_placed_translations(items, k);
    }
    assert forall|k: Seq<char>| #[trigger] tr.contains_key(k) implies fm.contains_key(k) by {
        lemma_placed_translations(items, k);
        let q = split_dots(k);
        lemma_split_nonempty(k);
        lemma_extend_top(q);
        lemma_join_split(k);
        assert(last_wins(s).contains_key(q));
    }
    assert(fm =~= tr);
}

/// A text appears after an insertion only at the inserted path or where one was before.
proof fn lemma_insert_leaf_from(es: Seq<(Seq<char>, DocView)>, segs: Seq<Seq<char>>, t: Seq<char>, q: Seq<Seq<char>>)
    requires
        doc_get(insert_doc(es, segs, t), q) is Some,
    ensures
        q == segs || doc_get(es, q) is Some,
    decreases segs.len(),
{
    if segs.len() == 0 || q.len() == 0 {
        return;
    }
    let k = segs[0];
    let pos = find_entry(es, k);
    lemma_find_entry(es, k);
    let r = insert_doc(es, segs, t);
    let k2 = q[0];
    let rest = segs.drop_first();
    let empty = Seq::<(Seq<char>, DocView)>::empty();
    lemma_find_entry(es, k2);
    if k2 == k {
        lemma_same_head_tail(q, segs);
    }
    if pos >= 0 {
        if segs.len() > 1 && es[pos].1 is Text {
            assert(r == es);
            return;
        }
        let x = if segs.len() == 1 {
            DocView::Text(t)
        } else {
            DocView::Obj(insert_doc(es[pos].1->Obj_0, rest, t))
        };
        assert(r == es.update(pos, (k, x)));
        lemma_find_entry_same_names(r, es, k2);
        if k2 == k {
            if segs.len() > 1 && q.len() > 1 {
                lemma_insert_leaf_from(es[pos].1->Obj_0, rest, t, q.drop_first());
            }
        } else {
            let other = find_entry(es, k2);
            assert(r[other] == es[other]);
        }
    } else {
        let x = if segs.len() == 1 {
            DocView::Text(t)
        } else {
            DocView::Obj(insert_doc(empty, rest, t))
        };
        assert(r == es.push((k, x)));
        lemma_find_entry_push(es, k, x, k2);
        if k2 == k {
            if segs.len() > 1 && q.len() > 1 {
                lemma_insert_leaf_from(empty, rest, t, q.drop_first());
                assert(doc_get(empty, q.drop_first()) is None);
            }
        } else {
            let other = find_entry(es, k2);
            assert(r[other] == es[other]);
        }
    }
}

/// Every text of an unflattened document stands at the segment path of some item's key.
proof fn lemma_unflatten_leaf_from(items: Seq<TranslationItem>, q: Seq<Seq<char>>) -> (i: int)
    requires
        doc_get(unflatten_items(items), q) is Some,
    ensures
        0 <= i < items.len(),
        split_dots(items[i].key@) == q,
    decreases items.len(),
{
    if items.len() == 0 {
        assert(doc_get(Seq::<(Seq<char>, DocView)>::empty(), q) is None);
        0
    } else {
        let t = items.drop_last();
        let n = items.len() - 1;
        match items.last().target_text {
            Some(txt) => {
                lemma_insert_leaf_from(unflatten_items(t), split_dots(items[n].key@), txt@, q);
            },
            None => {},
        }
        if split_dots(items[n].key@) == q {
            n
        } else {
            let i = lemma_unflatten_leaf_from(t, q);
            assert(t[i] == items[i]);
            i
        }
    }
}

/// Of two texts in one document, neither path is a proper prefix of the other.
proof fn lemma_leaves_not_prefix(es: Seq<(Seq<char>, DocView)>, q1: Seq<Seq<char>>, q2: Seq<Seq<char>>)
    requires
        doc_get(es, q1) is Some,
        doc_get(es, q2) is Some,
    ensures
        !proper_prefix(q1, q2),
    decreases q1.len(),
{
    if proper_prefix(q1, q2) {
        assert(q2[0] == q2.subrange(0, q1.len() as int)[0]);
        let pos = find_entry(es, q1[0]);
        match es[pos].1 {
            DocView::Text(_) => {},
            DocView::Obj(inner) => {
                assert(q2.drop_first().subrange(0, q1.len() - 1) =~= q2.subrange(0, q1.len() as int).drop_first());
                lemma_leaves_not_prefix(inner, q1.drop_first(), q2.drop_first());
            },
        }
    }
}

/// Each key of the flat form of an unflattened store splits into the path of a text of the
/// document, and maps to that text.
proof fn lemma_flat_keys(items: Seq<TranslationItem>)
    ensures
        forall|k: Seq<char>| #[trigger] flat_map(unflatten_items(items)).contains_key(k) ==> doc_get(
            unflatten_items(items),
            split_dots(k),
        ) is Some,
{
    let u = unflatten_items(items);
    lemma_unflatten_names(items);
    lemma_rel_map(u);
    lemma_link_obj(u, None);
    let s = rel_pairs(u);
    let f = extend_fn(None);
    lemma_last_wins_keys(s);
    assert forall|i: int| 0 <= i < s.len() implies exists|x: int|
        0 <= x < items.len() && split_dots(items[x].key@) == #[trigger] s[i].0 && f(s[i].0) == items[x].key@ by {
        let q = s[i].0;
        assert(last_wins(s).contains_key(q));
        let x = lemma_unflatten_leaf_from(items, q);
        lemma_split_nonempty(items[x].key@);
        lemma_extend_top(q);
        lemma_join_split(items[x].key@);
    }
    assert forall|i: int, j: int| 0 <= i < s.len() && 0 <= j < s.len() && f(#[trigger] s[i].0) == f(#[trigger] s[j].0)
        implies s[i].0 == s[j].0 by {
        let x = choose|x: int| 0 <= x < items.len() && split_dots(items[x].key@) == s[i].0 && f(s[i].0) == items[x].key@;
        let y = choose|y: int| 0 <= y < items.len() && split_dots(items[y].key@) == s[j].0 && f(s[j].0) == items[y].key@;
    }
    lemma_last_wins_rekey(s, f);
    assert forall|k: Seq<char>| #[trigger] flat_map(u).contains_key(k) implies doc_get(u, split_dots(k)) is Some by {
        let q = choose|q: Seq<Seq<char>>| last_wins(s).contains_key(q) && f(q) == k;
        let x = lemma_unflatten_leaf_from(items, q);
        lemma_split_nonempty(items[x].key@);
        lemma_extend_top(q);
        lemma_join_split(items[x].key@);
    }
}

/// Doing the round trip a second time, on a store made of what the first one gave (every
/// item translated), gives the same map as the first time, for any store.
pub proof fn lemma_round_trip_idempotent(items: Seq<TranslationItem>, again: Seq<TranslationItem>)
    requires
        forall|i: int| 0 <= i < again.len() ==> (#[trigger] again[i]).target_text is Some,
        translations(again) == flat_map(unflatten_items(items)),
    ensures
        flat_map(unflatten_items(again)) == flat_map(unflatten_items(items)),
{
    lemma_flat_keys(items);
    lemma_all_set_keys(again);
    let u = unflatten_items(items);
    assert forall|i: int, j: int| 0 <= i < again.len() && 0 <= j < again.len() implies !proper_prefix(
        #[trigger] split_dots(again[i].key@),
        #[trigger] split_dots(again[j].key@),
    ) by {
        let ki = again[i].key@;
        let kj = again[j].key@;
        assert(flat_map(u).contains_key(ki));
        assert(flat_map(u).contains_key(kj));
        lemma_leaves_not_prefix(u, split_dots(ki), split_dots(kj));
    }
    lemma_round_trip(again);
}

} // verus!
