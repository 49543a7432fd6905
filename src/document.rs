//! Nested documents (a value is a string or an object of named values) and
//! their flat form, a map from dotted path to string.
use crate::path::{child_path, join_child, split_dots, split_key};
use crate::path::{key_less, key_lt};
use crate::sorted::{apply_entries, insert_point, last_wins, lemma_apply_concat, lemma_apply_empty, lemma_sorted_insert, lemma_sorted_map, lemma_sorted_replace, strictly_sorted};
use crate::store::{item_entries, lookup_pair, opt_view, pair_entries, TranslationItem, TranslationStore};
use vstd::prelude::*;

verus! {

/// A document value: a string, or an object whose entries are named values.
#[derive(Debug, PartialEq)]
pub enum JsonValue {
    String(String),
    Object(Vec<(String, JsonValue)>),
}

/// A whole document: the entries of its top-level object.
pub type JsonData = Vec<(String, JsonValue)>;

/// What a document value holds, as mathematical values.
pub enum DocView {
    Text(Seq<char>),
    Obj(Seq<(Seq<char>, DocView)>),
}

pub open spec fn doc_view(v: JsonValue) -> DocView
    decreases v,
{
    match v {
        JsonValue::String(s) => DocView::Text(s@),
        JsonValue::Object(es) => DocView::Obj(entries_view(es@)),
    }
}

pub open spec fn entries_view(es: Seq<(String, JsonValue)>) -> Seq<(Seq<char>, DocView)>
    decreases es,
{
    if es.len() == 0 {
        Seq::empty()
    } else {
        entries_view(es.drop_last()).push((es.last().0@, doc_view(es.last().1)))
    }
}

/// The (path, text) pairs of a value found at `path`, in document order.
pub open spec fn doc_pairs(d: DocView, path: Seq<char>) -> Seq<(Seq<char>, Seq<char>)>
    decreases d,
{
    match d {
        DocView::Text(t) => seq![(path, t)],
        DocView::Obj(es) => obj_pairs(es, Some(path)),
    }
}

/// The (path, text) pairs of the entries of an object below `prefix` (`None`: the top level).
pub open spec fn obj_pairs(es: Seq<(Seq<char>, DocView)>, prefix: Option<Seq<char>>) -> Seq<
    (Seq<char>, Seq<char>),
>
    decreases es,
{
    if es.len() == 0 {
        Seq::empty()
    } else {
        obj_pairs(es.drop_last(), prefix) + doc_pairs(es.last().1, child_path(prefix, es.last().0))
    }
}

/// The flat form of a document: each path mapped to its string, a later duplicate winning.
pub open spec fn flat_map(es: Seq<(Seq<char>, DocView)>) -> Map<Seq<char>, Seq<char>> {
    last_wins(obj_pairs(es, None))
}

pub proof fn lemma_entries_view(es: Seq<(String, JsonValue)>)
    ensures
        entries_view(es).len() == es.len(),
        forall|i: int| 0 <= i < es.len() ==> #[trigger] entries_view(es)[i] == (es[i].0@, doc_view(es[i].1)),
    decreases es.len(),
{
    if es.len() > 0 {
        lemma_entries_view(es.drop_last());
        assert forall|i: int| 0 <= i < es.len() implies #[trigger] entries_view(es)[i] == (
            es[i].0@,
            doc_view(es[i].1),
        ) by {
            if i < es.len() - 1 {
                assert(es.drop_last()[i] == es[i]);
            }
        }
    }
}

/// Index of the first entry named `k`, or -1.
pub open spec fn find_entry(es: Seq<(Seq<char>, DocView)>, k: Seq<char>) -> int
    decreases es.len(),
{
    if es.len() == 0 {
        -1
    } else if find_entry(es.drop_last(), k) >= 0 {
        find_entry(es.drop_last(), k)
    } else if es.last().0 == k {
        es.len() - 1
    } else {
        -1
    }
}

/// `es` with `text` set at the path `segs`, creating objects on the way; a path that
/// runs through a string is left alone.
pub open spec fn insert_doc(es: Seq<(Seq<char>, DocView)>, segs: Seq<Seq<char>>, text: Seq<char>) -> Seq<
    (Seq<char>, DocView),
>
    decreases segs.len(),
{
    if segs.len() == 0 {
        es
    } else {
        let k = segs[0];
        let pos = find_entry(es, k);
        if segs.len() == 1 {
            if pos >= 0 {
                es.update(pos, (k, DocView::Text(text)))
            } else {
                es.push((k, DocView::Text(text)))
            }
        } else if pos >= 0 {
            match es[pos].1 {
                DocView::Obj(inner) => es.update(
                    pos,
                    (k, DocView::Obj(insert_doc(inner, segs.drop_first(), text))),
                ),
                DocView::Text(_) => es,
            }
        } else {
            es.push((k, DocView::Obj(insert_doc(Seq::empty(), segs.drop_first(), text))))
        }
    }
}

/// The document that the items with a translation make, taken in order.
pub open spec fn unflatten_items(items: Seq<TranslationItem>) -> Seq<(Seq<char>, DocView)>
    decreases items.len(),
{
    if items.len() == 0 {
        Seq::empty()
    } else {
        let rest = unflatten_items(items.drop_last());
        match items.last().target_text {
            Some(t) => insert_doc(rest, split_dots(items.last().key@), t@),
            None => rest,
        }
    }
}

/// The first position whose key is not smaller than `key` in the sorted pairs `s`.
fn find_pair_slot(s: &Vec<(String, String)>, key: &str) -> (j: usize)
    ensures
        insert_point(pair_entries(s@), key@, j as int),
{
    let mut j: usize = 0;
    while j < s.len()
        invariant
            j <= s.len(),
            forall|i: int| 0 <= i < j ==> key_lt(#[trigger] pair_entries(s@)[i].0, key@),
        decreases s.len() - j,
    {
        if !key_less(s[j].0.as_str(), key) {
            return j;
        }
        j = j + 1;
    }
    j
}

/// Puts the pair at its place in the sorted `v`, replacing the pair with the same key.
fn put_pair(v: &mut Vec<(String, String)>, key: String, text: String)
    requires
        strictly_sorted(pair_entries(old(v)@)),
    ensures
        strictly_sorted(pair_entries(final(v)@)),
        last_wins(pair_entries(final(v)@)) == last_wins(pair_entries(old(v)@)).insert(key@, text@),
{
    let j = find_pair_slot(v, key.as_str());
    let ghost s = pair_entries(v@);
    let ghost kv = key@;
    let ghost tv = text@;
    if j < v.len() && v[j].0 == key {
        proof {
            lemma_sorted_replace(s, j as int, tv);
        }
        v.set(j, (key, text));
        proof {
            assert(pair_entries(v@) =~= s.update(j as int, (s[j as int].0, tv)));
        }
    } else {
        proof {
            lemma_sorted_insert(s, j as int, kv, tv);
        }
        v.insert(j, (key, text));
        proof {
            assert(pair_entries(v@) =~= s.insert(j as int, (kv, tv)));
        }
    }
}

impl TranslationStore {
    /// The flat form of a document, sorted by path.
    pub fn flatten_json(data: &JsonData) -> (r: Vec<(String, String)>)
        ensures
            strictly_sorted(pair_entries(r@)),
            last_wins(pair_entries(r@)) == flat_map(entries_view(data@)),
    {
        let mut flat: Vec<(String, String)> = Vec::new();
        let mut i: usize = 0;
        proof {
            lemma_entries_view(data@);
            assert(pair_entries(flat@) =~= Seq::<(Seq<char>, Seq<char>)>::empty());
            assert(entries_view(data@).subrange(0, 0) =~= Seq::<(Seq<char>, DocView)>::empty());
        }
        while i < data.len()
            invariant
                i <= data.len(),
                entries_view(data@).len() == data@.len(),
                forall|k: int| 0 <= k < data.len() ==> #[trigger] entries_view(data@)[k] == (data@[k].0@, doc_view(data@[k].1)),
                strictly_sorted(pair_entries(flat@)),
                last_wins(pair_entries(flat@)) == apply_entries(
                    Map::empty(),
                    obj_pairs(entries_view(data@).subrange(0, i as int), None),
                ),
            decreases data.len() - i,
        {
            let ghost es = entries_view(data@).subrange(0, i as int);
            let ghost es1 = entries_view(data@).subrange(0, i + 1);
            let ghost before = last_wins(pair_entries(flat@));
            let key: &str = data[i].0.as_str();
            Self::flatten_recursive(key, &data[i].1, &mut flat);
            proof {
                assert(es1.drop_last() =~= es);
                assert(es1.last() == (data@[i as int].0@, doc_view(data@[i as int].1)));
                lemma_apply_concat(
                    Map::empty(),
                    obj_pairs(es, None),
                    doc_pairs(doc_view(data@[i as int].1), key@),
                );
            }
            i = i + 1;
        }
        proof {
            assert(entries_view(data@).subrange(0, i as int) =~= entries_view(data@));
            lemma_apply_empty(obj_pairs(entries_view(data@), None));
        }
        flat
    }

    /// Adds the pairs of `value`, found at `prefix`, to the sorted flat map.
    pub fn flatten_recursive(prefix: &str, value: &JsonValue, flat_map: &mut Vec<(String, String)>)
        requires
            strictly_sorted(pair_entries(old(flat_map)@)),
        ensures
            strictly_sorted(pair_entries(final(flat_map)@)),
            last_wins(pair_entries(final(flat_map)@)) == apply_entries(
                last_wins(pair_entries(old(flat_map)@)),
                doc_pairs(doc_view(*value), prefix@),
            ),
        decreases value,
    {
        match value {
            JsonValue::String(s) => {
                put_pair(flat_map, prefix.to_owned(), s.clone());
                proof {
                    let ps = seq![(prefix@, s@)];
                    assert(ps.drop_last() =~= Seq::<(Seq<char>, Seq<char>)>::empty());
                    assert(doc_view(*value) == DocView::Text(s@));
                    assert(apply_entries(last_wins(pair_entries(old(flat_map)@)), ps.drop_last()) == last_wins(pair_entries(old(flat_map)@)));
                    assert(doc_pairs(doc_view(*value), prefix@) == ps);
                    assert(apply_entries(last_wins(pair_entries(old(flat_map)@)), ps) == last_wins(pair_entries(old(flat_map)@)).insert(prefix@, s@));
                }
            },
            JsonValue::Object(obj) => {
                let ghost m0 = last_wins(pair_entries(flat_map@));
                let mut i: usize = 0;
                proof {
                    lemma_entries_view(obj@);
                    assert(entries_view(obj@).subrange(0, 0) =~= Seq::<(Seq<char>, DocView)>::empty());
                }
                while i < obj.len()
                    invariant
                        i <= obj.len(),
                        *value == JsonValue::Object(*obj),
                        entries_view(obj@).len() == obj@.len(),
                        forall|k: int| 0 <= k < obj.len() ==> #[trigger] entries_view(obj@)[k] == (obj@[k].0@, doc_view(obj@[k].1)),
                        strictly_sorted(pair_entries(flat_map@)),
                        last_wins(pair_entries(flat_map@)) == apply_entries(
                            m0,
                            obj_pairs(entries_view(obj@).subrange(0, i as int), Some(prefix@)),
                        ),
                    decreases obj.len() - i,
                {
                    let ghost es = entries_view(obj@).subrange(0, i as int);
                    let ghost es1 = entries_view(obj@).subrange(0, i + 1);
                    let new_prefix = join_child(Some(prefix), obj[i].0.as_str());
                    proof {
                        assert(decreases_to!(*value => (*value)->Object_0));
                        assert(decreases_to!(*obj => obj@));
                        assert(decreases_to!(obj@ => obj@[i as int]));
                        assert(decreases_to!(obj@[i as int] => obj@[i as int].1));
                        assert(decreases_to!(*value => obj@[i as int].1));
                    }
                    Self::flatten_recursive(new_prefix.as_str(), &obj[i].1, flat_map);
                    proof {
                        assert(es1.drop_last() =~= es);
                        assert(es1.last() == (obj@[i as int].0@, doc_view(obj@[i as int].1)));
                        lemma_apply_concat(
                            m0,
                            obj_pairs(es, Some(prefix@)),
                            doc_pairs(doc_view(obj@[i as int].1), new_prefix@),
                        );
                    }
                    i = i + 1;
                }
                proof {
                    assert(entries_view(obj@).subrange(0, i as int) =~= entries_view(obj@));
                }
            },
        }
    }
}


pub proof fn lemma_find_entry(es: Seq<(Seq<char>, DocView)>, k: Seq<char>)
    ensures
        -1 <= find_entry(es, k) < es.len(),
        find_entry(es, k) >= 0 ==> es[find_entry(es, k)].0 == k,
        find_entry(es, k) >= 0 ==> forall|i: int| 0 <= i < find_entry(es, k) ==> (#[trigger] es[i]).0 != k,
        find_entry(es, k) == -1 ==> forall|i: int| 0 <= i < es.len() ==> (#[trigger] es[i]).0 != k,
    decreases es.len(),
{
    if es.len() > 0 {
        lemma_find_entry(es.drop_last(), k);
        assert forall|i: int| 0 <= i < es.len() - 1 implies (#[trigger] es[i]).0 == es.drop_last()[i].0 by {}
    }
}

/// Once an entry named `k` is found, entries added after it do not change the answer.
proof fn lemma_find_entry_prefix(es: Seq<(Seq<char>, DocView)>, k: Seq<char>, j: int)
    requires
        0 <= j < es.len(),
        find_entry(es.subrange(0, j + 1), k) == j,
    ensures
        find_entry(es, k) == j,
    decreases es.len(),
{
    if es.len() > j + 1 {
        assert(es.drop_last().subrange(0, j + 1) =~= es.subrange(0, j + 1));
        lemma_find_entry_prefix(es.drop_last(), k, j);
    } else {
        assert(es.subrange(0, j + 1) =~= es);
    }
}

/// The position of the first entry named `k`.
fn find_entry_exec(es: &Vec<(String, JsonValue)>, k: &String) -> (r: Option<usize>)
    ensures
        match r {
            Some(i) => i < es.len() && find_entry(entries_view(es@), k@) == i,
            None => find_entry(entries_view(es@), k@) == -1,
        },
{
    proof {
        lemma_entries_view(es@);
        assert(entries_view(es@).subrange(0, 0) =~= Seq::<(Seq<char>, DocView)>::empty());
    }
    let ghost ev = entries_view(es@);
    let mut j: usize = 0;
    while j < es.len()
        invariant
            j <= es.len(),
            ev == entries_view(es@),
            ev.len() == es.len(),
            forall|i: int| 0 <= i < es.len() ==> #[trigger] ev[i] == (es@[i].0@, doc_view(es@[i].1)),
            find_entry(ev.subrange(0, j as int), k@) == -1,
        decreases es.len() - j,
    {
        proof {
            assert(ev.subrange(0, j + 1).drop_last() =~= ev.subrange(0, j as int));
        }
        if es[j].0 == *k {
            proof {
                lemma_find_entry_prefix(ev, k@, j as int);
            }
            return Some(j);
        }
        j = j + 1;
    }
    proof {
        assert(ev.subrange(0, j as int) =~= ev);
    }
    None
}

/// Sets `text` at the path `segs[idx..]` below the entries `es`.
fn insert_path(es: &mut Vec<(String, JsonValue)>, segs: &Vec<String>, idx: usize, text: &String)
    requires
        idx <= segs.len(),
    ensures
        entries_view(final(es)@) == insert_doc(
            entries_view(old(es)@),
            segs@.map_values(|s: String| s@).subrange(idx as int, segs.len() as int),
            text@,
        ),
    decreases segs.len() - idx,
{
    let ghost sv = segs@.map_values(|s: String| s@);
    let ghost rest = sv.subrange(idx as int, segs.len() as int);
    let ghost ev = entries_view(es@);
    if idx == segs.len() {
        return;
    }
    proof {
        assert(rest[0] == segs@[idx as int]@);
        assert(rest.drop_first() =~= sv.subrange(idx + 1, segs.len() as int));
        lemma_entries_view(es@);
    }
    let k = &segs[idx];
    let found = find_entry_exec(es, k);
    if idx + 1 == segs.len() {
        match found {
            Some(pos) => {
                es.set(pos, (k.clone(), JsonValue::String(text.clone())));
            },
            None => {
                es.push((k.clone(), JsonValue::String(text.clone())));
            },
        }
        proof {
            lemma_entries_view(es@);
            assert(entries_view(es@) =~= insert_doc(ev, rest, text@));
        }
    } else {
        match found {
            Some(pos) => {
                let ghost before = es@;
                proof {
                    lemma_find_entry(ev, k@);
                    assert(ev[pos as int] == (before[pos as int].0@, doc_view(before[pos as int].1)));
                }
                let (name, v) = es.remove(pos);
                match v {
                    JsonValue::Object(inner) => {
                        let mut inner = inner;
                        insert_path(&mut inner, segs, idx + 1, text);
                        es.insert(pos, (name, JsonValue::Object(inner)));
                        proof {
                            assert(es@ =~= before.update(pos as int, (name, JsonValue::Object(inner))));
                        }
                    },
                    JsonValue::String(t) => {
                        es.insert(pos, (name, JsonValue::String(t)));
                        proof {
                            assert(es@ =~= before);
                        }
                    },
                }
            },
            None => {
                let mut inner: Vec<(String, JsonValue)> = Vec::new();
                proof {
                    lemma_entries_view(inner@);
                    assert(entries_view(inner@) =~= Seq::<(Seq<char>, DocView)>::empty());
                }
                insert_path(&mut inner, segs, idx + 1, text);
                es.push((k.clone(), JsonValue::Object(inner)));
            },
        }
        proof {
            lemma_entries_view(es@);
            assert(entries_view(es@) =~= insert_doc(ev, rest, text@));
        }
    }
}

impl TranslationStore {
    /// The document of all items that have a translation, taken in key order.
    pub fn unflatten_to_json_value(&self) -> (r: JsonValue)
        ensures
            doc_view(r) == DocView::Obj(unflatten_items(self.all_items@)),
    {
        let mut root: Vec<(String, JsonValue)> = Vec::new();
        let mut i: usize = 0;
        proof {
            lemma_entries_view(root@);
            assert(entries_view(root@) =~= Seq::<(Seq<char>, DocView)>::empty());
            assert(self.all_items@.subrange(0, 0) =~= Seq::<TranslationItem>::empty());
        }
        while i < self.all_items.len()
            invariant
                i <= self.all_items.len(),
                entries_view(root@) == unflatten_items(self.all_items@.subrange(0, i as int)),
            decreases self.all_items.len() - i,
        {
            let item = &self.all_items[i];
            proof {
                assert(self.all_items@.subrange(0, i + 1).drop_last() =~= self.all_items@.subrange(0, i as int));
            }
            match &item.target_text {
                Some(t) => {
                    let segs = split_key(item.key.as_str());
                    proof {
                        assert(segs@.map_values(|s: String| s@).subrange(0, segs.len() as int) =~= segs@.map_values(|s: String| s@));
                    }
                    insert_path(&mut root, &segs, 0, t);
                },
                None => {},
            }
            i = i + 1;
        }
        proof {
            assert(self.all_items@.subrange(0, i as int) =~= self.all_items@);
        }
        JsonValue::Object(root)
    }
}

impl TranslationStore {
    /// The items of a source document, in key order: one per path of its flat form, with
    /// the source text, and the translation that the target document gives that path, if any.
    pub fn items_from_documents(source: &JsonData, target: &JsonData) -> (r: Vec<TranslationItem>)
        ensures
            strictly_sorted(item_entries(r@)),
            forall|i: int| 0 <= i < r.len() ==> {
                let k = (#[trigger] r@[i]).key@;
                &&& flat_map(entries_view(source@)).contains_key(k)
                &&& r@[i].source_text@ == flat_map(entries_view(source@))[k]
                &&& opt_view(r@[i].target_text) == if flat_map(entries_view(target@)).contains_key(k) {
                    Some(flat_map(entries_view(target@))[k])
                } else {
                    None
                }
            },
            forall|k: Seq<char>| #[trigger] flat_map(entries_view(source@)).contains_key(k) ==> exists|i: int|
                0 <= i < r.len() && r@[i].key@ == k,
    {
        let fs = Self::flatten_json(source);
        let ft = Self::flatten_json(target);
        let ghost ps = pair_entries(fs@);
        proof {
            lemma_sorted_map(ps);
        }
        let mut r: Vec<TranslationItem> = Vec::new();
        let mut i: usize = 0;
        while i < fs.len()
            invariant
                i <= fs.len(),
                ps == pair_entries(fs@),
                strictly_sorted(ps),
                last_wins(ps) == flat_map(entries_view(source@)),
                last_wins(pair_entries(ft@)) == flat_map(entries_view(target@)),
                forall|j: int| 0 <= j < ps.len() ==> #[trigger] last_wins(ps).contains_key(ps[j].0)
                    && last_wins(ps)[ps[j].0] == ps[j].1,
                r.len() == i,
                forall|j: int| 0 <= j < i ==> (#[trigger] r@[j]).key@ == ps[j].0 && r@[j].source_text@ == ps[j].1
                    && opt_view(r@[j].target_text) == if last_wins(pair_entries(ft@)).contains_key(ps[j].0) {
                        Some(last_wins(pair_entries(ft@))[ps[j].0])
                    } else {
                        None
                    },
            decreases fs.len() - i,
        {
            let target_text = lookup_pair(&ft, fs[i].0.as_str());
            r.push(TranslationItem { key: fs[i].0.clone(), source_text: fs[i].1.clone(), target_text });
            i = i + 1;
        }
        proof {
            assert forall|x: int, y: int| 0 <= x < y < r.len() implies key_lt(
                #[trigger] item_entries(r@)[x].0,
                #[trigger] item_entries(r@)[y].0,
            ) by {
                assert(key_lt(ps[x].0, ps[y].0));
            }
            assert forall|k: Seq<char>| #[trigger] flat_map(entries_view(source@)).contains_key(k) implies exists|j: int|
                0 <= j < r.len() && r@[j].key@ == k by {
                let j = choose|j: int| 0 <= j < ps.len() && ps[j].0 == k;
                assert(r@[j].key@ == k);
            }
            assert forall|j: int| 0 <= j < r.len() implies {
                let k = (#[trigger] r@[j]).key@;
                &&& flat_map(entries_view(source@)).contains_key(k)
                &&& r@[j].source_text@ == flat_map(entries_view(source@))[k]
            } by {
                assert(last_wins(ps).contains_key(ps[j].0));
            }
        }
        r
    }
}

} // verus!
