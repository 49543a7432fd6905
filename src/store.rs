//! Translation items and the store that owns them, kept sorted by key.
use crate::path::{key_less, key_lt};
use crate::sorted::{insert_point, last_wins, lemma_sorted_insert, lemma_sorted_map, lemma_sorted_replace, strictly_sorted};
use vstd::prelude::*;

verus! {

/// One catalog entry: its dotted key, the reference text, and the translation if any.
#[derive(Clone, Debug)]
pub struct TranslationItem {
    pub key: String,
    pub source_text: String,
    pub target_text: Option<String>,
}

/// The view of an optional string.
pub open spec fn opt_view(o: Option<String>) -> Option<Seq<char>> {
    match o {
        Some(s) => Some(s@),
        None => None,
    }
}

/// A translation counts as done when it is set and not empty.
pub open spec fn translated(item: TranslationItem) -> bool {
    match item.target_text {
        Some(t) => t@.len() > 0,
        None => false,
    }
}

/// The items as (key, item) entries.
pub open spec fn item_entries(s: Seq<TranslationItem>) -> Seq<(Seq<char>, TranslationItem)> {
    s.map_values(|it: TranslationItem| (it.key@, it))
}

/// Flat (key, text) pairs as entries over views.
pub open spec fn pair_entries(s: Seq<(String, String)>) -> Seq<(Seq<char>, Seq<char>)> {
    s.map_values(|p: (String, String)| (p.0@, p.1@))
}

/// How many of the items count as translated.
pub open spec fn count_translated(s: Seq<TranslationItem>) -> nat
    decreases s.len(),
{
    if s.len() == 0 {
        0
    } else {
        count_translated(s.drop_last()) + if translated(s.last()) {
            1nat
        } else {
            0nat
        }
    }
}

/// Text shown for an item: its translation, or the marked source when there is none.
pub open spec fn display_text(item: TranslationItem) -> Seq<char> {
    match item.target_text {
        Some(t) => t@,
        None => "[UNTRANSLATED] "@ + item.source_text@,
    }
}

impl TranslationItem {
    pub fn is_translated(&self) -> (r: bool)
        ensures
            r == translated(*self),
    {
        match &self.target_text {
            Some(t) => t.as_str().unicode_len() > 0,
            None => false,
        }
    }

    pub fn get_display_text(&self) -> (r: String)
        ensures
            r@ == display_text(*self),
    {
        match &self.target_text {
            Some(text) => text.clone(),
            None => {
                let mut s = "[UNTRANSLATED] ".to_owned();
                s.append(self.source_text.as_str());
                s
            },
        }
    }

    /// A copy of the item, equal to it.
    pub fn duplicate(&self) -> (r: TranslationItem)
        ensures
            r == *self,
    {
        let target_text = match &self.target_text {
            Some(t) => Some(t.clone()),
            None => None,
        };
        TranslationItem { key: self.key.clone(), source_text: self.source_text.clone(), target_text }
    }
}

/// The catalog: every item once, in ascending key order.
pub struct TranslationStore {
    pub all_items: Vec<TranslationItem>,
}

/// Where `key` goes in the sorted entries `s`: the first position whose key is not smaller.
fn find_slot(s: &Vec<TranslationItem>, key: &str) -> (j: usize)
    ensures
        insert_point(item_entries(s@), key@, j as int),
{
    let mut j: usize = 0;
    while j < s.len()
        invariant
            j <= s.len(),
            forall|i: int| 0 <= i < j ==> key_lt(#[trigger] item_entries(s@)[i].0, key@),
        decreases s.len() - j,
    {
        if !key_less(s[j].key.as_str(), key) {
            return j;
        }
        j = j + 1;
    }
    j
}

/// The last value that `s` gives to `key`, if any.
pub fn lookup_pair(s: &Vec<(String, String)>, key: &str) -> (r: Option<String>)
    ensures
        opt_view(r) == (if last_wins(pair_entries(s@)).contains_key(key@) {
            Some(last_wins(pair_entries(s@))[key@])
        } else {
            None::<Seq<char>>
        }),
{
    let mut i: usize = s.len();
    proof {
        assert(pair_entries(s@).subrange(0, i as int) =~= pair_entries(s@));
    }
    while i > 0
        invariant
            i <= s.len(),
            forall|k: int| i <= k < s.len() ==> (#[trigger] s@[k]).0@ != key@,
            last_wins(pair_entries(s@)).contains_key(key@) == last_wins(
                pair_entries(s@).subrange(0, i as int),
            ).contains_key(key@),
            last_wins(pair_entries(s@)).contains_key(key@) ==> last_wins(pair_entries(s@))[key@]
                == last_wins(pair_entries(s@).subrange(0, i as int))[key@],
        decreases i,
    {
        let ghost e = pair_entries(s@).subrange(0, i as int);
        proof {
            assert(e.drop_last() =~= pair_entries(s@).subrange(0, i - 1));
        }
        if s[i - 1].0 == key.to_owned() {
            return Some(s[i - 1].1.clone());
        }
        i = i - 1;
    }
    proof {
        assert(pair_entries(s@).subrange(0, 0) =~= Seq::<(Seq<char>, Seq<char>)>::empty());
    }
    None
}

impl TranslationStore {
    /// The items are in strictly ascending key order.
    pub open spec fn wf(&self) -> bool {
        strictly_sorted(item_entries(self.all_items@))
    }

    /// The catalog as a map from key to item.
    pub open spec fn item_map(&self) -> Map<Seq<char>, TranslationItem> {
        last_wins(item_entries(self.all_items@))
    }

    /// The store of `items`; of two items with one key the later one is kept.
    pub fn new(items: Vec<TranslationItem>) -> (r: Self)
        ensures
            r.wf(),
            r.item_map() == last_wins(item_entries(items@)),
    {
        let mut all_items: Vec<TranslationItem> = Vec::new();
        let mut i: usize = 0;
        proof {
            assert(item_entries(all_items@) =~= Seq::<(Seq<char>, TranslationItem)>::empty());
            assert(item_entries(items@).subrange(0, 0) =~= Seq::<(Seq<char>, TranslationItem)>::empty());
        }
        while i < items.len()
            invariant
                i <= items.len(),
                strictly_sorted(item_entries(all_items@)),
                last_wins(item_entries(all_items@)) == last_wins(item_entries(items@).subrange(0, i as int)),
            decreases items.len() - i,
        {
            let item = items[i].duplicate();
            Self::put(&mut all_items, item);
            proof {
                assert(item_entries(items@).subrange(0, i + 1).drop_last() =~= item_entries(items@).subrange(0, i as int));
            }
            i = i + 1;
        }
        proof {
            assert(item_entries(items@).subrange(0, items.len() as int) =~= item_entries(items@));
        }
        TranslationStore { all_items }
    }

    /// Puts `item` at its place in the sorted `v`, replacing an item with the same key.
    fn put(v: &mut Vec<TranslationItem>, item: TranslationItem)
        requires
            strictly_sorted(item_entries(old(v)@)),
        ensures
            strictly_sorted(item_entries(final(v)@)),
            last_wins(item_entries(final(v)@)) == last_wins(item_entries(old(v)@)).insert(item.key@, item),
    {
        let j = find_slot(v, item.key.as_str());
        let ghost s = item_entries(v@);
        if j < v.len() && v[j].key == item.key {
            let ghost k = item.key@;
            proof {
                lemma_sorted_replace(s, j as int, item);
            }
            v.set(j, item);
            proof {
                assert(item_entries(v@) =~= s.update(j as int, (s[j as int].0, item)));
            }
        } else {
            proof {
                lemma_sorted_insert(s, j as int, item.key@, item);
            }
            let ghost it = item;
            v.insert(j, item);
            proof {
                assert(item_entries(v@) =~= s.insert(j as int, (it.key@, it)));
            }
        }
    }

    /// The position of the item with `key`, if there is one.
    pub fn find(&self, key: &str) -> (r: Option<usize>)
        ensures
            match r {
                Some(i) => i < self.all_items.len() && self.all_items@[i as int].key@ == key@,
                None => forall|i: int| 0 <= i < self.all_items.len() ==> (#[trigger] self.all_items@[i]).key@ != key@,
            },
    {
        let mut i: usize = 0;
        while i < self.all_items.len()
            invariant
                i <= self.all_items.len(),
                forall|k: int| 0 <= k < i ==> (#[trigger] self.all_items@[k]).key@ != key@,
            decreases self.all_items.len() - i,
        {
            if self.all_items[i].key == key.to_owned() {
                return Some(i);
            }
            i = i + 1;
        }
        None
    }

    /// The number of translated items and the number of all items.
    pub fn progress(&self) -> (r: (usize, usize))
        ensures
            r.0 == count_translated(self.all_items@),
            r.1 == self.all_items.len(),
    {
        let mut n: usize = 0;
        let mut i: usize = 0;
        while i < self.all_items.len()
            invariant
                i <= self.all_items.len(),
                n == count_translated(self.all_items@.subrange(0, i as int)),
                n <= i,
            decreases self.all_items.len() - i,
        {
            proof {
                assert(self.all_items@.subrange(0, i + 1).drop_last() =~= self.all_items@.subrange(0, i as int));
            }
            if self.all_items[i].is_translated() {
                n = n + 1;
            }
            i = i + 1;
        }
        proof {
            assert(self.all_items@.subrange(0, i as int) =~= self.all_items@);
        }
        (n, self.all_items.len())
    }

    /// Sets the translation of the item with `key`; tells whether there was one.
    pub fn set_target(&mut self, key: &str, text: Option<String>) -> (found: bool)
        requires
            old(self).wf(),
        ensures
            final(self).wf(),
            found == old(self).item_map().contains_key(key@),
            found ==> final(self).item_map() == old(self).item_map().insert(
                key@,
                TranslationItem { target_text: text, ..old(self).item_map()[key@] },
            ),
            !found ==> *final(self) == *old(self),
    {
        proof {
            lemma_sorted_map(item_entries(self.all_items@));
        }
        match self.find(key) {
            Some(i) => {
                let ghost s = item_entries(self.all_items@);
                let old_item = self.all_items[i].duplicate();
                proof {
                    assert(s[i as int].0 == key@);
                    assert(s[i as int].1 == self.all_items@[i as int]);
                    assert(last_wins(s).contains_key(s[i as int].0));
                    assert(self.item_map()[key@] == old_item);
                }
                let item = TranslationItem { target_text: text, ..old_item };
                proof {
                    lemma_sorted_replace(s, i as int, item);
                }
                self.all_items.set(i, item);
                proof {
                    assert(item_entries(self.all_items@) =~= s.update(i as int, (s[i as int].0, item)));
                }
                true
            },
            None => {
                proof {
                    if self.item_map().contains_key(key@) {
                        let k = choose|k: int| 0 <= k < self.all_items.len() && item_entries(self.all_items@)[k].0 == key@;
                        assert(self.all_items@[k].key@ != key@);
                    }
                }
                false
            },
        }
    }
}

} // verus!
