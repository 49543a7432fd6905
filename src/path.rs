//! Dot-delimited keys: splitting into segments, joining, and their order.
use vstd::prelude::*;

verus! {

/// The segments of `s`, cut at every '.'; a key without a dot is one segment.
pub open spec fn split_dots(s: Seq<char>) -> Seq<Seq<char>>
    decreases s.len(),
{
    if s.len() == 0 {
        seq![Seq::<char>::empty()]
    } else {
        let r = split_dots(s.drop_last());
        if s.last() == '.' {
            r.push(Seq::<char>::empty())
        } else {
            r.update(r.len() - 1, r.last().push(s.last()))
        }
    }
}

/// The segments of `segs` put back together with '.' between them.
pub open spec fn join_dots(segs: Seq<Seq<char>>) -> Seq<char>
    decreases segs.len(),
{
    if segs.len() == 0 {
        Seq::<char>::empty()
    } else if segs.len() == 1 {
        segs[0]
    } else {
        join_dots(segs.drop_last()) + seq!['.'] + segs.last()
    }
}

/// `prefix` extended by one segment: `seg` alone at the top level, else joined with '.'.
pub open spec fn child_path(prefix: Option<Seq<char>>, seg: Seq<char>) -> Seq<char> {
    match prefix {
        Some(p) => p + seq!['.'] + seg,
        None => seg,
    }
}

/// Strict lexicographic order on keys, character by character (code point order).
pub open spec fn key_lt(a: Seq<char>, b: Seq<char>) -> bool
    decreases a.len(),
{
    if a.len() == 0 {
        b.len() > 0
    } else if b.len() == 0 {
        false
    } else if a[0] != b[0] {
        (a[0] as int) < (b[0] as int)
    } else {
        key_lt(a.drop_first(), b.drop_first())
    }
}

pub proof fn lemma_split_nonempty(s: Seq<char>)
    ensures
        split_dots(s).len() >= 1,
    decreases s.len(),
{
    if s.len() > 0 {
        lemma_split_nonempty(s.drop_last());
    }
}

/// Joining the segments of a key gives the key back.
pub proof fn lemma_join_split(s: Seq<char>)
    ensures
        join_dots(split_dots(s)) == s,
    decreases s.len(),
{
    if s.len() == 0 {
    } else {
        let r = split_dots(s.drop_last());
        lemma_split_nonempty(s.drop_last());
        lemma_join_split(s.drop_last());
        let t = split_dots(s);
        if s.last() == '.' {
            assert(t.drop_last() =~= r);
            assert(s =~= s.drop_last() + seq!['.'] + Seq::<char>::empty());
        } else {
            assert(t.drop_last() =~= r.drop_last());
            if r.len() == 1 {
                assert(s =~= r[0].push(s.last()));
            } else {
                assert(join_dots(r) == join_dots(r.drop_last()) + seq!['.'] + r.last());
                assert(s =~= s.drop_last().push(s.last()));
                assert(s =~= join_dots(r.drop_last()) + seq!['.'] + r.last().push(s.last()));
            }
        }
    }
}

pub proof fn lemma_key_lt_irreflexive(a: Seq<char>)
    ensures
        !key_lt(a, a),
    decreases a.len(),
{
    if a.len() > 0 {
        lemma_key_lt_irreflexive(a.drop_first());
    }
}

pub proof fn lemma_key_lt_total(a: Seq<char>, b: Seq<char>)
    ensures
        a == b || key_lt(a, b) || key_lt(b, a),
    decreases a.len(),
{
    if a.len() > 0 && b.len() > 0 && a[0] == b[0] {
        lemma_key_lt_total(a.drop_first(), b.drop_first());
        if a.drop_first() == b.drop_first() {
            assert(a =~= seq![a[0]] + a.drop_first());
            assert(b =~= seq![b[0]] + b.drop_first());
        }
    } else if a.len() == 0 && b.len() == 0 {
        assert(a =~= b);
    } else if a.len() > 0 && b.len() > 0 {
        assert(a[0] as int != b[0] as int);
    }
}

pub proof fn lemma_key_lt_asymmetric(a: Seq<char>, b: Seq<char>)
    ensures
        !(key_lt(a, b) && key_lt(b, a)),
    decreases a.len(),
{
    if a.len() > 0 && b.len() > 0 && a[0] == b[0] {
        lemma_key_lt_asymmetric(a.drop_first(), b.drop_first());
    }
}

pub proof fn lemma_key_lt_transitive(a: Seq<char>, b: Seq<char>, c: Seq<char>)
    requires
        key_lt(a, b),
        key_lt(b, c),
    ensures
        key_lt(a, c),
    decreases a.len(),
{
    if a.len() > 0 && b.len() > 0 && c.len() > 0 && a[0] == b[0] && b[0] == c[0] {
        lemma_key_lt_transitive(a.drop_first(), b.drop_first(), c.drop_first());
    }
}

/// Comparing from position `i` on decides the order when the first `i` characters agree.
proof fn lemma_key_lt_skip(a: Seq<char>, b: Seq<char>, i: int)
    requires
        0 <= i <= a.len(),
        i <= b.len(),
        a.subrange(0, i) == b.subrange(0, i),
    ensures
        key_lt(a, b) == key_lt(a.subrange(i, a.len() as int), b.subrange(i, b.len() as int)),
    decreases i,
{
    if i > 0 {
        assert(a[0] == a.subrange(0, i)[0]);
        assert(b[0] == b.subrange(0, i)[0]);
        assert(a.drop_first().subrange(0, i - 1) =~= a.subrange(0, i).drop_first());
        assert(b.drop_first().subrange(0, i - 1) =~= b.subrange(0, i).drop_first());
        lemma_key_lt_skip(a.drop_first(), b.drop_first(), i - 1);
        assert(a.drop_first().subrange(i - 1, a.len() - 1) =~= a.subrange(i, a.len() as int));
        assert(b.drop_first().subrange(i - 1, b.len() - 1) =~= b.subrange(i, b.len() as int));
    } else {
        assert(a.subrange(0, a.len() as int) =~= a);
        assert(b.subrange(0, b.len() as int) =~= b);
    }
}

/// Whether key `a` comes strictly before key `b`.
pub fn key_less(a: &str, b: &str) -> (r: bool)
    ensures
        r == key_lt(a@, b@),
{
    let la = a.unicode_len();
    let lb = b.unicode_len();
    let mut i: usize = 0;
    while i < la && i < lb
        invariant
            la == a@.len(),
            lb == b@.len(),
            i <= la,
            i <= lb,
            a@.subrange(0, i as int) == b@.subrange(0, i as int),
        decreases la - i,
    {
        let ca = a.get_char(i);
        let cb = b.get_char(i);
        if ca != cb {
            proof {
                lemma_key_lt_skip(a@, b@, i as int);
                let sa = a@.subrange(i as int, a@.len() as int);
                let sb = b@.subrange(i as int, b@.len() as int);
                assert(sa[0] == ca);
                assert(sb[0] == cb);
            }
            return (ca as u32) < (cb as u32);
        }
        proof {
            assert(a@.subrange(0, i + 1) =~= a@.subrange(0, i as int).push(ca));
            assert(b@.subrange(0, i + 1) =~= b@.subrange(0, i as int).push(cb));
        }
        i = i + 1;
    }
    proof {
        lemma_key_lt_skip(a@, b@, i as int);
    }
    i == la && i < lb
}

/// The segments of `key`, cut at every '.'.
pub fn split_key(key: &str) -> (r: Vec<String>)
    ensures
        r@.map_values(|s: String| s@) == split_dots(key@),
{
    let n = key.unicode_len();
    let mut segs: Vec<String> = Vec::new();
    let mut start: usize = 0;
    let mut i: usize = 0;
    proof {
        assert(key@.subrange(0, 0) =~= Seq::<char>::empty());
        assert(segs@.map_values(|s: String| s@) =~= Seq::<Seq<char>>::empty());
    }
    while i < n
        invariant
            n == key@.len(),
            start <= i <= n,
            split_dots(key@.subrange(0, i as int)) == segs@.map_values(|s: String| s@).push(
                key@.subrange(start as int, i as int),
            ),
        decreases n - i,
    {
        let c = key.get_char(i);
        let ghost prev = key@.subrange(0, i as int);
        proof {
            assert(key@.subrange(0, i + 1).drop_last() =~= prev);
            assert(key@.subrange(0, i + 1).last() == c);
        }
        if c == '.' {
            let ghost old_view = segs@.map_values(|s: String| s@);
            let ghost old_start = start;
            let seg = key.substring_char(start, i).to_owned();
            segs.push(seg);
            start = i + 1;
            proof {
                assert(segs@.map_values(|s: String| s@) =~= old_view.push(
                    key@.subrange(old_start as int, i as int),
                ));
                assert(key@.subrange(i + 1, i + 1) =~= Seq::<char>::empty());
            }
        } else {
            proof {
                assert(key@.subrange(start as int, i + 1) =~= key@.subrange(
                    start as int,
                    i as int,
                ).push(c));
                assert(split_dots(key@.subrange(0, i + 1)) =~= segs@.map_values(|s: String| s@).push(
                    key@.subrange(start as int, i + 1),
                ));
            }
        }
        i = i + 1;
    }
    let last = key.substring_char(start, n).to_owned();
    segs.push(last);
    proof {
        assert(key@.subrange(0, n as int) =~= key@);
        assert(segs@.map_values(|s: String| s@) =~= split_dots(key@));
    }
    segs
}

/// `prefix` extended by `seg`; `None` stands for the top level.
pub fn join_child(prefix: Option<&str>, seg: &str) -> (r: String)
    ensures
        r@ == child_path(
            match prefix {
                Some(p) => Some(p@),
                None => None,
            },
            seg@,
        ),
{
    match prefix {
        Some(p) => {
            let mut s = p.to_owned();
            s.append(".");
            s.append(seg);
            proof {
                reveal_strlit(".");
            }
            s
        },
        None => seg.to_owned(),
    }
}

} // verus!
