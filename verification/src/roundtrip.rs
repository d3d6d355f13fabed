//! Stitching and unstitching undo each other on direct mappings of any depth.
use vstd::prelude::*;
use crate::json::{entries_or_empty, entry_index, lemma_entry_index, lookup, with_entry, Json};
use crate::laws::{child_path, own_leaves};
use crate::stitch::{
    extract, forward_doc, fwd_child, fwd_children, leaves_below, leaves_of, nonneg, put_at,
    put_constants, put_path, put_results, put_targets, put_trie, rev_leaves, reverse_doc,
    spec_stitch, spec_target_segments, spec_unstitch, Leaf, Seg,
};
use crate::suture::{Binding, Capture, SutureModel, Trie};

verus! {

// ===========================================================================
// Reading and writing along key paths
// ===========================================================================

/// The value reached from `d` along the keys `p`, if every key is there.
pub open spec fn get_keys(d: Json, p: Seq<Seq<char>>) -> Option<Json>
    decreases p.len(),
{
    if p.len() == 0 {
        Some(d)
    } else {
        match lookup(d, p[0]) {
            Some(c) => get_keys(c, p.drop_first()),
            None => None,
        }
    }
}

/// `d` with `v` written along the keys `p`, creating objects and entries
/// as needed.
pub open spec fn put_keys(d: Json, p: Seq<Seq<char>>, v: Json) -> Json
    decreases p.len(),
{
    if p.len() == 0 {
        v
    } else {
        let obj = entries_or_empty(d);
        let i = entry_index(obj, p[0]);
        let cur = if i >= 0 {
            obj[i].1
        } else {
            Json::Null
        };
        Json::Object(with_entry(obj, p[0], put_keys(cur, p.drop_first(), v)))
    }
}

/// Two key paths part ways: at some position both have a key, and the keys
/// differ (so neither is a prefix of the other).
pub open spec fn diverge(p: Seq<Seq<char>>, q: Seq<Seq<char>>) -> bool
    decreases p.len(),
{
    p.len() > 0 && q.len() > 0 && (p[0] != q[0] || diverge(p.drop_first(), q.drop_first()))
}

pub proof fn lemma_entry_index_is(es: Seq<(Seq<char>, Json)>, k: Seq<char>, e: int)
    requires
        (e == -1 && forall|j: int| 0 <= j < es.len() ==> #[trigger] es[j].0 != k) || (0 <= e
            < es.len() && es[e].0 == k && forall|j: int| 0 <= j < e ==> #[trigger] es[j].0 != k),
    ensures
        entry_index(es, k) == e,
{
    lemma_entry_index(es, k);
    let f = entry_index(es, k);
    if f >= 0 && e >= 0 && f < e {
        assert(es[f].0 == k);
    }
    if f >= 0 && e == -1 {
        assert(es[f].0 == k);
    }
    if e >= 0 && (f < 0 || e < f) {
        assert(es[e].0 != k);
    }
}

/// What a lookup gives after one entry is written.
pub proof fn lemma_lookup_with_entry(es: Seq<(Seq<char>, Json)>, k: Seq<char>, v: Json, k2: Seq<char>)
    ensures
        lookup(Json::Object(with_entry(es, k, v)), k2) == if k2 == k {
            Some(v)
        } else {
            lookup(Json::Object(es), k2)
        },
{
    lemma_entry_index(es, k);
    lemma_entry_index(es, k2);
    let n = with_entry(es, k, v);
    let i = entry_index(es, k);
    let e2 = entry_index(es, k2);
    if i >= 0 {
        assert(n == es.update(i, (k, v)));
        if k2 == k {
            assert forall|j: int| 0 <= j < i implies #[trigger] n[j].0 != k by {
                assert(n[j] == es[j]);
            }
            lemma_entry_index_is(n, k, i);
        } else {
            if e2 >= 0 {
                assert(e2 != i);
                assert forall|j: int| 0 <= j < e2 implies #[trigger] n[j].0 != k2 by {
                    if j != i {
                        assert(n[j] == es[j]);
                    }
                }
                assert(n[e2] == es[e2]);
                lemma_entry_index_is(n, k2, e2);
            } else {
                assert forall|j: int| 0 <= j < n.len() implies #[trigger] n[j].0 != k2 by {
                    if j != i {
                        assert(n[j] == es[j]);
                    }
                }
                lemma_entry_index_is(n, k2, -1);
            }
        }
    } else {
        assert(n == es.push((k, v)));
        if k2 == k {
            assert forall|j: int| 0 <= j < es.len() implies #[trigger] n[j].0 != k by {
                assert(n[j] == es[j]);
            }
            lemma_entry_index_is(n, k, es.len() as int);
        } else {
            if e2 >= 0 {
                assert forall|j: int| 0 <= j < e2 implies #[trigger] n[j].0 != k2 by {
                    assert(n[j] == es[j]);
                }
                assert(n[e2] == es[e2]);
                lemma_entry_index_is(n, k2, e2);
            } else {
                assert forall|j: int| 0 <= j < n.len() implies #[trigger] n[j].0 != k2 by {
                    if j < es.len() {
                        assert(n[j] == es[j]);
                    }
                }
                lemma_entry_index_is(n, k2, -1);
            }
        }
    }
}

pub proof fn lemma_lookup_entries(d: Json, k: Seq<char>)
    ensures
        lookup(Json::Object(entries_or_empty(d)), k) == lookup(d, k),
{
    if !(d is Object) {
        lemma_entry_index(Seq::<(Seq<char>, Json)>::empty(), k);
    }
}

/// A value written along a path is read back along it.
pub proof fn lemma_get_put_same(d: Json, p: Seq<Seq<char>>, v: Json)
    ensures
        get_keys(put_keys(d, p, v), p) == Some(v),
    decreases p.len(),
{
    if p.len() > 0 {
        let obj = entries_or_empty(d);
        let i = entry_index(obj, p[0]);
        let cur = if i >= 0 {
            obj[i].1
        } else {
            Json::Null
        };
        lemma_lookup_with_entry(obj, p[0], put_keys(cur, p.drop_first(), v), p[0]);
        lemma_get_put_same(cur, p.drop_first(), v);
    }
}

/// Writing along a path leaves every path that parts ways with it as it was.
pub proof fn lemma_get_put_other(d: Json, p: Seq<Seq<char>>, q: Seq<Seq<char>>, v: Json)
    requires
        diverge(p, q),
    ensures
        get_keys(put_keys(d, p, v), q) == get_keys(d, q),
    decreases p.len(),
{
    let obj = entries_or_empty(d);
    let i = entry_index(obj, p[0]);
    lemma_entry_index(obj, p[0]);
    let cur = if i >= 0 {
        obj[i].1
    } else {
        Json::Null
    };
    let inner = put_keys(cur, p.drop_first(), v);
    lemma_lookup_with_entry(obj, p[0], inner, q[0]);
    lemma_lookup_entries(d, q[0]);
    if p[0] == q[0] {
        lemma_get_put_other(cur, p.drop_first(), q.drop_first(), v);
        lemma_lookup_entries(d, p[0]);
        assert(q.drop_first().len() > 0);
    }
}

/// Writing along a path the value already there changes nothing.
proof fn lemma_put_same_value(w: Json, r: Seq<Seq<char>>, x: Json)
    requires
        get_keys(w, r) == Some(x),
    ensures
        put_keys(w, r, x) == w,
    decreases r.len(),
{
    if r.len() > 0 {
        let obj = entries_or_empty(w);
        lemma_entry_index(obj, r[0]);
        let i = entry_index(obj, r[0]);
        assert(w is Object);
        assert(i >= 0);
        let cur = obj[i].1;
        lemma_put_same_value(cur, r.drop_first(), x);
        assert(with_entry(obj, r[0], cur) =~= obj);
    }
}

/// One key path is a prefix of another.
pub open spec fn is_prefix(a: Seq<Seq<char>>, b: Seq<Seq<char>>) -> bool {
    a.len() <= b.len() && b.take(a.len() as int) =~= a
}

/// Writing the value `v` that `s` holds at `p` keeps agreement with `s` at
/// `q`: when `q` extends `p`, or when the document already agreed at `q`.
proof fn lemma_put_agrees(b: Json, s: Json, p: Seq<Seq<char>>, q: Seq<Seq<char>>, v: Json)
    requires
        get_keys(s, p) == Some(v),
        is_prefix(p, q) || get_keys(b, q) == get_keys(s, q),
    ensures
        get_keys(put_keys(b, p, v), q) == get_keys(s, q),
    decreases p.len(),
{
    if p.len() == 0 {
        assert(q.take(0) =~= Seq::<Seq<char>>::empty());
    } else if q.len() == 0 {
        assert(b == s);
        lemma_put_same_value(s, p, v);
    } else {
        let obj = entries_or_empty(b);
        let i = entry_index(obj, p[0]);
        lemma_entry_index(obj, p[0]);
        let cur = if i >= 0 {
            obj[i].1
        } else {
            Json::Null
        };
        let inner = put_keys(cur, p.drop_first(), v);
        lemma_lookup_with_entry(obj, p[0], inner, q[0]);
        lemma_lookup_entries(b, q[0]);
        if p[0] == q[0] {
            lemma_lookup_entries(b, p[0]);
            let s1 = lookup(s, p[0])->0;
            if is_prefix(p, q) {
                assert(q.drop_first().take(p.drop_first().len() as int) =~= q.take(p.len() as int).drop_first());
                assert(p.drop_first() =~= p.drop_first());
            }
            lemma_put_agrees(cur, s1, p.drop_first(), q.drop_first(), v);
        } else {
            if is_prefix(p, q) {
                assert(q.take(p.len() as int)[0] == q[0]);
            }
        }
    }
}

/// Reading along `a + b` reads along `a`, then along `b`.
proof fn lemma_get_concat(s: Json, a: Seq<Seq<char>>, b: Seq<Seq<char>>)
    ensures
        get_keys(s, a + b) == match get_keys(s, a) {
            Some(x) => get_keys(x, b),
            None => None,
        },
    decreases a.len(),
{
    if a.len() == 0 {
        assert(a + b =~= b);
    } else {
        assert((a + b)[0] == a[0]);
        assert((a + b).drop_first() =~= a.drop_first() + b);
        if let Some(c) = lookup(s, a[0]) {
            lemma_get_concat(c, a.drop_first(), b);
        }
    }
}

/// A path that is missing stays missing below it.
proof fn lemma_get_prefix_none(s: Json, a: Seq<Seq<char>>, b: Seq<Seq<char>>)
    requires
        is_prefix(a, b),
        get_keys(s, a) is None,
    ensures
        get_keys(s, b) is None,
{
    assert(b =~= a + b.skip(a.len() as int));
    lemma_get_concat(s, a, b.skip(a.len() as int));
}

// ===========================================================================
// Target paths and trie paths made of keys
// ===========================================================================

/// The keys of steps that are all keys.
pub open spec fn seg_keys(segs: Seq<Seg>) -> Seq<Seq<char>> {
    Seq::new(
        segs.len(),
        |i: int|
            match segs[i] {
                Seg::Key(k) => k,
                _ => Seq::empty(),
            },
    )
}

/// Every step is a key.
pub open spec fn all_keys(segs: Seq<Seg>) -> bool {
    forall|i: int| 0 <= i < segs.len() ==> #[trigger] segs[i] is Key
}

/// A target path made of one key or more.
pub open spec fn key_target(t: Seq<char>, sep: char) -> bool {
    spec_target_segments(t, sep).len() > 0 && all_keys(spec_target_segments(t, sep))
}

/// The keys of a target path.
pub open spec fn target_keys(t: Seq<char>, sep: char) -> Seq<Seq<char>> {
    seg_keys(spec_target_segments(t, sep))
}

/// The keys of a trie path.
pub open spec fn path_keys(p: Seq<(Seq<char>, Binding)>) -> Seq<Seq<char>> {
    Seq::new(p.len(), |i: int| p[i].0)
}

/// Every step of a trie path is `Direct`.
pub open spec fn all_direct(p: Seq<(Seq<char>, Binding)>) -> bool {
    forall|i: int| 0 <= i < p.len() ==> #[trigger] p[i].1 == Binding::Direct
}

proof fn lemma_put_at_keys(d: Json, segs: Seq<Seg>, k: int, v: Json, idx: Seq<usize>, pos: int)
    requires
        all_keys(segs),
        0 <= k <= segs.len(),
    ensures
        put_at(d, segs, k, v, idx, pos) == Some(put_keys(d, seg_keys(segs).skip(k), v)),
    decreases segs.len() - k,
{
    let ks = seg_keys(segs).skip(k);
    if k < segs.len() {
        assert(segs[k] is Key);
        assert(ks[0] == seg_keys(segs)[k]);
        assert(ks.drop_first() =~= seg_keys(segs).skip(k + 1));
        let obj = entries_or_empty(d);
        let i = entry_index(obj, ks[0]);
        let cur = if i >= 0 {
            obj[i].1
        } else {
            Json::Null
        };
        lemma_put_at_keys(cur, segs, k + 1, v, idx, pos);
    } else {
        assert(ks =~= Seq::<Seq<char>>::empty());
    }
}

proof fn lemma_put_trie_keys(
    d: Json,
    segs: Seq<(Seq<char>, Binding)>,
    k: int,
    v: Json,
    idx: Seq<usize>,
    pos: int,
)
    requires
        all_direct(segs),
        0 <= k <= segs.len(),
    ensures
        put_trie(d, segs, k, v, idx, pos) == Some(put_keys(d, path_keys(segs).skip(k), v)),
    decreases segs.len() - k,
{
    let ks = path_keys(segs).skip(k);
    if k < segs.len() {
        assert(segs[k].1 == Binding::Direct);
        assert(ks[0] == segs[k].0);
        assert(ks.drop_first() =~= path_keys(segs).skip(k + 1));
        let obj = entries_or_empty(d);
        let i = entry_index(obj, ks[0]);
        let cur = if i >= 0 {
            obj[i].1
        } else {
            Json::Null
        };
        lemma_put_trie_keys(cur, segs, k + 1, v, idx, pos);
    } else {
        assert(ks =~= Seq::<Seq<char>>::empty());
    }
}

proof fn lemma_extract_keys(d: Json, segs: Seq<Seg>, k: int, idx: Seq<usize>)
    requires
        all_keys(segs),
        0 <= k <= segs.len(),
    ensures
        extract(d, segs, k, idx) == match get_keys(d, seg_keys(segs).skip(k)) {
            Some(x) => seq![(x, idx)],
            None => Seq::<(Json, Seq<usize>)>::empty(),
        },
    decreases segs.len() - k,
{
    let ks = seg_keys(segs).skip(k);
    if k < segs.len() {
        assert(segs[k] is Key);
        assert(ks[0] == seg_keys(segs)[k]);
        assert(ks.drop_first() =~= seg_keys(segs).skip(k + 1));
        if let Some(c) = lookup(d, ks[0]) {
            lemma_extract_keys(c, segs, k + 1, idx);
        }
    } else {
        assert(ks =~= Seq::<Seq<char>>::empty());
    }
}

// ===========================================================================
// The two walks as folds over the leaves
// ===========================================================================

/// The keys of a leaf's trie path.
pub open spec fn leaf_keys(l: Leaf) -> Seq<Seq<char>> {
    path_keys(l.segs)
}

/// One leaf on the way out: the value `src` holds at the leaf's path, if
/// any, written at its target.
pub open spec fn out_step(d: Json, l: Leaf, src: Json, sep: char) -> Json {
    match get_keys(src, leaf_keys(l)) {
        Some(v) => put_keys(d, target_keys(l.target, sep), v),
        None => d,
    }
}

/// The leaves on the way out, in order.
pub open spec fn out_fold(d: Json, ls: Seq<Leaf>, src: Json, sep: char) -> Json
    decreases ls.len(),
{
    if ls.len() == 0 {
        d
    } else {
        out_step(out_fold(d, ls.drop_last(), src, sep), ls.last(), src, sep)
    }
}

/// The leaves `ls[i..]` on the way back: the value `out` holds at each
/// leaf's target, if any, written along its trie path.
pub open spec fn back_fold(d: Json, ls: Seq<Leaf>, i: int, out: Json, sep: char) -> Json
    decreases ls.len() - i,
{
    if i < 0 || i >= ls.len() {
        d
    } else {
        let d2 = match get_keys(out, target_keys(ls[i].target, sep)) {
            Some(x) => put_keys(d, leaf_keys(ls[i]), x),
            None => d,
        };
        back_fold(d2, ls, i + 1, out, sep)
    }
}

proof fn lemma_out_fold_append(d: Json, a: Seq<Leaf>, b: Seq<Leaf>, src: Json, sep: char)
    ensures
        out_fold(d, a + b, src, sep) == out_fold(out_fold(d, a, src, sep), b, src, sep),
    decreases b.len(),
{
    if b.len() == 0 {
        assert(a + b =~= a);
    } else {
        assert((a + b).drop_last() =~= a + b.drop_last());
        assert((a + b).last() == b.last());
        lemma_out_fold_append(d, a, b.drop_last(), src, sep);
    }
}

/// Every leaf of `ls` has a key target and a `Direct` trie path.
pub open spec fn leaves_fit(ls: Seq<Leaf>, sep: char) -> bool {
    forall|j: int|
        0 <= j < ls.len() ==> key_target((#[trigger] ls[j]).target, sep) && all_direct(ls[j].segs)
}

/// The reverse walk over fitting leaves is the fold back.
proof fn lemma_rev_leaves_fold(d: Json, ls: Seq<Leaf>, i: int, out: Json, sep: char)
    requires
        leaves_fit(ls, sep),
        0 <= i <= ls.len(),
    ensures
        rev_leaves(d, ls, i, out, sep) == Some(back_fold(d, ls, i, out, sep)),
    decreases ls.len() - i,
{
    if i < ls.len() {
        let l = ls[i];
        let segs = spec_target_segments(l.target, sep);
        assert(key_target(l.target, sep) && all_direct(l.segs));
        lemma_extract_keys(out, segs, 0, Seq::empty());
        assert(seg_keys(segs).skip(0) =~= seg_keys(segs));
        assert(path_keys(l.segs).skip(0) =~= path_keys(l.segs));
        let found = extract(out, segs, 0, Seq::empty());
        let d2 = match get_keys(out, target_keys(l.target, sep)) {
            Some(x) => put_keys(d, leaf_keys(l), x),
            None => d,
        };
        if let Some(x) = get_keys(out, target_keys(l.target, sep)) {
            lemma_put_trie_keys(d, l.segs, 0, x, Seq::empty(), 0);
            assert(found[0] == (x, Seq::<usize>::empty()));
            assert(put_results(d2, l, found, 1) == Some(d2));
        }
        assert(put_results(d, l, found, 0) == Some(d2));
        lemma_rev_leaves_fold(d2, ls, i + 1, out, sep);
    }
}

// ===========================================================================
// The forward walk of a direct trie is the fold out
// ===========================================================================

/// Every node below the root is reached by a `Direct` step.
pub open spec fn direct_trie(t: Trie) -> bool
    decreases t, t.children.len() + 1,
{
    direct_below(t, 0)
}

/// The children `t.children[i..]` are `Direct` and their tries are too.
pub open spec fn direct_below(t: Trie, i: int) -> bool
    decreases t, nonneg(t.children.len() - i),
{
    if i < 0 || i >= t.children.len() {
        true
    } else {
        proof {
            assert(decreases_to!(t => t.children));
            assert(decreases_to!(t.children => t.children[i]));
        }
        t.children[i].binding == Binding::Direct && direct_trie(t.children[i]) && direct_below(
            t,
            i + 1,
        )
    }
}

/// Every leaf's trie path is `Direct` and extends the keys of `path`.
pub open spec fn leaves_under(ls: Seq<Leaf>, path: Seq<(Seq<char>, Binding)>) -> bool {
    forall|j: int|
        0 <= j < ls.len() ==> all_direct((#[trigger] ls[j]).segs) && is_prefix(
            path_keys(path),
            leaf_keys(ls[j]),
        )
}

proof fn lemma_path_keys_push(path: Seq<(Seq<char>, Binding)>, x: (Seq<char>, Binding))
    ensures
        path_keys(path.push(x)) == path_keys(path).push(x.0),
{
    assert(path_keys(path.push(x)) =~= path_keys(path).push(x.0));
}

proof fn lemma_leaves_unfold(n: Trie, path: Seq<(Seq<char>, Binding)>)
    ensures
        leaves_of(n, path) == own_leaves(n, path) + leaves_below(n, path, 0),
{
    assert(leaves_of(n, path) =~= own_leaves(n, path) + leaves_below(n, path, 0));
}

proof fn lemma_leaves_of_under(node: Trie, path: Seq<(Seq<char>, Binding)>)
    requires
        direct_trie(node),
        all_direct(path),
    ensures
        leaves_under(leaves_of(node, path), path),
    decreases node, node.children.len() + 1,
{
    lemma_leaves_unfold(node, path);
    lemma_below_under(node, path, 0);
    let own = own_leaves(node, path);
    let below = leaves_below(node, path, 0);
    let ls = leaves_of(node, path);
    assert forall|j: int| 0 <= j < ls.len() implies all_direct((#[trigger] ls[j]).segs) && is_prefix(
        path_keys(path),
        leaf_keys(ls[j]),
    ) by {
        if j < own.len() {
            assert(ls[j] == own[j]);
            assert(path_keys(path).take(path_keys(path).len() as int) =~= path_keys(path));
        } else {
            assert(ls[j] == below[j - own.len()]);
        }
    }
}

proof fn lemma_below_under(node: Trie, path: Seq<(Seq<char>, Binding)>, i: int)
    requires
        direct_below(node, i),
        all_direct(path),
        0 <= i,
    ensures
        leaves_under(leaves_below(node, path, i), path),
    decreases node, nonneg(node.children.len() - i),
{
    if i < node.children.len() {
        let c = node.children[i];
        assert(decreases_to!(node => node.children));
        assert(decreases_to!(node.children => node.children[i]));
        let cp = child_path(path, c);
        assert(all_direct(cp)) by {
            assert forall|k: int| 0 <= k < cp.len() implies #[trigger] cp[k].1 == Binding::Direct by {
                if k < path.len() {
                    assert(cp[k] == path[k]);
                }
            }
        }
        lemma_leaves_of_under(c, cp);
        lemma_below_under(node, path, i + 1);
        lemma_path_keys_push(path, (c.key, c.binding));
        let a = leaves_of(c, cp);
        let b = leaves_below(node, path, i + 1);
        let ls = leaves_below(node, path, i);
        assert(ls == a + b);
        let pk = path_keys(path);
        assert forall|j: int| 0 <= j < ls.len() implies all_direct((#[trigger] ls[j]).segs)
            && is_prefix(pk, leaf_keys(ls[j])) by {
            if j < a.len() {
                assert(ls[j] == a[j]);
                let lk = leaf_keys(a[j]);
                assert(is_prefix(pk.push(c.key), lk));
                assert(lk.take(pk.len() as int) =~= lk.take(pk.len() + 1int).take(pk.len() as int));
                assert(pk.push(c.key).take(pk.len() as int) =~= pk);
            } else {
                assert(ls[j] == b[j - a.len()]);
            }
        }
    }
}

/// The fold out over leaves the source does not hold changes nothing.
proof fn lemma_out_fold_absent(d: Json, ls: Seq<Leaf>, src: Json, sep: char)
    requires
        forall|j: int| 0 <= j < ls.len() ==> get_keys(src, leaf_keys(#[trigger] ls[j])) is None,
    ensures
        out_fold(d, ls, src, sep) == d,
    decreases ls.len(),
{
    if ls.len() > 0 {
        assert(get_keys(src, leaf_keys(ls[ls.len() - 1])) is None);
        lemma_out_fold_absent(d, ls.drop_last(), src, sep);
    }
}

proof fn lemma_out_fold_one(d: Json, l: Leaf, src: Json, sep: char)
    ensures
        out_fold(d, seq![l], src, sep) == out_step(d, l, src, sep),
{
    assert(seq![l].drop_last() =~= Seq::<Leaf>::empty());
    assert(seq![l].last() == l);
    assert(out_fold(d, Seq::<Leaf>::empty(), src, sep) == d);
}

proof fn lemma_get_one(w: Json, k: Seq<char>)
    ensures
        get_keys(w, seq![k]) == lookup(w, k),
{
    assert(seq![k][0] == k);
    assert(seq![k].drop_first() =~= Seq::<Seq<char>>::empty());
    if let Some(c) = lookup(w, k) {
        assert(get_keys(c, Seq::<Seq<char>>::empty()) == Some(c));
    }
}

/// Writing a node's value at its targets is the fold out over its own leaves.
proof fn lemma_put_targets_fold(
    d: Json,
    c: Trie,
    cp: Seq<(Seq<char>, Binding)>,
    i: int,
    v: Json,
    src: Json,
    sep: char,
)
    requires
        get_keys(src, path_keys(cp)) == Some(v),
        forall|j: int| 0 <= j < c.targets.len() ==> key_target(#[trigger] c.targets[j], sep),
        0 <= i <= c.targets.len(),
    ensures
        put_targets(d, c.targets, i, v, Seq::empty(), sep) == Some(
            out_fold(d, own_leaves(c, cp).skip(i), src, sep),
        ),
    decreases c.targets.len() - i,
{
    let own = own_leaves(c, cp);
    if i < c.targets.len() {
        let t = c.targets[i];
        let segs = spec_target_segments(t, sep);
        assert(key_target(t, sep));
        lemma_put_at_keys(d, segs, 0, v, Seq::empty(), 0);
        assert(seg_keys(segs).skip(0) =~= seg_keys(segs));
        let d1 = put_keys(d, target_keys(t, sep), v);
        assert(put_path(d, t, v, Seq::empty(), sep) == Some(d1));
        lemma_put_targets_fold(d1, c, cp, i + 1, v, src, sep);
        assert(own.skip(i) =~= seq![own[i]] + own.skip(i + 1));
        lemma_out_fold_append(d, seq![own[i]], own.skip(i + 1), src, sep);
        lemma_out_fold_one(d, own[i], src, sep);
        assert(out_step(d, own[i], src, sep) == d1);
    } else {
        assert(own.skip(i) =~= Seq::<Leaf>::empty());
    }
}

proof fn lemma_fwd_child(c: Trie, path: Seq<(Seq<char>, Binding)>, w: Json, d: Json, src: Json, sep: char)
    requires
        c.binding == Binding::Direct,
        direct_trie(c),
        all_direct(path),
        get_keys(src, path_keys(path)) == Some(w),
        leaves_fit(leaves_of(c, child_path(path, c)), sep),
    ensures
        fwd_child(c, w, d, Seq::empty(), sep) == Some(
            out_fold(d, leaves_of(c, child_path(path, c)), src, sep),
        ),
    decreases c, c.children.len() + 2, 0int,
{
    let cp = child_path(path, c);
    let pk = path_keys(path);
    lemma_path_keys_push(path, (c.key, c.binding));
    assert(path_keys(cp) =~= pk + seq![c.key]);
    lemma_get_concat(src, pk, seq![c.key]);
    lemma_get_one(w, c.key);
    assert(get_keys(src, path_keys(cp)) == lookup(w, c.key));
    assert(all_direct(cp)) by {
        assert forall|k: int| 0 <= k < cp.len() implies #[trigger] cp[k].1 == Binding::Direct by {
            if k < path.len() {
                assert(cp[k] == path[k]);
            }
        }
    }
    let ls = leaves_of(c, cp);
    lemma_leaves_unfold(c, cp);
    let own = own_leaves(c, cp);
    let below = leaves_below(c, cp, 0);
    match lookup(w, c.key) {
        None => {
            lemma_leaves_of_under(c, cp);
            assert forall|j: int| 0 <= j < ls.len() implies get_keys(
                src,
                leaf_keys(#[trigger] ls[j]),
            ) is None by {
                lemma_get_prefix_none(src, path_keys(cp), leaf_keys(ls[j]));
            }
            lemma_out_fold_absent(d, ls, src, sep);
        },
        Some(v) => {
            assert forall|j: int| 0 <= j < c.targets.len() implies key_target(
                #[trigger] c.targets[j],
                sep,
            ) by {
                assert(ls[j] == own[j]);
            }
            lemma_put_targets_fold(d, c, cp, 0, v, src, sep);
            assert(own.skip(0) =~= own);
            let d1 = out_fold(d, own, src, sep);
            lemma_out_fold_append(d, own, below, src, sep);
            if c.children.len() > 0 {
                assert(leaves_fit(below, sep)) by {
                    assert forall|j: int| 0 <= j < below.len() implies key_target(
                        (#[trigger] below[j]).target,
                        sep,
                    ) && all_direct(below[j].segs) by {
                        assert(ls[own.len() + j] == below[j]);
                    }
                }
                lemma_fwd_children(c, cp, 0, v, d1, src, sep);
            } else {
                assert(below =~= Seq::<Leaf>::empty());
            }
        },
    }
}

proof fn lemma_fwd_children(
    node: Trie,
    path: Seq<(Seq<char>, Binding)>,
    i: int,
    w: Json,
    d: Json,
    src: Json,
    sep: char,
)
    requires
        direct_below(node, i),
        0 <= i,
        all_direct(path),
        get_keys(src, path_keys(path)) == Some(w),
        leaves_fit(leaves_below(node, path, i), sep),
    ensures
        fwd_children(node, i, w, d, Seq::empty(), sep) == Some(
            out_fold(d, leaves_below(node, path, i), src, sep),
        ),
    decreases node, nonneg(node.children.len() - i), 0int,
{
    if i < node.children.len() {
        let c = node.children[i];
        assert(decreases_to!(node => node.children));
        assert(decreases_to!(node.children => node.children[i]));
        let a = leaves_of(c, child_path(path, c));
        let b = leaves_below(node, path, i + 1);
        let ls = leaves_below(node, path, i);
        assert(ls == a + b);
        assert(leaves_fit(a, sep)) by {
            assert forall|j: int| 0 <= j < a.len() implies key_target((#[trigger] a[j]).target, sep)
                && all_direct(a[j].segs) by {
                assert(ls[j] == a[j]);
            }
        }
        assert(leaves_fit(b, sep)) by {
            assert forall|j: int| 0 <= j < b.len() implies key_target((#[trigger] b[j]).target, sep)
                && all_direct(b[j].segs) by {
                assert(ls[a.len() + j] == b[j]);
            }
        }
        lemma_fwd_child(c, path, w, d, src, sep);
        let d1 = out_fold(d, a, src, sep);
        lemma_fwd_children(node, path, i + 1, w, d1, src, sep);
        lemma_out_fold_append(d, a, b, src, sep);
    } else {
        assert(leaves_below(node, path, i) =~= Seq::<Leaf>::empty());
    }
}

// ===========================================================================
// What each fold leaves at the paths of the leaves
// ===========================================================================

/// The targets of the leaves part ways pairwise.
pub open spec fn targets_apart(ls: Seq<Leaf>, sep: char) -> bool {
    forall|i: int, j: int|
        0 <= i < ls.len() && 0 <= j < ls.len() && i != j ==> diverge(
            target_keys((#[trigger] ls[i]).target, sep),
            target_keys((#[trigger] ls[j]).target, sep),
        )
}

pub proof fn lemma_get_empty_object(p: Seq<Seq<char>>)
    requires
        p.len() > 0,
    ensures
        get_keys(Json::Object(Seq::empty()), p) is None,
{
    assert(entry_index(Seq::<(Seq<char>, Json)>::empty(), p[0]) == -1);
}

/// After the fold out over the first `n` leaves, each of those leaves'
/// targets holds what the source holds at its path, and the other targets
/// hold nothing.
proof fn lemma_out_fold_reads(ls: Seq<Leaf>, n: int, src: Json, sep: char)
    requires
        leaves_fit(ls, sep),
        targets_apart(ls, sep),
        0 <= n <= ls.len(),
    ensures
        forall|j: int|
            0 <= j < ls.len() ==> get_keys(
                out_fold(Json::Object(Seq::empty()), ls.take(n), src, sep),
                target_keys((#[trigger] ls[j]).target, sep),
            ) == if j < n {
                get_keys(src, leaf_keys(ls[j]))
            } else {
                None
            },
    decreases n,
{
    let e = Json::Object(Seq::<(Seq<char>, Json)>::empty());
    if n == 0 {
        assert(ls.take(0) =~= Seq::<Leaf>::empty());
        assert forall|j: int| 0 <= j < ls.len() implies get_keys(
            out_fold(e, ls.take(n), src, sep),
            target_keys((#[trigger] ls[j]).target, sep),
        ) is None by {
            assert(key_target(ls[j].target, sep));
            lemma_get_empty_object(target_keys(ls[j].target, sep));
        }
    } else {
        lemma_out_fold_reads(ls, n - 1, src, sep);
        assert(ls.take(n).drop_last() =~= ls.take(n - 1));
        assert(ls.take(n).last() == ls[n - 1]);
        let prev = out_fold(e, ls.take(n - 1), src, sep);
        let l = ls[n - 1];
        let tk = target_keys(l.target, sep);
        assert forall|j: int| 0 <= j < ls.len() implies get_keys(
            out_fold(e, ls.take(n), src, sep),
            target_keys((#[trigger] ls[j]).target, sep),
        ) == if j < n {
            get_keys(src, leaf_keys(ls[j]))
        } else {
            None
        } by {
            if let Some(v) = get_keys(src, leaf_keys(l)) {
                if j == n - 1 {
                    lemma_get_put_same(prev, tk, v);
                } else {
                    assert(diverge(tk, target_keys(ls[j].target, sep)));
                    lemma_get_put_other(prev, tk, target_keys(ls[j].target, sep), v);
                }
            }
        }
    }
}

/// After the fold back over `ls[i..]`, from a document that already holds
/// what the source holds at the paths of `ls[..i]`, every leaf path the
/// source holds is held with the same value.
proof fn lemma_back_fold_reads(d: Json, ls: Seq<Leaf>, i: int, out: Json, src: Json, sep: char)
    requires
        0 <= i <= ls.len(),
        forall|j: int|
            0 <= j < ls.len() ==> get_keys(out, target_keys((#[trigger] ls[j]).target, sep))
                == get_keys(src, leaf_keys(ls[j])),
        forall|j: int|
            0 <= j < i && (get_keys(src, leaf_keys(#[trigger] ls[j])) is Some) ==> get_keys(
                d,
                leaf_keys(ls[j]),
            ) == get_keys(src, leaf_keys(ls[j])),
    ensures
        forall|j: int|
            0 <= j < ls.len() && (get_keys(src, leaf_keys(#[trigger] ls[j])) is Some) ==> get_keys(
                back_fold(d, ls, i, out, sep),
                leaf_keys(ls[j]),
            ) == get_keys(src, leaf_keys(ls[j])),
    decreases ls.len() - i,
{
    if i < ls.len() {
        let l = ls[i];
        let lk = leaf_keys(l);
        assert(get_keys(out, target_keys(l.target, sep)) == get_keys(src, lk));
        let d2 = match get_keys(out, target_keys(l.target, sep)) {
            Some(x) => put_keys(d, lk, x),
            None => d,
        };
        assert forall|j: int|
            0 <= j < i + 1 && (get_keys(src, leaf_keys(#[trigger] ls[j])) is Some) implies get_keys(
            d2,
            leaf_keys(ls[j]),
        ) == get_keys(src, leaf_keys(ls[j])) by {
            if let Some(v) = get_keys(src, lk) {
                if j == i {
                    lemma_get_put_same(d, lk, v);
                } else {
                    lemma_put_agrees(d, src, lk, leaf_keys(ls[j]), v);
                }
            }
        }
        lemma_back_fold_reads(d2, ls, i + 1, out, src, sep);
    }
}

// ===========================================================================
// The round trip
// ===========================================================================

/// A trie of direct mappings: no targets at the root, every step `Direct`,
/// every target a path of one key or more, and the targets pairwise part
/// ways (none equals or lies inside another).
pub open spec fn direct_mapping(root: Trie, sep: char) -> bool {
    &&& root.targets.len() == 0
    &&& direct_trie(root)
    &&& forall|j: int|
        0 <= j < leaves_of(root, Seq::empty()).len() ==> key_target(
            (#[trigger] leaves_of(root, Seq::empty())[j]).target,
            sep,
        )
    &&& targets_apart(leaves_of(root, Seq::empty()), sep)
}

/// The walk out from `src` and then the walk back give back, at every
/// leaf path that `src` holds, what `src` held there.
proof fn lemma_direct_roundtrip(root: Trie, src: Json, sep: char)
    requires
        direct_mapping(root, sep),
    ensures
        forward_doc(root, Seq::empty(), src, sep) matches Some(out) && (reverse_doc(root, out, sep)
            matches Some(back) && forall|j: int|
            0 <= j < leaves_of(root, Seq::empty()).len() && (get_keys(
                src,
                leaf_keys(#[trigger] leaves_of(root, Seq::empty())[j]),
            ) is Some) ==> get_keys(back, leaf_keys(leaves_of(root, Seq::empty())[j])) == get_keys(
                src,
                leaf_keys(leaves_of(root, Seq::empty())[j]),
            )),
{
    let path = Seq::<(Seq<char>, Binding)>::empty();
    let e = Json::Object(Seq::<(Seq<char>, Json)>::empty());
    let ls = leaves_of(root, path);
    lemma_leaves_unfold(root, path);
    assert(own_leaves(root, path) =~= Seq::<Leaf>::empty());
    assert(ls =~= leaves_below(root, path, 0));
    lemma_leaves_of_under(root, path);
    assert(leaves_fit(ls, sep));
    assert(path_keys(path) =~= Seq::<Seq<char>>::empty());
    assert(put_targets(e, root.targets, 0, src, Seq::empty(), sep) == Some(e));
    lemma_fwd_children(root, path, 0, src, e, src, sep);
    let out = out_fold(e, ls, src, sep);
    assert(put_constants(out, Seq::empty(), 0, sep) == Some(out));
    assert(forward_doc(root, Seq::empty(), src, sep) == Some(out));
    lemma_out_fold_reads(ls, ls.len() as int, src, sep);
    assert(ls.take(ls.len() as int) =~= ls);
    lemma_rev_leaves_fold(e, ls, 0, out, sep);
    lemma_back_fold_reads(e, ls, 0, out, src, sep);
}

/// Stitching and unstitching direct mappings undo each other.
///
/// For a suture whose mappings are direct key paths of any depth, each
/// written to a target path of keys, with no constants and with targets
/// that pairwise part ways: stitching a document and unstitching the result
/// (for a response suture: unstitching, then stitching) succeed, and every
/// mapped path that the document holds reads back what it held.
pub proof fn lemma_direct_mapping_roundtrip(s: SutureModel, src: Json)
    requires
        s.constants.len() == 0,
        match s.binding {
            Capture::Request(root) => direct_mapping(root, '/'),
            Capture::Response(root) => direct_mapping(root, '.'),
        },
    ensures
        match s.binding {
            Capture::Request(root) => spec_stitch(s, src) matches Some(out) && (spec_unstitch(s, out)
                matches Some(back) && forall|j: int|
                0 <= j < leaves_of(root, Seq::empty()).len() && (get_keys(
                    src,
                    leaf_keys(#[trigger] leaves_of(root, Seq::empty())[j]),
                ) is Some) ==> get_keys(back, leaf_keys(leaves_of(root, Seq::empty())[j]))
                    == get_keys(src, leaf_keys(leaves_of(root, Seq::empty())[j]))),
            Capture::Response(root) => spec_unstitch(s, src) matches Some(out) && (spec_stitch(s, out)
                matches Some(back) && forall|j: int|
                0 <= j < leaves_of(root, Seq::empty()).len() && (get_keys(
                    src,
                    leaf_keys(#[trigger] leaves_of(root, Seq::empty())[j]),
                ) is Some) ==> get_keys(back, leaf_keys(leaves_of(root, Seq::empty())[j]))
                    == get_keys(src, leaf_keys(leaves_of(root, Seq::empty())[j]))),
        },
{
    assert(s.constants =~= Seq::empty());
    match s.binding {
        Capture::Request(root) => lemma_direct_roundtrip(root, src, '/'),
        Capture::Response(root) => lemma_direct_roundtrip(root, src, '.'),
    }
}

} // verus!
