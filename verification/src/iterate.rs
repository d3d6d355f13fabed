//! Stitching and unstitching undo each other on mappings through keys and
//! full `[:]` iterations.
use vstd::prelude::*;
use crate::json::{
    element, entries_or_empty, entry_index, items_or_empty, lemma_entry_index, lookup, padded,
    with_entry, Json,
};
use crate::roundtrip::{lemma_lookup_entries, lemma_lookup_with_entry};
use crate::laws::{child_path, own_leaves};
use crate::stitch::{
    extract, extract_sel, forward_doc, fwd_child, fwd_children, fwd_iter, leaves_below, leaves_of,
    nonneg, put_at, put_constants, put_path, put_results, put_targets, put_trie, rev_leaves, reverse_doc,
    spec_slice_indices, spec_stitch, spec_target_segments, spec_unstitch, step_range, Leaf, Seg,
};
use crate::suture::{Capture, SutureModel, Trie};
use crate::suture::Binding;

verus! {

// ===========================================================================
// Concrete paths: keys and array positions
// ===========================================================================

/// One step of a concrete path: a key of an object or a position of an array.
pub enum Step {
    K(Seq<char>),
    N(int),
}

/// The value reached from `d` along `p`, if every step is there.
pub open spec fn get_at(d: Json, p: Seq<Step>) -> Option<Json>
    decreases p.len(),
{
    if p.len() == 0 {
        Some(d)
    } else {
        let next = match p[0] {
            Step::K(k) => lookup(d, k),
            Step::N(n) => element(d, n),
        };
        match next {
            Some(c) => get_at(c, p.drop_first()),
            None => None,
        }
    }
}

/// `d` with `v` written along `p`: keys create objects and entries, and
/// positions create arrays padded with nulls, as the walks do.
pub open spec fn set_at(d: Json, p: Seq<Step>, v: Json) -> Json
    decreases p.len(),
{
    if p.len() == 0 {
        v
    } else {
        match p[0] {
            Step::K(k) => {
                let obj = entries_or_empty(d);
                let i = entry_index(obj, k);
                let cur = if i >= 0 {
                    obj[i].1
                } else {
                    Json::Null
                };
                Json::Object(with_entry(obj, k, set_at(cur, p.drop_first(), v)))
            },
            Step::N(n) => {
                let items = padded(items_or_empty(d), n + 1);
                Json::Array(items.update(n, set_at(items[n], p.drop_first(), v)))
            },
        }
    }
}

/// Every position of the path is non-negative.
pub open spec fn positions_ok(p: Seq<Step>) -> bool {
    forall|i: int| 0 <= i < p.len() ==> (#[trigger] p[i] matches Step::N(n) ==> n >= 0)
}

/// Two concrete paths part ways: at the first step where they differ both
/// are keys, or both are positions.
pub open spec fn apart(p: Seq<Step>, q: Seq<Step>) -> bool
    decreases p.len(),
{
    p.len() > 0 && q.len() > 0 && if p[0] == q[0] {
        apart(p.drop_first(), q.drop_first())
    } else {
        (p[0] is K && q[0] is K) || (p[0] is N && q[0] is N)
    }
}

/// One path is a prefix of the other.
pub open spec fn prefix_of(a: Seq<Step>, b: Seq<Step>) -> bool {
    a.len() <= b.len() && b.take(a.len() as int) =~= a
}

proof fn lemma_padded_index(items: Seq<Json>, n: int, j: int)
    requires
        0 <= j < items.len(),
        n >= 0,
    ensures
        padded(items, n + 1)[j] == items[j],
        padded(items, n + 1).len() >= items.len(),
        padded(items, n + 1).len() > n,
{
}

/// A value written along a path is read back along it.
pub proof fn lemma_get_set_same(d: Json, p: Seq<Step>, v: Json)
    requires
        positions_ok(p),
    ensures
        get_at(set_at(d, p, v), p) == Some(v),
    decreases p.len(),
{
    if p.len() > 0 {
        assert(positions_ok(p.drop_first())) by {
            assert forall|i: int| 0 <= i < p.drop_first().len() implies (
            #[trigger] p.drop_first()[i] matches Step::N(n) ==> n >= 0) by {
                assert(p.drop_first()[i] == p[i + 1]);
            }
        }
        match p[0] {
            Step::K(k) => {
                let obj = entries_or_empty(d);
                let i = entry_index(obj, k);
                let cur = if i >= 0 {
                    obj[i].1
                } else {
                    Json::Null
                };
                lemma_lookup_with_entry(obj, k, set_at(cur, p.drop_first(), v), k);
                lemma_get_set_same(cur, p.drop_first(), v);
            },
            Step::N(n) => {
                assert(p[0] matches Step::N(m) ==> m >= 0);
                let items = padded(items_or_empty(d), n + 1);
                lemma_get_set_same(items[n], p.drop_first(), v);
            },
        }
    }
}

/// Writing along a path leaves as it was every path that parts ways with it
/// and that the document holds.
pub proof fn lemma_get_set_other(d: Json, p: Seq<Step>, q: Seq<Step>, v: Json)
    requires
        apart(p, q),
        positions_ok(p),
        get_at(d, q) is Some,
    ensures
        get_at(set_at(d, p, v), q) == get_at(d, q),
    decreases p.len(),
{
    assert(positions_ok(p.drop_first())) by {
        assert forall|i: int| 0 <= i < p.drop_first().len() implies (
        #[trigger] p.drop_first()[i] matches Step::N(n) ==> n >= 0) by {
            assert(p.drop_first()[i] == p[i + 1]);
        }
    }
    assert(p[0] matches Step::N(m) ==> m >= 0);
    match p[0] {
        Step::K(k) => {
            let obj = entries_or_empty(d);
            let i = entry_index(obj, k);
            lemma_entry_index(obj, k);
            let cur = if i >= 0 {
                obj[i].1
            } else {
                Json::Null
            };
            let inner = set_at(cur, p.drop_first(), v);
            if let Step::K(k2) = q[0] {
                lemma_lookup_with_entry(obj, k, inner, k2);
                lemma_lookup_entries(d, k2);
                if k2 == k {
                    lemma_lookup_entries(d, k);
                    lemma_get_set_other(cur, p.drop_first(), q.drop_first(), v);
                }
            }
        },
        Step::N(n) => {
            let items = padded(items_or_empty(d), n + 1);
            if let Step::N(m) = q[0] {
                let its = items_or_empty(d);
                assert(d is Array);
                assert(0 <= m < its.len());
                lemma_padded_index(its, n, m);
                if m == n {
                    lemma_get_set_other(items[n], p.drop_first(), q.drop_first(), v);
                }
            }
        },
    }
}

/// Reading along `a + b` reads along `a`, then along `b`.
pub proof fn lemma_get_at_concat(s: Json, a: Seq<Step>, b: Seq<Step>)
    ensures
        get_at(s, a + b) == match get_at(s, a) {
            Some(x) => get_at(x, b),
            None => None,
        },
    decreases a.len(),
{
    if a.len() == 0 {
        assert(a + b =~= b);
    } else {
        assert((a + b)[0] == a[0]);
        assert((a + b).drop_first() =~= a.drop_first() + b);
        let next = match a[0] {
            Step::K(k) => lookup(s, k),
            Step::N(n) => element(s, n),
        };
        if let Some(c) = next {
            lemma_get_at_concat(c, a.drop_first(), b);
        }
    }
}

/// Writing along a path the value already there changes nothing.
proof fn lemma_set_same_value(w: Json, r: Seq<Step>, x: Json)
    requires
        get_at(w, r) == Some(x),
    ensures
        set_at(w, r, x) == w,
    decreases r.len(),
{
    if r.len() > 0 {
        match r[0] {
            Step::K(k) => {
                let obj = entries_or_empty(w);
                lemma_entry_index(obj, k);
                let i = entry_index(obj, k);
                assert(w is Object);
                assert(i >= 0);
                let cur = obj[i].1;
                lemma_set_same_value(cur, r.drop_first(), x);
                assert(with_entry(obj, k, cur) =~= obj);
            },
            Step::N(n) => {
                let its = items_or_empty(w);
                assert(w is Array);
                assert(0 <= n < its.len());
                assert(padded(its, n + 1) == its);
                let cur = its[n];
                lemma_set_same_value(cur, r.drop_first(), x);
                assert(its.update(n, cur) =~= its);
            },
        }
    }
}

/// Writing the value `v` that `s` holds at `p` keeps agreement with `s` at
/// any path `q` that `s` holds: when `q` extends `p`, or when the document
/// already agreed at `q`.
pub proof fn lemma_set_agrees(b: Json, s: Json, p: Seq<Step>, q: Seq<Step>, v: Json)
    requires
        get_at(s, p) == Some(v),
        get_at(s, q) is Some,
        prefix_of(p, q) || get_at(b, q) == get_at(s, q),
    ensures
        get_at(set_at(b, p, v), q) == get_at(s, q),
    decreases p.len(),
{
    if p.len() == 0 {
        assert(q.take(0) =~= Seq::<Step>::empty());
    } else if q.len() == 0 {
        assert(b == s);
        lemma_set_same_value(s, p, v);
    } else {
        let sn = match p[0] {
            Step::K(k) => lookup(s, k),
            Step::N(n) => element(s, n),
        };
        let s1 = sn->0;
        let pre = prefix_of(p, q);
        if pre {
            assert(q.take(p.len() as int)[0] == q[0]);
            assert(q.drop_first().take(p.drop_first().len() as int) =~= q.take(
                p.len() as int,
            ).drop_first());
        }
        match p[0] {
            Step::K(k) => {
                let obj = entries_or_empty(b);
                let i = entry_index(obj, k);
                lemma_entry_index(obj, k);
                let cur = if i >= 0 {
                    obj[i].1
                } else {
                    Json::Null
                };
                let inner = set_at(cur, p.drop_first(), v);
                lemma_lookup_entries(b, k);
                match q[0] {
                    Step::K(k2) => {
                        lemma_lookup_with_entry(obj, k, inner, k2);
                        lemma_lookup_entries(b, k2);
                        if k2 == k {
                            lemma_set_agrees(cur, s1, p.drop_first(), q.drop_first(), v);
                        }
                    },
                    Step::N(m) => {
                        assert(s is Object);
                    },
                }
            },
            Step::N(n) => {
                let its = items_or_empty(b);
                let items = padded(its, n + 1);
                match q[0] {
                    Step::N(m) => {
                        if m == n {
                            assert(n >= 0);
                            if !pre {
                                assert(b is Array && 0 <= n < its.len());
                                lemma_padded_index(its, n, n);
                            }
                            if pre && !(0 <= n < its.len()) {
                                assert(items.len() > n) by {
                                    assert(padded(its, n + 1).len() >= n + 1);
                                }
                            }
                            if 0 <= n < its.len() {
                                lemma_padded_index(its, n, n);
                            }
                            lemma_set_agrees(items[n], s1, p.drop_first(), q.drop_first(), v);
                        } else {
                            assert(!pre);
                            assert(b is Array && 0 <= m < its.len());
                            assert(n >= 0);
                            lemma_padded_index(its, n, m);
                        }
                    },
                    Step::K(k2) => {
                        assert(s is Array);
                    },
                }
            },
        }
    }
}

// ===========================================================================
// Instances of target paths and trie paths
// ===========================================================================

/// A step of a target path that a full walk can take: a key, or `[:]`.
pub open spec fn seg_full(s: Seg) -> bool {
    s is Key || s == Seg::Slice(None, None, None)
}

/// A step of a trie path that a full walk can take: a direct key, or `[:]`.
pub open spec fn bind_full(b: Binding) -> bool {
    b == Binding::Direct || b == Binding::Iterate(None, None, None)
}

/// The concrete path a target path `segs[k..]` stands for when its slices
/// take the positions `idx[pos..]`.
pub open spec fn target_inst(segs: Seq<Seg>, k: int, idx: Seq<usize>, pos: int) -> Seq<Step>
    decreases segs.len() - k,
{
    if k < 0 || k >= segs.len() {
        Seq::empty()
    } else {
        match segs[k] {
            Seg::Key(key) => seq![Step::K(key)] + target_inst(segs, k + 1, idx, pos),
            Seg::Slice(_, _, _) => seq![Step::N(idx[pos] as int)] + target_inst(
                segs,
                k + 1,
                idx,
                pos + 1,
            ),
            Seg::Index(n) => seq![Step::N(n as int)] + target_inst(segs, k + 1, idx, pos),
        }
    }
}

/// The number of slices of `segs[k..]`.
pub open spec fn slices_from(segs: Seq<Seg>, k: int) -> nat
    decreases segs.len() - k,
{
    if k < 0 || k >= segs.len() {
        0
    } else {
        slices_from(segs, k + 1) + if segs[k] is Slice {
            1nat
        } else {
            0nat
        }
    }
}

/// The concrete path a trie path `segs[k..]` stands for when its iterations
/// take the positions `idx[pos..]`: an iteration under a key steps into the
/// key, then to the position; one with an empty key steps to the position.
pub open spec fn trie_inst(segs: Seq<(Seq<char>, Binding)>, k: int, idx: Seq<usize>, pos: int) -> Seq<
    Step,
>
    decreases segs.len() - k,
{
    if k < 0 || k >= segs.len() {
        Seq::empty()
    } else {
        let key = segs[k].0;
        match segs[k].1 {
            Binding::Iterate(_, _, _) => (if key.len() == 0 {
                Seq::empty()
            } else {
                seq![Step::K(key)]
            }) + seq![Step::N(idx[pos] as int)] + trie_inst(segs, k + 1, idx, pos + 1),
            _ => seq![Step::K(key)] + trie_inst(segs, k + 1, idx, pos),
        }
    }
}

/// The number of iterations of `segs[k..]`.
pub open spec fn iters_from(segs: Seq<(Seq<char>, Binding)>, k: int) -> nat
    decreases segs.len() - k,
{
    if k < 0 || k >= segs.len() {
        0
    } else {
        iters_from(segs, k + 1) + if segs[k].1 is Iterate {
            1nat
        } else {
            0nat
        }
    }
}

/// Every position in `idx` lies below the machine's bound.
pub open spec fn small_positions(idx: Seq<usize>) -> bool {
    forall|i: int| 0 <= i < idx.len() ==> #[trigger] idx[i] < usize::MAX
}

proof fn lemma_positions_ok_concat(a: Seq<Step>, b: Seq<Step>)
    requires
        positions_ok(a),
        positions_ok(b),
    ensures
        positions_ok(a + b),
{
    assert forall|i: int| 0 <= i < (a + b).len() implies (#[trigger] (a + b)[i] matches Step::N(
        n,
    ) ==> n >= 0) by {
        if i < a.len() {
            assert((a + b)[i] == a[i]);
        } else {
            assert((a + b)[i] == b[i - a.len()]);
        }
    }
}

/// Writing at the steps of a full target path is writing along its instance.
pub proof fn lemma_put_at_full(
    d: Json,
    segs: Seq<Seg>,
    k: int,
    v: Json,
    idx: Seq<usize>,
    pos: int,
)
    requires
        0 <= k <= segs.len(),
        0 <= pos,
        forall|i: int| k <= i < segs.len() ==> seg_full(#[trigger] segs[i]),
        pos + slices_from(segs, k) <= idx.len(),
        small_positions(idx),
    ensures
        put_at(d, segs, k, v, idx, pos) == Some(set_at(d, target_inst(segs, k, idx, pos), v)),
        positions_ok(target_inst(segs, k, idx, pos)),
    decreases segs.len() - k,
{
    let t = target_inst(segs, k, idx, pos);
    if k < segs.len() {
        assert(seg_full(segs[k]));
        match segs[k] {
            Seg::Key(key) => {
                let obj = entries_or_empty(d);
                let i = entry_index(obj, key);
                let cur = if i >= 0 {
                    obj[i].1
                } else {
                    Json::Null
                };
                lemma_put_at_full(cur, segs, k + 1, v, idx, pos);
                assert(t[0] == Step::K(key));
                assert(t.drop_first() =~= target_inst(segs, k + 1, idx, pos));
                lemma_positions_ok_concat(seq![Step::K(key)], target_inst(segs, k + 1, idx, pos));
            },
            Seg::Slice(_, _, _) => {
                assert(idx[pos] < usize::MAX);
                let n = idx[pos] as int;
                let items = padded(items_or_empty(d), n + 1);
                lemma_put_at_full(items[n], segs, k + 1, v, idx, pos + 1);
                assert(t[0] == Step::N(n));
                assert(t.drop_first() =~= target_inst(segs, k + 1, idx, pos + 1));
                lemma_positions_ok_concat(seq![Step::N(n)], target_inst(segs, k + 1, idx, pos + 1));
            },
            Seg::Index(_) => {},
        }
    } else {
        assert(t =~= Seq::<Step>::empty());
    }
}

/// Writing along a full trie path is writing along its instance.
pub proof fn lemma_put_trie_full(
    d: Json,
    segs: Seq<(Seq<char>, Binding)>,
    k: int,
    v: Json,
    idx: Seq<usize>,
    pos: int,
)
    requires
        0 <= k <= segs.len(),
        0 <= pos,
        forall|i: int| k <= i < segs.len() ==> bind_full((#[trigger] segs[i]).1),
        pos + iters_from(segs, k) <= idx.len(),
        small_positions(idx),
    ensures
        put_trie(d, segs, k, v, idx, pos) == Some(set_at(d, trie_inst(segs, k, idx, pos), v)),
        positions_ok(trie_inst(segs, k, idx, pos)),
    decreases segs.len() - k,
{
    let t = trie_inst(segs, k, idx, pos);
    if k < segs.len() {
        let key = segs[k].0;
        assert(bind_full(segs[k].1));
        match segs[k].1 {
            Binding::Direct => {
                let obj = entries_or_empty(d);
                let i = entry_index(obj, key);
                let cur = if i >= 0 {
                    obj[i].1
                } else {
                    Json::Null
                };
                lemma_put_trie_full(cur, segs, k + 1, v, idx, pos);
                assert(t[0] == Step::K(key));
                assert(t.drop_first() =~= trie_inst(segs, k + 1, idx, pos));
                lemma_positions_ok_concat(seq![Step::K(key)], trie_inst(segs, k + 1, idx, pos));
            },
            Binding::Iterate(_, _, _) => {
                assert(idx[pos] < usize::MAX);
                let n = idx[pos] as int;
                let rest = trie_inst(segs, k + 1, idx, pos + 1);
                assert(segs[k].1 == Binding::Iterate(None, None, None));
                assert(pos < idx.len());
                assert(crate::stitch::write_index(None, None, idx, pos) == Some((n, pos + 1)));
                if key.len() == 0 {
                    let items = padded(items_or_empty(d), n + 1);
                    lemma_put_trie_full(items[n], segs, k + 1, v, idx, pos + 1);
                    lemma_positions_ok_concat(seq![Step::N(n)], rest);
                    assert(t =~= seq![Step::N(n)] + rest);
                    assert(t[0] == Step::N(n));
                    assert(t.drop_first() =~= rest);
                    assert(set_at(d, t, v) == Json::Array(items.update(n, set_at(items[n], rest, v))));
                    assert(put_trie(d, segs, k, v, idx, pos) == Some(
                        Json::Array(items.update(n, set_at(items[n], rest, v))),
                    ));
                } else {
                    let obj = entries_or_empty(d);
                    let i = entry_index(obj, key);
                    let cur = if i >= 0 {
                        obj[i].1
                    } else {
                        Json::Null
                    };
                    let items = padded(items_or_empty(cur), n + 1);
                    lemma_put_trie_full(items[n], segs, k + 1, v, idx, pos + 1);
                    lemma_positions_ok_concat(seq![Step::N(n)], rest);
                    assert(t =~= seq![Step::K(key)] + (seq![Step::N(n)] + rest));
                    assert(t[0] == Step::K(key));
                    assert(t.drop_first() =~= seq![Step::N(n)] + rest);
                    assert((seq![Step::N(n)] + rest)[0] == Step::N(n));
                    assert((seq![Step::N(n)] + rest).drop_first() =~= rest);
                    lemma_positions_ok_concat(seq![Step::K(key)], seq![Step::N(n)] + rest);
                    let inner = set_at(cur, seq![Step::N(n)] + rest, v);
                    assert(inner == Json::Array(items.update(n, set_at(items[n], rest, v))));
                    assert(set_at(d, t, v) == Json::Object(with_entry(obj, key, inner)));
                }
            },
            Binding::Pattern(_, _, _, _) => {},
        }
    } else {
        assert(t =~= Seq::<Step>::empty());
    }
}

proof fn lemma_step_range_from(i: int, e: int)
    requires
        0 <= i <= e,
    ensures
        step_range(i, e, 1) == Seq::new((e - i) as nat, |m: int| i + m),
    decreases e - i,
{
    if i < e {
        lemma_step_range_from(i + 1, e);
        assert(step_range(i, e, 1) =~= Seq::new((e - i) as nat, |m: int| i + m));
    } else {
        assert(step_range(i, e, 1) =~= Seq::new((e - i) as nat, |m: int| i + m));
    }
}

/// A full slice selects every position, in order.
pub proof fn lemma_full_slice(len: int)
    requires
        len >= 0,
    ensures
        spec_slice_indices(len, None, None, None) == Seq::new(len as nat, |m: int| m),
{
    if len > 0 {
        lemma_step_range_from(0, len);
        assert(Seq::new((len - 0) as nat, |m: int| 0 + m) =~= Seq::new(len as nat, |m: int| m));
    } else {
        assert(spec_slice_indices(len, None, None, None) =~= Seq::new(len as nat, |m: int| m));
    }
}

// ===========================================================================
// The forward walk as a list of writes
// ===========================================================================

/// A write: a concrete path and the value written there.
pub type Write = (Seq<Step>, Json);

/// The writes `ws` done in order.
pub open spec fn fold_set(d: Json, ws: Seq<Write>) -> Json
    decreases ws.len(),
{
    if ws.len() == 0 {
        d
    } else {
        let prev = fold_set(d, ws.drop_last());
        set_at(prev, ws.last().0, ws.last().1)
    }
}

pub proof fn lemma_fold_set_append(d: Json, a: Seq<Write>, b: Seq<Write>)
    ensures
        fold_set(d, a + b) == fold_set(fold_set(d, a), b),
    decreases b.len(),
{
    if b.len() == 0 {
        assert(a + b =~= a);
    } else {
        assert((a + b).drop_last() =~= a + b.drop_last());
        assert((a + b).last() == b.last());
        lemma_fold_set_append(d, a, b.drop_last());
    }
}

/// The writes of a node's value at its targets `ts[i..]`.
pub open spec fn own_writes(ts: Seq<Seq<char>>, i: int, v: Json, idx: Seq<usize>, sep: char) -> Seq<
    Write,
>
    decreases ts.len() - i,
{
    if i < 0 || i >= ts.len() {
        Seq::empty()
    } else {
        seq![(target_inst(spec_target_segments(ts[i], sep), 0, idx, 0), v)] + own_writes(
            ts,
            i + 1,
            v,
            idx,
            sep,
        )
    }
}

/// The writes of the forward walk of `node.children[i..]`.
pub open spec fn fw_children(node: Trie, i: int, v: Json, idx: Seq<usize>, sep: char) -> Seq<Write>
    decreases node, nonneg(node.children.len() - i), 0int,
{
    if i < 0 || i >= node.children.len() {
        Seq::empty()
    } else {
        proof {
            assert(decreases_to!(node => node.children));
            assert(decreases_to!(node.children => node.children[i]));
        }
        fw_child(node.children[i], v, idx, sep) + fw_children(node, i + 1, v, idx, sep)
    }
}

/// The writes of the forward walk of one child against its parent's value.
pub open spec fn fw_child(c: Trie, v: Json, idx: Seq<usize>, sep: char) -> Seq<Write>
    decreases c, c.children.len() + 2, 0int,
{
    match c.binding {
        Binding::Iterate(s, e, st) => {
            let arr = if c.key.len() == 0 {
                Some(v)
            } else {
                lookup(v, c.key)
            };
            match arr {
                Some(Json::Array(items)) => fw_iter(
                    c,
                    items,
                    spec_slice_indices(items.len() as int, s, e, st),
                    0,
                    idx,
                    sep,
                ),
                _ => Seq::empty(),
            }
        },
        _ => match lookup(v, c.key) {
            None => Seq::empty(),
            Some(w) => own_writes(c.targets, 0, w, idx, sep) + if c.children.len() > 0 {
                fw_children(c, 0, w, idx, sep)
            } else {
                Seq::empty()
            },
        },
    }
}

/// The writes of the forward walk of the selected elements `sel[k..]`.
pub open spec fn fw_iter(
    c: Trie,
    elems: Seq<Json>,
    sel: Seq<int>,
    k: int,
    idx: Seq<usize>,
    sep: char,
) -> Seq<Write>
    decreases c, c.children.len() + 1, nonneg(sel.len() - k),
{
    if k < 0 || k >= sel.len() {
        Seq::empty()
    } else {
        let elem = elems[sel[k]];
        let idx2 = idx.push(k as usize);
        own_writes(c.targets, 0, elem, idx2, sep) + (if c.children.len() > 0 {
            fw_children(c, 0, elem, idx2, sep)
        } else {
            Seq::empty()
        }) + fw_iter(c, elems, sel, k + 1, idx, sep)
    }
}

/// A found array holds fewer than `usize::MAX` elements.
pub open spec fn short_array(o: Option<Json>) -> bool {
    match o {
        Some(Json::Array(items)) => items.len() < usize::MAX,
        _ => true,
    }
}

/// Every array found in `d` holds fewer than `usize::MAX` elements.
pub open spec fn bounded(d: Json) -> bool {
    forall|p: Seq<Step>| short_array(#[trigger] get_at(d, p))
}

proof fn lemma_bounded_below(d: Json, a: Seq<Step>, x: Json)
    requires
        bounded(d),
        get_at(d, a) == Some(x),
    ensures
        bounded(x),
{
    assert forall|p: Seq<Step>| short_array(#[trigger] get_at(x, p)) by {
        lemma_get_at_concat(d, a, p);
        assert(get_at(d, a + p) == get_at(x, p));
    }
}

proof fn lemma_get_one_key(d: Json, k: Seq<char>)
    ensures
        get_at(d, seq![Step::K(k)]) == lookup(d, k),
{
    assert(seq![Step::K(k)][0] == Step::K(k));
    assert(seq![Step::K(k)].drop_first() =~= Seq::<Step>::empty());
    if let Some(c) = lookup(d, k) {
        assert(get_at(c, Seq::<Step>::empty()) == Some(c));
    }
}

proof fn lemma_get_one_pos(d: Json, n: int)
    ensures
        get_at(d, seq![Step::N(n)]) == element(d, n),
{
    assert(seq![Step::N(n)][0] == Step::N(n));
    assert(seq![Step::N(n)].drop_first() =~= Seq::<Step>::empty());
    if let Some(c) = element(d, n) {
        assert(get_at(c, Seq::<Step>::empty()) == Some(c));
    }
}

/// Every target of the node is full and has no more slices than `idx` has
/// positions.
pub open spec fn targets_fit(ts: Seq<Seq<char>>, n: nat, sep: char) -> bool {
    forall|j: int|
        0 <= j < ts.len() ==> {
            let segs = spec_target_segments(#[trigger] ts[j], sep);
            &&& forall|i: int| 0 <= i < segs.len() ==> seg_full(#[trigger] segs[i])
            &&& slices_from(segs, 0) == n
        }
}

proof fn lemma_put_targets_writes(d: Json, ts: Seq<Seq<char>>, i: int, v: Json, idx: Seq<usize>, sep: char)
    requires
        targets_fit(ts, idx.len(), sep),
        small_positions(idx),
        0 <= i <= ts.len(),
    ensures
        put_targets(d, ts, i, v, idx, sep) == Some(fold_set(d, own_writes(ts, i, v, idx, sep))),
    decreases ts.len() - i,
{
    if i < ts.len() {
        let segs = spec_target_segments(ts[i], sep);
        assert(forall|m: int| 0 <= m < segs.len() ==> seg_full(#[trigger] segs[m]));
        lemma_put_at_full(d, segs, 0, v, idx, 0);
        let x = target_inst(segs, 0, idx, 0);
        let d1 = set_at(d, x, v);
        assert(put_path(d, ts[i], v, idx, sep) == Some(d1));
        lemma_put_targets_writes(d1, ts, i + 1, v, idx, sep);
        let w = seq![(x, v)];
        lemma_fold_set_append(d, w, own_writes(ts, i + 1, v, idx, sep));
        assert(w.drop_last() =~= Seq::<Write>::empty());
        assert(w.last() == (x, v));
        assert(fold_set(d, Seq::<Write>::empty()) == d);
        assert(fold_set(d, w) == d1);
    } else {
        assert(own_writes(ts, i, v, idx, sep) =~= Seq::<Write>::empty());
    }
}

/// Every node below `t` is reached by a full step, and every node's targets
/// fit the iterations above and at it.
pub open spec fn full_trie(t: Trie, n: nat, sep: char) -> bool
    decreases t, t.children.len() + 1,
{
    full_below(t, 0, n, sep)
}

/// The children `t.children[i..]` are full, with `n` iterations above them.
pub open spec fn full_below(t: Trie, i: int, n: nat, sep: char) -> bool
    decreases t, nonneg(t.children.len() - i),
{
    if i < 0 || i >= t.children.len() {
        true
    } else {
        proof {
            assert(decreases_to!(t => t.children));
            assert(decreases_to!(t.children => t.children[i]));
        }
        let c = t.children[i];
        let m = if c.binding is Iterate {
            n + 1
        } else {
            n
        };
        &&& bind_full(c.binding)
        &&& targets_fit(c.targets, m, sep)
        &&& full_trie(c, m, sep)
        &&& full_below(t, i + 1, n, sep)
    }
}

/// The forward walk of a full child is its list of writes done in order.
proof fn lemma_fwd_child_writes(c: Trie, n: nat, v: Json, d: Json, idx: Seq<usize>, sep: char)
    requires
        bind_full(c.binding),
        targets_fit(c.targets, if c.binding is Iterate { n + 1 } else { n }, sep),
        full_trie(c, if c.binding is Iterate { n + 1 } else { n }, sep),
        idx.len() == n,
        small_positions(idx),
        bounded(v),
    ensures
        fwd_child(c, v, d, idx, sep) == Some(fold_set(d, fw_child(c, v, idx, sep))),
    decreases c, c.children.len() + 2, 0int,
{
    match c.binding {
        Binding::Iterate(s, e, st) => {
            let arr = if c.key.len() == 0 {
                Some(v)
            } else {
                lookup(v, c.key)
            };
            if let Some(Json::Array(items)) = arr {
                if c.key.len() == 0 {
                    assert(get_at(v, Seq::<Step>::empty()) == Some(v));
                } else {
                    lemma_get_one_key(v, c.key);
                }
                let path = if c.key.len() == 0 {
                    Seq::<Step>::empty()
                } else {
                    seq![Step::K(c.key)]
                };
                assert(get_at(v, path) == Some(Json::Array(items)));
                assert(short_array(get_at(v, path)));
                assert(items.len() < usize::MAX);
                lemma_full_slice(items.len() as int);
                let sel = spec_slice_indices(items.len() as int, s, e, st);
                assert(sel == Seq::new(items.len() as nat, |m: int| m));
                lemma_fwd_iter_writes(c, n, items, path, v, sel, 0, d, idx, sep);
            }
        },
        _ => {
            if let Some(w) = lookup(v, c.key) {
                lemma_get_one_key(v, c.key);
                lemma_bounded_below(v, seq![Step::K(c.key)], w);
                lemma_put_targets_writes(d, c.targets, 0, w, idx, sep);
                let d1 = fold_set(d, own_writes(c.targets, 0, w, idx, sep));
                if c.children.len() > 0 {
                    lemma_fwd_children_writes(c, 0, n, w, d1, idx, sep);
                    lemma_fold_set_append(
                        d,
                        own_writes(c.targets, 0, w, idx, sep),
                        fw_children(c, 0, w, idx, sep),
                    );
                } else {
                    assert(own_writes(c.targets, 0, w, idx, sep) + Seq::<Write>::empty() =~= own_writes(
                        c.targets,
                        0,
                        w,
                        idx,
                        sep,
                    ));
                }
            }
        },
    }
}

proof fn lemma_fwd_iter_writes(
    c: Trie,
    n: nat,
    items: Seq<Json>,
    path: Seq<Step>,
    v: Json,
    sel: Seq<int>,
    k: int,
    d: Json,
    idx: Seq<usize>,
    sep: char,
)
    requires
        c.binding is Iterate,
        targets_fit(c.targets, n + 1, sep),
        full_trie(c, n + 1, sep),
        idx.len() == n,
        small_positions(idx),
        bounded(v),
        get_at(v, path) == Some(Json::Array(items)),
        items.len() < usize::MAX,
        sel == Seq::new(items.len() as nat, |m: int| m),
        0 <= k <= sel.len(),
    ensures
        fwd_iter(c, items, sel, k, d, idx, sep) == Some(fold_set(d, fw_iter(c, items, sel, k, idx, sep))),
    decreases c, c.children.len() + 1, nonneg(sel.len() - k),
{
    if k < sel.len() {
        let elem = items[sel[k]];
        let idx2 = idx.push(k as usize);
        assert(sel[k] == k);
        assert(small_positions(idx2)) by {
            assert forall|i: int| 0 <= i < idx2.len() implies #[trigger] idx2[i] < usize::MAX by {
                if i < idx.len() {
                    assert(idx2[i] == idx[i]);
                }
            }
        }
        lemma_get_one_pos(Json::Array(items), k);
        lemma_get_at_concat(v, path, seq![Step::N(k)]);
        lemma_bounded_below(v, path + seq![Step::N(k)], elem);
        lemma_put_targets_writes(d, c.targets, 0, elem, idx2, sep);
        let ow = own_writes(c.targets, 0, elem, idx2, sep);
        let d1 = fold_set(d, ow);
        let cw = if c.children.len() > 0 {
            fw_children(c, 0, elem, idx2, sep)
        } else {
            Seq::empty()
        };
        if c.children.len() > 0 {
            lemma_fwd_children_writes(c, 0, n + 1, elem, d1, idx2, sep);
        }
        let d2 = fold_set(d1, cw);
        lemma_fwd_iter_writes(c, n, items, path, v, sel, k + 1, d2, idx, sep);
        lemma_fold_set_append(d, ow, cw);
        lemma_fold_set_append(d, ow + cw, fw_iter(c, items, sel, k + 1, idx, sep));
    }
}

proof fn lemma_fwd_children_writes(node: Trie, i: int, n: nat, v: Json, d: Json, idx: Seq<usize>, sep: char)
    requires
        full_below(node, i, n, sep),
        0 <= i,
        idx.len() == n,
        small_positions(idx),
        bounded(v),
    ensures
        fwd_children(node, i, v, d, idx, sep) == Some(fold_set(d, fw_children(node, i, v, idx, sep))),
    decreases node, nonneg(node.children.len() - i), 0int,
{
    if i < node.children.len() {
        let c = node.children[i];
        assert(decreases_to!(node => node.children));
        assert(decreases_to!(node.children => node.children[i]));
        lemma_fwd_child_writes(c, n, v, d, idx, sep);
        let d1 = fold_set(d, fw_child(c, v, idx, sep));
        lemma_fwd_children_writes(node, i + 1, n, v, d1, idx, sep);
        lemma_fold_set_append(d, fw_child(c, v, idx, sep), fw_children(node, i + 1, v, idx, sep));
    }
}

// ===========================================================================
// Instances of step patterns
// ===========================================================================

/// The concrete path a target pattern stands for when its slices take the
/// positions `js`, in order.
pub open spec fn inst(segs: Seq<Seg>, js: Seq<usize>) -> Seq<Step>
    decreases segs.len(),
{
    if segs.len() == 0 {
        Seq::empty()
    } else {
        match segs[0] {
            Seg::Key(k) => seq![Step::K(k)] + inst(segs.drop_first(), js),
            Seg::Slice(_, _, _) => seq![Step::N(js[0] as int)] + inst(
                segs.drop_first(),
                js.drop_first(),
            ),
            Seg::Index(n) => seq![Step::N(n as int)] + inst(segs.drop_first(), js),
        }
    }
}

/// The number of slices of a pattern.
pub open spec fn nslices(segs: Seq<Seg>) -> nat
    decreases segs.len(),
{
    if segs.len() == 0 {
        0
    } else {
        nslices(segs.drop_first()) + if segs[0] is Slice {
            1nat
        } else {
            0nat
        }
    }
}

/// Every step of the pattern is a key or `[:]`.
pub open spec fn all_full(segs: Seq<Seg>) -> bool {
    forall|i: int| 0 <= i < segs.len() ==> seg_full(#[trigger] segs[i])
}

/// Two patterns part ways: where they first differ, both are keys.
pub open spec fn seg_apart(a: Seq<Seg>, b: Seq<Seg>) -> bool
    decreases a.len(),
{
    a.len() > 0 && b.len() > 0 && if a[0] == b[0] {
        seg_apart(a.drop_first(), b.drop_first())
    } else {
        a[0] is Key && b[0] is Key
    }
}

proof fn lemma_all_full_rest(segs: Seq<Seg>)
    requires
        all_full(segs),
        segs.len() > 0,
    ensures
        all_full(segs.drop_first()),
        seg_full(segs[0]),
{
    assert forall|i: int| 0 <= i < segs.drop_first().len() implies seg_full(
        #[trigger] segs.drop_first()[i],
    ) by {
        assert(segs.drop_first()[i] == segs[i + 1]);
    }
}

/// Slices counted from `k` are the slices of the rest of the pattern.
pub proof fn lemma_slices_count(segs: Seq<Seg>, k: int)
    requires
        0 <= k <= segs.len(),
    ensures
        nslices(segs.skip(k)) == slices_from(segs, k),
    decreases segs.len() - k,
{
    let r = segs.skip(k);
    if k < segs.len() {
        assert(r[0] == segs[k]);
        assert(r.drop_first() =~= segs.skip(k + 1));
        lemma_slices_count(segs, k + 1);
    } else {
        assert(r =~= Seq::<Seg>::empty());
    }
}

/// A target path written from index `k` with positions from `pos` is the
/// instance of the rest of the pattern.
pub proof fn lemma_target_inst(segs: Seq<Seg>, k: int, idx: Seq<usize>, pos: int)
    requires
        0 <= k <= segs.len(),
        0 <= pos,
        pos + slices_from(segs, k) <= idx.len(),
    ensures
        target_inst(segs, k, idx, pos) == inst(segs.skip(k), idx.skip(pos)),
        nslices(segs.skip(k)) == slices_from(segs, k),
    decreases segs.len() - k,
{
    let r = segs.skip(k);
    if k < segs.len() {
        assert(r[0] == segs[k]);
        assert(r.drop_first() =~= segs.skip(k + 1));
        match segs[k] {
            Seg::Slice(_, _, _) => {
                lemma_target_inst(segs, k + 1, idx, pos + 1);
                assert(idx.skip(pos)[0] == idx[pos]);
                assert(idx.skip(pos).drop_first() =~= idx.skip(pos + 1));
            },
            _ => {
                lemma_target_inst(segs, k + 1, idx, pos);
            },
        }
    } else {
        assert(r =~= Seq::<Seg>::empty());
    }
}

proof fn lemma_inst_unfold(segs: Seq<Seg>, js: Seq<usize>)
    requires
        segs.len() > 0,
    ensures
        inst(segs, js).len() > 0,
        inst(segs, js)[0] == match segs[0] {
            Seg::Key(k) => Step::K(k),
            Seg::Slice(_, _, _) => Step::N(js[0] as int),
            Seg::Index(n) => Step::N(n as int),
        },
        inst(segs, js).drop_first() == match segs[0] {
            Seg::Slice(_, _, _) => inst(segs.drop_first(), js.drop_first()),
            _ => inst(segs.drop_first(), js),
        },
{
    let r = match segs[0] {
        Seg::Slice(_, _, _) => inst(segs.drop_first(), js.drop_first()),
        _ => inst(segs.drop_first(), js),
    };
    let h = match segs[0] {
        Seg::Key(k) => Step::K(k),
        Seg::Slice(_, _, _) => Step::N(js[0] as int),
        Seg::Index(n) => Step::N(n as int),
    };
    assert(inst(segs, js) == seq![h] + r);
    assert((seq![h] + r).drop_first() =~= r);
}

/// The instance of a full pattern has one step per step of the pattern, and
/// non-negative positions.
pub proof fn lemma_inst_shape(segs: Seq<Seg>, js: Seq<usize>)
    requires
        all_full(segs),
    ensures
        inst(segs, js).len() == segs.len(),
        positions_ok(inst(segs, js)),
    decreases segs.len(),
{
    if segs.len() > 0 {
        lemma_all_full_rest(segs);
        lemma_inst_unfold(segs, js);
        let rest = if segs[0] is Slice {
            js.drop_first()
        } else {
            js
        };
        lemma_inst_shape(segs.drop_first(), rest);
        let x = inst(segs, js);
        assert(x =~= seq![x[0]] + x.drop_first());
        lemma_positions_ok_concat(seq![x[0]], x.drop_first());
    } else {
        assert(inst(segs, js) =~= Seq::<Step>::empty());
    }
}

/// Paths that part ways differ.
pub proof fn lemma_apart_ne(p: Seq<Step>, q: Seq<Step>)
    requires
        apart(p, q),
    ensures
        p != q,
    decreases p.len(),
{
    if p[0] == q[0] {
        lemma_apart_ne(p.drop_first(), q.drop_first());
    }
}

/// Instances of patterns that part ways part ways.
pub proof fn lemma_inst_apart(a: Seq<Seg>, b: Seq<Seg>, ja: Seq<usize>, jb: Seq<usize>)
    requires
        seg_apart(a, b),
        all_full(a),
        all_full(b),
    ensures
        apart(inst(a, ja), inst(b, jb)),
    decreases a.len(),
{
    lemma_inst_unfold(a, ja);
    lemma_inst_unfold(b, jb);
    lemma_all_full_rest(a);
    lemma_all_full_rest(b);
    if a[0] == b[0] {
        match a[0] {
            Seg::Slice(_, _, _) => {
                if ja[0] == jb[0] {
                    lemma_inst_apart(a.drop_first(), b.drop_first(), ja.drop_first(), jb.drop_first());
                }
            },
            _ => {
                lemma_inst_apart(a.drop_first(), b.drop_first(), ja, jb);
            },
        }
    }
}

/// Instances of one pattern with different positions part ways.
pub proof fn lemma_inst_distinct(a: Seq<Seg>, ja: Seq<usize>, jb: Seq<usize>)
    requires
        all_full(a),
        ja.len() == nslices(a),
        jb.len() == nslices(a),
        ja != jb,
    ensures
        apart(inst(a, ja), inst(a, jb)),
    decreases a.len(),
{
    if a.len() == 0 {
        assert(ja =~= jb);
    } else {
        lemma_inst_unfold(a, ja);
        lemma_inst_unfold(a, jb);
        lemma_all_full_rest(a);
        match a[0] {
            Seg::Slice(_, _, _) => {
                if ja[0] == jb[0] {
                    if ja.drop_first() == jb.drop_first() {
                        assert(ja =~= jb) by {
                            assert forall|i: int| 0 <= i < ja.len() implies ja[i] == jb[i] by {
                                if i > 0 {
                                    assert(ja[i] == ja.drop_first()[i - 1]);
                                    assert(jb[i] == jb.drop_first()[i - 1]);
                                }
                            }
                        }
                    }
                    lemma_inst_distinct(a.drop_first(), ja.drop_first(), jb.drop_first());
                }
            },
            _ => {
                lemma_inst_distinct(a.drop_first(), ja, jb);
            },
        }
    }
}

/// When an instance of `a` that ends with a position runs along an instance
/// of `b` and differs from it only in that last position, then `a` is a
/// prefix of `b`, and the positions of `a` are those of `b` but the last.
proof fn lemma_inst_runs_along(a: Seq<Seg>, b: Seq<Seg>, ja: Seq<usize>, jb: Seq<usize>)
    requires
        all_full(a),
        all_full(b),
        ja.len() == nslices(a),
        jb.len() == nslices(b),
        a.len() >= 1,
        a.len() <= b.len(),
        inst(a, ja).drop_last() =~= inst(b, jb).take(a.len() - 1),
        inst(a, ja).last() is N,
        inst(b, jb)[a.len() - 1] is N,
    ensures
        b.take(a.len() as int) =~= a,
        ja.len() >= 1,
        ja.len() <= jb.len(),
        ja.drop_last() =~= jb.take(ja.len() - 1),
        inst(a, ja).last() == Step::N(ja.last() as int),
        inst(b, jb)[a.len() - 1] == Step::N(jb[ja.len() - 1] as int),
    decreases a.len(),
{
    lemma_inst_shape(a, ja);
    lemma_inst_shape(b, jb);
    lemma_inst_unfold(a, ja);
    lemma_inst_unfold(b, jb);
    lemma_all_full_rest(a);
    lemma_all_full_rest(b);
    let x = inst(a, ja);
    let p = inst(b, jb);
    if a.len() == 1 {
        assert(x.last() == x[0]);
        assert(a[0] is Slice);
        assert(p[0] is N);
        assert(b[0] is Slice);
        assert(a[0] == Seg::Slice(None, None, None));
        assert(b[0] == Seg::Slice(None, None, None));
        assert(nslices(a) == nslices(a.drop_first()) + 1);
        assert(a.drop_first().len() == 0);
        assert(ja.len() == 1);
        assert(jb.len() >= 1) by {
            assert(nslices(b) == nslices(b.drop_first()) + 1);
        }
    } else {
        assert(x[0] == x.drop_last()[0]);
        assert(p[0] == p.take(a.len() - 1)[0]);
        assert(x[0] == p[0]);
        let xr = x.drop_first();
        let pr = p.drop_first();
        assert(xr.drop_last() =~= pr.take(a.len() - 2)) by {
            assert forall|i: int| 0 <= i < a.len() - 2 implies xr.drop_last()[i] == pr.take(
                a.len() - 2,
            )[i] by {
                assert(xr.drop_last()[i] == x.drop_last()[i + 1]);
                assert(pr.take(a.len() - 2)[i] == p.take(a.len() - 1)[i + 1]);
            }
        }
        assert(xr.last() == x.last());
        assert(pr[a.len() - 2] == p[a.len() - 1]);
        match a[0] {
            Seg::Key(k) => {
                assert(b[0] is Key);
                assert(b[0] == a[0]);
                lemma_inst_runs_along(a.drop_first(), b.drop_first(), ja, jb);
                assert(b.take(a.len() as int) =~= a) by {
                    assert forall|i: int| 0 <= i < a.len() implies b.take(a.len() as int)[i]
                        == a[i] by {
                        if i > 0 {
                            assert(a[i] == a.drop_first()[i - 1]);
                            assert(b[i] == b.drop_first()[i - 1]);
                            assert(b.drop_first().take(a.drop_first().len() as int)[i - 1]
                                == a.drop_first()[i - 1]);
                        }
                    }
                }
            },
            _ => {
                assert(a[0] is Slice);
                assert(b[0] is Slice);
                assert(a[0] == b[0]);
                assert(ja[0] == jb[0]);
                assert(nslices(a) == nslices(a.drop_first()) + 1);
                assert(nslices(b) == nslices(b.drop_first()) + 1);
                lemma_inst_runs_along(a.drop_first(), b.drop_first(), ja.drop_first(), jb.drop_first());
                assert(b.take(a.len() as int) =~= a) by {
                    assert forall|i: int| 0 <= i < a.len() implies b.take(a.len() as int)[i]
                        == a[i] by {
                        if i > 0 {
                            assert(a[i] == a.drop_first()[i - 1]);
                            assert(b[i] == b.drop_first()[i - 1]);
                            assert(b.drop_first().take(a.drop_first().len() as int)[i - 1]
                                == a.drop_first()[i - 1]);
                        }
                    }
                }
                assert(ja.drop_last() =~= jb.take(ja.len() - 1)) by {
                    assert forall|i: int| 0 <= i < ja.len() - 1 implies ja.drop_last()[i]
                        == jb.take(ja.len() - 1)[i] by {
                        if i > 0 {
                            assert(ja[i] == ja.drop_first()[i - 1]);
                            assert(jb[i] == jb.drop_first()[i - 1]);
                            assert(ja.drop_first().drop_last()[i - 1] == jb.drop_first().take(
                                ja.drop_first().len() - 1,
                            )[i - 1]);
                        }
                    }
                }
                assert(ja.last() == ja.drop_first().last());
                assert(jb[ja.len() - 1] == jb.drop_first()[ja.drop_first().len() - 1]);
            },
        }
    }
}

/// A pattern that is a prefix of another does not part ways with it.
proof fn lemma_prefix_not_apart(a: Seq<Seg>, b: Seq<Seg>)
    requires
        a.len() <= b.len(),
        b.take(a.len() as int) =~= a,
    ensures
        !seg_apart(a, b),
    decreases a.len(),
{
    if a.len() > 0 {
        assert(b[0] == a[0]);
        assert(b.drop_first().take(a.drop_first().len() as int) =~= a.drop_first());
        lemma_prefix_not_apart(a.drop_first(), b.drop_first());
    }
}

// ===========================================================================
// What a write leaves missing
// ===========================================================================

/// `q` ends with a position of the array that `p` writes at a larger
/// position, and runs along `p` before it.
pub open spec fn padded_by(p: Seq<Step>, q: Seq<Step>) -> bool {
    &&& q.len() >= 1
    &&& q.len() <= p.len()
    &&& q.drop_last() =~= p.take(q.len() - 1)
    &&& q.last() is N
    &&& p[q.len() - 1] is N
    &&& q.last()->N_0 < p[q.len() - 1]->N_0
}

proof fn lemma_get_null(q: Seq<Step>)
    requires
        q.len() > 0,
    ensures
        get_at(Json::Null, q) is None,
{
    match q[0] {
        Step::K(k) => {
            assert(lookup(Json::Null, k) is None);
        },
        Step::N(j) => {
            assert(element(Json::Null, j) is None);
        },
    }
}

/// A path that parts ways with a write and was missing stays missing, unless
/// it ends at a position the write pads with null.
pub proof fn lemma_get_set_none(d: Json, p: Seq<Step>, q: Seq<Step>, v: Json)
    requires
        apart(p, q),
        positions_ok(p),
        get_at(d, q) is None,
    ensures
        get_at(set_at(d, p, v), q) is None || padded_by(p, q),
    decreases p.len(),
{
    assert(positions_ok(p.drop_first())) by {
        assert forall|i: int| 0 <= i < p.drop_first().len() implies (
        #[trigger] p.drop_first()[i] matches Step::N(n) ==> n >= 0) by {
            assert(p.drop_first()[i] == p[i + 1]);
        }
    }
    assert(p[0] matches Step::N(m) ==> m >= 0);
    let r = set_at(d, p, v);
    if p[0] == q[0] {
        let cur = match p[0] {
            Step::K(k) => {
                let obj = entries_or_empty(d);
                let i = entry_index(obj, k);
                if i >= 0 {
                    obj[i].1
                } else {
                    Json::Null
                }
            },
            Step::N(n) => padded(items_or_empty(d), n + 1)[n],
        };
        let inner = set_at(cur, p.drop_first(), v);
        match p[0] {
            Step::K(k) => {
                let obj = entries_or_empty(d);
                lemma_entry_index(obj, k);
                lemma_lookup_with_entry(obj, k, inner, k);
                lemma_lookup_entries(d, k);
            },
            Step::N(n) => {
                let its = items_or_empty(d);
                if 0 <= n < its.len() {
                    lemma_padded_index(its, n, n);
                }
            },
        }
        assert(get_at(r, q) == get_at(inner, q.drop_first()));
        assert(apart(p.drop_first(), q.drop_first()));
        lemma_get_null(q.drop_first());
        match p[0] {
            Step::K(k) => {
                lemma_lookup_entries(d, k);
            },
            Step::N(n) => {
                let its = items_or_empty(d);
                if !(0 <= n < its.len()) {
                    assert(padded(its, n + 1)[n] == Json::Null);
                }
            },
        }
        assert(get_at(cur, q.drop_first()) is None);
        lemma_get_set_none(cur, p.drop_first(), q.drop_first(), v);
        if padded_by(p.drop_first(), q.drop_first()) {
            let pr = p.drop_first();
            let qr = q.drop_first();
            assert(q.drop_last() =~= p.take(q.len() - 1)) by {
                assert forall|i: int| 0 <= i < q.len() - 1 implies q.drop_last()[i] == p.take(
                    q.len() - 1,
                )[i] by {
                    if i > 0 {
                        assert(q[i] == qr[i - 1]);
                        assert(p[i] == pr[i - 1]);
                        assert(qr.drop_last()[i - 1] == pr.take(qr.len() - 1)[i - 1]);
                    }
                }
            }
            assert(q.last() == qr.last());
            assert(p[q.len() - 1] == pr[qr.len() - 1]);
        }
    } else {
        match p[0] {
            Step::K(k) => {
                let obj = entries_or_empty(d);
                let i = entry_index(obj, k);
                lemma_entry_index(obj, k);
                let cur = if i >= 0 {
                    obj[i].1
                } else {
                    Json::Null
                };
                let inner = set_at(cur, p.drop_first(), v);
                if let Step::K(k2) = q[0] {
                    lemma_lookup_with_entry(obj, k, inner, k2);
                    lemma_lookup_entries(d, k2);
                }
            },
            Step::N(n) => {
                let its = items_or_empty(d);
                let items = padded(its, n + 1);
                if let Step::N(m) = q[0] {
                    if 0 <= m < its.len() {
                        lemma_padded_index(its, n, m);
                    } else if 0 <= m < items.len() {
                        assert(items[m] == Json::Null);
                        if q.len() > 1 {
                            let q1 = q.drop_first();
                            match q1[0] {
                                Step::K(k) => {
                                    assert(lookup(Json::Null, k) is None);
                                },
                                Step::N(j) => {
                                    assert(element(Json::Null, j) is None);
                                },
                            }
                        } else {
                            assert(q.drop_last() =~= p.take(0));
                            assert(q.last() == q[0]);
                            assert(m < n);
                        }
                    }
                }
            },
        }
    }
}

// ===========================================================================
// Trie instances along a path
// ===========================================================================

/// The steps of one node of a trie path, taking position `n` if it iterates.
pub open spec fn node_steps(x: (Seq<char>, Binding), n: usize) -> Seq<Step> {
    match x.1 {
        Binding::Iterate(_, _, _) => (if x.0.len() == 0 {
            Seq::empty()
        } else {
            seq![Step::K(x.0)]
        }) + seq![Step::N(n as int)],
        _ => seq![Step::K(x.0)],
    }
}

/// A trie path extended by one node: its instance gains that node's steps.
pub proof fn lemma_trie_inst_push(
    path: Seq<(Seq<char>, Binding)>,
    x: (Seq<char>, Binding),
    k: int,
    js: Seq<usize>,
    pos: int,
)
    requires
        0 <= k <= path.len(),
    ensures
        trie_inst(path.push(x), k, js, pos) == trie_inst(path, k, js, pos) + node_steps(
            x,
            js[pos + iters_from(path, k)],
        ),
        iters_from(path.push(x), k) == iters_from(path, k) + if x.1 is Iterate {
            1nat
        } else {
            0nat
        },
    decreases path.len() - k,
{
    let pp = path.push(x);
    if k < path.len() {
        assert(pp[k] == path[k]);
        match path[k].1 {
            Binding::Iterate(_, _, _) => {
                lemma_trie_inst_push(path, x, k + 1, js, pos + 1);
            },
            _ => {
                lemma_trie_inst_push(path, x, k + 1, js, pos);
            },
        }
        let a = trie_inst(path, k + 1, js, if path[k].1 is Iterate { pos + 1 } else { pos });
        let h = match path[k].1 {
            Binding::Iterate(_, _, _) => (if path[k].0.len() == 0 {
                Seq::empty()
            } else {
                seq![Step::K(path[k].0)]
            }) + seq![Step::N(js[pos] as int)],
            _ => seq![Step::K(path[k].0)],
        };
        assert(trie_inst(path, k, js, pos) == h + a);
        assert(trie_inst(pp, k, js, pos) == h + trie_inst(
            pp,
            k + 1,
            js,
            if path[k].1 is Iterate { pos + 1 } else { pos },
        ));
        assert(h + (a + node_steps(x, js[pos + iters_from(path, k)])) =~= (h + a) + node_steps(
            x,
            js[pos + iters_from(path, k)],
        ));
    } else {
        assert(pp[k] == x);
        assert(trie_inst(pp, k + 1, js, pos) =~= Seq::<Step>::empty());
        assert(trie_inst(pp, k + 1, js, pos + 1) =~= Seq::<Step>::empty());
        assert(trie_inst(path, k, js, pos) =~= Seq::<Step>::empty());
        assert(iters_from(pp, k + 1) == 0);
        match x.1 {
            Binding::Iterate(_, _, _) => {
                assert(trie_inst(pp, k, js, pos) =~= node_steps(x, js[pos]));
            },
            _ => {
                assert(trie_inst(pp, k, js, pos) =~= node_steps(x, js[pos]));
            },
        }
        assert(Seq::<Step>::empty() + node_steps(x, js[pos]) =~= node_steps(x, js[pos]));
    }
}

/// The instance of a trie path depends only on the positions it takes.
pub proof fn lemma_trie_inst_prefix(
    path: Seq<(Seq<char>, Binding)>,
    k: int,
    js: Seq<usize>,
    js2: Seq<usize>,
    pos: int,
)
    requires
        0 <= k <= path.len(),
        0 <= pos,
        pos + iters_from(path, k) <= js.len(),
        pos + iters_from(path, k) <= js2.len(),
        forall|i: int| pos <= i < pos + iters_from(path, k) ==> js[i] == js2[i],
    ensures
        trie_inst(path, k, js, pos) == trie_inst(path, k, js2, pos),
    decreases path.len() - k,
{
    if k < path.len() {
        match path[k].1 {
            Binding::Iterate(_, _, _) => {
                assert(js[pos] == js2[pos]);
                lemma_trie_inst_prefix(path, k + 1, js, js2, pos + 1);
            },
            _ => {
                lemma_trie_inst_prefix(path, k + 1, js, js2, pos);
            },
        }
    }
}

// ===========================================================================
// Which writes the forward walk makes
// ===========================================================================

/// The target pattern of a leaf.
pub open spec fn ts_of(l: Leaf, sep: char) -> Seq<Seg> {
    spec_target_segments(l.target, sep)
}

/// `w` is the write of leaf `l` at positions `js`: its target instance, and
/// the value the source holds at the leaf's trie instance.
pub open spec fn leaf_write(w: Write, l: Leaf, js: Seq<usize>, src: Json, sep: char) -> bool {
    &&& js.len() == iters_from(l.segs, 0)
    &&& small_positions(js)
    &&& w.0 == inst(ts_of(l, sep), js)
    &&& get_at(src, trie_inst(l.segs, 0, js, 0)) == Some(w.1)
}

/// `w` is the write of some leaf of `ls` at some positions.
pub open spec fn sourced(w: Write, ls: Seq<Leaf>, src: Json, sep: char) -> bool {
    exists|l: Leaf, js: Seq<usize>| ls.contains(l) && #[trigger] leaf_write(w, l, js, src, sep)
}

proof fn lemma_sourced_concat(w: Write, a: Seq<Leaf>, b: Seq<Leaf>, src: Json, sep: char)
    requires
        sourced(w, a, src, sep) || sourced(w, b, src, sep),
    ensures
        sourced(w, a + b, src, sep),
{
    let (l, js) = if sourced(w, a, src, sep) {
        choose|l: Leaf, js: Seq<usize>| a.contains(l) && #[trigger] leaf_write(w, l, js, src, sep)
    } else {
        choose|l: Leaf, js: Seq<usize>| b.contains(l) && #[trigger] leaf_write(w, l, js, src, sep)
    };
    if a.contains(l) {
        let i = choose|i: int| 0 <= i < a.len() && a[i] == l;
        assert((a + b)[i] == l);
    } else {
        let i = choose|i: int| 0 <= i < b.len() && b[i] == l;
        assert((a + b)[a.len() + i] == l);
    }
    assert((a + b).contains(l));
    assert(leaf_write(w, l, js, src, sep));
}

proof fn lemma_small_push(idx: Seq<usize>, k: usize)
    requires
        small_positions(idx),
        k < usize::MAX,
    ensures
        small_positions(idx.push(k)),
{
    assert forall|i: int| 0 <= i < idx.push(k).len() implies #[trigger] idx.push(k)[i] < usize::MAX by {
        if i < idx.len() {
            assert(idx.push(k)[i] == idx[i]);
        }
    }
}

/// The own writes of a node are writes of its own leaves.
proof fn lemma_own_writes_sourced(
    c: Trie,
    cp: Seq<(Seq<char>, Binding)>,
    i: int,
    w: Json,
    idx: Seq<usize>,
    src: Json,
    sep: char,
)
    requires
        targets_fit(c.targets, idx.len(), sep),
        idx.len() == iters_from(cp, 0),
        small_positions(idx),
        get_at(src, trie_inst(cp, 0, idx, 0)) == Some(w),
        0 <= i <= c.targets.len(),
    ensures
        forall|m: int|
            0 <= m < own_writes(c.targets, i, w, idx, sep).len() ==> sourced(
                #[trigger] own_writes(c.targets, i, w, idx, sep)[m],
                own_leaves(c, cp),
                src,
                sep,
            ),
    decreases c.targets.len() - i,
{
    if i < c.targets.len() {
        lemma_own_writes_sourced(c, cp, i + 1, w, idx, src, sep);
        let ws = own_writes(c.targets, i, w, idx, sep);
        let rest = own_writes(c.targets, i + 1, w, idx, sep);
        let segs = spec_target_segments(c.targets[i], sep);
        lemma_target_inst(segs, 0, idx, 0);
        assert(segs.skip(0) =~= segs);
        assert(idx.skip(0) =~= idx);
        let l = own_leaves(c, cp)[i];
        assert(l == Leaf { segs: cp, target: c.targets[i] });
        assert(own_leaves(c, cp).contains(l));
        assert(leaf_write(ws[0], l, idx, src, sep));
        assert forall|m: int| 0 <= m < ws.len() implies sourced(#[trigger] ws[m], own_leaves(c, cp), src, sep) by {
            if m == 0 {
                assert(leaf_write(ws[0], l, idx, src, sep));
            } else {
                assert(ws[m] == rest[m - 1]);
            }
        }
    }
}

proof fn lemma_leaves_unfold_it(n: Trie, path: Seq<(Seq<char>, Binding)>)
    ensures
        leaves_of(n, path) == own_leaves(n, path) + leaves_below(n, path, 0),
{
    assert(leaves_of(n, path) =~= own_leaves(n, path) + leaves_below(n, path, 0));
}

proof fn lemma_concat_sourced(x: Seq<Write>, y: Seq<Write>, ls: Seq<Leaf>, src: Json, sep: char)
    requires
        forall|m: int| 0 <= m < x.len() ==> sourced(#[trigger] x[m], ls, src, sep),
        forall|m: int| 0 <= m < y.len() ==> sourced(#[trigger] y[m], ls, src, sep),
    ensures
        forall|m: int| 0 <= m < (x + y).len() ==> sourced(#[trigger] (x + y)[m], ls, src, sep),
{
    assert forall|m: int| 0 <= m < (x + y).len() implies sourced(#[trigger] (x + y)[m], ls, src, sep) by {
        if m < x.len() {
            assert((x + y)[m] == x[m]);
        } else {
            assert((x + y)[m] == y[m - x.len()]);
        }
    }
}

proof fn lemma_widen_sourced(x: Seq<Write>, a: Seq<Leaf>, b: Seq<Leaf>, src: Json, sep: char, left: bool)
    requires
        forall|m: int| 0 <= m < x.len() ==> sourced(#[trigger] x[m], if left { a } else { b }, src, sep),
    ensures
        forall|m: int| 0 <= m < x.len() ==> sourced(#[trigger] x[m], a + b, src, sep),
{
    assert forall|m: int| 0 <= m < x.len() implies sourced(#[trigger] x[m], a + b, src, sep) by {
        lemma_sourced_concat(x[m], a, b, src, sep);
    }
}

/// The steps of a node read the value below it.
proof fn lemma_node_value(
    path: Seq<(Seq<char>, Binding)>,
    x: (Seq<char>, Binding),
    js: Seq<usize>,
    src: Json,
    v: Json,
)
    requires
        get_at(src, trie_inst(path, 0, js, 0)) == Some(v),
        iters_from(path, 0) < js.len() || !(x.1 is Iterate),
    ensures
        get_at(src, trie_inst(path.push(x), 0, js, 0)) == get_at(v, node_steps(x, js[iters_from(path, 0) as int])),
{
    lemma_trie_inst_push(path, x, 0, js, 0);
    lemma_get_at_concat(src, trie_inst(path, 0, js, 0), node_steps(x, js[iters_from(path, 0) as int]));
}

proof fn lemma_fw_child_sourced(
    c: Trie,
    path: Seq<(Seq<char>, Binding)>,
    v: Json,
    idx: Seq<usize>,
    src: Json,
    sep: char,
)
    requires
        bind_full(c.binding),
        targets_fit(c.targets, iters_from(child_path(path, c), 0), sep),
        full_trie(c, iters_from(child_path(path, c), 0), sep),
        idx.len() == iters_from(path, 0),
        small_positions(idx),
        bounded(v),
        get_at(src, trie_inst(path, 0, idx, 0)) == Some(v),
    ensures
        forall|m: int|
            0 <= m < fw_child(c, v, idx, sep).len() ==> sourced(
                #[trigger] fw_child(c, v, idx, sep)[m],
                leaves_of(c, child_path(path, c)),
                src,
                sep,
            ),
    decreases c, c.children.len() + 2, 0int,
{
    let cp = child_path(path, c);
    let x = (c.key, c.binding);
    lemma_trie_inst_push(path, x, 0, idx, 0);
    lemma_leaves_unfold_it(c, cp);
    match c.binding {
        Binding::Iterate(s, e, st) => {
            let arr = if c.key.len() == 0 {
                Some(v)
            } else {
                lookup(v, c.key)
            };
            if let Some(Json::Array(items)) = arr {
                let apath = if c.key.len() == 0 {
                    Seq::<Step>::empty()
                } else {
                    lemma_get_one_key(v, c.key);
                    seq![Step::K(c.key)]
                };
                assert(get_at(v, apath) == Some(Json::Array(items)));
                assert(short_array(get_at(v, apath)));
                assert(c.binding == Binding::Iterate(None, None, None));
                assert(s is None && e is None && st is None);
                lemma_full_slice(items.len() as int);
                let sel = spec_slice_indices(items.len() as int, s, e, st);
                assert(sel == Seq::new(items.len() as nat, |m: int| m));
                lemma_fw_iter_sourced(c, path, items, apath, v, sel, 0, idx, src, sep);
                assert(fw_child(c, v, idx, sep) == fw_iter(c, items, sel, 0, idx, sep));
            }
        },
        _ => {
            if let Some(w) = lookup(v, c.key) {
                lemma_get_one_key(v, c.key);
                lemma_bounded_below(v, seq![Step::K(c.key)], w);
                lemma_node_value(path, x, idx, src, v);
                assert(node_steps(x, idx[iters_from(path, 0) as int]) == seq![Step::K(c.key)]);
                lemma_own_writes_sourced(c, cp, 0, w, idx, src, sep);
                let ow = own_writes(c.targets, 0, w, idx, sep);
                lemma_widen_sourced(ow, own_leaves(c, cp), leaves_below(c, cp, 0), src, sep, true);
                let cw = if c.children.len() > 0 {
                    fw_children(c, 0, w, idx, sep)
                } else {
                    Seq::empty()
                };
                if c.children.len() > 0 {
                    lemma_fw_children_sourced(c, cp, 0, w, idx, src, sep);
                }
                lemma_widen_sourced(cw, own_leaves(c, cp), leaves_below(c, cp, 0), src, sep, false);
                lemma_concat_sourced(ow, cw, leaves_of(c, cp), src, sep);
            }
        },
    }
}

proof fn lemma_fw_iter_sourced(
    c: Trie,
    path: Seq<(Seq<char>, Binding)>,
    items: Seq<Json>,
    apath: Seq<Step>,
    v: Json,
    sel: Seq<int>,
    k: int,
    idx: Seq<usize>,
    src: Json,
    sep: char,
)
    requires
        c.binding == Binding::Iterate(None, None, None),
        targets_fit(c.targets, iters_from(child_path(path, c), 0), sep),
        full_trie(c, iters_from(child_path(path, c), 0), sep),
        idx.len() == iters_from(path, 0),
        small_positions(idx),
        bounded(v),
        get_at(src, trie_inst(path, 0, idx, 0)) == Some(v),
        apath == (if c.key.len() == 0 { Seq::<Step>::empty() } else { seq![Step::K(c.key)] }),
        get_at(v, apath) == Some(Json::Array(items)),
        items.len() < usize::MAX,
        sel == Seq::new(items.len() as nat, |m: int| m),
        0 <= k <= sel.len(),
    ensures
        forall|m: int|
            0 <= m < fw_iter(c, items, sel, k, idx, sep).len() ==> sourced(
                #[trigger] fw_iter(c, items, sel, k, idx, sep)[m],
                leaves_of(c, child_path(path, c)),
                src,
                sep,
            ),
    decreases c, c.children.len() + 1, nonneg(sel.len() - k),
{
    let cp = child_path(path, c);
    let x = (c.key, c.binding);
    lemma_leaves_unfold_it(c, cp);
    if k < sel.len() {
        let elem = items[sel[k]];
        let idx2 = idx.push(k as usize);
        assert(sel[k] == k);
        lemma_small_push(idx, k as usize);
        lemma_trie_inst_prefix(path, 0, idx, idx2, 0);
        lemma_node_value(path, x, idx2, src, v);
        assert(idx2[iters_from(path, 0) as int] == k as usize);
        assert(node_steps(x, k as usize) =~= apath + seq![Step::N(k)]);
        lemma_get_one_pos(Json::Array(items), k);
        lemma_get_at_concat(v, apath, seq![Step::N(k)]);
        assert(get_at(src, trie_inst(cp, 0, idx2, 0)) == Some(elem));
        lemma_bounded_below(v, apath + seq![Step::N(k)], elem);
        lemma_trie_inst_push(path, x, 0, idx2, 0);
        lemma_own_writes_sourced(c, cp, 0, elem, idx2, src, sep);
        let ow = own_writes(c.targets, 0, elem, idx2, sep);
        lemma_widen_sourced(ow, own_leaves(c, cp), leaves_below(c, cp, 0), src, sep, true);
        let cw = if c.children.len() > 0 {
            fw_children(c, 0, elem, idx2, sep)
        } else {
            Seq::empty()
        };
        if c.children.len() > 0 {
            lemma_fw_children_sourced(c, cp, 0, elem, idx2, src, sep);
        }
        lemma_widen_sourced(cw, own_leaves(c, cp), leaves_below(c, cp, 0), src, sep, false);
        lemma_concat_sourced(ow, cw, leaves_of(c, cp), src, sep);
        lemma_fw_iter_sourced(c, path, items, apath, v, sel, k + 1, idx, src, sep);
        lemma_concat_sourced(ow + cw, fw_iter(c, items, sel, k + 1, idx, sep), leaves_of(c, cp), src, sep);
    }
}

proof fn lemma_fw_children_sourced(
    node: Trie,
    path: Seq<(Seq<char>, Binding)>,
    i: int,
    v: Json,
    idx: Seq<usize>,
    src: Json,
    sep: char,
)
    requires
        full_below(node, i, iters_from(path, 0), sep),
        0 <= i,
        idx.len() == iters_from(path, 0),
        small_positions(idx),
        bounded(v),
        get_at(src, trie_inst(path, 0, idx, 0)) == Some(v),
    ensures
        forall|m: int|
            0 <= m < fw_children(node, i, v, idx, sep).len() ==> sourced(
                #[trigger] fw_children(node, i, v, idx, sep)[m],
                leaves_below(node, path, i),
                src,
                sep,
            ),
    decreases node, nonneg(node.children.len() - i), 0int,
{
    if i < node.children.len() {
        let c = node.children[i];
        assert(decreases_to!(node => node.children));
        assert(decreases_to!(node.children => node.children[i]));
        let cp = child_path(path, c);
        lemma_trie_inst_push(path, (c.key, c.binding), 0, idx, 0);
        lemma_fw_child_sourced(c, path, v, idx, src, sep);
        lemma_fw_children_sourced(node, path, i + 1, v, idx, src, sep);
        let a = leaves_of(c, cp);
        let b = leaves_below(node, path, i + 1);
        assert(leaves_below(node, path, i) == a + b);
        lemma_widen_sourced(fw_child(c, v, idx, sep), a, b, src, sep, true);
        lemma_widen_sourced(fw_children(node, i + 1, v, idx, sep), a, b, src, sep, false);
        lemma_concat_sourced(fw_child(c, v, idx, sep), fw_children(node, i + 1, v, idx, sep), a + b, src, sep);
    }
}

// ===========================================================================
// Every write the forward walk owes, it makes
// ===========================================================================

proof fn lemma_contains_concat<A>(a: Seq<A>, b: Seq<A>, x: A)
    requires
        a.contains(x) || b.contains(x),
    ensures
        (a + b).contains(x),
{
    if a.contains(x) {
        let i = choose|i: int| 0 <= i < a.len() && a[i] == x;
        assert((a + b)[i] == x);
    } else {
        let i = choose|i: int| 0 <= i < b.len() && b[i] == x;
        assert((a + b)[a.len() + i] == x);
    }
}

/// Extending a trie path extends its instance.
proof fn lemma_trie_inst_extend(p: Seq<(Seq<char>, Binding)>, m: Seq<(Seq<char>, Binding)>, js: Seq<usize>)
    ensures
        prefix_of(trie_inst(p, 0, js, 0), trie_inst(p + m, 0, js, 0)),
        iters_from(p + m, 0) >= iters_from(p, 0),
    decreases m.len(),
{
    if m.len() == 0 {
        assert(p + m =~= p);
    } else {
        let m1 = m.drop_last();
        lemma_trie_inst_extend(p, m1, js);
        assert(p + m =~= (p + m1).push(m.last()));
        lemma_trie_inst_push(p + m1, m.last(), 0, js, 0);
        let a = trie_inst(p, 0, js, 0);
        let b = trie_inst(p + m1, 0, js, 0);
        let ns = node_steps(m.last(), js[iters_from(p + m1, 0) as int]);
        assert((b + ns).take(a.len() as int) =~= b.take(a.len() as int));
    }
}

/// Every leaf below a node lies along the node's path.
proof fn lemma_leaves_along(node: Trie, path: Seq<(Seq<char>, Binding)>, l: Leaf)
    requires
        leaves_of(node, path).contains(l),
    ensures
        l.segs.len() >= path.len(),
        l.segs.take(path.len() as int) =~= path,
    decreases node, node.children.len() + 1,
{
    lemma_leaves_unfold_it(node, path);
    let own = own_leaves(node, path);
    let i = choose|i: int| 0 <= i < leaves_of(node, path).len() && leaves_of(node, path)[i] == l;
    if i < own.len() {
        assert(l == own[i]);
    } else {
        assert(leaves_below(node, path, 0)[i - own.len()] == l);
        lemma_below_along(node, path, 0, l);
    }
}

proof fn lemma_below_along(node: Trie, path: Seq<(Seq<char>, Binding)>, i: int, l: Leaf)
    requires
        leaves_below(node, path, i).contains(l),
        0 <= i,
    ensures
        l.segs.len() >= path.len(),
        l.segs.take(path.len() as int) =~= path,
        exists|j: int|
            i <= j < node.children.len() && #[trigger] leaves_of(
                node.children[j],
                child_path(path, node.children[j]),
            ).contains(l),
    decreases node, nonneg(node.children.len() - i),
{
    if i < node.children.len() {
        let c = node.children[i];
        assert(decreases_to!(node => node.children));
        assert(decreases_to!(node.children => node.children[i]));
        let a = leaves_of(c, child_path(path, c));
        let b = leaves_below(node, path, i + 1);
        assert(leaves_below(node, path, i) == a + b);
        let k = choose|k: int| 0 <= k < (a + b).len() && (a + b)[k] == l;
        if k < a.len() {
            assert(a[k] == l);
            assert(a.contains(l));
            lemma_leaves_along(c, child_path(path, c), l);
            let cp = child_path(path, c);
            assert(l.segs.take(path.len() as int) =~= l.segs.take(cp.len() as int).take(
                path.len() as int,
            ));
            assert(cp.take(path.len() as int) =~= path);
        } else {
            assert(b[k - a.len()] == l);
            assert(b.contains(l));
            lemma_below_along(node, path, i + 1, l);
        }
    } else {
        assert(leaves_below(node, path, i) =~= Seq::<Leaf>::empty());
    }
}

/// Positions that agree with `idx` where `idx` has them.
pub open spec fn extends(js: Seq<usize>, idx: Seq<usize>) -> bool {
    idx.len() <= js.len() && forall|i: int| 0 <= i < idx.len() ==> #[trigger] js[i] == idx[i]
}

/// The value a leaf's instance reads, when the source holds it.
pub open spec fn leaf_value(l: Leaf, js: Seq<usize>, src: Json) -> Option<Json> {
    get_at(src, trie_inst(l.segs, 0, js, 0))
}

/// Reading below a node's instance: the node's instance is read first.
proof fn lemma_read_through(
    l: Leaf,
    cp: Seq<(Seq<char>, Binding)>,
    js: Seq<usize>,
    src: Json,
)
    requires
        l.segs.len() >= cp.len(),
        l.segs.take(cp.len() as int) =~= cp,
        leaf_value(l, js, src) is Some,
    ensures
        get_at(src, trie_inst(cp, 0, js, 0)) is Some,
        iters_from(l.segs, 0) >= iters_from(cp, 0),
{
    let m = l.segs.skip(cp.len() as int);
    assert(l.segs =~= cp + m);
    lemma_trie_inst_extend(cp, m, js);
    let a = trie_inst(cp, 0, js, 0);
    let b = trie_inst(cp + m, 0, js, 0);
    assert(b =~= a + b.skip(a.len() as int));
    lemma_get_at_concat(src, a, b.skip(a.len() as int));
}

proof fn lemma_fw_child_complete(
    c: Trie,
    path: Seq<(Seq<char>, Binding)>,
    v: Json,
    idx: Seq<usize>,
    src: Json,
    sep: char,
    l: Leaf,
    js: Seq<usize>,
)
    requires
        bind_full(c.binding),
        targets_fit(c.targets, iters_from(child_path(path, c), 0), sep),
        full_trie(c, iters_from(child_path(path, c), 0), sep),
        idx.len() == iters_from(path, 0),
        small_positions(idx),
        bounded(v),
        get_at(src, trie_inst(path, 0, idx, 0)) == Some(v),
        leaves_of(c, child_path(path, c)).contains(l),
        js.len() == iters_from(l.segs, 0),
        small_positions(js),
        extends(js, idx),
        leaf_value(l, js, src) is Some,
    ensures
        fw_child(c, v, idx, sep).contains((inst(ts_of(l, sep), js), leaf_value(l, js, src)->0)),
    decreases c, c.children.len() + 2, 0int,
{
    let cp = child_path(path, c);
    let x = (c.key, c.binding);
    let n = iters_from(path, 0);
    lemma_leaves_unfold_it(c, cp);
    lemma_leaves_along(c, cp, l);
    lemma_read_through(l, cp, js, src);
    lemma_trie_inst_push(path, x, 0, js, 0);
    lemma_trie_inst_prefix(path, 0, idx, js, 0);
    lemma_node_value(path, x, js, src, v);
    let own = own_leaves(c, cp);
    let below = leaves_below(c, cp, 0);
    let goal = (inst(ts_of(l, sep), js), leaf_value(l, js, src)->0);
    let li = choose|i: int| 0 <= i < leaves_of(c, cp).len() && leaves_of(c, cp)[i] == l;
    match c.binding {
        Binding::Iterate(s, e, st) => {
            assert(c.binding == Binding::Iterate(None, None, None));
            let k = js[n as int];
            let apath = if c.key.len() == 0 {
                Seq::<Step>::empty()
            } else {
                lemma_get_one_key(v, c.key);
                seq![Step::K(c.key)]
            };
            assert(node_steps(x, k) =~= apath + seq![Step::N(k as int)]);
            lemma_get_at_concat(v, apath, seq![Step::N(k as int)]);
            let arr = get_at(v, apath);
            assert(arr is Some);
            let av = arr->0;
            lemma_get_one_pos(av, k as int);
            let items = items_or_empty(av);
            assert(av == Json::Array(items));
            assert(k < items.len());
            assert(short_array(get_at(v, apath)));
            lemma_full_slice(items.len() as int);
            let sel = spec_slice_indices(items.len() as int, s, e, st);
            let idx2 = idx.push(k);
            assert(idx2 =~= js.take(n + 1int));
            lemma_small_push(idx, k);
            let elem = items[k as int];
            lemma_trie_inst_prefix(path, 0, idx, idx2, 0);
            lemma_node_value(path, x, idx2, src, v);
            assert(idx2[n as int] == k);
            assert(get_at(src, trie_inst(cp, 0, idx2, 0)) == Some(elem));
            lemma_bounded_below(v, apath + seq![Step::N(k as int)], elem);
            lemma_trie_inst_push(path, x, 0, idx2, 0);
            let ow = own_writes(c.targets, 0, elem, idx2, sep);
            let cw = if c.children.len() > 0 {
                fw_children(c, 0, elem, idx2, sep)
            } else {
                Seq::empty()
            };
            if li < own.len() {
                assert(l == own[li]);
                assert(js =~= idx2);
                lemma_own_writes_has(c, cp, 0, li, elem, idx2, sep);
                assert(ow.contains(goal)) by {
                    let segs = spec_target_segments(c.targets[li], sep);
                    lemma_target_inst(segs, 0, idx2, 0);
                    assert(segs.skip(0) =~= segs);
                    assert(idx2.skip(0) =~= idx2);
                }
                lemma_contains_concat(ow, cw, goal);
            } else {
                assert(below[li - own.len()] == l);
                assert(below.contains(l));
                lemma_fw_children_complete(c, cp, 0, elem, idx2, src, sep, l, js);
                lemma_contains_concat(ow, cw, goal);
            }
            lemma_fw_iter_has(c, items, sel, 0, k as int, idx, sep, ow + cw, goal);
            assert(fw_child(c, v, idx, sep) == fw_iter(c, items, sel, 0, idx, sep));
        },
        _ => {
            assert(node_steps(x, js[n as int]) == seq![Step::K(c.key)]);
            lemma_get_one_key(v, c.key);
            let w = lookup(v, c.key)->0;
            lemma_bounded_below(v, seq![Step::K(c.key)], w);
            lemma_trie_inst_push(path, x, 0, idx, 0);
            lemma_node_value(path, x, idx, src, v);
            let ow = own_writes(c.targets, 0, w, idx, sep);
            let cw = if c.children.len() > 0 {
                fw_children(c, 0, w, idx, sep)
            } else {
                Seq::empty()
            };
            if li < own.len() {
                assert(l == own[li]);
                assert(js =~= idx);
                lemma_own_writes_has(c, cp, 0, li, w, idx, sep);
                assert(ow.contains(goal)) by {
                    let segs = spec_target_segments(c.targets[li], sep);
                    lemma_target_inst(segs, 0, idx, 0);
                    assert(segs.skip(0) =~= segs);
                    assert(idx.skip(0) =~= idx);
                }
            } else {
                assert(below[li - own.len()] == l);
                assert(below.contains(l));
                lemma_fw_children_complete(c, cp, 0, w, idx, src, sep, l, js);
            }
            lemma_contains_concat(ow, cw, goal);
        },
    }
}

proof fn lemma_own_writes_has(
    c: Trie,
    cp: Seq<(Seq<char>, Binding)>,
    i: int,
    j: int,
    w: Json,
    idx: Seq<usize>,
    sep: char,
)
    requires
        0 <= i <= j < c.targets.len(),
    ensures
        own_writes(c.targets, i, w, idx, sep).contains(
            (target_inst(spec_target_segments(c.targets[j], sep), 0, idx, 0), w),
        ),
    decreases j - i,
{
    let ws = own_writes(c.targets, i, w, idx, sep);
    if i == j {
        assert(ws[0] == (target_inst(spec_target_segments(c.targets[j], sep), 0, idx, 0), w));
    } else {
        lemma_own_writes_has(c, cp, i + 1, j, w, idx, sep);
        let rest = own_writes(c.targets, i + 1, w, idx, sep);
        let g = (target_inst(spec_target_segments(c.targets[j], sep), 0, idx, 0), w);
        let m = choose|m: int| 0 <= m < rest.len() && rest[m] == g;
        assert(ws[m + 1] == g);
    }
}

proof fn lemma_fw_iter_has(
    c: Trie,
    items: Seq<Json>,
    sel: Seq<int>,
    k0: int,
    k: int,
    idx: Seq<usize>,
    sep: char,
    part: Seq<Write>,
    goal: Write,
)
    requires
        0 <= k0 <= k < sel.len(),
        part == own_writes(c.targets, 0, items[sel[k]], idx.push(k as usize), sep) + (if c.children.len() > 0 {
            fw_children(c, 0, items[sel[k]], idx.push(k as usize), sep)
        } else {
            Seq::empty()
        }),
        part.contains(goal),
    ensures
        fw_iter(c, items, sel, k0, idx, sep).contains(goal),
    decreases k - k0,
{
    let first = own_writes(c.targets, 0, items[sel[k0]], idx.push(k0 as usize), sep) + (if c.children.len() > 0 {
        fw_children(c, 0, items[sel[k0]], idx.push(k0 as usize), sep)
    } else {
        Seq::empty()
    });
    assert(fw_iter(c, items, sel, k0, idx, sep) == first + fw_iter(c, items, sel, k0 + 1, idx, sep));
    if k0 == k {
        lemma_contains_concat(first, fw_iter(c, items, sel, k0 + 1, idx, sep), goal);
    } else {
        lemma_fw_iter_has(c, items, sel, k0 + 1, k, idx, sep, part, goal);
        lemma_contains_concat(first, fw_iter(c, items, sel, k0 + 1, idx, sep), goal);
    }
}

proof fn lemma_fw_children_complete(
    node: Trie,
    path: Seq<(Seq<char>, Binding)>,
    i: int,
    v: Json,
    idx: Seq<usize>,
    src: Json,
    sep: char,
    l: Leaf,
    js: Seq<usize>,
)
    requires
        full_below(node, i, iters_from(path, 0), sep),
        0 <= i,
        idx.len() == iters_from(path, 0),
        small_positions(idx),
        bounded(v),
        get_at(src, trie_inst(path, 0, idx, 0)) == Some(v),
        leaves_below(node, path, i).contains(l),
        js.len() == iters_from(l.segs, 0),
        small_positions(js),
        extends(js, idx),
        leaf_value(l, js, src) is Some,
    ensures
        fw_children(node, i, v, idx, sep).contains((inst(ts_of(l, sep), js), leaf_value(l, js, src)->0)),
    decreases node, nonneg(node.children.len() - i), 0int,
{
    let goal = (inst(ts_of(l, sep), js), leaf_value(l, js, src)->0);
    if i < node.children.len() {
        let c = node.children[i];
        assert(decreases_to!(node => node.children));
        assert(decreases_to!(node.children => node.children[i]));
        let cp = child_path(path, c);
        lemma_trie_inst_push(path, (c.key, c.binding), 0, idx, 0);
        let a = leaves_of(c, cp);
        let b = leaves_below(node, path, i + 1);
        assert(leaves_below(node, path, i) == a + b);
        let k = choose|k: int| 0 <= k < (a + b).len() && (a + b)[k] == l;
        if k < a.len() {
            assert(a[k] == l);
            assert(a.contains(l));
            lemma_fw_child_complete(c, path, v, idx, src, sep, l, js);
        } else {
            assert(b[k - a.len()] == l);
            assert(b.contains(l));
            lemma_fw_children_complete(node, path, i + 1, v, idx, src, sep, l, js);
        }
        lemma_contains_concat(fw_child(c, v, idx, sep), fw_children(node, i + 1, v, idx, sep), goal);
    } else {
        assert(leaves_below(node, path, i) =~= Seq::<Leaf>::empty());
    }
}

// ===========================================================================
// What the forward walk leaves at the targets
// ===========================================================================

/// A leaf's target pattern is full and takes as many positions as its trie
/// path iterates, and its trie path is full.
pub open spec fn leaf_ok(l: Leaf, sep: char) -> bool {
    &&& ts_of(l, sep).len() > 0
    &&& all_full(ts_of(l, sep))
    &&& nslices(ts_of(l, sep)) == iters_from(l.segs, 0)
    &&& forall|i: int| 0 <= i < l.segs.len() ==> bind_full(#[trigger] l.segs[i].1)
}

/// The target patterns of different leaves part ways.
pub open spec fn targets_part(ls: Seq<Leaf>, sep: char) -> bool {
    forall|i: int, j: int|
        0 <= i < ls.len() && 0 <= j < ls.len() && i != j ==> seg_apart(
            ts_of(#[trigger] ls[i], sep),
            ts_of(#[trigger] ls[j], sep),
        )
}

/// Whenever the source holds a leaf's value at some positions, it holds it
/// at all smaller positions too.
pub open spec fn dense(ls: Seq<Leaf>, src: Json) -> bool {
    forall|l: Leaf, ja: Seq<usize>, jb: Seq<usize>|
        #![trigger leaf_value(l, ja, src), leaf_value(l, jb, src)]
        ls.contains(l) && ja.len() == jb.len() && (forall|i: int|
            0 <= i < ja.len() ==> #[trigger] ja[i] <= jb[i]) && leaf_value(l, jb, src) is Some
            ==> leaf_value(l, ja, src) is Some
}

proof fn lemma_leaf_writes_apart(
    ls: Seq<Leaf>,
    src: Json,
    sep: char,
    l1: Leaf,
    j1: Seq<usize>,
    l2: Leaf,
    j2: Seq<usize>,
)
    requires
        ls.contains(l1),
        ls.contains(l2),
        forall|i: int| 0 <= i < ls.len() ==> leaf_ok(#[trigger] ls[i], sep),
        targets_part(ls, sep),
        j1.len() == iters_from(l1.segs, 0),
        j2.len() == iters_from(l2.segs, 0),
        !(l1 == l2 && j1 == j2),
    ensures
        apart(inst(ts_of(l1, sep), j1), inst(ts_of(l2, sep), j2)),
{
    let i1 = choose|i: int| 0 <= i < ls.len() && ls[i] == l1;
    let i2 = choose|i: int| 0 <= i < ls.len() && ls[i] == l2;
    assert(leaf_ok(ls[i1], sep));
    assert(leaf_ok(ls[i2], sep));
    if l1 == l2 {
        lemma_inst_distinct(ts_of(l1, sep), j1, j2);
    } else {
        assert(i1 != i2);
        lemma_inst_apart(ts_of(l1, sep), ts_of(l2, sep), j1, j2);
    }
}

proof fn lemma_get_empty_obj(p: Seq<Step>)
    requires
        p.len() > 0,
    ensures
        get_at(Json::Object(Seq::empty()), p) is None,
{
    match p[0] {
        Step::K(k) => {
            assert(entry_index(Seq::<(Seq<char>, Json)>::empty(), k) == -1);
        },
        Step::N(j) => {},
    }
}

/// After a list of leaf writes from an empty object, each written path holds
/// its value, and no instance of a leaf the source lacks is there.
proof fn lemma_forward_reads(ws: Seq<Write>, ls: Seq<Leaf>, src: Json, sep: char)
    requires
        forall|m: int| 0 <= m < ws.len() ==> sourced(#[trigger] ws[m], ls, src, sep),
        forall|i: int| 0 <= i < ls.len() ==> leaf_ok(#[trigger] ls[i], sep),
        targets_part(ls, sep),
        dense(ls, src),
    ensures
        forall|m: int|
            0 <= m < ws.len() ==> get_at(fold_set(Json::Object(Seq::empty()), ws), (#[trigger] ws[m]).0)
                == Some(ws[m].1),
        forall|l: Leaf, js: Seq<usize>|
            #![trigger leaf_value(l, js, src)]
            ls.contains(l) && js.len() == iters_from(l.segs, 0) && leaf_value(l, js, src) is None
                ==> get_at(fold_set(Json::Object(Seq::empty()), ws), inst(ts_of(l, sep), js)) is None,
    decreases ws.len(),
{
    let e = Json::Object(Seq::<(Seq<char>, Json)>::empty());
    if ws.len() == 0 {
        assert forall|l: Leaf, js: Seq<usize>|
            #![trigger leaf_value(l, js, src)]
            ls.contains(l) && js.len() == iters_from(l.segs, 0) && leaf_value(l, js, src) is None
                implies get_at(fold_set(e, ws), inst(ts_of(l, sep), js)) is None by {
            let i = choose|i: int| 0 <= i < ls.len() && ls[i] == l;
            assert(leaf_ok(ls[i], sep));
            lemma_inst_shape(ts_of(l, sep), js);
            lemma_get_empty_obj(inst(ts_of(l, sep), js));
        }
    } else {
        let wp = ws.drop_last();
        let w = ws.last();
        assert forall|m: int| 0 <= m < wp.len() implies sourced(#[trigger] wp[m], ls, src, sep) by {
            assert(wp[m] == ws[m]);
        }
        lemma_forward_reads(wp, ls, src, sep);
        let d0 = fold_set(e, wp);
        assert(fold_set(e, ws) == set_at(d0, w.0, w.1));
        assert(sourced(ws[ws.len() - 1], ls, src, sep));
        let (l1, j1) = choose|l: Leaf, js: Seq<usize>| ls.contains(l) && #[trigger] leaf_write(
            w,
            l,
            js,
            src,
            sep,
        );
        let i1 = choose|i: int| 0 <= i < ls.len() && ls[i] == l1;
        assert(leaf_ok(ls[i1], sep));
        lemma_inst_shape(ts_of(l1, sep), j1);
        assert forall|m: int| 0 <= m < ws.len() implies get_at(fold_set(e, ws), (#[trigger] ws[m]).0)
            == Some(ws[m].1) by {
            if m == ws.len() - 1 {
                lemma_get_set_same(d0, w.0, w.1);
            } else {
                assert(wp[m] == ws[m]);
                assert(sourced(ws[m], ls, src, sep));
                let (l2, j2) = choose|l: Leaf, js: Seq<usize>| ls.contains(l) && #[trigger] leaf_write(
                    ws[m],
                    l,
                    js,
                    src,
                    sep,
                );
                if l1 == l2 && j1 == j2 {
                    lemma_get_set_same(d0, w.0, w.1);
                } else {
                    lemma_leaf_writes_apart(ls, src, sep, l1, j1, l2, j2);
                    lemma_get_set_other(d0, w.0, ws[m].0, w.1);
                }
            }
        }
        assert forall|l: Leaf, js: Seq<usize>|
            #![trigger leaf_value(l, js, src)]
            ls.contains(l) && js.len() == iters_from(l.segs, 0) && leaf_value(l, js, src) is None
                implies get_at(fold_set(e, ws), inst(ts_of(l, sep), js)) is None by {
            let x = inst(ts_of(l, sep), js);
            assert(get_at(d0, x) is None);
            assert(!(l1 == l && j1 == js));
            lemma_leaf_writes_apart(ls, src, sep, l1, j1, l, js);
            lemma_get_set_none(d0, w.0, x, w.1);
            if padded_by(w.0, x) {
                let i = choose|i: int| 0 <= i < ls.len() && ls[i] == l;
                assert(leaf_ok(ls[i], sep));
                let a = ts_of(l, sep);
                let b = ts_of(l1, sep);
                lemma_inst_shape(a, js);
                lemma_inst_runs_along(a, b, js, j1);
                lemma_prefix_not_apart(a, b);
                if l != l1 {
                    assert(i != i1);
                    assert(seg_apart(ts_of(ls[i], sep), ts_of(ls[i1], sep)));
                }
                assert(l == l1);
                assert(js.len() == j1.len());
                assert forall|t: int| 0 <= t < js.len() implies #[trigger] js[t] <= j1[t] by {
                    if t < js.len() - 1 {
                        assert(js[t] == js.drop_last()[t]);
                        assert(j1[t] == j1.take(js.len() - 1)[t]);
                    }
                }
                assert(leaf_value(l, j1, src) is Some);
                assert(leaf_value(l, js, src) is Some);
            }
        }
    }
}

// ===========================================================================
// Documents whose arrays fit the machine's positions
// ===========================================================================

/// A found array holds at most `usize::MAX` elements.
pub open spec fn fits(o: Option<Json>) -> bool {
    match o {
        Some(Json::Array(items)) => items.len() <= usize::MAX,
        _ => true,
    }
}

/// Every array found in `d` holds at most `usize::MAX` elements.
pub open spec fn fitting(d: Json) -> bool {
    forall|p: Seq<Step>| fits(#[trigger] get_at(d, p))
}

proof fn lemma_fitting_below(d: Json, a: Seq<Step>, x: Json)
    requires
        fitting(d),
        get_at(d, a) == Some(x),
    ensures
        fitting(x),
{
    assert forall|p: Seq<Step>| fits(#[trigger] get_at(x, p)) by {
        lemma_get_at_concat(d, a, p);
        assert(get_at(d, a + p) == get_at(x, p));
        assert(fits(get_at(d, a + p)));
    }
}

proof fn lemma_bounded_fitting(d: Json)
    requires
        bounded(d),
    ensures
        fitting(d),
{
    assert forall|p: Seq<Step>| fits(#[trigger] get_at(d, p)) by {
        assert(short_array(get_at(d, p)));
    }
}

/// Small positions along the path.
pub open spec fn small_steps(p: Seq<Step>) -> bool {
    forall|i: int| 0 <= i < p.len() ==> (#[trigger] p[i] matches Step::N(n) ==> 0 <= n < usize::MAX)
}

proof fn lemma_set_fitting(d: Json, p: Seq<Step>, v: Json)
    requires
        fitting(d),
        fitting(v),
        small_steps(p),
    ensures
        fitting(set_at(d, p, v)),
    decreases p.len(),
{
    let r = set_at(d, p, v);
    if p.len() > 0 {
        assert(small_steps(p.drop_first())) by {
            assert forall|i: int| 0 <= i < p.drop_first().len() implies (
            #[trigger] p.drop_first()[i] matches Step::N(n) ==> 0 <= n < usize::MAX) by {
                assert(p.drop_first()[i] == p[i + 1]);
            }
        }
        assert(p[0] matches Step::N(n) ==> 0 <= n < usize::MAX);
        let cur = match p[0] {
            Step::K(k) => {
                let obj = entries_or_empty(d);
                let i = entry_index(obj, k);
                if i >= 0 {
                    obj[i].1
                } else {
                    Json::Null
                }
            },
            Step::N(n) => padded(items_or_empty(d), n + 1)[n],
        };
        assert(fitting(cur)) by {
            match p[0] {
                Step::K(k) => {
                    let obj = entries_or_empty(d);
                    lemma_entry_index(obj, k);
                    lemma_lookup_entries(d, k);
                    if entry_index(obj, k) >= 0 {
                        lemma_get_one_key(d, k);
                        lemma_fitting_below(d, seq![Step::K(k)], cur);
                    } else {
                        assert forall|q: Seq<Step>| fits(#[trigger] get_at(Json::Null, q)) by {
                            if q.len() > 0 {
                                lemma_get_null(q);
                            }
                        }
                    }
                },
                Step::N(n) => {
                    let its = items_or_empty(d);
                    if 0 <= n < its.len() {
                        lemma_padded_index(its, n, n);
                        lemma_get_one_pos(d, n);
                        lemma_fitting_below(d, seq![Step::N(n)], cur);
                    } else {
                        assert forall|q: Seq<Step>| fits(#[trigger] get_at(Json::Null, q)) by {
                            if q.len() > 0 {
                                lemma_get_null(q);
                            }
                        }
                    }
                },
            }
        }
        lemma_set_fitting(cur, p.drop_first(), v);
        let inner = set_at(cur, p.drop_first(), v);
        assert forall|q: Seq<Step>| fits(#[trigger] get_at(r, q)) by {
            if q.len() == 0 {
                match p[0] {
                    Step::N(n) => {
                        let its = items_or_empty(d);
                        assert(fits(get_at(d, Seq::<Step>::empty())));
                    },
                    _ => {},
                }
            } else {
                match p[0] {
                    Step::K(k) => {
                        let obj = entries_or_empty(d);
                        lemma_entry_index(obj, k);
                        if let Step::K(k2) = q[0] {
                            lemma_lookup_with_entry(obj, k, inner, k2);
                            lemma_lookup_entries(d, k2);
                            if k2 != k {
                                assert(get_at(r, q) == get_at(d, q));
                            } else {
                                assert(get_at(r, q) == get_at(inner, q.drop_first()));
                            }
                        }
                    },
                    Step::N(n) => {
                        let its = items_or_empty(d);
                        let items = padded(its, n + 1);
                        if let Step::N(m) = q[0] {
                            if m == n {
                                assert(get_at(r, q) == get_at(inner, q.drop_first()));
                            } else if 0 <= m < its.len() {
                                lemma_padded_index(its, n, m);
                                assert(get_at(r, q) == get_at(d, q));
                            } else if 0 <= m < items.len() {
                                assert(items[m] == Json::Null);
                                if q.len() > 1 {
                                    lemma_get_null(q.drop_first());
                                }
                            }
                        }
                    },
                }
            }
        }
    }
}

// ===========================================================================
// What the reverse walk reads
// ===========================================================================

proof fn lemma_target_inst_step(segs: Seq<Seg>, k: int, js: Seq<usize>, pos: int)
    requires
        0 <= k < segs.len(),
    ensures
        target_inst(segs, k, js, pos) == match segs[k] {
            Seg::Key(key) => seq![Step::K(key)] + target_inst(segs, k + 1, js, pos),
            Seg::Slice(_, _, _) => seq![Step::N(js[pos] as int)] + target_inst(segs, k + 1, js, pos + 1),
            Seg::Index(n) => seq![Step::N(n as int)] + target_inst(segs, k + 1, js, pos),
        },
{
}

proof fn lemma_get_first(d: Json, h: Step, rest: Seq<Step>)
    ensures
        get_at(d, seq![h] + rest) == match h {
            Step::K(k) => match lookup(d, k) {
                Some(c) => get_at(c, rest),
                None => None,
            },
            Step::N(n) => match element(d, n) {
                Some(c) => get_at(c, rest),
                None => None,
            },
        },
{
    assert((seq![h] + rest)[0] == h);
    assert((seq![h] + rest).drop_first() =~= rest);
}

/// Every value the reverse walk reads is there, at the positions it comes
/// with.
proof fn lemma_extract_sound(d: Json, segs: Seq<Seg>, k: int, idx: Seq<usize>)
    requires
        0 <= k <= segs.len(),
        forall|i: int| k <= i < segs.len() ==> seg_full(#[trigger] segs[i]),
        fitting(d),
        small_positions(idx),
    ensures
        forall|m: int|
            0 <= m < extract(d, segs, k, idx).len() ==> {
                let r = #[trigger] extract(d, segs, k, idx)[m];
                &&& r.1.len() == idx.len() + slices_from(segs, k)
                &&& extends(r.1, idx)
                &&& small_positions(r.1)
                &&& get_at(d, target_inst(segs, k, r.1, idx.len() as int)) == Some(r.0)
            },
    decreases nonneg(segs.len() - k), 1int, 0int,
{
    let ex = extract(d, segs, k, idx);
    if k == segs.len() {
        assert(ex == seq![(d, idx)]);
        assert(target_inst(segs, k, idx, idx.len() as int) =~= Seq::<Step>::empty());
    } else {
        assert(seg_full(segs[k]));
        match segs[k] {
            Seg::Key(key) => {
                if let Some(c) = lookup(d, key) {
                    lemma_get_one_key(d, key);
                    lemma_fitting_below(d, seq![Step::K(key)], c);
                    lemma_extract_sound(c, segs, k + 1, idx);
                    assert forall|m: int| 0 <= m < ex.len() implies {
                        let r = #[trigger] ex[m];
                        &&& r.1.len() == idx.len() + slices_from(segs, k)
                        &&& extends(r.1, idx)
                        &&& small_positions(r.1)
                        &&& get_at(d, target_inst(segs, k, r.1, idx.len() as int)) == Some(r.0)
                    } by {
                        let r = ex[m];
                        lemma_target_inst_step(segs, k, r.1, idx.len() as int);
                        lemma_get_first(d, Step::K(key), target_inst(segs, k + 1, r.1, idx.len() as int));
                    }
                }
            },
            Seg::Slice(s, e, st) => {
                if let Json::Array(items) = d {
                    assert(fits(get_at(d, Seq::<Step>::empty())));
                    lemma_full_slice(items.len() as int);
                    let sel = spec_slice_indices(items.len() as int, s, e, st);
                    lemma_extract_sel_sound(items, sel, 0, segs, k, idx);
                }
            },
            Seg::Index(_) => {},
        }
    }
}

proof fn lemma_extract_sel_sound(
    items: Seq<Json>,
    sel: Seq<int>,
    j: int,
    segs: Seq<Seg>,
    k: int,
    idx: Seq<usize>,
)
    requires
        0 <= k < segs.len(),
        segs[k] is Slice,
        forall|i: int| k <= i < segs.len() ==> seg_full(#[trigger] segs[i]),
        fitting(Json::Array(items)),
        items.len() <= usize::MAX,
        sel == Seq::new(items.len() as nat, |m: int| m),
        small_positions(idx),
        0 <= j,
    ensures
        forall|m: int|
            0 <= m < extract_sel(items, sel, j, segs, k, idx).len() ==> {
                let r = #[trigger] extract_sel(items, sel, j, segs, k, idx)[m];
                &&& r.1.len() == idx.len() + slices_from(segs, k)
                &&& extends(r.1, idx)
                &&& small_positions(r.1)
                &&& get_at(Json::Array(items), target_inst(segs, k, r.1, idx.len() as int)) == Some(r.0)
            },
    decreases nonneg(segs.len() - k), 0int, nonneg(sel.len() - j),
{
    let ex = extract_sel(items, sel, j, segs, k, idx);
    if j < sel.len() {
        let idx2 = idx.push(j as usize);
        assert(sel[j] == j);
        assert(j < usize::MAX);
        lemma_small_push(idx, j as usize);
        lemma_get_one_pos(Json::Array(items), j);
        lemma_fitting_below(Json::Array(items), seq![Step::N(j)], items[j]);
        lemma_extract_sound(items[j], segs, k + 1, idx2);
        lemma_extract_sel_sound(items, sel, j + 1, segs, k, idx);
        let a = extract(items[j], segs, k + 1, idx2);
        let b = extract_sel(items, sel, j + 1, segs, k, idx);
        assert(ex == a + b);
        assert forall|m: int| 0 <= m < ex.len() implies {
            let r = #[trigger] ex[m];
            &&& r.1.len() == idx.len() + slices_from(segs, k)
            &&& extends(r.1, idx)
            &&& small_positions(r.1)
            &&& get_at(Json::Array(items), target_inst(segs, k, r.1, idx.len() as int)) == Some(r.0)
        } by {
            if m < a.len() {
                let r = a[m];
                assert(ex[m] == r);
                assert(extends(r.1, idx)) by {
                    assert forall|i: int| 0 <= i < idx.len() implies #[trigger] r.1[i] == idx[i] by {
                        assert(idx2[i] == idx[i]);
                    }
                }
                assert(r.1[idx.len() as int] == idx2[idx.len() as int]);
                lemma_target_inst_step(segs, k, r.1, idx.len() as int);
                lemma_get_first(Json::Array(items), Step::N(j), target_inst(segs, k + 1, r.1, idx.len() + 1int));
            } else {
                assert(ex[m] == b[m - a.len()]);
            }
        }
    }
}

/// Every value there at the instance of a full pattern, the reverse walk reads.
proof fn lemma_extract_complete(d: Json, segs: Seq<Seg>, k: int, idx: Seq<usize>, js: Seq<usize>, v: Json)
    requires
        0 <= k <= segs.len(),
        forall|i: int| k <= i < segs.len() ==> seg_full(#[trigger] segs[i]),
        js.len() == idx.len() + slices_from(segs, k),
        extends(js, idx),
        get_at(d, target_inst(segs, k, js, idx.len() as int)) == Some(v),
    ensures
        extract(d, segs, k, idx).contains((v, js)),
    decreases nonneg(segs.len() - k), 1int, 0int,
{
    let ex = extract(d, segs, k, idx);
    if k == segs.len() {
        assert(target_inst(segs, k, js, idx.len() as int) =~= Seq::<Step>::empty());
        assert(js =~= idx);
        assert(ex[0] == (v, js));
    } else {
        assert(seg_full(segs[k]));
        lemma_target_inst_step(segs, k, js, idx.len() as int);
        match segs[k] {
            Seg::Key(key) => {
                lemma_get_first(d, Step::K(key), target_inst(segs, k + 1, js, idx.len() as int));
                let c = lookup(d, key)->0;
                lemma_extract_complete(c, segs, k + 1, idx, js, v);
            },
            Seg::Slice(s, e, st) => {
                let n = js[idx.len() as int];
                lemma_get_first(d, Step::N(n as int), target_inst(segs, k + 1, js, idx.len() + 1int));
                let items = items_or_empty(d);
                assert(d == Json::Array(items));
                lemma_full_slice(items.len() as int);
                let sel = spec_slice_indices(items.len() as int, s, e, st);
                lemma_extract_sel_complete(items, sel, 0, n as int, segs, k, idx, js, v);
            },
            Seg::Index(_) => {},
        }
    }
}

proof fn lemma_extract_sel_complete(
    items: Seq<Json>,
    sel: Seq<int>,
    j: int,
    n: int,
    segs: Seq<Seg>,
    k: int,
    idx: Seq<usize>,
    js: Seq<usize>,
    v: Json,
)
    requires
        0 <= k < segs.len(),
        segs[k] is Slice,
        forall|i: int| k <= i < segs.len() ==> seg_full(#[trigger] segs[i]),
        sel == Seq::new(items.len() as nat, |m: int| m),
        0 <= j <= n < items.len(),
        js.len() == idx.len() + slices_from(segs, k),
        extends(js, idx),
        js[idx.len() as int] == n,
        get_at(items[n], target_inst(segs, k + 1, js, idx.len() + 1int)) == Some(v),
    ensures
        extract_sel(items, sel, j, segs, k, idx).contains((v, js)),
    decreases nonneg(segs.len() - k), 0int, nonneg(sel.len() - j),
{
    let idx2 = idx.push(j as usize);
    let a = extract(items[sel[j]], segs, k + 1, idx2);
    let b = extract_sel(items, sel, j + 1, segs, k, idx);
    assert(sel[j] == j);
    assert(extract_sel(items, sel, j, segs, k, idx) == a + b);
    if j == n {
        assert(extends(js, idx2)) by {
            assert forall|i: int| 0 <= i < idx2.len() implies #[trigger] js[i] == idx2[i] by {
                if i < idx.len() {
                    assert(idx2[i] == idx[i]);
                }
            }
        }
        lemma_extract_complete(items[n], segs, k + 1, idx2, js, v);
        lemma_contains_concat(a, b, (v, js));
    } else {
        lemma_extract_sel_complete(items, sel, j + 1, n, segs, k, idx, js, v);
        lemma_contains_concat(a, b, (v, js));
    }
}

// ===========================================================================
// The reverse walk as a list of writes
// ===========================================================================

/// The writes of the reverse walk for one leaf: each value read at an
/// instance of its target, written at the matching instance of its trie path.
pub open spec fn rw_of(l: Leaf, out: Json, sep: char) -> Seq<Write> {
    let ex = extract(out, ts_of(l, sep), 0, Seq::empty());
    Seq::new(ex.len(), |m: int| (trie_inst(l.segs, 0, ex[m].1, 0), ex[m].0))
}

/// The writes of the reverse walk for `ls[i..]`.
pub open spec fn rw_from(ls: Seq<Leaf>, i: int, out: Json, sep: char) -> Seq<Write>
    decreases ls.len() - i,
{
    if i < 0 || i >= ls.len() {
        Seq::empty()
    } else {
        rw_of(ls[i], out, sep) + rw_from(ls, i + 1, out, sep)
    }
}

proof fn lemma_put_results_writes(d: Json, l: Leaf, found: Seq<(Json, Seq<usize>)>, j: int)
    requires
        0 <= j <= found.len(),
        forall|i: int| 0 <= i < l.segs.len() ==> bind_full(#[trigger] l.segs[i].1),
        forall|m: int|
            0 <= m < found.len() ==> (#[trigger] found[m]).1.len() >= iters_from(l.segs, 0)
                && small_positions(found[m].1),
    ensures
        put_results(d, l, found, j) == Some(
            fold_set(
                d,
                Seq::new(
                    (found.len() - j) as nat,
                    |m: int| (trie_inst(l.segs, 0, found[j + m].1, 0), found[j + m].0),
                ),
            ),
        ),
    decreases found.len() - j,
{
    let ws = Seq::new(
        (found.len() - j) as nat,
        |m: int| (trie_inst(l.segs, 0, found[j + m].1, 0), found[j + m].0),
    );
    if j < found.len() {
        let r = found[j];
        lemma_put_trie_full(d, l.segs, 0, r.0, r.1, 0);
        let d1 = set_at(d, trie_inst(l.segs, 0, r.1, 0), r.0);
        lemma_put_results_writes(d1, l, found, j + 1);
        let rest = Seq::new(
            (found.len() - (j + 1)) as nat,
            |m: int| (trie_inst(l.segs, 0, found[j + 1 + m].1, 0), found[j + 1 + m].0),
        );
        assert(ws =~= seq![ws[0]] + rest);
        lemma_fold_set_append(d, seq![ws[0]], rest);
        assert(seq![ws[0]].drop_last() =~= Seq::<Write>::empty());
        assert(seq![ws[0]].last() == ws[0]);
        assert(fold_set(d, Seq::<Write>::empty()) == d);
    } else {
        assert(ws =~= Seq::<Write>::empty());
    }
}

/// The reverse walk over fitting leaves is its list of writes done in order.
proof fn lemma_rev_leaves_writes(d: Json, ls: Seq<Leaf>, i: int, out: Json, sep: char)
    requires
        0 <= i <= ls.len(),
        forall|t: int| 0 <= t < ls.len() ==> leaf_ok(#[trigger] ls[t], sep),
        fitting(out),
    ensures
        rev_leaves(d, ls, i, out, sep) == Some(fold_set(d, rw_from(ls, i, out, sep))),
    decreases ls.len() - i,
{
    if i < ls.len() {
        let l = ls[i];
        assert(leaf_ok(l, sep));
        let segs = ts_of(l, sep);
        let found = extract(out, segs, 0, Seq::empty());
        assert(forall|t: int| 0 <= t < segs.len() ==> seg_full(#[trigger] segs[t]));
        assert(small_positions(Seq::<usize>::empty()));
        lemma_extract_sound(out, segs, 0, Seq::empty());
        assert forall|m: int| 0 <= m < found.len() implies (#[trigger] found[m]).1.len()
            >= iters_from(l.segs, 0) && small_positions(found[m].1) by {
            lemma_target_inst(segs, 0, found[m].1, 0);
            assert(segs.skip(0) =~= segs);
        }
        lemma_put_results_writes(d, l, found, 0);
        let ws = Seq::new(
            (found.len() - 0) as nat,
            |m: int| (trie_inst(l.segs, 0, found[0 + m].1, 0), found[0 + m].0),
        );
        assert(ws =~= rw_of(l, out, sep));
        let d1 = fold_set(d, rw_of(l, out, sep));
        lemma_rev_leaves_writes(d1, ls, i + 1, out, sep);
        lemma_fold_set_append(d, rw_of(l, out, sep), rw_from(ls, i + 1, out, sep));
    } else {
        assert(rw_from(ls, i, out, sep) =~= Seq::<Write>::empty());
    }
}

/// Writes of values the source holds, done in order, leave each written
/// path holding what the source holds there.
proof fn lemma_backward_reads(ws: Seq<Write>, src: Json)
    requires
        forall|m: int| 0 <= m < ws.len() ==> get_at(src, (#[trigger] ws[m]).0) == Some(ws[m].1),
    ensures
        forall|m: int|
            0 <= m < ws.len() ==> get_at(fold_set(Json::Object(Seq::empty()), ws), (#[trigger] ws[m]).0)
                == Some(ws[m].1),
    decreases ws.len(),
{
    let e = Json::Object(Seq::<(Seq<char>, Json)>::empty());
    if ws.len() > 0 {
        let wp = ws.drop_last();
        let w = ws.last();
        assert forall|m: int| 0 <= m < wp.len() implies get_at(src, (#[trigger] wp[m]).0) == Some(wp[m].1) by {
            assert(wp[m] == ws[m]);
        }
        lemma_backward_reads(wp, src);
        let d0 = fold_set(e, wp);
        assert(get_at(src, w.0) == Some(w.1));
        assert forall|m: int| 0 <= m < ws.len() implies get_at(fold_set(e, ws), (#[trigger] ws[m]).0)
            == Some(ws[m].1) by {
            if m == ws.len() - 1 {
                assert(prefix_of(w.0, w.0));
                lemma_set_agrees(d0, src, w.0, w.0, w.1);
            } else {
                assert(wp[m] == ws[m]);
                lemma_set_agrees(d0, src, w.0, ws[m].0, w.1);
            }
        }
    }
}

/// The leaves below a full node have full paths and fitting targets.
proof fn lemma_leaves_full(node: Trie, path: Seq<(Seq<char>, Binding)>, i: int, sep: char)
    requires
        full_below(node, i, iters_from(path, 0), sep),
        forall|t: int| 0 <= t < path.len() ==> bind_full(#[trigger] path[t].1),
        0 <= i,
    ensures
        forall|m: int|
            0 <= m < leaves_below(node, path, i).len() ==> {
                let l = #[trigger] leaves_below(node, path, i)[m];
                &&& all_full(ts_of(l, sep))
                &&& nslices(ts_of(l, sep)) == iters_from(l.segs, 0)
                &&& forall|t: int| 0 <= t < l.segs.len() ==> bind_full(#[trigger] l.segs[t].1)
            },
    decreases node, nonneg(node.children.len() - i), 1int,
{
    if i < node.children.len() {
        let c = node.children[i];
        assert(decreases_to!(node => node.children));
        assert(decreases_to!(node.children => node.children[i]));
        let cp = child_path(path, c);
        lemma_trie_inst_push(path, (c.key, c.binding), 0, Seq::empty(), 0);
        assert forall|t: int| 0 <= t < cp.len() implies bind_full(#[trigger] cp[t].1) by {
            if t < path.len() {
                assert(cp[t] == path[t]);
            }
        }
        let mm = if c.binding is Iterate {
            iters_from(path, 0) + 1
        } else {
            iters_from(path, 0)
        };
        assert(full_trie(c, mm as nat, sep));
        assert(iters_from(cp, 0) == mm);
        assert(full_below(c, 0, iters_from(cp, 0), sep));
        lemma_leaves_full(c, cp, 0, sep);
        lemma_leaves_full(node, path, i + 1, sep);
        lemma_leaves_unfold_it(c, cp);
        let own = own_leaves(c, cp);
        let a = leaves_of(c, cp);
        let b = leaves_below(node, path, i + 1);
        assert(leaves_below(node, path, i) == a + b);
        let m_c = iters_from(cp, 0);
        assert forall|m: int| 0 <= m < (a + b).len() implies {
            let l = #[trigger] (a + b)[m];
            &&& all_full(ts_of(l, sep))
            &&& nslices(ts_of(l, sep)) == iters_from(l.segs, 0)
            &&& forall|t: int| 0 <= t < l.segs.len() ==> bind_full(#[trigger] l.segs[t].1)
        } by {
            if m < a.len() {
                assert((a + b)[m] == a[m]);
                if m < own.len() {
                    let l = own[m];
                    assert(a[m] == l);
                    let segs = spec_target_segments(c.targets[m], sep);
                    assert(targets_fit(c.targets, m_c, sep));
                    assert(forall|t: int| 0 <= t < segs.len() ==> seg_full(#[trigger] segs[t]));
                    lemma_target_inst(segs, 0, Seq::new(m_c, |t: int| 0usize), 0);
                    assert(segs.skip(0) =~= segs);
                } else {
                    assert(a[m] == leaves_below(c, cp, 0)[m - own.len()]);
                }
            } else {
                assert((a + b)[m] == b[m - a.len()]);
            }
        }
    }
}

// ===========================================================================
// The round trip
// ===========================================================================

proof fn lemma_inst_small(segs: Seq<Seg>, js: Seq<usize>)
    requires
        all_full(segs),
        small_positions(js),
        js.len() >= nslices(segs),
    ensures
        small_steps(inst(segs, js)),
    decreases segs.len(),
{
    if segs.len() > 0 {
        lemma_all_full_rest(segs);
        lemma_inst_unfold(segs, js);
        let x = inst(segs, js);
        let rest_js = if segs[0] is Slice {
            js.drop_first()
        } else {
            js
        };
        assert(small_positions(rest_js)) by {
            assert forall|i: int| 0 <= i < rest_js.len() implies #[trigger] rest_js[i] < usize::MAX by {
                if segs[0] is Slice {
                    assert(rest_js[i] == js[i + 1]);
                }
            }
        }
        lemma_inst_small(segs.drop_first(), rest_js);
        assert forall|i: int| 0 <= i < x.len() implies (#[trigger] x[i] matches Step::N(n) ==> 0
            <= n < usize::MAX) by {
            if i > 0 {
                assert(x[i] == x.drop_first()[i - 1]);
            } else {
                if segs[0] is Slice {
                    assert(js[0] < usize::MAX);
                }
            }
        }
    }
}

proof fn lemma_fold_fitting(ws: Seq<Write>, ls: Seq<Leaf>, src: Json, sep: char)
    requires
        forall|m: int| 0 <= m < ws.len() ==> sourced(#[trigger] ws[m], ls, src, sep),
        forall|i: int| 0 <= i < ls.len() ==> leaf_ok(#[trigger] ls[i], sep),
        fitting(src),
    ensures
        fitting(fold_set(Json::Object(Seq::empty()), ws)),
    decreases ws.len(),
{
    let e = Json::Object(Seq::<(Seq<char>, Json)>::empty());
    if ws.len() == 0 {
        assert forall|p: Seq<Step>| fits(#[trigger] get_at(e, p)) by {
            if p.len() > 0 {
                lemma_get_empty_obj(p);
            }
        }
    } else {
        let wp = ws.drop_last();
        let w = ws.last();
        assert forall|m: int| 0 <= m < wp.len() implies sourced(#[trigger] wp[m], ls, src, sep) by {
            assert(wp[m] == ws[m]);
        }
        lemma_fold_fitting(wp, ls, src, sep);
        assert(sourced(ws[ws.len() - 1], ls, src, sep));
        let (l, js) = choose|l: Leaf, js: Seq<usize>| ls.contains(l) && #[trigger] leaf_write(
            w,
            l,
            js,
            src,
            sep,
        );
        let i = choose|i: int| 0 <= i < ls.len() && ls[i] == l;
        assert(leaf_ok(ls[i], sep));
        lemma_inst_small(ts_of(l, sep), js);
        lemma_fitting_below(src, trie_inst(l.segs, 0, js, 0), w.1);
        lemma_set_fitting(fold_set(e, wp), w.0, w.1);
    }
}

proof fn lemma_rw_from_has(ls: Seq<Leaf>, i: int, t: int, out: Json, sep: char, w: Write)
    requires
        0 <= i <= t < ls.len(),
        rw_of(ls[t], out, sep).contains(w),
    ensures
        rw_from(ls, i, out, sep).contains(w),
    decreases t - i,
{
    if i < t {
        lemma_rw_from_has(ls, i + 1, t, out, sep, w);
    }
    lemma_contains_concat(rw_of(ls[i], out, sep), rw_from(ls, i + 1, out, sep), w);
}

/// What the forward walk leaves at a leaf's target instance is what the
/// source holds at its trie instance.
pub open spec fn reads_back(out: Json, ls: Seq<Leaf>, src: Json, sep: char) -> bool {
    forall|l: Leaf, js: Seq<usize>|
        #![trigger leaf_value(l, js, src)]
        ls.contains(l) && js.len() == iters_from(l.segs, 0) && small_positions(js) ==> get_at(
            out,
            inst(ts_of(l, sep), js),
        ) == leaf_value(l, js, src)
}

proof fn lemma_rw_valid(ls: Seq<Leaf>, i: int, out: Json, src: Json, sep: char)
    requires
        0 <= i <= ls.len(),
        forall|t: int| 0 <= t < ls.len() ==> leaf_ok(#[trigger] ls[t], sep),
        reads_back(out, ls, src, sep),
        fitting(out),
    ensures
        forall|m: int|
            0 <= m < rw_from(ls, i, out, sep).len() ==> get_at(
                src,
                (#[trigger] rw_from(ls, i, out, sep)[m]).0,
            ) == Some(rw_from(ls, i, out, sep)[m].1),
    decreases ls.len() - i,
{
    if i < ls.len() {
        lemma_rw_valid(ls, i + 1, out, src, sep);
        let l = ls[i];
        assert(leaf_ok(l, sep));
        assert(ls.contains(l));
        let segs = ts_of(l, sep);
        let ex = extract(out, segs, 0, Seq::empty());
        assert(forall|t: int| 0 <= t < segs.len() ==> seg_full(#[trigger] segs[t]));
        lemma_extract_sound(out, segs, 0, Seq::empty());
        let a = rw_of(l, out, sep);
        let b = rw_from(ls, i + 1, out, sep);
        assert forall|m: int| 0 <= m < (a + b).len() implies get_at(src, (#[trigger] (a + b)[m]).0)
            == Some((a + b)[m].1) by {
            if m < a.len() {
                let r = ex[m];
                assert((a + b)[m] == a[m]);
                assert(a[m] == (trie_inst(l.segs, 0, r.1, 0), r.0));
                lemma_target_inst(segs, 0, r.1, 0);
                assert(segs.skip(0) =~= segs);
                assert(r.1.skip(0) =~= r.1);
                assert(get_at(out, inst(segs, r.1)) == Some(r.0));
                assert(leaf_value(l, r.1, src) == get_at(out, inst(segs, r.1)));
            } else {
                assert((a + b)[m] == b[m - a.len()]);
            }
        }
    }
}

/// A trie of mappings through keys and full iterations: no targets at the
/// root; every step a direct key or `[:]`; every target a non-empty path of
/// keys and `[:]` with as many `[:]` as its trie path iterates; targets of
/// different leaves part ways.
pub open spec fn iterate_mapping(root: Trie, sep: char) -> bool {
    &&& root.targets.len() == 0
    &&& full_trie(root, 0, sep)
    &&& forall|j: int|
        0 <= j < leaves_of(root, Seq::empty()).len() ==> ts_of(
            #[trigger] leaves_of(root, Seq::empty())[j],
            sep,
        ).len() > 0
    &&& targets_part(leaves_of(root, Seq::empty()), sep)
}

/// The walk out and then the walk back give back, at every instance of a
/// leaf's trie path that the source holds, what the source held there.
proof fn lemma_iterate_roundtrip(root: Trie, src: Json, sep: char)
    requires
        iterate_mapping(root, sep),
        bounded(src),
        dense(leaves_of(root, Seq::empty()), src),
    ensures
        forward_doc(root, Seq::empty(), src, sep) matches Some(out) && (reverse_doc(root, out, sep)
            matches Some(back) && forall|l: Leaf, js: Seq<usize>|
            #![trigger leaf_value(l, js, src)]
            leaves_of(root, Seq::empty()).contains(l) && js.len() == iters_from(l.segs, 0)
                && small_positions(js) && leaf_value(l, js, src) is Some ==> get_at(
                back,
                trie_inst(l.segs, 0, js, 0),
            ) == leaf_value(l, js, src)),
{
    let path = Seq::<(Seq<char>, Binding)>::empty();
    let none = Seq::<usize>::empty();
    let e = Json::Object(Seq::<(Seq<char>, Json)>::empty());
    let g = leaves_of(root, path);
    lemma_leaves_unfold_it(root, path);
    assert(own_leaves(root, path) =~= Seq::<Leaf>::empty());
    assert(g =~= leaves_below(root, path, 0));
    assert(iters_from(path, 0) == 0);
    assert(trie_inst(path, 0, none, 0) =~= Seq::<Step>::empty());
    assert(small_positions(none));
    lemma_leaves_full(root, path, 0, sep);
    assert forall|t: int| 0 <= t < g.len() implies leaf_ok(#[trigger] g[t], sep) by {
        assert(g[t] == leaves_below(root, path, 0)[t]);
    }
    lemma_bounded_fitting(src);
    // The walk out.
    lemma_fwd_children_writes(root, 0, 0, src, e, none, sep);
    let wf = fw_children(root, 0, src, none, sep);
    let out = fold_set(e, wf);
    assert(put_targets(e, root.targets, 0, src, none, sep) == Some(e));
    assert(put_constants(out, Seq::empty(), 0, sep) == Some(out));
    assert(forward_doc(root, Seq::empty(), src, sep) == Some(out));
    lemma_fw_children_sourced(root, path, 0, src, none, src, sep);
    lemma_forward_reads(wf, g, src, sep);
    lemma_fold_fitting(wf, g, src, sep);
    assert(reads_back(out, g, src, sep)) by {
        assert forall|l: Leaf, js: Seq<usize>|
            #![trigger leaf_value(l, js, src)]
            g.contains(l) && js.len() == iters_from(l.segs, 0) && small_positions(js) implies get_at(
            out,
            inst(ts_of(l, sep), js),
        ) == leaf_value(l, js, src) by {
            if leaf_value(l, js, src) is Some {
                assert(extends(js, none));
                lemma_fw_children_complete(root, path, 0, src, none, src, sep, l, js);
                let goal = (inst(ts_of(l, sep), js), leaf_value(l, js, src)->0);
                let m = choose|m: int| 0 <= m < wf.len() && wf[m] == goal;
                assert(get_at(out, wf[m].0) == Some(wf[m].1));
            }
        }
    }
    // The walk back.
    lemma_rev_leaves_writes(e, g, 0, out, sep);
    let wr = rw_from(g, 0, out, sep);
    let back = fold_set(e, wr);
    assert(reverse_doc(root, out, sep) == Some(back));
    lemma_rw_valid(g, 0, out, src, sep);
    lemma_backward_reads(wr, src);
    assert forall|l: Leaf, js: Seq<usize>|
        #![trigger leaf_value(l, js, src)]
        g.contains(l) && js.len() == iters_from(l.segs, 0) && small_positions(js) && leaf_value(
            l,
            js,
            src,
        ) is Some implies get_at(back, trie_inst(l.segs, 0, js, 0)) == leaf_value(l, js, src) by {
        let x = leaf_value(l, js, src)->0;
        let t = choose|t: int| 0 <= t < g.len() && g[t] == l;
        assert(leaf_ok(g[t], sep));
        let segs = ts_of(l, sep);
        assert(get_at(out, inst(segs, js)) == Some(x));
        lemma_slices_count(segs, 0);
        assert(segs.skip(0) =~= segs);
        lemma_target_inst(segs, 0, js, 0);
        assert(segs.skip(0) =~= segs);
        assert(js.skip(0) =~= js);
        assert(extends(js, none));
        assert(forall|q: int| 0 <= q < segs.len() ==> seg_full(#[trigger] segs[q]));
        lemma_extract_complete(out, segs, 0, none, js, x);
        let ex = extract(out, segs, 0, none);
        let mm = choose|mm: int| 0 <= mm < ex.len() && ex[mm] == (x, js);
        let w = (trie_inst(l.segs, 0, js, 0), x);
        assert(rw_of(l, out, sep)[mm] == w);
        assert(rw_of(l, out, sep).contains(w));
        lemma_rw_from_has(g, 0, t, out, sep, w);
        let k = choose|k: int| 0 <= k < wr.len() && wr[k] == w;
        assert(get_at(back, wr[k].0) == Some(wr[k].1));
    }
}

/// Stitching and unstitching undo each other on mappings through keys and
/// full `[:]` iterations.
///
/// For a suture without constants whose mappings run through direct keys
/// and full `[:]` iterations only, each to a target of keys and `[:]` with
/// as many `[:]` as the mapping iterates, with targets of different
/// mappings parting ways, and for a source whose arrays fit the machine's
/// positions and that holds a mapped value at given positions whenever it
/// holds it at larger ones: stitching the source and unstitching the
/// result (for a response suture: unstitching, then stitching) succeed, and
/// at every instance of a mapping that the source holds, the result holds
/// what the source held.
pub proof fn lemma_iterate_mapping_roundtrip(s: SutureModel, src: Json)
    requires
        s.constants.len() == 0,
        bounded(src),
        match s.binding {
            Capture::Request(root) => iterate_mapping(root, '/') && dense(
                leaves_of(root, Seq::empty()),
                src,
            ),
            Capture::Response(root) => iterate_mapping(root, '.') && dense(
                leaves_of(root, Seq::empty()),
                src,
            ),
        },
    ensures
        match s.binding {
            Capture::Request(root) => spec_stitch(s, src) matches Some(out) && (spec_unstitch(s, out)
                matches Some(back) && forall|l: Leaf, js: Seq<usize>|
                #![trigger leaf_value(l, js, src)]
                leaves_of(root, Seq::empty()).contains(l) && js.len() == iters_from(l.segs, 0)
                    && small_positions(js) && leaf_value(l, js, src) is Some ==> get_at(
                    back,
                    trie_inst(l.segs, 0, js, 0),
                ) == leaf_value(l, js, src)),
            Capture::Response(root) => spec_unstitch(s, src) matches Some(out) && (spec_stitch(s, out)
                matches Some(back) && forall|l: Leaf, js: Seq<usize>|
                #![trigger leaf_value(l, js, src)]
                leaves_of(root, Seq::empty()).contains(l) && js.len() == iters_from(l.segs, 0)
                    && small_positions(js) && leaf_value(l, js, src) is Some ==> get_at(
                    back,
                    trie_inst(l.segs, 0, js, 0),
                ) == leaf_value(l, js, src)),
        },
{
    assert(s.constants =~= Seq::empty());
    match s.binding {
        Capture::Request(root) => lemma_iterate_roundtrip(root, src, '/'),
        Capture::Response(root) => lemma_iterate_roundtrip(root, src, '.'),
    }
}

} // verus!
