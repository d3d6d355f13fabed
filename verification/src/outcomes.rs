//! What the walks leave in the document: the value a whole-document
//! mapping reads, and the constants written at their paths.
use vstd::prelude::*;
use crate::iterate::{
    apart, bind_full, get_at, iters_from, lemma_get_set_other, lemma_get_set_same,
    lemma_put_trie_full, positions_ok, set_at, small_positions, target_inst, trie_inst, Step,
};
use crate::json::{element, entries_or_empty, entry_index, items_or_empty, lookup, padded, Json};
use crate::stitch::{
    extract, fwd_children, index_elem, leaves_below, leaves_of, put_at, put_constants, put_path, put_results, put_targets, put_trie, rev_leaves,
    spec_stitch, spec_target_segments, spec_unstitch, Leaf, Seg,
};
use crate::suture::{Binding, Capture, SutureModel, Trie};

verus! {

/// Every step of the target path is a key or a fixed index that is not
/// negative (and below the machine's bound).
pub open spec fn plain_step(s: Seg) -> bool {
    s is Key || (s matches Seg::Index(n) && 0 <= n < usize::MAX)
}

/// Every step of the target path is plain: a key or a fixed index.
pub open spec fn plain_path(segs: Seq<Seg>) -> bool {
    forall|i: int| 0 <= i < segs.len() ==> plain_step(#[trigger] segs[i])
}

/// The concrete path of a plain target path.
pub open spec fn key_path(segs: Seq<Seg>) -> Seq<Step> {
    target_inst(segs, 0, Seq::empty(), 0)
}

/// The trie of a suture, whichever its direction.
pub open spec fn trie_of_capture(c: Capture) -> Trie {
    match c {
        Capture::Request(root) => root,
        Capture::Response(root) => root,
    }
}

/// The separator of the paths the reverse walk reads: JSON paths (`/`) for
/// a request suture, struct paths (`.`) for a response suture.
pub open spec fn read_sep(c: Capture) -> char {
    match c {
        Capture::Request(_) => '/',
        Capture::Response(_) => '.',
    }
}

/// The separator of the paths the forward walk writes: JSON paths (`/`)
/// for a request suture, struct paths (`.`) for a response suture.
pub open spec fn write_sep(c: Capture) -> char {
    match c {
        Capture::Request(_) => '/',
        Capture::Response(_) => '.',
    }
}

/// What the reverse walk gives: stitching a response suture, unstitching a
/// request suture.
pub open spec fn reverse_result(s: SutureModel, src: Json) -> Option<Json> {
    match s.binding {
        Capture::Request(_) => spec_unstitch(s, src),
        Capture::Response(_) => spec_stitch(s, src),
    }
}

/// What the forward walk gives: stitching a request suture, unstitching a
/// response suture.
pub open spec fn forward_result(s: SutureModel, src: Json) -> Option<Json> {
    match s.binding {
        Capture::Request(_) => spec_stitch(s, src),
        Capture::Response(_) => spec_unstitch(s, src),
    }
}

/// Writing along a plain target path is writing along its concrete path.
proof fn lemma_put_plain(d: Json, segs: Seq<Seg>, k: int, v: Json)
    requires
        plain_path(segs),
        0 <= k <= segs.len(),
    ensures
        put_at(d, segs, k, v, Seq::empty(), 0) == Some(
            set_at(d, target_inst(segs, k, Seq::empty(), 0), v),
        ),
        positions_ok(target_inst(segs, k, Seq::empty(), 0)),
    decreases segs.len() - k,
{
    let t = target_inst(segs, k, Seq::empty(), 0);
    let rest = target_inst(segs, k + 1, Seq::empty(), 0);
    if k < segs.len() {
        assert(plain_step(segs[k]));
        match segs[k] {
            Seg::Key(key) => {
                let obj = entries_or_empty(d);
                let i = entry_index(obj, key);
                let cur = if i >= 0 {
                    obj[i].1
                } else {
                    Json::Null
                };
                lemma_put_plain(cur, segs, k + 1, v);
                assert(t == seq![Step::K(key)] + rest);
                assert(t[0] == Step::K(key));
                assert(t.drop_first() =~= rest);
            },
            Seg::Index(n) => {
                let items = padded(items_or_empty(d), n + 1);
                lemma_put_plain(items[n as int], segs, k + 1, v);
                assert(t == seq![Step::N(n as int)] + rest);
                assert(t[0] == Step::N(n as int));
                assert(t.drop_first() =~= rest);
            },
            Seg::Slice(_, _, _) => {},
        }
        assert forall|j: int| 0 <= j < t.len() implies (#[trigger] t[j] matches Step::N(m) ==> m
            >= 0) by {
            if j > 0 {
                assert(t[j] == rest[j - 1]);
            }
        }
    } else {
        assert(t =~= Seq::<Step>::empty());
    }
}

/// The same, from the first step.
proof fn lemma_put_plain_path(d: Json, segs: Seq<Seg>, v: Json)
    requires
        plain_path(segs),
    ensures
        put_at(d, segs, 0, v, Seq::empty(), 0) == Some(set_at(d, key_path(segs), v)),
        positions_ok(key_path(segs)),
{
    lemma_put_plain(d, segs, 0, v);
}

/// Reading along a plain target path finds the value at its concrete
/// path, if the source holds one, and nothing else.
proof fn lemma_extract_plain(src: Json, segs: Seq<Seg>, k: int, idx: Seq<usize>)
    requires
        plain_path(segs),
        0 <= k <= segs.len(),
    ensures
        extract(src, segs, k, idx) == match get_at(src, target_inst(segs, k, Seq::empty(), 0)) {
            Some(v) => seq![(v, idx)],
            None => Seq::empty(),
        },
    decreases segs.len() - k,
{
    let t = target_inst(segs, k, Seq::empty(), 0);
    if k < segs.len() {
        assert(plain_step(segs[k]));
        match segs[k] {
            Seg::Key(key) => {
                assert(t == seq![Step::K(key)] + target_inst(segs, k + 1, Seq::empty(), 0));
                assert(t[0] == Step::K(key));
                assert(t.drop_first() =~= target_inst(segs, k + 1, Seq::empty(), 0));
                if let Some(v) = lookup(src, key) {
                    lemma_extract_plain(v, segs, k + 1, idx);
                }
            },
            Seg::Index(n) => {
                assert(t == seq![Step::N(n as int)] + target_inst(segs, k + 1, Seq::empty(), 0));
                assert(t[0] == Step::N(n as int));
                assert(t.drop_first() =~= target_inst(segs, k + 1, Seq::empty(), 0));
                assert(index_elem(src, n) == element(src, n as int));
                if let Some(v) = element(src, n as int) {
                    lemma_extract_plain(v, segs, k + 1, idx);
                }
            },
            Seg::Slice(_, _, _) => {},
        }
    } else {
        assert(t =~= Seq::<Step>::empty());
        assert(get_at(src, t) == Some(src));
    }
}

/// Values found for a leaf at the root are each the whole document: the
/// last one found is what remains.
proof fn lemma_put_results_root(dst: Json, leaf: Leaf, rs: Seq<(Json, Seq<usize>)>, j: int)
    requires
        leaf.segs.len() == 0,
        0 <= j <= rs.len(),
    ensures
        put_results(dst, leaf, rs, j) == Some(
            if j < rs.len() {
                rs.last().0
            } else {
                dst
            },
        ),
    decreases rs.len() - j,
{
    if j < rs.len() {
        assert(put_trie(dst, leaf.segs, 0, rs[j].0, rs[j].1, 0) == Some(rs[j].0));
        lemma_put_results_root(rs[j].0, leaf, rs, j + 1);
    }
}

/// Leaves that find nothing in the source write nothing.
proof fn lemma_rev_nothing(dst: Json, ls: Seq<Leaf>, i: int, src: Json, sep: char)
    requires
        0 <= i <= ls.len(),
        forall|t: int|
            i <= t < ls.len() ==> extract(
                src,
                spec_target_segments((#[trigger] ls[t]).target, sep),
                0,
                Seq::empty(),
            ).len() == 0,
    ensures
        rev_leaves(dst, ls, i, src, sep) == Some(dst),
    decreases ls.len() - i,
{
    if i < ls.len() {
        let found = extract(src, spec_target_segments(ls[i].target, sep), 0, Seq::empty());
        assert(found.len() == 0);
        assert(put_results(dst, ls[i], found, 0) == Some(dst));
        lemma_rev_nothing(dst, ls, i + 1, src, sep);
    }
}

proof fn lemma_rev_root_leaves(
    dst: Json,
    ls: Seq<Leaf>,
    n: int,
    i: int,
    src: Json,
    sep: char,
    v: Json,
)
    requires
        0 <= i < n <= ls.len(),
        forall|t: int| 0 <= t < n ==> (#[trigger] ls[t]).segs.len() == 0,
        extract(src, spec_target_segments(ls[n - 1].target, sep), 0, Seq::empty()) == seq![
            (v, Seq::<usize>::empty()),
        ],
        forall|t: int|
            n <= t < ls.len() ==> extract(
                src,
                spec_target_segments((#[trigger] ls[t]).target, sep),
                0,
                Seq::empty(),
            ).len() == 0,
    ensures
        rev_leaves(dst, ls, i, src, sep) == Some(v),
    decreases ls.len() - i,
{
    let found = extract(src, spec_target_segments(ls[i].target, sep), 0, Seq::empty());
    assert(ls[i].segs.len() == 0);
    lemma_put_results_root(dst, ls[i], found, 0);
    let d = if found.len() > 0 {
        found.last().0
    } else {
        dst
    };
    if i == n - 1 {
        assert(found.last().0 == v);
        lemma_rev_nothing(v, ls, i + 1, src, sep);
    } else {
        lemma_rev_root_leaves(d, ls, n, i + 1, src, sep, v);
    }
}

/// A mapping of the whole document reads back the whole document.
///
/// When the root of a suture's trie carries targets (as a mapping of `/`
/// does), its last target is a plain path (keys and fixed indices) at which
/// the source holds `v`, and no leaf below the root finds anything in the
/// source, the reverse walk (stitching a response suture, unstitching a
/// request suture) gives exactly `v` as the document: the root's own
/// targets are read back, into the document itself.
pub proof fn lemma_root_target_is_whole_document(s: SutureModel, src: Json, v: Json)
    requires
        trie_of_capture(s.binding).targets.len() > 0,
        plain_path(
            spec_target_segments(trie_of_capture(s.binding).targets.last(), read_sep(s.binding)),
        ),
        get_at(
            src,
            key_path(
                spec_target_segments(trie_of_capture(s.binding).targets.last(), read_sep(s.binding)),
            ),
        ) == Some(v),
        forall|t: int|
            0 <= t < leaves_below(trie_of_capture(s.binding), Seq::empty(), 0).len() ==> extract(
                src,
                spec_target_segments(
                    (#[trigger] leaves_below(trie_of_capture(s.binding), Seq::empty(), 0)[t]).target,
                    read_sep(s.binding),
                ),
                0,
                Seq::empty(),
            ).len() == 0,
    ensures
        reverse_result(s, src) == Some(v),
{
    let root = trie_of_capture(s.binding);
    let sep = read_sep(s.binding);
    let path = Seq::<(Seq<char>, Binding)>::empty();
    let ls = leaves_of(root, path);
    let below = leaves_below(root, path, 0);
    let own = Seq::new(root.targets.len(), |i: int| Leaf { segs: path, target: root.targets[i] });
    let n = root.targets.len() as int;
    assert(ls == own + below);
    assert(ls[n - 1] == own[n - 1]);
    assert(ls[n - 1].target == root.targets.last());
    assert forall|t: int| 0 <= t < n implies (#[trigger] ls[t]).segs.len() == 0 by {
        assert(ls[t] == own[t]);
    }
    assert forall|t: int|
        n <= t < ls.len() implies extract(
            src,
            spec_target_segments((#[trigger] ls[t]).target, sep),
            0,
            Seq::empty(),
        ).len() == 0 by {
        assert(ls[t] == below[t - n]);
    }
    let segs = spec_target_segments(root.targets.last(), sep);
    lemma_extract_plain(src, segs, 0, Seq::empty());
    lemma_rev_root_leaves(Json::Object(Seq::empty()), ls, n, 0, src, sep, v);
}

/// The last leaf of the suture's trie: the last target of its last node.
pub open spec fn last_leaf(c: Capture) -> Leaf {
    leaves_of(trie_of_capture(c), Seq::empty()).last()
}

proof fn lemma_direct_no_iters(segs: Seq<(Seq<char>, Binding)>, k: int)
    requires
        forall|i: int| 0 <= i < segs.len() ==> (#[trigger] segs[i]).1 == Binding::Direct,
        0 <= k <= segs.len(),
    ensures
        iters_from(segs, k) == 0,
    decreases segs.len() - k,
{
    if k < segs.len() {
        assert(segs[k].1 == Binding::Direct);
        lemma_direct_no_iters(segs, k + 1);
    }
}

proof fn lemma_rev_last(dst: Json, ls: Seq<Leaf>, i: int, src: Json, sep: char, w: Json)
    requires
        0 <= i < ls.len(),
        forall|t: int| 0 <= t < ls.last().segs.len() ==> (#[trigger] ls.last().segs[t]).1
            == Binding::Direct,
        extract(src, spec_target_segments(ls.last().target, sep), 0, Seq::empty()) == seq![
            (w, Seq::<usize>::empty()),
        ],
    ensures
        rev_leaves(dst, ls, i, src, sep) matches Some(out) ==> get_at(
            out,
            trie_inst(ls.last().segs, 0, Seq::empty(), 0),
        ) == Some(w),
    decreases ls.len() - i,
{
    let found = extract(src, spec_target_segments(ls[i].target, sep), 0, Seq::empty());
    if i < ls.len() - 1 {
        if let Some(d) = put_results(dst, ls[i], found, 0) {
            lemma_rev_last(d, ls, i + 1, src, sep, w);
        }
    } else {
        let l = ls.last();
        assert(ls[i] == l);
        let segs = l.segs;
        let none = Seq::<usize>::empty();
        lemma_direct_no_iters(segs, 0);
        assert forall|t: int| 0 <= t < segs.len() implies bind_full((#[trigger] segs[t]).1) by {
            assert(segs[t].1 == Binding::Direct);
        }
        assert(small_positions(none));
        lemma_put_trie_full(dst, segs, 0, w, none, 0);
        let p = trie_inst(segs, 0, none, 0);
        let d1 = set_at(dst, p, w);
        assert(found[0] == (w, none));
        assert(put_results(d1, l, found, 1) == Some(d1));
        assert(put_results(dst, l, found, 0) == Some(d1));
        assert(rev_leaves(d1, ls, i + 1, src, sep) == Some(d1));
        lemma_get_set_same(dst, p, w);
    }
}

/// The last leaf of the trie is read back last.
///
/// When the last leaf of a suture's trie (the root's own targets come
/// first, then each child's leaves in order) runs through direct keys only
/// and its target is a plain path (keys and fixed indices) at which the
/// source holds `w`, the document the reverse walk gives (stitching a
/// response suture, unstitching a request suture), if it succeeds, holds
/// `w` along the leaf's trie path; for a leaf of the root, that is the
/// whole document.
pub proof fn lemma_last_leaf_read_back(s: SutureModel, src: Json, w: Json)
    requires
        leaves_of(trie_of_capture(s.binding), Seq::empty()).len() > 0,
        forall|t: int|
            0 <= t < last_leaf(s.binding).segs.len() ==> (#[trigger] last_leaf(s.binding).segs[t]).1
                == Binding::Direct,
        plain_path(spec_target_segments(last_leaf(s.binding).target, read_sep(s.binding))),
        get_at(
            src,
            key_path(spec_target_segments(last_leaf(s.binding).target, read_sep(s.binding))),
        ) == Some(w),
    ensures
        reverse_result(s, src) matches Some(out) ==> get_at(
            out,
            trie_inst(last_leaf(s.binding).segs, 0, Seq::empty(), 0),
        ) == Some(w),
{
    let root = trie_of_capture(s.binding);
    let sep = read_sep(s.binding);
    let ls = leaves_of(root, Seq::empty());
    lemma_extract_plain(src, spec_target_segments(ls.last().target, sep), 0, Seq::empty());
    lemma_rev_last(Json::Object(Seq::empty()), ls, 0, src, sep, w);
}

// ===========================================================================
// Constants
// ===========================================================================

proof fn lemma_constants_reach(
    d: Json,
    consts: Seq<(Seq<char>, Json)>,
    a: int,
    i: int,
    sep: char,
    out: Json,
)
    requires
        put_constants(d, consts, a, sep) == Some(out),
        0 <= a <= i < consts.len(),
    ensures
        exists|d2: Json| put_constants(d2, consts, i, sep) == Some(out),
    decreases i - a,
{
    if a < i {
        if let Some(d1) = put_path(d, consts[a].0, consts[a].1, Seq::empty(), sep) {
            lemma_constants_reach(d1, consts, a + 1, i, sep, out);
        }
    }
}

proof fn lemma_later_constants_keep(
    d: Json,
    consts: Seq<(Seq<char>, Json)>,
    j: int,
    sep: char,
    p: Seq<Step>,
    v: Json,
    out: Json,
)
    requires
        put_constants(d, consts, j, sep) == Some(out),
        get_at(d, p) == Some(v),
        0 <= j,
        forall|m: int|
            j <= m < consts.len() ==> plain_path(spec_target_segments(#[trigger] consts[m].0, sep))
                && apart(key_path(spec_target_segments(consts[m].0, sep)), p),
    ensures
        get_at(out, p) == Some(v),
    decreases consts.len() - j,
{
    if j < consts.len() {
        let segs = spec_target_segments(consts[j].0, sep);
        assert(plain_path(segs) && apart(key_path(segs), p));
        lemma_put_plain_path(d, segs, consts[j].1);
        let d1 = set_at(d, key_path(segs), consts[j].1);
        lemma_get_set_other(d, key_path(segs), p, consts[j].1);
        lemma_later_constants_keep(d1, consts, j + 1, sep, p, v, out);
    }
}

/// Every constant is written, whatever JSON its value is.
///
/// When the forward walk of a suture (stitching a request suture,
/// unstitching a response suture) succeeds, the document it gives holds at
/// the path of constant `i` the value of that constant, whatever JSON it
/// is, provided that path and the paths of the constants after it are plain
/// (keys and fixed indices) and the later paths part ways with it.
pub proof fn lemma_constants_are_written(s: SutureModel, src: Json, i: int)
    requires
        0 <= i < s.constants.len(),
        forall|m: int|
            i <= m < s.constants.len() ==> plain_path(
                spec_target_segments(#[trigger] s.constants[m].0, write_sep(s.binding)),
            ),
        forall|m: int|
            i < m < s.constants.len() ==> apart(
                key_path(spec_target_segments(#[trigger] s.constants[m].0, write_sep(s.binding))),
                key_path(spec_target_segments(s.constants[i].0, write_sep(s.binding))),
            ),
    ensures
        forward_result(s, src) matches Some(out) ==> get_at(
            out,
            key_path(spec_target_segments(s.constants[i].0, write_sep(s.binding))),
        ) == Some(s.constants[i].1),
{
    let root = trie_of_capture(s.binding);
    let sep = write_sep(s.binding);
    let consts = s.constants;
    let e = Json::Object(Seq::<(Seq<char>, Json)>::empty());
    if let Some(out) = forward_result(s, src) {
        let d1 = put_targets(e, root.targets, 0, src, Seq::empty(), sep)->0;
        let d2 = fwd_children(root, 0, src, d1, Seq::empty(), sep)->0;
        assert(put_constants(d2, consts, 0, sep) == Some(out));
        lemma_constants_reach(d2, consts, 0, i, sep, out);
        let d = choose|d: Json| put_constants(d, consts, i, sep) == Some(out);
        let segs = spec_target_segments(consts[i].0, sep);
        let p = key_path(segs);
        assert(plain_path(segs));
        lemma_put_plain_path(d, segs, consts[i].1);
        let di = set_at(d, p, consts[i].1);
        lemma_get_set_same(d, p, consts[i].1);
        assert(put_constants(di, consts, i + 1, sep) == Some(out));
        lemma_later_constants_keep(di, consts, i + 1, sep, p, consts[i].1, out);
    }
}

} // verus!
