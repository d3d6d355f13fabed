//! Laws of the compiled trie that span several functions.
use vstd::prelude::*;
use vstd::multiset::Multiset;
use crate::compile::{
    add_constant_items, add_constants, add_terminal, add_terminals, child_key, compile_entry,
    key_segments, lemma_compile_entry_size, lemma_match_index, match_index, merge_all, object_children,
    root_of, run_queue, run_sutures, separator, spec_chain, spec_compile, spec_merge, Build,
};
use crate::schema::{Direction, RawSetModel};
use crate::validate::{key_ok, terminal_ok};
use crate::json::{
    lemma_entry_index, lemma_values_size_concat, lemma_values_size_front, values_size, entries_or_empty, entry_index, items_or_empty, lookup, padded, with_entry, Json};
use crate::stitch::{
    extract, forward_doc, fwd_child, fwd_children, fwd_iter, leaves_below, leaves_of, nonneg, put_at,
    put_constants, put_path, put_results, put_targets, put_trie, rev_leaves, reverse_doc,
    resolve_index, spec_slice_indices, spec_stitch, spec_target_segments, spec_unstitch, Leaf,
    Seg,
};
use crate::suture::{Binding, Capture, SutureModel, Trie};

verus! {

broadcast use vstd::multiset::group_multiset_axioms;

/// The path of a child below `path`.
pub open spec fn child_path(path: Seq<(Seq<char>, Binding)>, c: Trie) -> Seq<(Seq<char>, Binding)> {
    path.push((c.key, c.binding))
}

/// The leaves a node carries itself, at `path`.
pub open spec fn own_leaves(n: Trie, path: Seq<(Seq<char>, Binding)>) -> Seq<Leaf> {
    Seq::new(n.targets.len(), |i: int| Leaf { segs: path, target: n.targets[i] })
}

proof fn lemma_leaves_of_unfold(n: Trie, path: Seq<(Seq<char>, Binding)>)
    ensures
        leaves_of(n, path) == own_leaves(n, path) + leaves_below(n, path, 0),
{
    assert(leaves_of(n, path) =~= own_leaves(n, path) + leaves_below(n, path, 0));
}

/// Two nodes with the same children have the same leaves below them.
proof fn lemma_below_same_children(a: Trie, b: Trie, path: Seq<(Seq<char>, Binding)>, i: int)
    requires
        a.children == b.children,
    ensures
        leaves_below(a, path, i) == leaves_below(b, path, i),
    decreases nonneg(a.children.len() - i),
{
    if 0 <= i < a.children.len() {
        lemma_below_same_children(a, b, path, i + 1);
    }
}

/// Two nodes whose children agree from `i` on have the same leaves below
/// them from `i` on.
proof fn lemma_below_same_suffix(a: Trie, b: Trie, path: Seq<(Seq<char>, Binding)>, i: int)
    requires
        0 <= i,
        a.children.len() == b.children.len(),
        forall|k: int| i <= k < a.children.len() ==> a.children[k] == b.children[k],
    ensures
        leaves_below(a, path, i) == leaves_below(b, path, i),
    decreases nonneg(a.children.len() - i),
{
    if i < a.children.len() {
        lemma_below_same_suffix(a, b, path, i + 1);
    }
}

/// Appending a child appends its leaves.
proof fn lemma_below_push(n: Trie, c: Trie, path: Seq<(Seq<char>, Binding)>, i: int)
    requires
        0 <= i <= n.children.len(),
    ensures
        leaves_below(Trie { children: n.children.push(c), ..n }, path, i) == leaves_below(n, path, i)
            + leaves_of(c, child_path(path, c)),
    decreases n.children.len() - i,
{
    let n2 = Trie { children: n.children.push(c), ..n };
    if i == n.children.len() {
        assert(n2.children[i] == c);
        assert(leaves_below(n2, path, i + 1) =~= Seq::<Leaf>::empty());
        assert(leaves_below(n2, path, i) =~= leaves_of(c, child_path(path, c)));
        assert(leaves_below(n, path, i) =~= Seq::<Leaf>::empty());
        assert(leaves_below(n2, path, i) =~= leaves_below(n, path, i) + leaves_of(c, child_path(path, c)));
    } else {
        lemma_below_push(n, c, path, i + 1);
        assert(n2.children[i] == n.children[i]);
        assert(leaves_below(n2, path, i) =~= leaves_below(n, path, i) + leaves_of(c, child_path(path, c)));
    }
}

proof fn lemma_ms_shift(
    l: Multiset<Leaf>,
    a: Multiset<Leaf>,
    x: Multiset<Leaf>,
    b: Multiset<Leaf>,
    y: Multiset<Leaf>,
)
    requires
        a.add(x) == b.add(y),
    ensures
        l.add(a).add(x) == l.add(b).add(y),
{
    broadcast use vstd::multiset::group_multiset_axioms;

    assert forall|v: Leaf| #[trigger] l.add(a).add(x).count(v) == l.add(b).add(y).count(v) by {
        assert(a.add(x).count(v) == b.add(y).count(v));
        assert(a.add(x).count(v) == a.count(v) + x.count(v));
        assert(b.add(y).count(v) == b.count(v) + y.count(v));
        assert(l.add(a).count(v) == l.count(v) + a.count(v));
        assert(l.add(b).count(v) == l.count(v) + b.count(v));
        assert(l.add(a).add(x).count(v) == l.add(a).count(v) + x.count(v));
        assert(l.add(b).add(y).count(v) == l.add(b).count(v) + y.count(v));
    }
    assert(l.add(a).add(x) =~= l.add(b).add(y));
}

proof fn lemma_ms_cancel(
    bm: Multiset<Leaf>,
    le: Multiset<Leaf>,
    bp: Multiset<Leaf>,
    lx: Multiset<Leaf>,
    lc: Multiset<Leaf>,
)
    requires
        bm.add(le) == bp.add(lx),
        lx == le.add(lc),
    ensures
        bm == bp.add(lc),
{
    broadcast use vstd::multiset::group_multiset_axioms;

    assert forall|v: Leaf| #[trigger] bm.count(v) == bp.add(lc).count(v) by {
        assert(bm.add(le).count(v) == bp.add(lx).count(v));
        assert(lx.count(v) == le.add(lc).count(v));
        assert(bm.add(le).count(v) == bm.count(v) + le.count(v));
        assert(bp.add(lx).count(v) == bp.count(v) + lx.count(v));
        assert(le.add(lc).count(v) == le.count(v) + lc.count(v));
        assert(bp.add(lc).count(v) == bp.count(v) + lc.count(v));
    }
    assert(bm =~= bp.add(lc));
}

/// Replacing child `j` by `x` (with the same key and binding) replaces its
/// leaves, counted as multisets.
proof fn lemma_below_update(n: Trie, j: int, x: Trie, path: Seq<(Seq<char>, Binding)>, i: int)
    requires
        0 <= i <= j < n.children.len(),
        x.key == n.children[j].key,
        x.binding == n.children[j].binding,
    ensures
        leaves_below(Trie { children: n.children.update(j, x), ..n }, path, i).to_multiset().add(
            leaves_of(n.children[j], child_path(path, n.children[j])).to_multiset(),
        ) == leaves_below(n, path, i).to_multiset().add(
            leaves_of(x, child_path(path, x)).to_multiset(),
        ),
    decreases j - i,
{
    let n2 = Trie { children: n.children.update(j, x), ..n };
    let lx = leaves_of(x, child_path(path, x));
    let le = leaves_of(n.children[j], child_path(path, n.children[j]));
    if i == j {
        lemma_below_same_suffix(n2, n, path, j + 1);
        let rest = leaves_below(n, path, j + 1);
        assert(leaves_below(n2, path, j) == lx + rest);
        assert(leaves_below(n, path, j) == le + rest);
        vstd::seq_lib::lemma_multiset_commutative(lx, rest);
        vstd::seq_lib::lemma_multiset_commutative(le, rest);
        assert(leaves_below(n2, path, i).to_multiset().add(le.to_multiset()) =~= leaves_below(
            n,
            path,
            i,
        ).to_multiset().add(lx.to_multiset()));
    } else {
        lemma_below_update(n, j, x, path, i + 1);
        let li = leaves_of(n.children[i], child_path(path, n.children[i]));
        assert(n2.children[i] == n.children[i]);
        assert(leaves_below(n2, path, i) == li + leaves_below(n2, path, i + 1));
        assert(leaves_below(n, path, i) == li + leaves_below(n, path, i + 1));
        let b2 = leaves_below(n2, path, i + 1);
        let b1 = leaves_below(n, path, i + 1);
        vstd::seq_lib::lemma_multiset_commutative(li, b2);
        vstd::seq_lib::lemma_multiset_commutative(li, b1);
        assert(leaves_below(n2, path, i).to_multiset() =~= li.to_multiset().add(b2.to_multiset()));
        assert(leaves_below(n, path, i).to_multiset() =~= li.to_multiset().add(b1.to_multiset()));
        assert(b2.to_multiset().add(le.to_multiset()) == b1.to_multiset().add(lx.to_multiset()));
        lemma_ms_shift(
            li.to_multiset(),
            b2.to_multiset(),
            le.to_multiset(),
            b1.to_multiset(),
            lx.to_multiset(),
        );
    }
}

/// Merging keeps the key and binding of the node merged into.
proof fn lemma_merge_all_keeps_key(p: Trie, cs: Seq<Trie>)
    ensures
        merge_all(p, cs).key == p.key,
        merge_all(p, cs).binding == p.binding,
    decreases cs.len(),
{
    if cs.len() > 0 {
        lemma_merge_all_keeps_key(spec_merge(p, cs[0]), cs.drop_first());
    }
}

/// Merging the children `c.children[k..]` into `p` adds their leaves.
proof fn lemma_merge_all_leaves(p: Trie, c: Trie, k: int, path: Seq<(Seq<char>, Binding)>)
    requires
        0 <= k <= c.children.len(),
    ensures
        leaves_of(merge_all(p, c.children.skip(k)), path).to_multiset() == leaves_of(
            p,
            path,
        ).to_multiset().add(leaves_below(c, path, k).to_multiset()),
    decreases c, 0int, c.children.len() - k,
{
    if k == c.children.len() {
        assert(c.children.skip(k) =~= Seq::<Trie>::empty());
        assert(leaves_below(c, path, k) =~= Seq::<Leaf>::empty());
        vstd::seq_lib::lemma_multiset_commutative(leaves_of(p, path), Seq::<Leaf>::empty());
        assert(leaves_of(p, path) + Seq::<Leaf>::empty() =~= leaves_of(p, path));
    } else {
        let ck = c.children[k];
        let cs = c.children.skip(k);
        assert(cs[0] == ck);
        assert(cs.drop_first() =~= c.children.skip(k + 1));
        let p2 = spec_merge(p, ck);
        assert(decreases_to!(c => c.children));
        assert(decreases_to!(c.children => c.children[k]));
        lemma_merge_leaves(p, ck, path);
        lemma_merge_all_leaves(p2, c, k + 1, path);
        let lk = leaves_of(ck, child_path(path, ck));
        assert(leaves_below(c, path, k) == lk + leaves_below(c, path, k + 1));
        vstd::seq_lib::lemma_multiset_commutative(lk, leaves_below(c, path, k + 1));
        assert(leaves_of(merge_all(p, cs), path).to_multiset() =~= leaves_of(p, path).to_multiset().add(
            leaves_below(c, path, k).to_multiset(),
        ));
    }
}

/// Merging a child into a trie keeps every leaf of both: the leaves of the
/// merged trie are those of the parent together with those of the child
/// (at the child's path), counted with multiplicity. Targets accumulate;
/// none is lost or duplicated.
pub proof fn lemma_merge_leaves(parent: Trie, child: Trie, path: Seq<(Seq<char>, Binding)>)
    ensures
        leaves_of(spec_merge(parent, child), path).to_multiset() == leaves_of(
            parent,
            path,
        ).to_multiset().add(leaves_of(child, child_path(path, child)).to_multiset()),
    decreases child, 1int, 0int,
{
    lemma_match_index(parent.children, child.key, child.binding);
    let i = match_index(parent.children, child.key, child.binding);
    let m = spec_merge(parent, child);
    let lc = leaves_of(child, child_path(path, child));
    lemma_leaves_of_unfold(parent, path);
    lemma_leaves_of_unfold(m, path);
    if 0 <= i < parent.children.len() {
        let e = parent.children[i];
        let e1 = Trie { targets: e.targets + child.targets, ..e };
        let x = merge_all(e1, child.children);
        let pe = child_path(path, child);
        assert(child_path(path, e) == pe);
        assert(m == Trie { children: parent.children.update(i, x), ..parent });
        lemma_merge_all_keeps_key(e1, child.children);
        assert(child.children.skip(0) =~= child.children);
        lemma_merge_all_leaves(e1, child, 0, pe);
        lemma_leaves_of_unfold(e1, pe);
        lemma_leaves_of_unfold(e, pe);
        lemma_leaves_of_unfold(child, pe);
        lemma_below_same_children(e1, e, pe, 0);
        assert(own_leaves(e1, pe) =~= own_leaves(e, pe) + own_leaves(child, pe));
        vstd::seq_lib::lemma_multiset_commutative(own_leaves(e, pe), own_leaves(child, pe));
        vstd::seq_lib::lemma_multiset_commutative(own_leaves(e1, pe), leaves_below(e1, pe, 0));
        vstd::seq_lib::lemma_multiset_commutative(own_leaves(e, pe), leaves_below(e, pe, 0));
        vstd::seq_lib::lemma_multiset_commutative(own_leaves(child, pe), leaves_below(child, pe, 0));
        let le = leaves_of(e, pe);
        let lx = leaves_of(x, pe);
        assert(lx.to_multiset() =~= le.to_multiset().add(lc.to_multiset()));
        lemma_below_update(parent, i, x, path, 0);
        assert(child_path(path, x) == pe);
        assert(child_path(path, parent.children[i]) == pe);
        assert(leaves_of(parent.children[i], child_path(path, parent.children[i])) == le);
        assert(leaves_of(x, child_path(path, x)) == lx);
        assert(leaves_below(Trie { children: parent.children.update(i, x), ..parent }, path, 0) == leaves_below(m, path, 0));
        let bp = leaves_below(parent, path, 0);
        let bm = leaves_below(m, path, 0);
        assert(bm.to_multiset().add(le.to_multiset()) == bp.to_multiset().add(lx.to_multiset()));
        lemma_ms_cancel(
            bm.to_multiset(),
            le.to_multiset(),
            bp.to_multiset(),
            lx.to_multiset(),
            lc.to_multiset(),
        );
        let own = own_leaves(parent, path);
        assert(own_leaves(m, path) == own);
        vstd::seq_lib::lemma_multiset_commutative(own, bm);
        vstd::seq_lib::lemma_multiset_commutative(own, bp);
        assert(leaves_of(m, path).to_multiset() =~= leaves_of(parent, path).to_multiset().add(
            lc.to_multiset(),
        ));
    } else {
        assert(m == Trie { children: parent.children.push(child), ..parent });
        lemma_below_push(parent, child, path, 0);
        assert(own_leaves(m, path) == own_leaves(parent, path));
        assert(leaves_of(m, path) =~= leaves_of(parent, path) + lc);
        vstd::seq_lib::lemma_multiset_commutative(leaves_of(parent, path), lc);
    }
}


/// A suture captures exactly one direction.
pub proof fn lemma_one_direction(s: SutureModel)
    ensures
        (s.binding is Request) != (s.binding is Response),
{
}


/// A single index `[N]`, compiled as the range `N, N+1` with step 1,
/// selects element `N` of a collection, counted from the end when negative,
/// and nothing when that lies outside the collection.
pub proof fn lemma_single_index_selects(len: int, n: i64)
    requires
        len >= 0,
        n < i64::MAX,
    ensures
        spec_slice_indices(len, Some(n), Some((n + 1) as i64), Some(1)) == (if 0 <= resolve_index(
            n as int,
            len,
        ) < len {
            seq![resolve_index(n as int, len)]
        } else {
            Seq::<int>::empty()
        }),
{
}


/// The elements a selection picks, in selection order.
pub open spec fn selected(items: Seq<Json>, sel: Seq<int>) -> Seq<Json> {
    Seq::new(sel.len(), |q: int| items[sel[q]])
}

/// The document after `j` iterations that each write one element under
/// `out` at its enumeration position: an empty object before the first,
/// then an object holding the dense array of the elements written so far.
pub open spec fn dense_after(out: Seq<char>, items: Seq<Json>, sel: Seq<int>, j: int) -> Json {
    if j <= 0 {
        Json::Object(Seq::empty())
    } else {
        Json::Object(seq![(out, Json::Array(selected(items, sel).take(j)))])
    }
}

proof fn lemma_dense_step(
    c: Trie,
    items: Seq<Json>,
    sel: Seq<int>,
    k: int,
    out: Seq<char>,
    sep: char,
    sl: (Option<i64>, Option<i64>, Option<i64>),
)
    requires
        c.children.len() == 0,
        c.targets.len() == 1,
        spec_target_segments(c.targets[0], sep) == seq![Seg::Key(out), Seg::Slice(sl.0, sl.1, sl.2)],
        0 <= k <= sel.len(),
        sel.len() < usize::MAX,
    ensures
        fwd_iter(c, items, sel, k, dense_after(out, items, sel, k), Seq::empty(), sep) == Some(
            dense_after(out, items, sel, sel.len() as int),
        ),
    decreases sel.len() - k,
{
    if k < sel.len() {
        let segs = seq![Seg::Key(out), Seg::Slice(sl.0, sl.1, sl.2)];
        let elem = items[sel[k]];
        let idx2 = Seq::<usize>::empty().push(k as usize);
        let d = dense_after(out, items, sel, k);
        let prefix = selected(items, sel).take(k);
        let next = dense_after(out, items, sel, k + 1);
        assert(selected(items, sel).take(k + 1) =~= prefix.push(elem));
        let obj = entries_or_empty(d);
        let cur = if k == 0 {
            Json::Null
        } else {
            Json::Array(prefix)
        };
        if k == 0 {
            assert(obj =~= Seq::<(Seq<char>, Json)>::empty());
            assert(entry_index(obj, out) == -1);
            assert(prefix =~= Seq::<Json>::empty());
        } else {
            assert(obj == seq![(out, Json::Array(prefix))]);
            assert(obj.drop_last() =~= Seq::<(Seq<char>, Json)>::empty());
            assert(entry_index(Seq::<(Seq<char>, Json)>::empty(), out) == -1);
            assert(entry_index(obj, out) == 0);
        }
        let padded_items = padded(items_or_empty(cur), k + 1);
        assert(items_or_empty(cur) =~= prefix);
        assert(padded_items =~= prefix.push(Json::Null));
        assert(put_at(padded_items[k], segs, 2, elem, idx2, 1) == Some(elem));
        assert(padded_items.update(k, elem) =~= prefix.push(elem));
        assert(put_at(cur, segs, 1, elem, idx2, 0) == Some(Json::Array(prefix.push(elem))));
        assert(with_entry(obj, out, Json::Array(prefix.push(elem))) =~= seq![
            (out, Json::Array(prefix.push(elem))),
        ]);
        assert(put_at(d, segs, 0, elem, idx2, 0) == Some(next));
        assert(put_path(d, c.targets[0], elem, idx2, sep) == Some(next));
        assert(put_targets(next, c.targets, 1, elem, idx2, sep) == Some(next));
        assert(put_targets(d, c.targets, 0, elem, idx2, sep) == Some(next));
        lemma_dense_step(c, items, sel, k + 1, out, sep, sl);
    }
}

/// Iteration writes a dense array in selection order.
///
/// For a request suture whose one mapping iterates the array under a field
/// (with any slice) into the JSON path `/out/[:]`, stitching writes the
/// selected elements at positions 0, 1, 2, ... of `out`, whatever positions
/// the slice picked them from.
pub proof fn lemma_iteration_is_dense(
    s: SutureModel,
    src: Json,
    items: Seq<Json>,
    out: Seq<char>,
    sl: (Option<i64>, Option<i64>, Option<i64>),
)
    requires
        s.constants.len() == 0,
        s.binding matches Capture::Request(root) && root.targets.len() == 0
            && root.children.len() == 1 && root.children[0].key.len() > 0
            && root.children[0].children.len() == 0 && root.children[0].targets.len() == 1
            && spec_target_segments(root.children[0].targets[0], '/') == seq![
            Seg::Key(out),
            Seg::Slice(sl.0, sl.1, sl.2),
        ] && lookup(src, root.children[0].key) == Some(Json::Array(items)),
        s.binding->Request_0.children[0].binding matches Binding::Iterate(a, b, st)
            && spec_slice_indices(items.len() as int, a, b, st).len() < usize::MAX,
    ensures
        s.binding->Request_0.children[0].binding matches Binding::Iterate(a, b, st) && spec_stitch(
            s,
            src,
        ) == Some(
            dense_after(
                out,
                items,
                spec_slice_indices(items.len() as int, a, b, st),
                spec_slice_indices(items.len() as int, a, b, st).len() as int,
            ),
        ),
{
    let root = s.binding->Request_0;
    let c = root.children[0];
    let no_idx = Seq::<usize>::empty();
    let e0 = Json::Object(Seq::empty());
    if let Binding::Iterate(a, b, st) = c.binding {
        let sel = spec_slice_indices(items.len() as int, a, b, st);
        let fin = dense_after(out, items, sel, sel.len() as int);
        assert(dense_after(out, items, sel, 0) == e0);
        lemma_dense_step(c, items, sel, 0, out, '/', sl);
        assert(fwd_child(c, src, e0, no_idx, '/') == Some(fin));
        assert(fwd_children(root, 1, src, fin, no_idx, '/') == Some(fin));
        assert(fwd_children(root, 0, src, e0, no_idx, '/') == Some(fin));
        assert(put_targets(e0, root.targets, 0, src, no_idx, '/') == Some(e0));
        assert(s.constants =~= Seq::empty());
        assert(put_constants(fin, s.constants, 0, '/') == Some(fin));
    }
}


// ===========================================================================
// Compiled sutures only hold valid terminals
// ===========================================================================

/// Every leaf's target is a valid terminal of the direction.
pub open spec fn leaves_ok(ls: Seq<Leaf>, d: Direction) -> bool {
    forall|k: int| 0 <= k < ls.len() ==> terminal_ok(#[trigger] ls[k].target, d)
}

/// Every constant's path is a valid terminal of the direction.
pub open spec fn consts_ok(cs: Seq<(Seq<char>, Json)>, d: Direction) -> bool {
    forall|k: int| 0 <= k < cs.len() ==> terminal_ok(#[trigger] cs[k].0, d)
}

pub open spec fn build_ok(b: Build, d: Direction) -> bool {
    leaves_ok(leaves_of(b.root, Seq::empty()), d) && consts_ok(b.consts, d)
}

/// The leaves of `a` are valid when those of `b` and `c` are and `a`
/// holds, counted as multisets, the leaves of both.
proof fn lemma_leaves_ok_sum(a: Seq<Leaf>, b: Seq<Leaf>, c: Seq<Leaf>, d: Direction)
    requires
        a.to_multiset() == b.to_multiset().add(c.to_multiset()),
        leaves_ok(b, d),
        leaves_ok(c, d),
    ensures
        leaves_ok(a, d),
{
    broadcast use vstd::seq_lib::to_multiset_contains;
    broadcast use vstd::multiset::group_multiset_axioms;

    assert forall|k: int| 0 <= k < a.len() implies terminal_ok(#[trigger] a[k].target, d) by {
        let l = a[k];
        assert(a.contains(l));
        assert(a.to_multiset().count(l) > 0);
        assert(b.to_multiset().add(c.to_multiset()).count(l) == b.to_multiset().count(l)
            + c.to_multiset().count(l));
        if b.to_multiset().count(l) > 0 {
            assert(b.contains(l));
            let j = choose|j: int| 0 <= j < b.len() && b[j] == l;
            assert(terminal_ok(b[j].target, d));
        } else {
            assert(c.to_multiset().count(l) > 0);
            assert(c.contains(l));
            let j = choose|j: int| 0 <= j < c.len() && c[j] == l;
            assert(terminal_ok(c[j].target, d));
        }
    }
}

/// A chain's only leaf carries its target.
proof fn lemma_chain_leaves(segs: Seq<Seq<char>>, t: Seq<char>, path: Seq<(Seq<char>, Binding)>, d: Direction)
    requires
        segs.len() >= 1,
        terminal_ok(t, d),
    ensures
        leaves_ok(leaves_of(spec_chain(segs, t), path), d),
    decreases segs.len(),
{
    let ch = spec_chain(segs, t);
    lemma_leaves_of_unfold(ch, path);
    if segs.len() <= 1 {
        assert(leaves_below(ch, path, 0) =~= Seq::<Leaf>::empty());
        assert(own_leaves(ch, path) =~= seq![Leaf { segs: path, target: t }]);
        assert(leaves_of(ch, path) =~= seq![Leaf { segs: path, target: t }]);
    } else {
        let sub = spec_chain(segs.drop_first(), t);
        lemma_chain_leaves(segs.drop_first(), t, child_path(path, sub), d);
        assert(ch.children[0] == sub);
        assert(leaves_below(ch, path, 1) =~= Seq::<Leaf>::empty());
        assert(leaves_below(ch, path, 0) =~= leaves_of(sub, child_path(path, sub)));
        assert(own_leaves(ch, path) =~= Seq::<Leaf>::empty());
        assert(leaves_of(ch, path) =~= leaves_of(sub, child_path(path, sub)));
    }
}

/// Adding a valid terminal keeps the trie's leaves valid.
proof fn lemma_add_terminal_ok(root: Trie, segs: Seq<Seq<char>>, t: Seq<char>, d: Direction)
    requires
        leaves_ok(leaves_of(root, Seq::empty()), d),
        terminal_ok(t, d),
    ensures
        leaves_ok(leaves_of(add_terminal(root, segs, t), Seq::empty()), d),
{
    let path = Seq::<(Seq<char>, Binding)>::empty();
    let r2 = add_terminal(root, segs, t);
    if segs.len() == 0 {
        lemma_leaves_of_unfold(root, path);
        lemma_leaves_of_unfold(r2, path);
        lemma_below_same_children(r2, root, path, 0);
        let own = own_leaves(root, path);
        let below = leaves_below(root, path, 0);
        assert(own_leaves(r2, path) =~= own.push(Leaf { segs: path, target: t }));
        assert forall|k: int| 0 <= k < leaves_of(r2, path).len() implies terminal_ok(
            #[trigger] leaves_of(r2, path)[k].target,
            d,
        ) by {
            if k < own.len() {
                assert(leaves_of(r2, path)[k] == leaves_of(root, path)[k]);
            } else if k > own.len() {
                assert(leaves_of(r2, path)[k] == leaves_of(root, path)[k - 1]);
            }
        }
    } else {
        let ch = spec_chain(segs, t);
        lemma_merge_leaves(root, ch, path);
        lemma_chain_leaves(segs, t, child_path(path, ch), d);
        lemma_leaves_ok_sum(
            leaves_of(r2, path),
            leaves_of(root, path),
            leaves_of(ch, child_path(path, ch)),
            d,
        );
    }
}

proof fn lemma_add_terminals_ok(root: Trie, segs: Seq<Seq<char>>, items: Seq<Json>, k: int, d: Direction)
    requires
        leaves_ok(leaves_of(root, Seq::empty()), d),
    ensures
        add_terminals(root, segs, items, k, d) matches Some(r) ==> leaves_ok(
            leaves_of(r, Seq::empty()),
            d,
        ),
    decreases items.len() - k,
{
    if 0 <= k < items.len() {
        if let Json::Str(t) = items[k] {
            if terminal_ok(t, d) {
                lemma_add_terminal_ok(root, segs, t, d);
                lemma_add_terminals_ok(add_terminal(root, segs, t), segs, items, k + 1, d);
            }
        }
    }
}

proof fn lemma_add_constant_items_ok(
    consts: Seq<(Seq<char>, Json)>,
    items: Seq<Json>,
    k: int,
    d: Direction,
)
    requires
        consts_ok(consts, d),
    ensures
        add_constant_items(consts, items, k, d) matches Some(c) ==> consts_ok(c, d),
    decreases items.len() - k,
{
    if 0 <= k < items.len() {
        if let Json::Object(es) = items[k] {
            if es.len() == 1 && terminal_ok(es[0].0, d) {
                assert(consts_ok(consts.push(es[0]), d));
                lemma_add_constant_items_ok(consts.push(es[0]), items, k + 1, d);
            }
        }
    }
}

proof fn lemma_object_children_ok(
    consts: Seq<(Seq<char>, Json)>,
    more: Seq<(Seq<char>, Json)>,
    key: Seq<char>,
    es: Seq<(Seq<char>, Json)>,
    k: int,
    d: Direction,
)
    requires
        consts_ok(consts, d),
    ensures
        object_children(consts, more, key, es, k, d) matches Some((c, _)) ==> consts_ok(c, d),
    decreases es.len() - k,
{
    if 0 <= k < es.len() {
        if es[k].0 == "_"@ {
            if let Json::Array(items) = es[k].1 {
                lemma_add_constant_items_ok(consts, items, 0, d);
            }
            if let Some(c2) = add_constants(consts, es[k].1, d) {
                lemma_object_children_ok(c2, more, key, es, k + 1, d);
            }
        } else {
            lemma_object_children_ok(
                consts,
                more.push((child_key(key, es[k].0, separator(d)), es[k].1)),
                key,
                es,
                k + 1,
                d,
            );
        }
    }
}

proof fn lemma_compile_entry_ok(st: Build, key: Seq<char>, val: Json, d: Direction)
    requires
        build_ok(st, d),
    ensures
        compile_entry(st, key, val, d) matches Some((st2, _)) ==> build_ok(st2, d),
{
    if key == "_"@ {
        if let Json::Array(items) = val {
            lemma_add_constant_items_ok(st.consts, items, 0, d);
        }
    } else if key_ok(key, d) {
        let segs = key_segments(key, separator(d));
        match val {
            Json::Str(t) => {
                if terminal_ok(t, d) {
                    lemma_add_terminal_ok(st.root, segs, t, d);
                }
            },
            Json::Array(items) => {
                lemma_add_terminals_ok(st.root, segs, items, 0, d);
            },
            Json::Object(es) => {
                lemma_object_children_ok(st.consts, Seq::empty(), key, es, 0, d);
            },
            _ => {},
        }
    }
}

proof fn lemma_run_queue_ok(st: Build, q: Seq<(Seq<char>, Json)>, d: Direction)
    requires
        build_ok(st, d),
    ensures
        run_queue(st, q, d) matches Some(b) ==> build_ok(b, d),
    decreases values_size(q),
{
    if q.len() > 0 {
        lemma_compile_entry_ok(st, q[0].0, q[0].1, d);
        if let Some((st2, more)) = compile_entry(st, q[0].0, q[0].1, d) {
            lemma_compile_entry_size(st, q[0].0, q[0].1, d);
            lemma_values_size_front(q);
            lemma_values_size_concat(q.drop_first(), more);
            lemma_run_queue_ok(st2, q.drop_first() + more, d);
        }
    }
}

proof fn lemma_run_sutures_ok(st: Build, sutures: Seq<Json>, i: int, d: Direction)
    requires
        build_ok(st, d),
    ensures
        run_sutures(st, sutures, i, d) matches Some(b) ==> build_ok(b, d),
    decreases sutures.len() - i,
{
    if 0 <= i < sutures.len() {
        if let Json::Object(es) = sutures[i] {
            lemma_run_queue_ok(st, es, d);
            if let Some(st2) = run_queue(st, es, d) {
                lemma_run_sutures_ok(st2, sutures, i + 1, d);
            }
        }
    }
}

/// A compiled suture holds only valid terminals: every target in its trie
/// and every constant's path passed `validate_terminal` for the set's
/// direction.
pub proof fn lemma_compiled_terminals_valid(set: RawSetModel)
    ensures
        spec_compile(set) matches Some(m) ==> consts_ok(m.constants, set.direction) && match m.binding {
            Capture::Request(root) => leaves_ok(leaves_of(root, Seq::empty()), set.direction),
            Capture::Response(root) => leaves_ok(leaves_of(root, Seq::empty()), set.direction),
        },
{
    let init = Build { root: root_of(set.name), consts: Seq::empty() };
    let path = Seq::<(Seq<char>, Binding)>::empty();
    lemma_leaves_of_unfold(init.root, path);
    assert(leaves_below(init.root, path, 0) =~= Seq::<Leaf>::empty());
    assert(leaves_of(init.root, path) =~= Seq::<Leaf>::empty());
    assert(build_ok(init, set.direction));
    lemma_run_sutures_ok(init, set.sutures, 0, set.direction);
}


// ===========================================================================
// Round trip of flat direct mappings
// ===========================================================================

/// The key a target reaches when its path is one plain key.
pub open spec fn target_key(c: Trie, sep: char) -> Seq<char> {
    match spec_target_segments(c.targets[0], sep)[0] {
        Seg::Key(k) => k,
        _ => Seq::empty(),
    }
}

/// A trie of flat direct mappings: each child of the root maps one key
/// directly to one target whose path is one plain key; child keys are
/// distinct, and so are target keys.
pub open spec fn flat_direct(root: Trie, sep: char) -> bool {
    &&& root.targets.len() == 0
    &&& forall|i: int|
        0 <= i < root.children.len() ==> {
            let c = #[trigger] root.children[i];
            &&& c.binding == Binding::Direct
            &&& c.children.len() == 0
            &&& c.targets.len() == 1
            &&& spec_target_segments(c.targets[0], sep) == seq![Seg::Key(target_key(c, sep))]
        }
    &&& forall|i: int, j: int|
        0 <= i < root.children.len() && 0 <= j < root.children.len() && i != j ==> (
        #[trigger] root.children[i]).key != (#[trigger] root.children[j]).key && target_key(
            root.children[i],
            sep,
        ) != target_key(root.children[j], sep)
}

/// The key an entry of child `c` is written under: its target key on the
/// way out (`out`), its own key on the way back.
pub open spec fn side_key(c: Trie, sep: char, out: bool) -> Seq<char> {
    if out {
        target_key(c, sep)
    } else {
        c.key
    }
}

/// The entries written for the children `[0, i)` whose key the source
/// holds, in child order.
pub open spec fn present_entries(root: Trie, src: Json, sep: char, i: int, out: bool) -> Seq<
    (Seq<char>, Json),
>
    decreases i,
{
    if i <= 0 {
        Seq::empty()
    } else {
        let prev = present_entries(root, src, sep, i - 1, out);
        let c = root.children[i - 1];
        match lookup(src, c.key) {
            Some(v) => prev.push((side_key(c, sep, out), v)),
            None => prev,
        }
    }
}

proof fn lemma_entry_index_push_other(es: Seq<(Seq<char>, Json)>, x: (Seq<char>, Json), k: Seq<char>)
    requires
        x.0 != k,
    ensures
        entry_index(es.push(x), k) == entry_index(es, k),
{
    assert(es.push(x).drop_last() =~= es);
}

proof fn lemma_entry_index_push_new(es: Seq<(Seq<char>, Json)>, x: (Seq<char>, Json))
    requires
        entry_index(es, x.0) == -1,
    ensures
        entry_index(es.push(x), x.0) == es.len(),
{
    assert(es.push(x).drop_last() =~= es);
}

/// No entry written before child `j` carries child `j`'s key.
proof fn lemma_key_absent(root: Trie, src: Json, sep: char, i: int, j: int, out: bool)
    requires
        flat_direct(root, sep),
        0 <= i <= j < root.children.len(),
    ensures
        entry_index(present_entries(root, src, sep, i, out), side_key(root.children[j], sep, out))
            == -1,
    decreases i,
{
    if i > 0 {
        lemma_key_absent(root, src, sep, i - 1, j, out);
        let prev = present_entries(root, src, sep, i - 1, out);
        let c = root.children[i - 1];
        let k = side_key(root.children[j], sep, out);
        assert(side_key(c, sep, out) != k);
        if let Some(v) = lookup(src, c.key) {
            lemma_entry_index_push_other(prev, (side_key(c, sep, out), v), k);
        }
    } else {
        assert(present_entries(root, src, sep, i, out) =~= Seq::<(Seq<char>, Json)>::empty());
    }
}

/// Child `j`'s entry is found under its key exactly when the source holds
/// child `j`'s key, with the same value.
proof fn lemma_key_found(root: Trie, src: Json, sep: char, i: int, j: int, out: bool)
    requires
        flat_direct(root, sep),
        0 <= j < i <= root.children.len(),
    ensures
        lookup(Json::Object(present_entries(root, src, sep, i, out)), side_key(root.children[j], sep, out))
            == lookup(src, root.children[j].key),
    decreases i,
{
    let prev = present_entries(root, src, sep, i - 1, out);
    let c = root.children[i - 1];
    let k = side_key(root.children[j], sep, out);
    lemma_entry_index(present_entries(root, src, sep, i, out), k);
    if j == i - 1 {
        lemma_key_absent(root, src, sep, i - 1, j, out);
        if let Some(v) = lookup(src, c.key) {
            lemma_entry_index_push_new(prev, (k, v));
        }
    } else {
        lemma_key_found(root, src, sep, i - 1, j, out);
        assert(side_key(c, sep, out) != k);
        if let Some(v) = lookup(src, c.key) {
            lemma_entry_index_push_other(prev, (side_key(c, sep, out), v), k);
            lemma_entry_index(prev, k);
            let e = entry_index(prev, k);
            if e >= 0 {
                assert(prev.push((side_key(c, sep, out), v))[e] == prev[e]);
            }
        }
    }
}

proof fn lemma_flat_forward(root: Trie, src: Json, sep: char, i: int)
    requires
        flat_direct(root, sep),
        0 <= i <= root.children.len(),
    ensures
        fwd_children(
            root,
            i,
            src,
            Json::Object(present_entries(root, src, sep, i, true)),
            Seq::empty(),
            sep,
        ) == Some(Json::Object(present_entries(root, src, sep, root.children.len() as int, true))),
    decreases root.children.len() - i,
{
    if i < root.children.len() {
        let c = root.children[i];
        let no_idx = Seq::<usize>::empty();
        let es = present_entries(root, src, sep, i, true);
        let d = Json::Object(es);
        let tk = target_key(c, sep);
        let segs = seq![Seg::Key(tk)];
        if let Some(v) = lookup(src, c.key) {
            lemma_key_absent(root, src, sep, i, i, true);
            assert(with_entry(es, tk, v) == es.push((tk, v)));
            assert(put_at(Json::Null, segs, 1, v, no_idx, 0) == Some(v));
            assert(put_at(d, segs, 0, v, no_idx, 0) == Some(Json::Object(es.push((tk, v)))));
            assert(put_path(d, c.targets[0], v, no_idx, sep) == Some(Json::Object(es.push((tk, v)))));
            assert(put_targets(Json::Object(es.push((tk, v))), c.targets, 1, v, no_idx, sep) == Some(
                Json::Object(es.push((tk, v))),
            ));
            assert(put_targets(d, c.targets, 0, v, no_idx, sep) == Some(Json::Object(es.push((tk, v)))));
        }
        assert(fwd_child(c, src, d, no_idx, sep) == Some(
            Json::Object(present_entries(root, src, sep, i + 1, true)),
        ));
        lemma_flat_forward(root, src, sep, i + 1);
    }
}

/// The leaves of a flat trie: one per child, in child order.
pub open spec fn flat_leaves(root: Trie, k: int) -> Seq<Leaf> {
    Seq::new(
        (root.children.len() - k) as nat,
        |m: int|
            Leaf {
                segs: seq![(root.children[k + m].key, Binding::Direct)],
                target: root.children[k + m].targets[0],
            },
    )
}

proof fn lemma_flat_leaves(root: Trie, sep: char, k: int)
    requires
        flat_direct(root, sep),
        0 <= k <= root.children.len(),
    ensures
        leaves_below(root, Seq::empty(), k) == flat_leaves(root, k),
    decreases root.children.len() - k,
{
    if k < root.children.len() {
        lemma_flat_leaves(root, sep, k + 1);
        let c = root.children[k];
        let path = child_path(Seq::<(Seq<char>, Binding)>::empty(), c);
        assert(path =~= seq![(c.key, Binding::Direct)]);
        lemma_leaves_of_unfold(c, path);
        assert(leaves_below(c, path, 0) =~= Seq::<Leaf>::empty());
        assert(leaves_of(c, path) =~= seq![Leaf { segs: path, target: c.targets[0] }]);
        assert(flat_leaves(root, k) =~= seq![Leaf { segs: path, target: c.targets[0] }] + flat_leaves(
            root,
            k + 1,
        ));
    } else {
        assert(flat_leaves(root, k) =~= Seq::<Leaf>::empty());
    }
}

proof fn lemma_flat_reverse(root: Trie, src: Json, sep: char, i: int)
    requires
        flat_direct(root, sep),
        0 <= i <= root.children.len(),
    ensures
        rev_leaves(
            Json::Object(present_entries(root, src, sep, i, false)),
            flat_leaves(root, 0),
            i,
            Json::Object(present_entries(root, src, sep, root.children.len() as int, true)),
            sep,
        ) == Some(Json::Object(present_entries(root, src, sep, root.children.len() as int, false))),
    decreases root.children.len() - i,
{
    let n = root.children.len() as int;
    let f = Json::Object(present_entries(root, src, sep, n, true));
    let ls = flat_leaves(root, 0);
    if i < n {
        let c = root.children[i];
        let leaf = ls[i];
        let no_idx = Seq::<usize>::empty();
        let es = present_entries(root, src, sep, i, false);
        let tk = target_key(c, sep);
        assert(leaf.target == c.targets[0]);
        lemma_key_found(root, src, sep, n, i, true);
        let found = extract(f, spec_target_segments(leaf.target, sep), 0, Seq::empty());
        match lookup(src, c.key) {
            Some(v) => {
                assert(extract(v, seq![Seg::Key(tk)], 1, no_idx) == seq![(v, no_idx)]);
                assert(found == seq![(v, no_idx)]);
                lemma_key_absent(root, src, sep, i, i, false);
                assert(with_entry(es, c.key, v) == es.push((c.key, v)));
                assert(put_trie(Json::Null, leaf.segs, 1, v, no_idx, 0) == Some(v));
                assert(put_trie(Json::Object(es), leaf.segs, 0, v, no_idx, 0) == Some(
                    Json::Object(es.push((c.key, v))),
                ));
                assert(put_results(Json::Object(es.push((c.key, v))), leaf, found, 1) == Some(
                    Json::Object(es.push((c.key, v))),
                ));
            },
            None => {
                assert(found =~= Seq::<(Json, Seq<usize>)>::empty());
            },
        }
        assert(put_results(Json::Object(es), leaf, found, 0) == Some(
            Json::Object(present_entries(root, src, sep, i + 1, false)),
        ));
        lemma_flat_reverse(root, src, sep, i + 1);
    }
}

proof fn lemma_flat_roundtrip(root: Trie, src: Json, sep: char)
    requires
        flat_direct(root, sep),
    ensures
        forward_doc(root, Seq::empty(), src, sep) == Some(
            Json::Object(present_entries(root, src, sep, root.children.len() as int, true)),
        ),
        reverse_doc(
            root,
            Json::Object(present_entries(root, src, sep, root.children.len() as int, true)),
            sep,
        ) == Some(Json::Object(present_entries(root, src, sep, root.children.len() as int, false))),
{
    let n = root.children.len() as int;
    let e0 = Json::Object(Seq::empty());
    assert(present_entries(root, src, sep, 0, true) =~= Seq::<(Seq<char>, Json)>::empty());
    assert(present_entries(root, src, sep, 0, false) =~= Seq::<(Seq<char>, Json)>::empty());
    assert(put_targets(e0, root.targets, 0, src, Seq::empty(), sep) == Some(e0));
    lemma_flat_forward(root, src, sep, 0);
    let fin = Json::Object(present_entries(root, src, sep, n, true));
    assert(put_constants(fin, Seq::empty(), 0, sep) == Some(fin));
    let path = Seq::<(Seq<char>, Binding)>::empty();
    lemma_leaves_of_unfold(root, path);
    lemma_flat_leaves(root, sep, 0);
    assert(own_leaves(root, path) =~= Seq::<Leaf>::empty());
    assert(leaves_of(root, path) =~= flat_leaves(root, 0));
    lemma_flat_reverse(root, src, sep, 0);
}

/// Stitching and unstitching flat direct mappings undo each other.
///
/// For a suture whose mappings each take one key directly to one plain
/// target key (all keys distinct, all targets distinct, no constants): the
/// way out writes, in mapping order, the value of each key the source holds
/// under its target key; the way back from that document writes each value
/// under its key again, so every mapped key reads back what the source
/// held, and nothing else is written.
pub proof fn lemma_flat_mapping_roundtrip(s: SutureModel, src: Json)
    requires
        s.constants.len() == 0,
        match s.binding {
            Capture::Request(root) => flat_direct(root, '/'),
            Capture::Response(root) => flat_direct(root, '.'),
        },
    ensures
        match s.binding {
            Capture::Request(root) => {
                let n = root.children.len() as int;
                let out = Json::Object(present_entries(root, src, '/', n, true));
                let back = Json::Object(present_entries(root, src, '/', n, false));
                &&& spec_stitch(s, src) == Some(out)
                &&& spec_unstitch(s, out) == Some(back)
                &&& forall|j: int|
                    0 <= j < n ==> lookup(back, (#[trigger] root.children[j]).key) == lookup(
                        src,
                        root.children[j].key,
                    )
            },
            Capture::Response(root) => {
                let n = root.children.len() as int;
                let out = Json::Object(present_entries(root, src, '.', n, true));
                let back = Json::Object(present_entries(root, src, '.', n, false));
                &&& spec_unstitch(s, src) == Some(out)
                &&& spec_stitch(s, out) == Some(back)
                &&& forall|j: int|
                    0 <= j < n ==> lookup(back, (#[trigger] root.children[j]).key) == lookup(
                        src,
                        root.children[j].key,
                    )
            },
        },
{
    assert(s.constants =~= Seq::empty());
    let (root, sep) = match s.binding {
        Capture::Request(root) => (root, '/'),
        Capture::Response(root) => (root, '.'),
    };
    lemma_flat_roundtrip(root, src, sep);
    let n = root.children.len() as int;
    assert forall|j: int| 0 <= j < n implies lookup(
        Json::Object(present_entries(root, src, sep, n, false)),
        (#[trigger] root.children[j]).key,
    ) == lookup(src, root.children[j].key) by {
        lemma_key_found(root, src, sep, n, j, false);
    }
}

} // verus!
