//! Well-formed documents: no object holds a key twice, as in a
//! `serde_json::Value`, and stitching and unstitching keep it so.
use vstd::prelude::*;
use crate::iterate::{get_at, lemma_get_at_concat, Step};
use crate::json::{
    element, entries_or_empty, entry_index, items_or_empty, lemma_entry_index, lookup, padded,
    with_entry, Json,
};
use crate::validate::anchored;
use crate::compile::{
    add_constant_items, add_constants, compile_entry, lemma_compile_entry_size, object_children,
    run_queue, run_sutures, spec_compile, spec_compile_bindings, Build,
};
use crate::json::{lemma_values_size_concat, lemma_values_size_front, values_size};
use crate::schema::{Direction, RawSetModel};
use crate::stitch::{
    extract, extract_sel, forward_doc, fwd_child, fwd_children, fwd_iter, index_elem,
    lemma_slice_indices_in_bounds, leaves_of, matching_values, nonneg, put_at, put_constants,
    put_path, put_results, put_targets, put_trie, rev_leaves, reverse_doc, spec_slice_indices,
    spec_stitch, spec_target_segments, spec_unstitch, write_index, Leaf, Seg,
};
use crate::suture::{Binding, Capture, SutureModel, Trie};

verus! {

/// No two entries of the object share a key.
pub open spec fn keys_distinct(entries: Seq<(Seq<char>, Json)>) -> bool {
    forall|i: int, j: int|
        #![trigger entries[i], entries[j]]
        0 <= i < entries.len() && 0 <= j < entries.len() && i != j ==> entries[i].0 != entries[j].0
}

/// The object found at a place, if an object is found there, has distinct
/// keys.
pub open spec fn distinct_at(o: Option<Json>) -> bool {
    match o {
        Some(Json::Object(entries)) => keys_distinct(entries),
        _ => true,
    }
}

/// Every object anywhere in the document has distinct keys.
pub open spec fn well_formed(d: Json) -> bool {
    forall|p: Seq<Step>| distinct_at(#[trigger] get_at(d, p))
}

/// Every value of the entries is well formed.
pub open spec fn values_wf(entries: Seq<(Seq<char>, Json)>) -> bool {
    forall|i: int| 0 <= i < entries.len() ==> well_formed(#[trigger] entries[i].1)
}

/// Every item is well formed.
pub open spec fn items_wf(items: Seq<Json>) -> bool {
    forall|i: int| 0 <= i < items.len() ==> well_formed(#[trigger] items[i])
}

proof fn lemma_one_key(d: Json, k: Seq<char>)
    ensures
        get_at(d, seq![Step::K(k)]) == lookup(d, k),
{
    assert(seq![Step::K(k)][0] == Step::K(k));
    assert(seq![Step::K(k)].drop_first() =~= Seq::<Step>::empty());
    if let Some(c) = lookup(d, k) {
        assert(get_at(c, Seq::<Step>::empty()) == Some(c));
    }
}

proof fn lemma_one_pos(d: Json, n: int)
    ensures
        get_at(d, seq![Step::N(n)]) == element(d, n),
{
    assert(seq![Step::N(n)][0] == Step::N(n));
    assert(seq![Step::N(n)].drop_first() =~= Seq::<Step>::empty());
    if let Some(c) = element(d, n) {
        assert(get_at(c, Seq::<Step>::empty()) == Some(c));
    }
}

/// What is found inside a well-formed document is well formed.
pub proof fn lemma_well_formed_below(d: Json, a: Seq<Step>, x: Json)
    requires
        well_formed(d),
        get_at(d, a) == Some(x),
    ensures
        well_formed(x),
{
    assert forall|p: Seq<Step>| distinct_at(#[trigger] get_at(x, p)) by {
        lemma_get_at_concat(d, a, p);
        assert(get_at(d, a + p) == get_at(x, p));
    }
}

/// With distinct keys, each entry is the one its key finds.
proof fn lemma_distinct_index(entries: Seq<(Seq<char>, Json)>, i: int)
    requires
        keys_distinct(entries),
        0 <= i < entries.len(),
    ensures
        entry_index(entries, entries[i].0) == i,
{
    let k = entries[i].0;
    lemma_entry_index(entries, k);
    let e = entry_index(entries, k);
    if e < 0 {
        assert(entries[i].0 != k);
    } else if e != i {
        assert(entries[e].0 == k);
        assert(entries[e].0 != entries[i].0);
    }
}

/// An object is well formed exactly when its keys are distinct and its
/// values are well formed.
pub proof fn lemma_object_well_formed(entries: Seq<(Seq<char>, Json)>)
    ensures
        well_formed(Json::Object(entries)) <==> keys_distinct(entries) && values_wf(entries),
{
    let d = Json::Object(entries);
    if well_formed(d) {
        assert(get_at(d, Seq::<Step>::empty()) == Some(d));
        assert(distinct_at(get_at(d, Seq::<Step>::empty())));
        assert forall|i: int| 0 <= i < entries.len() implies well_formed(#[trigger] entries[i].1) by {
            lemma_distinct_index(entries, i);
            lemma_one_key(d, entries[i].0);
            lemma_well_formed_below(d, seq![Step::K(entries[i].0)], entries[i].1);
        }
    }
    if keys_distinct(entries) && values_wf(entries) {
        assert forall|p: Seq<Step>| distinct_at(#[trigger] get_at(d, p)) by {
            if p.len() > 0 {
                if let Step::K(k) = p[0] {
                    lemma_entry_index(entries, k);
                    let e = entry_index(entries, k);
                    if e >= 0 {
                        assert(well_formed(entries[e].1));
                        assert(distinct_at(get_at(entries[e].1, p.drop_first())));
                    }
                }
            }
        }
    }
}

/// An array is well formed exactly when its items are.
pub proof fn lemma_array_well_formed(items: Seq<Json>)
    ensures
        well_formed(Json::Array(items)) <==> items_wf(items),
{
    let d = Json::Array(items);
    if well_formed(d) {
        assert forall|i: int| 0 <= i < items.len() implies well_formed(#[trigger] items[i]) by {
            lemma_one_pos(d, i);
            lemma_well_formed_below(d, seq![Step::N(i)], items[i]);
        }
    }
    if items_wf(items) {
        assert forall|p: Seq<Step>| distinct_at(#[trigger] get_at(d, p)) by {
            if p.len() > 0 {
                if let Step::N(n) = p[0] {
                    if 0 <= n < items.len() {
                        assert(well_formed(items[n]));
                        assert(distinct_at(get_at(items[n], p.drop_first())));
                    }
                }
            }
        }
    }
}

/// A document that is neither an object nor an array is well formed.
pub proof fn lemma_scalar_well_formed(d: Json)
    requires
        !(d is Object),
        !(d is Array),
    ensures
        well_formed(d),
{
    assert forall|p: Seq<Step>| distinct_at(#[trigger] get_at(d, p)) by {
    }
}

/// The entries of a well-formed document, if it is an object.
proof fn lemma_entries_wf(d: Json)
    requires
        well_formed(d),
    ensures
        keys_distinct(entries_or_empty(d)),
        values_wf(entries_or_empty(d)),
{
    if let Json::Object(es) = d {
        lemma_object_well_formed(es);
    }
}

/// The items of a well-formed document, if it is an array, padded with
/// nulls.
proof fn lemma_padded_wf(d: Json, n: int)
    requires
        well_formed(d),
    ensures
        items_wf(padded(items_or_empty(d), n)),
{
    if let Json::Array(its) = d {
        lemma_array_well_formed(its);
    }
    let its = items_or_empty(d);
    let p = padded(its, n);
    assert forall|i: int| 0 <= i < p.len() implies well_formed(#[trigger] p[i]) by {
        if i >= its.len() {
            assert(p[i] == Json::Null);
            lemma_scalar_well_formed(Json::Null);
        }
    }
}

/// Setting a key keeps the keys distinct and the values well formed.
proof fn lemma_with_entry_wf(entries: Seq<(Seq<char>, Json)>, k: Seq<char>, v: Json)
    requires
        keys_distinct(entries),
        values_wf(entries),
        well_formed(v),
    ensures
        keys_distinct(with_entry(entries, k, v)),
        values_wf(with_entry(entries, k, v)),
        well_formed(Json::Object(with_entry(entries, k, v))),
{
    lemma_entry_index(entries, k);
    let w = with_entry(entries, k, v);
    let e = entry_index(entries, k);
    assert forall|i: int, j: int|
        #![trigger w[i], w[j]]
        0 <= i < w.len() && 0 <= j < w.len() && i != j implies w[i].0 != w[j].0 by {
        if e >= 0 {
            assert(w[i].0 == entries[i].0);
            assert(w[j].0 == entries[j].0);
            assert(entries[i].0 != entries[j].0);
        } else if i < entries.len() && j < entries.len() {
            assert(entries[i].0 != entries[j].0);
        } else if i < entries.len() {
            assert(entries[i].0 != k);
        } else {
            assert(entries[j].0 != k);
        }
    }
    assert forall|i: int| 0 <= i < w.len() implies well_formed(#[trigger] w[i].1) by {
        if i != e && i < entries.len() {
            assert(w[i] == entries[i]);
        }
    }
    lemma_object_well_formed(w);
}

/// Replacing an item keeps the items well formed.
proof fn lemma_update_wf(items: Seq<Json>, n: int, v: Json)
    requires
        items_wf(items),
        well_formed(v),
        0 <= n < items.len(),
    ensures
        well_formed(Json::Array(items.update(n, v))),
{
    let u = items.update(n, v);
    assert forall|i: int| 0 <= i < u.len() implies well_formed(#[trigger] u[i]) by {
        if i != n {
            assert(u[i] == items[i]);
        }
    }
    lemma_array_well_formed(u);
}

// ===========================================================================
// Writes keep documents well formed
// ===========================================================================

/// Writing a well-formed value along target steps keeps a well-formed
/// document well formed.
proof fn lemma_put_at_wf(dst: Json, segs: Seq<Seg>, k: int, value: Json, idx: Seq<usize>, pos: int)
    requires
        well_formed(dst),
        well_formed(value),
    ensures
        put_at(dst, segs, k, value, idx, pos) matches Some(r) ==> well_formed(r),
    decreases segs.len() - k,
{
    if 0 <= k < segs.len() {
        match segs[k] {
            Seg::Key(key) => {
                let obj = entries_or_empty(dst);
                lemma_entries_wf(dst);
                lemma_entry_index(obj, key);
                let i = entry_index(obj, key);
                let cur = if i >= 0 {
                    obj[i].1
                } else {
                    Json::Null
                };
                lemma_scalar_well_formed(Json::Null);
                lemma_put_at_wf(cur, segs, k + 1, value, idx, pos);
                if let Some(nv) = put_at(cur, segs, k + 1, value, idx, pos) {
                    lemma_with_entry_wf(obj, key, nv);
                }
            },
            Seg::Index(n) => {
                if 0 <= n < usize::MAX {
                    let items = padded(items_or_empty(dst), n + 1);
                    lemma_padded_wf(dst, n + 1);
                    lemma_put_at_wf(items[n as int], segs, k + 1, value, idx, pos);
                    if let Some(nv) = put_at(items[n as int], segs, k + 1, value, idx, pos) {
                        lemma_update_wf(items, n as int, nv);
                    }
                }
            },
            Seg::Slice(_, _, _) => {
                if 0 <= pos < idx.len() && idx[pos] < usize::MAX {
                    let n = idx[pos] as int;
                    let items = padded(items_or_empty(dst), n + 1);
                    lemma_padded_wf(dst, n + 1);
                    lemma_put_at_wf(items[n], segs, k + 1, value, idx, pos + 1);
                    if let Some(nv) = put_at(items[n], segs, k + 1, value, idx, pos + 1) {
                        lemma_update_wf(items, n, nv);
                    }
                }
            },
        }
    }
}

/// Writing a well-formed value at each of the targets keeps a well-formed
/// document well formed.
proof fn lemma_put_targets_wf(
    dst: Json,
    targets: Seq<Seq<char>>,
    i: int,
    value: Json,
    idx: Seq<usize>,
    sep: char,
)
    requires
        well_formed(dst),
        well_formed(value),
    ensures
        put_targets(dst, targets, i, value, idx, sep) matches Some(r) ==> well_formed(r),
    decreases targets.len() - i,
{
    if 0 <= i < targets.len() {
        lemma_put_at_wf(dst, spec_target_segments(targets[i], sep), 0, value, idx, 0);
        if let Some(d) = put_path(dst, targets[i], value, idx, sep) {
            lemma_put_targets_wf(d, targets, i + 1, value, idx, sep);
        }
    }
}

/// Writing well-formed constants keeps a well-formed document well formed.
proof fn lemma_put_constants_wf(dst: Json, consts: Seq<(Seq<char>, Json)>, i: int, sep: char)
    requires
        well_formed(dst),
        values_wf(consts),
    ensures
        put_constants(dst, consts, i, sep) matches Some(r) ==> well_formed(r),
    decreases consts.len() - i,
{
    if 0 <= i < consts.len() {
        assert(well_formed(consts[i].1));
        lemma_put_at_wf(
            dst,
            spec_target_segments(consts[i].0, sep),
            0,
            consts[i].1,
            Seq::empty(),
            0,
        );
        if let Some(d) = put_path(dst, consts[i].0, consts[i].1, Seq::empty(), sep) {
            lemma_put_constants_wf(d, consts, i + 1, sep);
        }
    }
}

/// Writing a well-formed value along a trie path keeps a well-formed
/// document well formed.
proof fn lemma_put_trie_wf(
    dst: Json,
    segs: Seq<(Seq<char>, Binding)>,
    k: int,
    value: Json,
    idx: Seq<usize>,
    pos: int,
)
    requires
        well_formed(dst),
        well_formed(value),
    ensures
        put_trie(dst, segs, k, value, idx, pos) matches Some(r) ==> well_formed(r),
    decreases segs.len() - k,
{
    if 0 <= k < segs.len() {
        let key = segs[k].0;
        lemma_scalar_well_formed(Json::Null);
        match segs[k].1 {
            Binding::Direct => {
                let obj = entries_or_empty(dst);
                lemma_entries_wf(dst);
                lemma_entry_index(obj, key);
                let i = entry_index(obj, key);
                let cur = if i >= 0 {
                    obj[i].1
                } else {
                    Json::Null
                };
                lemma_put_trie_wf(cur, segs, k + 1, value, idx, pos);
                if let Some(nv) = put_trie(cur, segs, k + 1, value, idx, pos) {
                    lemma_with_entry_wf(obj, key, nv);
                }
            },
            Binding::Iterate(s, e, _) => {
                if let Some((n, p2)) = write_index(s, e, idx, pos) {
                    if n < usize::MAX {
                        if key.len() == 0 {
                            let items = padded(items_or_empty(dst), n + 1);
                            lemma_padded_wf(dst, n + 1);
                            lemma_put_trie_wf(items[n], segs, k + 1, value, idx, p2);
                            if let Some(nv) = put_trie(items[n], segs, k + 1, value, idx, p2) {
                                lemma_update_wf(items, n, nv);
                            }
                        } else {
                            let obj = entries_or_empty(dst);
                            lemma_entries_wf(dst);
                            lemma_entry_index(obj, key);
                            let i = entry_index(obj, key);
                            let cur = if i >= 0 {
                                obj[i].1
                            } else {
                                Json::Null
                            };
                            let items = padded(items_or_empty(cur), n + 1);
                            lemma_padded_wf(cur, n + 1);
                            lemma_put_trie_wf(items[n], segs, k + 1, value, idx, p2);
                            if let Some(nv) = put_trie(items[n], segs, k + 1, value, idx, p2) {
                                lemma_update_wf(items, n, nv);
                                lemma_with_entry_wf(obj, key, Json::Array(items.update(n, nv)));
                            }
                        }
                    }
                }
            },
            Binding::Pattern(_, _, _, _) => {},
        }
    }
}

// ===========================================================================
// Reads find well-formed values
// ===========================================================================

/// Every value found is well formed.
pub open spec fn results_wf(rs: Seq<(Json, Seq<usize>)>) -> bool {
    forall|m: int| 0 <= m < rs.len() ==> well_formed(#[trigger] rs[m].0)
}

proof fn lemma_results_concat(a: Seq<(Json, Seq<usize>)>, b: Seq<(Json, Seq<usize>)>)
    requires
        results_wf(a),
        results_wf(b),
    ensures
        results_wf(a + b),
{
    assert forall|m: int| 0 <= m < (a + b).len() implies well_formed(#[trigger] (a + b)[m].0) by {
        if m < a.len() {
            assert((a + b)[m] == a[m]);
        } else {
            assert((a + b)[m] == b[m - a.len()]);
        }
    }
}

/// The values a walk along target steps finds in a well-formed document are
/// well formed.
proof fn lemma_extract_wf(src: Json, segs: Seq<Seg>, k: int, idx: Seq<usize>)
    requires
        well_formed(src),
    ensures
        results_wf(extract(src, segs, k, idx)),
    decreases nonneg(segs.len() - k), 1int, 0int,
{
    if 0 <= k < segs.len() {
        match segs[k] {
            Seg::Key(key) => {
                if let Some(v) = lookup(src, key) {
                    lemma_one_key(src, key);
                    lemma_well_formed_below(src, seq![Step::K(key)], v);
                    lemma_extract_wf(v, segs, k + 1, idx);
                }
            },
            Seg::Index(n) => {
                let at = if n < 0 {
                    items_or_empty(src).len() + n
                } else {
                    n as int
                };
                assert(index_elem(src, n) == element(src, at));
                if let Some(v) = index_elem(src, n) {
                    lemma_one_pos(src, at);
                    lemma_well_formed_below(src, seq![Step::N(at)], v);
                    lemma_extract_wf(v, segs, k + 1, idx);
                }
            },
            Seg::Slice(s, e, st) => {
                if let Json::Array(items) = src {
                    lemma_array_well_formed(items);
                    lemma_slice_indices_in_bounds(items.len() as int, s, e, st);
                    lemma_extract_sel_wf(
                        items,
                        spec_slice_indices(items.len() as int, s, e, st),
                        0,
                        segs,
                        k,
                        idx,
                    );
                }
            },
        }
    } else {
        assert(extract(src, segs, k, idx)[0] == (src, idx));
    }
}

proof fn lemma_extract_sel_wf(
    items: Seq<Json>,
    sel: Seq<int>,
    j: int,
    segs: Seq<Seg>,
    k: int,
    idx: Seq<usize>,
)
    requires
        items_wf(items),
        forall|t: int| 0 <= t < sel.len() ==> 0 <= #[trigger] sel[t] < items.len(),
    ensures
        results_wf(extract_sel(items, sel, j, segs, k, idx)),
    decreases nonneg(segs.len() - k), 0int, nonneg(sel.len() - j),
{
    if 0 <= j < sel.len() && 0 <= k < segs.len() {
        assert(well_formed(items[sel[j]]));
        lemma_extract_wf(items[sel[j]], segs, k + 1, idx.push(j as usize));
        lemma_extract_sel_wf(items, sel, j + 1, segs, k, idx);
        lemma_results_concat(
            extract(items[sel[j]], segs, k + 1, idx.push(j as usize)),
            extract_sel(items, sel, j + 1, segs, k, idx),
        );
    }
}

/// Writing well-formed found values along a trie path keeps a well-formed
/// document well formed.
proof fn lemma_put_results_wf(dst: Json, leaf: Leaf, results: Seq<(Json, Seq<usize>)>, j: int)
    requires
        well_formed(dst),
        results_wf(results),
    ensures
        put_results(dst, leaf, results, j) matches Some(r) ==> well_formed(r),
    decreases results.len() - j,
{
    if 0 <= j < results.len() {
        assert(well_formed(results[j].0));
        lemma_put_trie_wf(dst, leaf.segs, 0, results[j].0, results[j].1, 0);
        if let Some(d) = put_trie(dst, leaf.segs, 0, results[j].0, results[j].1, 0) {
            lemma_put_results_wf(d, leaf, results, j + 1);
        }
    }
}

/// The reverse walk of leaves over a well-formed source keeps a well-formed
/// document well formed.
proof fn lemma_rev_leaves_wf(dst: Json, leaves: Seq<Leaf>, i: int, src: Json, sep: char)
    requires
        well_formed(dst),
        well_formed(src),
    ensures
        rev_leaves(dst, leaves, i, src, sep) matches Some(r) ==> well_formed(r),
    decreases leaves.len() - i,
{
    if 0 <= i < leaves.len() {
        let found = extract(src, spec_target_segments(leaves[i].target, sep), 0, Seq::empty());
        lemma_extract_wf(src, spec_target_segments(leaves[i].target, sep), 0, Seq::empty());
        lemma_put_results_wf(dst, leaves[i], found, 0);
        if let Some(d) = put_results(dst, leaves[i], found, 0) {
            lemma_rev_leaves_wf(d, leaves, i + 1, src, sep);
        }
    }
}

// ===========================================================================
// The forward walk keeps documents well formed
// ===========================================================================

/// The values of the entries a pattern selects are values of the entries.
proof fn lemma_matching_values_wf(entries: Seq<(Seq<char>, Json)>, source: Seq<char>)
    requires
        values_wf(entries),
    ensures
        items_wf(matching_values(entries, source)),
    decreases entries.len(),
{
    if entries.len() > 0 {
        let init = entries.drop_last();
        assert forall|i: int| 0 <= i < init.len() implies well_formed(#[trigger] init[i].1) by {
            assert(init[i] == entries[i]);
        }
        lemma_matching_values_wf(init, source);
        let prev = matching_values(init, source);
        let m = matching_values(entries, source);
        assert forall|i: int| 0 <= i < m.len() implies well_formed(#[trigger] m[i]) by {
            if i < prev.len() {
                assert(m[i] == prev[i]);
            } else {
                assert(m[i] == entries.last().1);
                assert(well_formed(entries[entries.len() - 1].1));
            }
        }
    }
}

proof fn lemma_fwd_child_wf(c: Trie, src: Json, dst: Json, idx: Seq<usize>, sep: char)
    requires
        well_formed(src),
        well_formed(dst),
    ensures
        fwd_child(c, src, dst, idx, sep) matches Some(r) ==> well_formed(r),
    decreases c, c.children.len() + 2, 0int,
{
    match c.binding {
        Binding::Direct => {
            if let Some(v) = lookup(src, c.key) {
                lemma_one_key(src, c.key);
                lemma_well_formed_below(src, seq![Step::K(c.key)], v);
                lemma_put_targets_wf(dst, c.targets, 0, v, idx, sep);
                if let Some(d1) = put_targets(dst, c.targets, 0, v, idx, sep) {
                    if c.children.len() > 0 {
                        lemma_fwd_children_wf(c, 0, v, d1, idx, sep);
                    }
                }
            }
        },
        Binding::Iterate(s, e, st) => {
            let arr = if c.key.len() == 0 {
                Some(src)
            } else {
                lookup(src, c.key)
            };
            if let Some(Json::Array(items)) = arr {
                if c.key.len() > 0 {
                    lemma_one_key(src, c.key);
                    lemma_well_formed_below(src, seq![Step::K(c.key)], Json::Array(items));
                }
                lemma_array_well_formed(items);
                lemma_slice_indices_in_bounds(items.len() as int, s, e, st);
                lemma_fwd_iter_wf(
                    c,
                    items,
                    spec_slice_indices(items.len() as int, s, e, st),
                    0,
                    dst,
                    idx,
                    sep,
                );
            }
        },
        Binding::Pattern(p, s, e, st) => {
            if let Json::Object(entries) = src {
                lemma_object_well_formed(entries);
                let vals = matching_values(entries, anchored(p));
                lemma_matching_values_wf(entries, anchored(p));
                lemma_slice_indices_in_bounds(vals.len() as int, s, e, st);
                lemma_fwd_iter_wf(
                    c,
                    vals,
                    spec_slice_indices(vals.len() as int, s, e, st),
                    0,
                    dst,
                    idx,
                    sep,
                );
            }
        },
    }
}

proof fn lemma_fwd_iter_wf(
    c: Trie,
    elems: Seq<Json>,
    sel: Seq<int>,
    k: int,
    dst: Json,
    idx: Seq<usize>,
    sep: char,
)
    requires
        items_wf(elems),
        forall|t: int| 0 <= t < sel.len() ==> 0 <= #[trigger] sel[t] < elems.len(),
        well_formed(dst),
    ensures
        fwd_iter(c, elems, sel, k, dst, idx, sep) matches Some(r) ==> well_formed(r),
    decreases c, c.children.len() + 1, nonneg(sel.len() - k),
{
    if 0 <= k < sel.len() {
        let elem = elems[sel[k]];
        assert(well_formed(elem));
        let idx2 = idx.push(k as usize);
        lemma_put_targets_wf(dst, c.targets, 0, elem, idx2, sep);
        if let Some(d1) = put_targets(dst, c.targets, 0, elem, idx2, sep) {
            if c.children.len() > 0 {
                lemma_fwd_children_wf(c, 0, elem, d1, idx2, sep);
            }
            let d2 = if c.children.len() > 0 {
                fwd_children(c, 0, elem, d1, idx2, sep)
            } else {
                Some(d1)
            };
            if let Some(d) = d2 {
                lemma_fwd_iter_wf(c, elems, sel, k + 1, d, idx, sep);
            }
        }
    }
}

proof fn lemma_fwd_children_wf(node: Trie, i: int, src: Json, dst: Json, idx: Seq<usize>, sep: char)
    requires
        well_formed(src),
        well_formed(dst),
    ensures
        fwd_children(node, i, src, dst, idx, sep) matches Some(r) ==> well_formed(r),
    decreases node, nonneg(node.children.len() - i), 0int,
{
    if 0 <= i < node.children.len() {
        assert(decreases_to!(node => node.children));
        assert(decreases_to!(node.children => node.children[i]));
        lemma_fwd_child_wf(node.children[i], src, dst, idx, sep);
        if let Some(d) = fwd_child(node.children[i], src, dst, idx, sep) {
            lemma_fwd_children_wf(node, i + 1, src, d, idx, sep);
        }
    }
}

// ===========================================================================
// The law
// ===========================================================================

/// Stitching and unstitching keep documents well formed.
///
/// From a source in which no object holds a key twice, with constants whose
/// values hold none either, every document that stitching or unstitching
/// returns holds no key twice in any of its objects.
pub proof fn lemma_walks_keep_well_formed(s: SutureModel, src: Json)
    requires
        well_formed(src),
        values_wf(s.constants),
    ensures
        spec_stitch(s, src) matches Some(out) ==> well_formed(out),
        spec_unstitch(s, src) matches Some(out) ==> well_formed(out),
{
    let e = Json::Object(Seq::<(Seq<char>, Json)>::empty());
    lemma_object_well_formed(Seq::<(Seq<char>, Json)>::empty());
    let (root, fsep, rsep) = match s.binding {
        Capture::Request(root) => (root, '/', '/'),
        Capture::Response(root) => (root, '.', '.'),
    };
    // The forward walk.
    lemma_put_targets_wf(e, root.targets, 0, src, Seq::empty(), fsep);
    if let Some(d1) = put_targets(e, root.targets, 0, src, Seq::empty(), fsep) {
        lemma_fwd_children_wf(root, 0, src, d1, Seq::empty(), fsep);
        if let Some(d2) = fwd_children(root, 0, src, d1, Seq::empty(), fsep) {
            lemma_put_constants_wf(d2, s.constants, 0, fsep);
        }
    }
    // The reverse walk.
    lemma_rev_leaves_wf(e, leaves_of(root, Seq::empty()), 0, src, rsep);
    assert(forward_doc(root, s.constants, src, fsep) matches Some(out) ==> well_formed(out));
    assert(reverse_doc(root, src, rsep) matches Some(out) ==> well_formed(out));
}

// ===========================================================================
// Compiled constants are well formed
// ===========================================================================

proof fn lemma_values_push(es: Seq<(Seq<char>, Json)>, e: (Seq<char>, Json))
    requires
        values_wf(es),
        well_formed(e.1),
    ensures
        values_wf(es.push(e)),
{
    assert forall|i: int| 0 <= i < es.push(e).len() implies well_formed(#[trigger] es.push(e)[i].1) by {
        if i < es.len() {
            assert(es.push(e)[i] == es[i]);
        }
    }
}

proof fn lemma_add_constant_items_wf(
    consts: Seq<(Seq<char>, Json)>,
    items: Seq<Json>,
    k: int,
    d: Direction,
)
    requires
        values_wf(consts),
        items_wf(items),
    ensures
        add_constant_items(consts, items, k, d) matches Some(c) ==> values_wf(c),
    decreases items.len() - k,
{
    if 0 <= k < items.len() {
        if let Json::Object(es) = items[k] {
            if es.len() == 1 {
                assert(well_formed(items[k]));
                lemma_object_well_formed(es);
                assert(well_formed(es[0].1));
                lemma_values_push(consts, es[0]);
                lemma_add_constant_items_wf(consts.push(es[0]), items, k + 1, d);
            }
        }
    }
}

proof fn lemma_add_constants_wf(consts: Seq<(Seq<char>, Json)>, val: Json, d: Direction)
    requires
        values_wf(consts),
        well_formed(val),
    ensures
        add_constants(consts, val, d) matches Some(c) ==> values_wf(c),
{
    if let Json::Array(items) = val {
        lemma_array_well_formed(items);
        lemma_add_constant_items_wf(consts, items, 0, d);
    }
}

proof fn lemma_object_children_wf(
    consts: Seq<(Seq<char>, Json)>,
    more: Seq<(Seq<char>, Json)>,
    key: Seq<char>,
    es: Seq<(Seq<char>, Json)>,
    k: int,
    d: Direction,
)
    requires
        values_wf(consts),
        values_wf(more),
        values_wf(es),
    ensures
        object_children(consts, more, key, es, k, d) matches Some((c, m)) ==> values_wf(c)
            && values_wf(m),
    decreases es.len() - k,
{
    if 0 <= k < es.len() {
        assert(well_formed(es[k].1));
        if es[k].0 == "_"@ {
            lemma_add_constants_wf(consts, es[k].1, d);
            if let Some(c2) = add_constants(consts, es[k].1, d) {
                lemma_object_children_wf(c2, more, key, es, k + 1, d);
            }
        } else {
            let e = (crate::compile::child_key(key, es[k].0, crate::compile::separator(d)), es[k].1);
            lemma_values_push(more, e);
            lemma_object_children_wf(consts, more.push(e), key, es, k + 1, d);
        }
    }
}

proof fn lemma_compile_entry_wf(st: Build, key: Seq<char>, val: Json, d: Direction)
    requires
        values_wf(st.consts),
        well_formed(val),
    ensures
        compile_entry(st, key, val, d) matches Some((st2, more)) ==> values_wf(st2.consts)
            && values_wf(more),
{
    assert(values_wf(Seq::<(Seq<char>, Json)>::empty()));
    lemma_add_constants_wf(st.consts, val, d);
    if let Json::Object(es) = val {
        lemma_object_well_formed(es);
        lemma_object_children_wf(st.consts, Seq::empty(), key, es, 0, d);
    }
}

proof fn lemma_run_queue_wf(st: Build, q: Seq<(Seq<char>, Json)>, d: Direction)
    requires
        values_wf(st.consts),
        values_wf(q),
    ensures
        run_queue(st, q, d) matches Some(b) ==> values_wf(b.consts),
    decreases values_size(q),
{
    if q.len() > 0 {
        assert(well_formed(q[0].1));
        lemma_compile_entry_wf(st, q[0].0, q[0].1, d);
        if let Some((st2, more)) = compile_entry(st, q[0].0, q[0].1, d) {
            lemma_compile_entry_size(st, q[0].0, q[0].1, d);
            lemma_values_size_front(q);
            lemma_values_size_concat(q.drop_first(), more);
            let q2 = q.drop_first() + more;
            assert forall|i: int| 0 <= i < q2.len() implies well_formed(#[trigger] q2[i].1) by {
                if i < q.len() - 1 {
                    assert(q2[i] == q[i + 1]);
                } else {
                    assert(q2[i] == more[i - (q.len() - 1)]);
                }
            }
            lemma_run_queue_wf(st2, q2, d);
        }
    }
}

proof fn lemma_run_sutures_wf(st: Build, sutures: Seq<Json>, i: int, d: Direction)
    requires
        values_wf(st.consts),
        items_wf(sutures),
    ensures
        run_sutures(st, sutures, i, d) matches Some(b) ==> values_wf(b.consts),
    decreases sutures.len() - i,
{
    if 0 <= i < sutures.len() {
        if let Json::Object(es) = sutures[i] {
            assert(well_formed(sutures[i]));
            lemma_object_well_formed(es);
            lemma_run_queue_wf(st, es, d);
            if let Some(st2) = run_queue(st, es, d) {
                lemma_run_sutures_wf(st2, sutures, i + 1, d);
            }
        }
    }
}

/// The constants compiled from well-formed sutures are well formed, and so
/// a suture compiled from well-formed sutures stitches and unstitches
/// well-formed documents into well-formed documents.
pub proof fn lemma_compiled_suture_keeps_well_formed(set: RawSetModel, src: Json)
    requires
        items_wf(set.sutures),
    ensures
        spec_compile_bindings(set) matches Some((_, c)) ==> values_wf(c),
        spec_compile(set) matches Some(m) ==> values_wf(m.constants) && (well_formed(src) ==> (
        spec_stitch(m, src) matches Some(out) ==> well_formed(out)) && (spec_unstitch(m, src) matches Some(
            out,
        ) ==> well_formed(out))),
{
    let init = Build { root: crate::compile::root_of(set.name), consts: Seq::empty() };
    assert(values_wf(init.consts));
    lemma_run_sutures_wf(init, set.sutures, 0, set.direction);
    if let Some(m) = spec_compile(set) {
        if well_formed(src) {
            lemma_walks_keep_well_formed(m, src);
        }
    }
}

} // verus!
