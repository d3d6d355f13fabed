//! The constants a compilation gathers: every `_` array of a suture, at its
//! top level or inside a nested object, is kept whole and in order.
use vstd::prelude::*;
use crate::compile::{
    add_constant_items, add_constants, compile_entry, lemma_compile_entry_size, object_children,
    root_of, run_queue, run_sutures, spec_compile, spec_compile_bindings, Build,
};
use crate::json::{lemma_values_size_concat, lemma_values_size_front, values_size, Json};
use crate::schema::{Direction, RawSetModel};

verus! {

/// The one property of a constant item `{path: value}`.
pub open spec fn constant_entry(item: Json) -> (Seq<char>, Json) {
    match item {
        Json::Object(es) => es[0],
        _ => (Seq::empty(), Json::Null),
    }
}

/// From position `o` on, `c` holds the constants of `items`, in order.
pub open spec fn block_at(c: Seq<(Seq<char>, Json)>, items: Seq<Json>, o: int) -> bool {
    &&& 0 <= o
    &&& o + items.len() <= c.len()
    &&& forall|t: int| 0 <= t < items.len() ==> c[o + t] == constant_entry(#[trigger] items[t])
}

/// Somewhere, `c` holds the constants of `items`, in order and together.
pub open spec fn holds_block(c: Seq<(Seq<char>, Json)>, items: Seq<Json>) -> bool {
    exists|o: int| block_at(c, items, o)
}

/// `b` starts with `a`.
pub open spec fn starts_with(b: Seq<(Seq<char>, Json)>, a: Seq<(Seq<char>, Json)>) -> bool {
    a.len() <= b.len() && forall|i: int| 0 <= i < a.len() ==> #[trigger] b[i] == a[i]
}

/// A suture entry carries the `_` array `items`: it is the entry `_` with
/// that array, or an entry whose value is an object holding `_` with it.
pub open spec fn carries(e: (Seq<char>, Json), items: Seq<Json>) -> bool {
    ||| e.0 == "_"@ && e.1 == Json::Array(items)
    ||| e.0 != "_"@ && (e.1 matches Json::Object(es) && exists|mi: int|
        0 <= mi < es.len() && #[trigger] es[mi] == ("_"@, Json::Array(items)))
}

proof fn lemma_block_kept(
    a: Seq<(Seq<char>, Json)>,
    b: Seq<(Seq<char>, Json)>,
    items: Seq<Json>,
)
    requires
        holds_block(a, items),
        starts_with(b, a),
    ensures
        holds_block(b, items),
{
    let o = choose|o: int| block_at(a, items, o);
    assert forall|t: int| 0 <= t < items.len() implies b[o + t] == constant_entry(
        #[trigger] items[t],
    ) by {
        assert(a[o + t] == constant_entry(items[t]));
        assert(b[o + t] == a[o + t]);
    }
    assert(block_at(b, items, o));
}

proof fn lemma_starts_trans(
    a: Seq<(Seq<char>, Json)>,
    b: Seq<(Seq<char>, Json)>,
    c: Seq<(Seq<char>, Json)>,
)
    requires
        starts_with(b, a),
        starts_with(c, b),
    ensures
        starts_with(c, a),
{
    assert forall|i: int| 0 <= i < a.len() implies #[trigger] c[i] == a[i] by {
        assert(c[i] == b[i]);
    }
}

proof fn lemma_constant_items(
    consts: Seq<(Seq<char>, Json)>,
    items: Seq<Json>,
    k: int,
    d: Direction,
)
    requires
        0 <= k <= items.len(),
    ensures
        add_constant_items(consts, items, k, d) matches Some(c) ==> {
            &&& c.len() == consts.len() + items.len() - k
            &&& starts_with(c, consts)
            &&& forall|t: int|
                k <= t < items.len() ==> c[consts.len() + t - k] == constant_entry(
                    #[trigger] items[t],
                )
        },
    decreases items.len() - k,
{
    if k < items.len() {
        if let Json::Object(es) = items[k] {
            let c1 = consts.push(es[0]);
            lemma_constant_items(c1, items, k + 1, d);
            if let Some(c) = add_constant_items(consts, items, k, d) {
                assert(add_constant_items(c1, items, k + 1, d) == Some(c));
                assert forall|i: int| 0 <= i < consts.len() implies #[trigger] c[i] == consts[i] by {
                    assert(c[i] == c1[i]);
                }
                assert forall|t: int| k <= t < items.len() implies c[consts.len() + t - k]
                    == constant_entry(#[trigger] items[t]) by {
                    if t == k {
                        assert(c[consts.len() + t - k] == c1[consts.len() as int]);
                    } else {
                        assert(c[c1.len() + t - (k + 1)] == constant_entry(items[t]));
                    }
                }
            }
        }
    }
}

/// Adding the constants of a `_` array appends them, in order.
proof fn lemma_add_constants_block(consts: Seq<(Seq<char>, Json)>, val: Json, d: Direction)
    ensures
        add_constants(consts, val, d) matches Some(c) ==> starts_with(c, consts) && (val matches Json::Array(
            items,
        ) ==> block_at(c, items, consts.len() as int)),
{
    if let Json::Array(items) = val {
        lemma_constant_items(consts, items, 0, d);
        if let Some(c) = add_constants(consts, val, d) {
            assert forall|t: int| 0 <= t < items.len() implies c[consts.len() + t] == constant_entry(
                #[trigger] items[t],
            ) by {
                assert(c[consts.len() + t - 0] == constant_entry(items[t]));
            }
        }
    }
}

proof fn lemma_object_children_block(
    consts: Seq<(Seq<char>, Json)>,
    more: Seq<(Seq<char>, Json)>,
    key: Seq<char>,
    es: Seq<(Seq<char>, Json)>,
    k: int,
    d: Direction,
    mi: int,
    items: Seq<Json>,
)
    requires
        0 <= k,
    ensures
        object_children(consts, more, key, es, k, d) matches Some((c, _)) ==> starts_with(c, consts)
            && (k <= mi < es.len() && es[mi] == ("_"@, Json::Array(items)) ==> holds_block(c, items)),
    decreases es.len() - k,
{
    if k < es.len() {
        if es[k].0 == "_"@ {
            lemma_add_constants_block(consts, es[k].1, d);
            if let Some(c2) = add_constants(consts, es[k].1, d) {
                lemma_object_children_block(c2, more, key, es, k + 1, d, mi, items);
                if let Some((c, _)) = object_children(c2, more, key, es, k + 1, d) {
                    lemma_starts_trans(consts, c2, c);
                    if mi == k && es[mi] == ("_"@, Json::Array(items)) {
                        assert(block_at(c2, items, consts.len() as int));
                        lemma_block_kept(c2, c, items);
                    }
                }
            }
        } else {
            let e = (crate::compile::child_key(key, es[k].0, crate::compile::separator(d)), es[k].1);
            lemma_object_children_block(consts, more.push(e), key, es, k + 1, d, mi, items);
        }
    }
}

/// Processing an entry keeps the constants gathered so far, and an entry
/// that carries a `_` array adds its constants, in order.
proof fn lemma_compile_entry_block(st: Build, e: (Seq<char>, Json), d: Direction, items: Seq<Json>)
    ensures
        compile_entry(st, e.0, e.1, d) matches Some((st2, _)) ==> starts_with(st2.consts, st.consts)
            && (carries(e, items) ==> holds_block(st2.consts, items)),
{
    lemma_add_constants_block(st.consts, e.1, d);
    if let Json::Object(es) = e.1 {
        if e.0 != "_"@ && carries(e, items) {
            let mi = choose|mi: int| 0 <= mi < es.len() && #[trigger] es[mi] == ("_"@, Json::Array(items));
            lemma_object_children_block(st.consts, Seq::empty(), e.0, es, 0, d, mi, items);
        } else {
            lemma_object_children_block(st.consts, Seq::empty(), e.0, es, 0, d, -1, items);
        }
    }
    if let Some((st2, _)) = compile_entry(st, e.0, e.1, d) {
        if st2.consts == st.consts {
            assert(starts_with(st2.consts, st.consts));
        }
        if e.0 == "_"@ && e.1 == Json::Array(items) {
            assert(block_at(st2.consts, items, st.consts.len() as int));
        }
    }
}

/// The queue processed to the end keeps the constants gathered so far,
/// and the constants of every `_` array its entry `m` carries.
proof fn lemma_run_queue_block(
    st: Build,
    q: Seq<(Seq<char>, Json)>,
    d: Direction,
    m: int,
    items: Seq<Json>,
)
    ensures
        run_queue(st, q, d) matches Some(b) ==> starts_with(b.consts, st.consts) && (0 <= m < q.len()
            && carries(q[m], items) ==> holds_block(b.consts, items)),
    decreases values_size(q),
{
    if q.len() > 0 {
        lemma_compile_entry_block(st, q[0], d, items);
        if let Some((st2, more)) = compile_entry(st, q[0].0, q[0].1, d) {
            lemma_compile_entry_size(st, q[0].0, q[0].1, d);
            lemma_values_size_front(q);
            lemma_values_size_concat(q.drop_first(), more);
            let q2 = q.drop_first() + more;
            lemma_run_queue_block(st2, q2, d, m - 1, items);
            if let Some(b) = run_queue(st2, q2, d) {
                lemma_starts_trans(st.consts, st2.consts, b.consts);
                if m == 0 && carries(q[0], items) {
                    lemma_block_kept(st2.consts, b.consts, items);
                }
                if 0 < m < q.len() {
                    assert(q2[m - 1] == q[m]);
                }
            }
        }
    } else {
        assert(starts_with(st.consts, st.consts));
    }
}

proof fn lemma_run_sutures_block(
    st: Build,
    sutures: Seq<Json>,
    i: int,
    d: Direction,
    j: int,
    m: int,
    items: Seq<Json>,
)
    requires
        0 <= i,
    ensures
        run_sutures(st, sutures, i, d) matches Some(b) ==> starts_with(b.consts, st.consts) && (i <= j
            < sutures.len() && (sutures[j] matches Json::Object(ents) && 0 <= m < ents.len() && carries(
            ents[m],
            items,
        )) ==> holds_block(b.consts, items)),
    decreases sutures.len() - i,
{
    if i < sutures.len() {
        if let Json::Object(es) = sutures[i] {
            lemma_run_queue_block(st, es, d, if i == j { m } else { -1 }, items);
            if let Some(st2) = run_queue(st, es, d) {
                lemma_run_sutures_block(st2, sutures, i + 1, d, j, m, items);
                if let Some(b) = run_sutures(st2, sutures, i + 1, d) {
                    lemma_starts_trans(st.consts, st2.consts, b.consts);
                    if i == j && holds_block(st2.consts, items) {
                        lemma_block_kept(st2.consts, b.consts, items);
                    }
                }
            }
        }
    } else {
        assert(starts_with(st.consts, st.consts));
    }
}

/// Every `_` array of a suture contributes its constants.
///
/// When a set compiles, and entry `m` of suture `j` is a `_` array of
/// constants, or an object holding one (a nested `_`), the compiled
/// constants hold each constant of that array, in order and together: a
/// nested `_` contributes exactly as a `_` at the top level does.
pub proof fn lemma_every_constant_gathered(set: RawSetModel, j: int, m: int, items: Seq<Json>)
    requires
        0 <= j < set.sutures.len(),
        set.sutures[j] matches Json::Object(ents) && 0 <= m < ents.len() && carries(ents[m], items),
    ensures
        spec_compile_bindings(set) matches Some((_, c)) ==> holds_block(c, items),
        spec_compile(set) matches Some(s) ==> holds_block(s.constants, items),
{
    let init = Build { root: root_of(set.name), consts: Seq::empty() };
    lemma_run_sutures_block(init, set.sutures, 0, set.direction, j, m, items);
}

} // verus!
