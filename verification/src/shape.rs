//! Laws on the shape of compiled tries and on splitting paths.
use vstd::prelude::*;
use crate::compile::{
    add_terminal, add_terminals, compile_entry, key_segments, lemma_compile_entry_size,
    lemma_match_index, match_index, merge_all, object_children, root_of, run_queue, run_sutures,
    separator, spec_chain, spec_compile, spec_compile_bindings, spec_merge, split_prefix,
    spec_split_path, Build,
};
use crate::json::{lemma_values_size_concat, lemma_values_size_front, values_size, Json};
use crate::schema::{Direction, RawSetModel};
use crate::stitch::nonneg;
use crate::suture::{Capture, Trie};
use crate::text::count_char;
use crate::validate::{key_ok, terminal_ok};

verus! {

// ===========================================================================
// Children stay distinct
// ===========================================================================

/// No two of `cs` share both key and binding.
pub open spec fn distinct_children(cs: Seq<Trie>) -> bool {
    forall|i: int, j: int|
        0 <= i < j < cs.len() ==> !(#[trigger] cs[i].key == #[trigger] cs[j].key && cs[i].binding
            == cs[j].binding)
}

/// In every node of the trie, no two children share both key and binding.
pub open spec fn keyed(t: Trie) -> bool
    decreases t, t.children.len() + 1,
{
    distinct_children(t.children) && keyed_below(t, 0)
}

/// The children `t.children[i..]` satisfy `keyed`.
pub open spec fn keyed_below(t: Trie, i: int) -> bool
    decreases t, nonneg(t.children.len() - i),
{
    if i < 0 || i >= t.children.len() {
        true
    } else {
        proof {
            assert(decreases_to!(t => t.children));
            assert(decreases_to!(t.children => t.children[i]));
        }
        keyed(t.children[i]) && keyed_below(t, i + 1)
    }
}

proof fn lemma_keyed_below(t: Trie, i: int)
    requires
        0 <= i <= t.children.len(),
    ensures
        keyed_below(t, i) <==> forall|j: int| i <= j < t.children.len() ==> keyed(
            #[trigger] t.children[j],
        ),
    decreases t.children.len() - i,
{
    if i < t.children.len() {
        lemma_keyed_below(t, i + 1);
    }
}

/// `keyed` of a node, read through all its children at once.
proof fn lemma_keyed_unfold(t: Trie)
    ensures
        keyed(t) <==> distinct_children(t.children) && forall|j: int|
            0 <= j < t.children.len() ==> keyed(#[trigger] t.children[j]),
{
    lemma_keyed_below(t, 0);
}

/// A chain of segments has one child at each level.
proof fn lemma_chain_keyed(segs: Seq<Seq<char>>, t: Seq<char>)
    requires
        segs.len() >= 1,
    ensures
        keyed(spec_chain(segs, t)),
    decreases segs.len(),
{
    let ch = spec_chain(segs, t);
    lemma_keyed_unfold(ch);
    if segs.len() > 1 {
        lemma_chain_keyed(segs.drop_first(), t);
    }
}

/// Merging keeps the key and binding of the node merged into.
proof fn lemma_merge_all_keeps_key(p: Trie, cs: Seq<Trie>)
    ensures
        merge_all(p, cs).key == p.key,
        merge_all(p, cs).binding == p.binding,
    decreases cs.len(),
{
    if cs.len() > 0 {
        lemma_merge_all_keeps_key(spec_merge(p, cs[0]), cs.drop_first());
    }
}

/// Merging the children `c.children[k..]` into `p` keeps it keyed.
proof fn lemma_merge_all_keyed(p: Trie, c: Trie, k: int)
    requires
        0 <= k <= c.children.len(),
        keyed(p),
        keyed(c),
    ensures
        keyed(merge_all(p, c.children.skip(k))),
    decreases c, 0int, c.children.len() - k,
{
    if k < c.children.len() {
        let ck = c.children[k];
        let cs = c.children.skip(k);
        assert(cs[0] == ck);
        assert(cs.drop_first() =~= c.children.skip(k + 1));
        assert(decreases_to!(c => c.children));
        assert(decreases_to!(c.children => c.children[k]));
        lemma_keyed_unfold(c);
        lemma_merge_keyed(p, ck);
        lemma_merge_all_keyed(spec_merge(p, ck), c, k + 1);
    } else {
        assert(c.children.skip(k) =~= Seq::<Trie>::empty());
    }
}

/// Merging a keyed child into a keyed trie gives a keyed trie: a child with
/// the key and binding of an existing one is merged into it, and only a new
/// pair is appended.
pub proof fn lemma_merge_keyed(parent: Trie, child: Trie)
    requires
        keyed(parent),
        keyed(child),
    ensures
        keyed(spec_merge(parent, child)),
    decreases child, 1int, 0int,
{
    lemma_match_index(parent.children, child.key, child.binding);
    lemma_keyed_unfold(parent);
    lemma_keyed_unfold(child);
    let i = match_index(parent.children, child.key, child.binding);
    let m = spec_merge(parent, child);
    if 0 <= i < parent.children.len() {
        let e = parent.children[i];
        let e1 = Trie { targets: e.targets + child.targets, ..e };
        let x = merge_all(e1, child.children);
        lemma_keyed_unfold(e);
        lemma_keyed_unfold(e1);
        assert(child.children.skip(0) =~= child.children);
        lemma_merge_all_keyed(e1, child, 0);
        lemma_merge_all_keeps_key(e1, child.children);
        assert(m.children == parent.children.update(i, x));
        assert(distinct_children(m.children)) by {
            assert forall|a: int, b: int| 0 <= a < b < m.children.len() implies !(
            #[trigger] m.children[a].key == #[trigger] m.children[b].key && m.children[a].binding
                == m.children[b].binding) by {
                assert(m.children[a].key == parent.children[a].key);
                assert(m.children[b].key == parent.children[b].key);
                assert(m.children[a].binding == parent.children[a].binding);
                assert(m.children[b].binding == parent.children[b].binding);
            }
        }
        assert forall|j: int| 0 <= j < m.children.len() implies keyed(#[trigger] m.children[j]) by {
            if j != i {
                assert(m.children[j] == parent.children[j]);
            }
        }
        lemma_keyed_unfold(m);
    } else {
        assert(m.children == parent.children.push(child));
        assert(distinct_children(m.children)) by {
            assert forall|a: int, b: int| 0 <= a < b < m.children.len() implies !(
            #[trigger] m.children[a].key == #[trigger] m.children[b].key && m.children[a].binding
                == m.children[b].binding) by {
                assert(m.children[a] == parent.children[a]);
                if b < parent.children.len() {
                    assert(m.children[b] == parent.children[b]);
                } else {
                    assert(m.children[b] == child);
                }
            }
        }
        assert forall|j: int| 0 <= j < m.children.len() implies keyed(#[trigger] m.children[j]) by {
            if j < parent.children.len() {
                assert(m.children[j] == parent.children[j]);
            }
        }
        lemma_keyed_unfold(m);
    }
}

/// Merging keeps the order of the existing children: each keeps its place,
/// key and binding; the new child is appended last exactly when no existing
/// child has its key and binding, and otherwise the children are as many as
/// before.
pub proof fn lemma_merge_order(parent: Trie, child: Trie)
    ensures
        ({
            let m = spec_merge(parent, child);
            let absent = forall|j: int|
                0 <= j < parent.children.len() ==> !(#[trigger] parent.children[j].key == child.key
                    && parent.children[j].binding == child.binding);
            &&& m.key == parent.key && m.binding == parent.binding && m.targets == parent.targets
            &&& forall|j: int|
                0 <= j < parent.children.len() ==> #[trigger] m.children[j].key
                    == parent.children[j].key && m.children[j].binding == parent.children[j].binding
            &&& absent ==> m.children.len() == parent.children.len() + 1 && m.children.last()
                == child
            &&& !absent ==> m.children.len() == parent.children.len()
        }),
{
    lemma_match_index(parent.children, child.key, child.binding);
    let i = match_index(parent.children, child.key, child.binding);
    if 0 <= i < parent.children.len() {
        let e = parent.children[i];
        let e1 = Trie { targets: e.targets + child.targets, ..e };
        lemma_merge_all_keeps_key(e1, child.children);
        assert(parent.children[i].key == child.key && parent.children[i].binding == child.binding);
    }
}

// ===========================================================================
// Compiled tries are keyed
// ===========================================================================

proof fn lemma_add_terminal_keyed(root: Trie, segs: Seq<Seq<char>>, t: Seq<char>)
    requires
        keyed(root),
    ensures
        keyed(add_terminal(root, segs, t)),
        add_terminal(root, segs, t).key == root.key,
        add_terminal(root, segs, t).binding == root.binding,
{
    if segs.len() == 0 {
        let r2 = add_terminal(root, segs, t);
        lemma_keyed_unfold(root);
        lemma_keyed_unfold(r2);
    } else {
        lemma_chain_keyed(segs, t);
        lemma_merge_keyed(root, spec_chain(segs, t));
    }
}

proof fn lemma_add_terminals_keyed(root: Trie, segs: Seq<Seq<char>>, items: Seq<Json>, k: int, d: Direction)
    requires
        keyed(root),
    ensures
        add_terminals(root, segs, items, k, d) matches Some(r) ==> keyed(r) && r.key == root.key
            && r.binding == root.binding,
    decreases items.len() - k,
{
    if 0 <= k < items.len() {
        if let Json::Str(t) = items[k] {
            if terminal_ok(t, d) {
                lemma_add_terminal_keyed(root, segs, t);
                lemma_add_terminals_keyed(add_terminal(root, segs, t), segs, items, k + 1, d);
            }
        }
    }
}

proof fn lemma_compile_entry_keyed(st: Build, key: Seq<char>, val: Json, d: Direction)
    requires
        keyed(st.root),
    ensures
        compile_entry(st, key, val, d) matches Some((st2, _)) ==> keyed(st2.root) && st2.root.key
            == st.root.key && st2.root.binding == st.root.binding,
{
    if key != "_"@ && key_ok(key, d) {
        let segs = key_segments(key, separator(d));
        match val {
            Json::Str(t) => {
                if terminal_ok(t, d) {
                    lemma_add_terminal_keyed(st.root, segs, t);
                }
            },
            Json::Array(items) => {
                lemma_add_terminals_keyed(st.root, segs, items, 0, d);
            },
            _ => {},
        }
    }
}

proof fn lemma_run_queue_keyed(st: Build, q: Seq<(Seq<char>, Json)>, d: Direction)
    requires
        keyed(st.root),
    ensures
        run_queue(st, q, d) matches Some(b) ==> keyed(b.root) && b.root.key == st.root.key
            && b.root.binding == st.root.binding,
    decreases values_size(q),
{
    if q.len() > 0 {
        lemma_compile_entry_keyed(st, q[0].0, q[0].1, d);
        if let Some((st2, more)) = compile_entry(st, q[0].0, q[0].1, d) {
            lemma_compile_entry_size(st, q[0].0, q[0].1, d);
            lemma_values_size_front(q);
            lemma_values_size_concat(q.drop_first(), more);
            lemma_run_queue_keyed(st2, q.drop_first() + more, d);
        }
    }
}

proof fn lemma_run_sutures_keyed(st: Build, sutures: Seq<Json>, i: int, d: Direction)
    requires
        keyed(st.root),
    ensures
        run_sutures(st, sutures, i, d) matches Some(b) ==> keyed(b.root) && b.root.key
            == st.root.key && b.root.binding == st.root.binding,
    decreases sutures.len() - i,
{
    if 0 <= i < sutures.len() {
        if let Json::Object(es) = sutures[i] {
            lemma_run_queue_keyed(st, es, d);
            if let Some(st2) = run_queue(st, es, d) {
                lemma_run_sutures_keyed(st2, sutures, i + 1, d);
            }
        }
    }
}

/// The bindings compiled from a set form a keyed trie: its root carries the
/// set's name and the `Direct` binding, the capture follows the set's
/// direction, and in every node no two children share both key and binding.
/// This holds of `compile_bindings` on any set, an empty name included, and
/// so of every compiled suture.
pub proof fn lemma_compiled_trie_keyed(set: RawSetModel)
    ensures
        spec_compile_bindings(set) matches Some((cap, _)) ==> match cap {
            Capture::Request(root) => set.direction == Direction::Request && keyed(root)
                && root.key == set.name && root.binding == crate::suture::Binding::Direct,
            Capture::Response(root) => set.direction == Direction::Response && keyed(root)
                && root.key == set.name && root.binding == crate::suture::Binding::Direct,
        },
        spec_compile(set) matches Some(m) ==> match m.binding {
            Capture::Request(root) => set.direction == Direction::Request && keyed(root)
                && root.key == set.name && root.binding == crate::suture::Binding::Direct,
            Capture::Response(root) => set.direction == Direction::Response && keyed(root)
                && root.key == set.name && root.binding == crate::suture::Binding::Direct,
        },
{
    let init = Build { root: root_of(set.name), consts: Seq::empty() };
    lemma_keyed_unfold(init.root);
    lemma_run_sutures_keyed(init, set.sutures, 0, set.direction);
}

// ===========================================================================
// Splitting a path
// ===========================================================================

/// The pieces joined again, with `sep` between each two.
pub open spec fn join_with(pieces: Seq<Seq<char>>, sep: char) -> Seq<char>
    decreases pieces.len(),
{
    if pieces.len() == 0 {
        Seq::empty()
    } else if pieces.len() == 1 {
        pieces[0]
    } else {
        join_with(pieces.drop_last(), sep).push(sep) + pieces.last()
    }
}

/// The number of separators among `p[..n]` that stand outside backtick
/// regions.
pub open spec fn outside_seps(p: Seq<char>, sep: char, n: int) -> nat
    decreases n,
{
    if n <= 0 {
        0
    } else {
        outside_seps(p, sep, n - 1) + if p[n - 1] == sep && sep != '`' && count_char(
            p.take(n - 1),
            '`',
        ) % 2 == 0 {
            1nat
        } else {
            0nat
        }
    }
}

proof fn lemma_join_extend_last(pieces: Seq<Seq<char>>, sep: char, c: char)
    requires
        pieces.len() >= 1,
    ensures
        join_with(pieces.update(pieces.len() - 1, pieces.last().push(c)), sep) == join_with(
            pieces,
            sep,
        ).push(c),
{
    let u = pieces.update(pieces.len() - 1, pieces.last().push(c));
    if pieces.len() == 1 {
        assert(u[0] == pieces[0].push(c));
    } else {
        assert(u.drop_last() =~= pieces.drop_last());
        assert(u.last() == pieces.last().push(c));
        assert(join_with(u, sep) =~= join_with(pieces, sep).push(c));
    }
}

proof fn lemma_split_prefix_join(p: Seq<char>, sep: char, n: int)
    requires
        0 <= n <= p.len(),
    ensures
        join_with(split_prefix(p, sep, n), sep) == p.take(n),
        split_prefix(p, sep, n).len() == 1 + outside_seps(p, sep, n),
    decreases n,
{
    if n == 0 {
        assert(p.take(0) =~= Seq::<char>::empty());
    } else {
        lemma_split_prefix_join(p, sep, n - 1);
        crate::compile::lemma_split_prefix_len(p, sep, n - 1);
        let prev = split_prefix(p, sep, n - 1);
        assert(p.take(n) =~= p.take(n - 1).push(p[n - 1]));
        if p[n - 1] == sep && sep != '`' && count_char(p.take(n - 1), '`') % 2 == 0 {
            let q = prev.push(Seq::<char>::empty());
            assert(q.drop_last() =~= prev);
            assert(join_with(q, sep) =~= p.take(n));
        } else {
            lemma_join_extend_last(prev, sep, p[n - 1]);
        }
    }
}

/// Splitting a path and joining the pieces again with the separator gives
/// the path back, and there is one piece more than there are separators
/// outside backtick regions (so none is split inside a regex).
pub proof fn lemma_split_join(p: Seq<char>, sep: char)
    ensures
        join_with(spec_split_path(p, sep), sep) == p,
        spec_split_path(p, sep).len() == 1 + outside_seps(p, sep, p.len() as int),
{
    lemma_split_prefix_join(p, sep, p.len() as int);
    assert(p.take(p.len() as int) =~= p);
}

// ===========================================================================
// Nested objects and dotted keys
// ===========================================================================

/// The entries of a nested object under `k`, each under its dotted key:
/// `k` and the entry's key joined by the separator, or directly when the
/// entry's key starts with the separator or `[`.
pub open spec fn dotted_entries(k: Seq<char>, es: Seq<(Seq<char>, Json)>, sep: char) -> Seq<
    (Seq<char>, Json),
> {
    Seq::new(es.len(), |i: int| (crate::compile::child_key(k, es[i].0, sep), es[i].1))
}

/// No entry is the constants entry `_`.
pub open spec fn no_constants_key(es: Seq<(Seq<char>, Json)>) -> bool {
    forall|t: int| 0 <= t < es.len() ==> #[trigger] es[t].0 != "_"@
}

proof fn lemma_object_children_dotted(
    consts: Seq<(Seq<char>, Json)>,
    more: Seq<(Seq<char>, Json)>,
    k: Seq<char>,
    es: Seq<(Seq<char>, Json)>,
    i: int,
    d: Direction,
)
    requires
        no_constants_key(es),
        0 <= i <= es.len(),
    ensures
        object_children(consts, more, k, es, i, d) == Some(
            (consts, more + dotted_entries(k, es, separator(d)).subrange(i, es.len() as int)),
        ),
    decreases es.len() - i,
{
    let de = dotted_entries(k, es, separator(d));
    if i < es.len() {
        assert(es[i].0 != "_"@);
        let e = (crate::compile::child_key(k, es[i].0, separator(d)), es[i].1);
        lemma_object_children_dotted(consts, more.push(e), k, es, i + 1, d);
        assert(de[i] == e);
        assert(more.push(e) + de.subrange(i + 1, es.len() as int) =~= more + de.subrange(
            i,
            es.len() as int,
        ));
    } else {
        assert(more + de.subrange(i, es.len() as int) =~= more);
    }
}

/// A nested suture object compiles as its dotted keys: the entry
/// `k: { c1: v1, c2: v2, .. }`, with no `_` among the `ci`, is queued as
/// `k.c1: v1, k.c2: v2, ..` (with the direction's separator, or directly
/// after `k` when `ci` starts with a separator or `[`), behind the entries
/// already queued; alone in its object, it compiles exactly as those
/// dotted entries do.
pub proof fn lemma_nested_object_as_dotted_key(
    st: Build,
    k: Seq<char>,
    es: Seq<(Seq<char>, Json)>,
    rest: Seq<(Seq<char>, Json)>,
    d: Direction,
)
    requires
        k != "_"@,
        no_constants_key(es),
        key_ok(k, d),
    ensures
        run_queue(st, seq![(k, Json::Object(es))] + rest, d) == run_queue(
            st,
            rest + dotted_entries(k, es, separator(d)),
            d,
        ),
        run_queue(st, seq![(k, Json::Object(es))], d) == run_queue(
            st,
            dotted_entries(k, es, separator(d)),
            d,
        ),
{
    let de = dotted_entries(k, es, separator(d));
    let none = Seq::<(Seq<char>, Json)>::empty();
    lemma_object_children_dotted(st.consts, none, k, es, 0, d);
    assert(none + de.subrange(0, es.len() as int) =~= de);
    assert(compile_entry(st, k, Json::Object(es), d) == Some((st, de)));
    let q = seq![(k, Json::Object(es))] + rest;
    assert(q[0] == (k, Json::Object(es)));
    assert(q.drop_first() =~= rest);
    let q1 = seq![(k, Json::Object(es))];
    assert(q1[0] == (k, Json::Object(es)));
    assert(q1.drop_first() + de =~= de);
}

/// A suture written with a nested object compiles as the one written with
/// dotted keys: replacing the suture `{k: {c1: v1, c2: v2, ..}}` of a set,
/// with no `_` among the `ci`, by `{k.c1: v1, k.c2: v2, ..}` (with the
/// direction's separator, or with `ci` attached directly when it starts
/// with a separator or `[`) gives the same bindings and constants, or the
/// same refusal.
pub proof fn lemma_nested_suture_as_dotted(
    set: RawSetModel,
    j: int,
    k: Seq<char>,
    es: Seq<(Seq<char>, Json)>,
)
    requires
        0 <= j < set.sutures.len(),
        set.sutures[j] == Json::Object(seq![(k, Json::Object(es))]),
        k != "_"@,
        no_constants_key(es),
        key_ok(k, set.direction),
    ensures
        spec_compile_bindings(set) == spec_compile_bindings(
            RawSetModel {
                sutures: set.sutures.update(
                    j,
                    Json::Object(dotted_entries(k, es, separator(set.direction))),
                ),
                ..set
            },
        ),
        spec_compile(set) == spec_compile(
            RawSetModel {
                sutures: set.sutures.update(
                    j,
                    Json::Object(dotted_entries(k, es, separator(set.direction))),
                ),
                ..set
            },
        ),
{
    let d = set.direction;
    let dotted = Json::Object(dotted_entries(k, es, separator(d)));
    let s2 = set.sutures.update(j, dotted);
    let init = Build { root: root_of(set.name), consts: Seq::empty() };
    lemma_run_sutures_replace(init, set.sutures, s2, 0, j, k, es, d);
}

proof fn lemma_run_sutures_replace(
    st: Build,
    s1: Seq<Json>,
    s2: Seq<Json>,
    i: int,
    j: int,
    k: Seq<char>,
    es: Seq<(Seq<char>, Json)>,
    d: Direction,
)
    requires
        0 <= j < s1.len(),
        s1.len() == s2.len(),
        forall|t: int| 0 <= t < s1.len() && t != j ==> s1[t] == s2[t],
        s1[j] == Json::Object(seq![(k, Json::Object(es))]),
        s2[j] == Json::Object(dotted_entries(k, es, separator(d))),
        k != "_"@,
        no_constants_key(es),
        key_ok(k, d),
        0 <= i,
    ensures
        run_sutures(st, s1, i, d) == run_sutures(st, s2, i, d),
    decreases s1.len() - i,
{
    if i < s1.len() {
        if i == j {
            lemma_nested_object_as_dotted_key(st, k, es, Seq::empty(), d);
            match run_queue(st, seq![(k, Json::Object(es))], d) {
                Some(st2) => {
                    lemma_run_sutures_replace(st2, s1, s2, i + 1, j, k, es, d);
                },
                None => {},
            }
        } else {
            assert(s1[i] == s2[i]);
            if let Json::Object(ents) = s1[i] {
                if let Some(st2) = run_queue(st, ents, d) {
                    lemma_run_sutures_replace(st2, s1, s2, i + 1, j, k, es, d);
                }
            }
        }
    }
}

} // verus!
