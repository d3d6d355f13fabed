//! Compilation of a suture set into a binding trie and constants.
use vstd::prelude::*;
use crate::error::Error;
use crate::json::{
    entry_models, jsize, lemma_array_model, lemma_object_model, lemma_values_size_concat, models, lemma_values_size_front, values_size, Json, JsonValue,
};
use crate::schema::{Direction, RawSetModel, RawSutureSet};
use crate::wellformed::{items_wf, lemma_compiled_suture_keeps_well_formed, values_wf};
use crate::validate::{
    key_err, key_ok, terminal_err, terminal_ok, validate_constant, validate_key, validate_terminal,
};
use std::collections::VecDeque;
use crate::suture::{
    Bindings, Capture, Suture, SutureModel, binding_of, lemma_trie_children, strings, trie_of, tries, Binding, BindingTaskType, Trie,
    TrieNode,
};
use crate::text::{
    chars_of, count_char, decimal, find_char, find_from, lemma_find_from, lemma_split_on_len, parse_i64,
    spec_parse_i64, split_chars, split_on, string_from, sub_chars,
};

verus! {

// ===========================================================================
// Specifications
// ===========================================================================

/// Direction-dependent path separator.
pub open spec fn separator(d: Direction) -> char {
    match d {
        Direction::Request => '.',
        Direction::Response => '/',
    }
}

/// The segments of `p.take(n)`: pieces between separators that stand
/// outside backtick regions (an even number of backticks before them).
pub open spec fn split_prefix(p: Seq<char>, sep: char, n: int) -> Seq<Seq<char>>
    decreases n,
{
    if n <= 0 {
        seq![Seq::empty()]
    } else {
        let prev = split_prefix(p, sep, n - 1);
        if p[n - 1] == sep && sep != '`' && count_char(p.take(n - 1), '`') % 2 == 0 {
            prev.push(Seq::empty())
        } else {
            prev.update(prev.len() - 1, prev.last().push(p[n - 1]))
        }
    }
}

/// The segments of a path, split on `sep` outside backtick regions.
pub open spec fn spec_split_path(p: Seq<char>, sep: char) -> Seq<Seq<char>> {
    split_prefix(p, sep, p.len() as int)
}

pub proof fn lemma_split_prefix_len(p: Seq<char>, sep: char, n: int)
    ensures
        split_prefix(p, sep, n).len() >= 1,
    decreases n,
{
    if n > 0 {
        lemma_split_prefix_len(p, sep, n - 1);
    }
}

/// A part of a bracket expression: absent when empty, else parsed.
pub open spec fn opt_part(s: Seq<char>) -> Option<i64> {
    if s.len() == 0 {
        None
    } else {
        spec_parse_i64(s)
    }
}

/// `start:end:step` from bracket content. A single index `N` gives
/// `(N, N+1, 1)`.
pub open spec fn spec_parse_range(inner: Seq<char>) -> (Option<i64>, Option<i64>, Option<i64>) {
    let parts = split_on(inner, ':');
    if parts.len() == 1 {
        let n = spec_parse_i64(parts[0]);
        (
            n,
            match n {
                Some(v) => if v < i64::MAX {
                    Some((v + 1) as i64)
                } else {
                    None
                },
                None => None,
            },
            Some(1),
        )
    } else if parts.len() == 2 {
        (opt_part(parts[0]), opt_part(parts[1]), None)
    } else if parts.len() == 3 {
        (opt_part(parts[0]), opt_part(parts[1]), opt_part(parts[2]))
    } else {
        (None, None, None)
    }
}

/// The bare identifier of a segment: the regex pattern of a segment that
/// starts with a backtick, else the text before the first `[` or backtick.
pub open spec fn spec_bare_ident(k: Seq<char>) -> Seq<char> {
    if k.len() > 0 && k[0] == '`' {
        let rest = k.drop_first();
        rest.take(find_from(rest, '`', 0))
    } else {
        k.take(
            if find_from(k, '[', 0) < find_from(k, '`', 0) {
                find_from(k, '[', 0)
            } else {
                find_from(k, '`', 0)
            },
        )
    }
}

pub open spec fn range_binding(r: (Option<i64>, Option<i64>, Option<i64>)) -> Binding {
    Binding::Iterate(r.0, r.1, r.2)
}

/// The bracket scan of a segment without a backtick pair: the first `[`
/// outside a backtick region, closed by a `]`, gives an iteration.
pub open spec fn bracket_scan(s: Seq<char>, i: int) -> Binding
    decreases s.len() - i,
{
    if i >= s.len() || i < 0 {
        Binding::Direct
    } else if s[i] == '`' {
        let c = find_from(s, '`', i + 1);
        proof {
            lemma_find_from(s, '`', i + 1);
        }
        if c >= s.len() {
            Binding::Direct
        } else {
            bracket_scan(s, c + 1)
        }
    } else if s[i] == '[' {
        let k = find_from(s, ']', i + 1);
        proof {
            lemma_find_from(s, ']', i + 1);
        }
        if k < s.len() {
            range_binding(spec_parse_range(s.subrange(i + 1, k)))
        } else {
            Binding::Direct
        }
    } else {
        bracket_scan(s, i + 1)
    }
}

/// The binding a segment resolves to: a backtick pair gives a pattern
/// (with the range of a bracket after it), else brackets give an iteration,
/// else a direct lookup.
pub open spec fn spec_resolve_binding(s: Seq<char>) -> Binding {
    let bt = find_from(s, '`', 0);
    let bt2 = find_from(s, '`', bt + 1);
    if bt < s.len() && bt2 < s.len() {
        let after = s.subrange(bt2 + 1, s.len() as int);
        let bs = find_from(after, '[', 0);
        let be = find_from(after, ']', bs);
        let r = if bs < after.len() && be < after.len() {
            spec_parse_range(after.subrange(bs + 1, be))
        } else {
            (None, None, None)
        };
        Binding::Pattern(s.subrange(bt + 1, bt2), r.0, r.1, r.2)
    } else {
        bracket_scan(s, 0)
    }
}

/// The chain of nodes built from path segments: each segment one node, the
/// last one carrying the target.
pub open spec fn spec_chain(segs: Seq<Seq<char>>, target: Seq<char>) -> Trie
    decreases segs.len(),
{
    if segs.len() <= 1 {
        Trie {
            key: spec_bare_ident(segs[0]),
            binding: spec_resolve_binding(segs[0]),
            targets: seq![target],
            children: Seq::empty(),
        }
    } else {
        Trie {
            key: spec_bare_ident(segs[0]),
            binding: spec_resolve_binding(segs[0]),
            targets: Seq::empty(),
            children: seq![spec_chain(segs.drop_first(), target)],
        }
    }
}

/// Index of the first child with the same key and binding, or -1.
pub open spec fn match_index(cs: Seq<Trie>, key: Seq<char>, b: Binding) -> int
    decreases cs.len(),
{
    if cs.len() == 0 {
        -1
    } else {
        let i = match_index(cs.drop_last(), key, b);
        if i >= 0 {
            i
        } else if cs.last().key == key && cs.last().binding == b {
            cs.len() - 1
        } else {
            -1
        }
    }
}

pub proof fn lemma_match_index(cs: Seq<Trie>, key: Seq<char>, b: Binding)
    ensures
        -1 <= match_index(cs, key, b) < cs.len(),
        match_index(cs, key, b) >= 0 ==> cs[match_index(cs, key, b)].key == key
            && cs[match_index(cs, key, b)].binding == b,
        forall|j: int|
            0 <= j < cs.len() && (match_index(cs, key, b) < 0 || j < match_index(cs, key, b))
                ==> !(#[trigger] cs[j].key == key && cs[j].binding == b),
    decreases cs.len(),
{
    if cs.len() > 0 {
        lemma_match_index(cs.drop_last(), key, b);
        assert forall|j: int|
            0 <= j < cs.len() && (match_index(cs, key, b) < 0 || j < match_index(cs, key, b))
                implies !(#[trigger] cs[j].key == key && cs[j].binding == b) by {
            if j < cs.len() - 1 {
                assert(cs.drop_last()[j] == cs[j]);
            }
        }
        if match_index(cs.drop_last(), key, b) >= 0 {
            assert(cs.drop_last()[match_index(cs.drop_last(), key, b)] == cs[match_index(
                cs,
                key,
                b,
            )]);
        }
    }
}

/// Merging a child into a parent: a child with the same key and binding
/// absorbs the new child's targets (fan-out) and, recursively, its children;
/// otherwise the new child is appended.
pub open spec fn spec_merge(parent: Trie, child: Trie) -> Trie
    decreases child,
{
    let i = match_index(parent.children, child.key, child.binding);
    if 0 <= i < parent.children.len() {
        let e = parent.children[i];
        let e1 = Trie { targets: e.targets + child.targets, ..e };
        Trie {
            children: parent.children.update(i, merge_all(e1, child.children)),
            ..parent
        }
    } else {
        Trie { children: parent.children.push(child), ..parent }
    }
}

/// Merging each of `cs` into `parent`, in order.
pub open spec fn merge_all(parent: Trie, cs: Seq<Trie>) -> Trie
    decreases cs,
{
    if cs.len() == 0 {
        parent
    } else {
        merge_all(spec_merge(parent, cs[0]), cs.drop_first())
    }
}

// ===========================================================================
// Leaf utilities
// ===========================================================================

/// Direction-dependent path separator.
pub fn terminal_separator(dir: &Direction) -> (r: char)
    ensures
        r == separator(*dir),
{
    match dir {
        Direction::Request => '.',
        Direction::Response => '/',
    }
}

/// Split a path on `sep`, keeping backtick-delimited regex regions intact.
pub fn split_path(path: &str, sep: char) -> (r: Vec<&str>)
    ensures
        r@.len() == spec_split_path(path@, sep).len(),
        forall|i: int| 0 <= i < r@.len() ==> (#[trigger] r@[i])@ == spec_split_path(path@, sep)[i],
{
    let cs = chars_of(path);
    let n = cs.len();
    let mut segments: Vec<&str> = Vec::new();
    let mut start: usize = 0;
    let mut i: usize = 0;
    let mut in_backtick = false;
    while i < n
        invariant
            n == cs@.len(),
            cs@ == path@,
            start <= i <= n,
            in_backtick == (count_char(path@.take(i as int), '`') % 2 == 1),
            segments@.len() + 1 == split_prefix(path@, sep, i as int).len(),
            forall|j: int|
                0 <= j < segments@.len() ==> (#[trigger] segments@[j])@ == split_prefix(
                    path@,
                    sep,
                    i as int,
                )[j],
            split_prefix(path@, sep, i as int).last() == path@.subrange(start as int, i as int),
        decreases n - i,
    {
        proof {
            lemma_split_prefix_len(path@, sep, i as int);
            assert(path@.take(i + 1).drop_last() =~= path@.take(i as int));
        }
        let c = cs[i];
        if c == '`' {
            in_backtick = !in_backtick;
            i = i + 1;
            assert(path@.subrange(start as int, i as int) =~= path@.subrange(
                start as int,
                i - 1,
            ).push(c));
        } else if !in_backtick && c == sep {
            segments.push(path.substring_char(start, i));
            start = i + 1;
            i = i + 1;
            assert(path@.subrange(start as int, i as int) =~= Seq::<char>::empty());
        } else {
            i = i + 1;
            assert(path@.subrange(start as int, i as int) =~= path@.subrange(
                start as int,
                i - 1,
            ).push(c));
        }
    }
    proof {
        lemma_split_prefix_len(path@, sep, n as int);
    }
    segments.push(path.substring_char(start, n));
    segments
}

/// Parse `start:end:step` from bracket content.
pub fn parse_range(inner: &str) -> (r: (Option<i64>, Option<i64>, Option<i64>))
    ensures
        r == spec_parse_range(inner@),
{
    let cs = chars_of(inner);
    let parts = split_chars(&cs, ':');
    proof {
        lemma_split_on_len(inner@, ':');
    }
    if parts.len() == 1 {
        let n = parse_i64(&parts[0]);
        let end = match n {
            Some(v) => if v < i64::MAX {
                Some(v + 1)
            } else {
                None
            },
            None => None,
        };
        (n, end, Some(1))
    } else if parts.len() == 2 {
        (opt_part_exec(&parts[0]), opt_part_exec(&parts[1]), None)
    } else if parts.len() == 3 {
        (opt_part_exec(&parts[0]), opt_part_exec(&parts[1]), opt_part_exec(&parts[2]))
    } else {
        (None, None, None)
    }
}

fn opt_part_exec(s: &Vec<char>) -> (r: Option<i64>)
    ensures
        r == opt_part(s@),
{
    if s.len() == 0 {
        None
    } else {
        parse_i64(s)
    }
}

/// The bare identifier of a segment, with brackets and backticks stripped.
///
/// `messages[:]` → `messages`; `` `content_\d+` `` → `content_\d+`.
pub fn bare_ident(key: &str) -> (r: &str)
    ensures
        r@ == spec_bare_ident(key@),
{
    let cs = chars_of(key);
    let n = cs.len();
    if n > 0 && cs[0] == '`' {
        let close = find_char(&cs, '`', 1);
        proof {
            let rest = key@.drop_first();
            lemma_find_from(rest, '`', 0);
            lemma_find_from(key@, '`', 1);
            lemma_find_from_shift(key@, '`', 1);
        }
        return key.substring_char(1, close);
    }
    let b = find_char(&cs, '[', 0);
    let t = find_char(&cs, '`', 0);
    let end = if b < t {
        b
    } else {
        t
    };
    key.substring_char(0, end)
}

/// `find_from` over `s.drop_first()` is `find_from` over `s`, shifted.
proof fn lemma_find_from_shift(s: Seq<char>, c: char, from: int)
    requires
        1 <= from,
        s.len() >= 1,
    ensures
        find_from(s.drop_first(), c, from - 1) == find_from(s, c, from) - 1,
    decreases s.len() - from,
{
    if from < s.len() && s[from] != c {
        lemma_find_from_shift(s, c, from + 1);
    }
}

/// Resolve a segment into a `BindingTaskType` by examining its syntax:
/// a backtick regex gives `IteratePattern`, brackets outside backticks give
/// `Iterate`, neither gives `Direct`.
pub fn resolve_binding(segment: &str) -> (r: BindingTaskType)
    ensures
        r@ == spec_resolve_binding(segment@),
{
    let cs = chars_of(segment);
    let n = cs.len();
    let bt = find_char(&cs, '`', 0);
    if bt < n {
        let bt2 = find_char(&cs, '`', bt + 1);
        if bt2 < n {
            let pattern = string_from(&sub_chars(&cs, bt + 1, bt2));
            let after = sub_chars(&cs, bt2 + 1, n);
            let bs = find_char(&after, '[', 0);
            let (start, end, step) = if bs < after.len() {
                let be = find_char(&after, ']', bs);
                proof {
                    lemma_find_from(after@, '[', 0);
                    lemma_find_from(after@, ']', bs as int);
                }
                if be < after.len() {
                    let inner = string_from(&sub_chars(&after, bs + 1, be));
                    parse_range(inner.as_str())
                } else {
                    (None, None, None)
                }
            } else {
                (None, None, None)
            };
            return BindingTaskType::IteratePattern { pattern, start, end, step };
        }
    }
    let mut i: usize = 0;
    while i < n
        invariant
            n == cs@.len(),
            cs@ == segment@,
            i <= n,
            spec_resolve_binding(segment@) == bracket_scan(segment@, i as int),
        decreases n - i,
    {
        if cs[i] == '`' {
            let c = find_char(&cs, '`', i + 1);
            if c >= n {
                return BindingTaskType::Direct;
            }
            i = c + 1;
        } else if cs[i] == '[' {
            let k = find_char(&cs, ']', i + 1);
            if k < n {
                let inner = string_from(&sub_chars(&cs, i + 1, k));
                let (start, end, step) = parse_range(inner.as_str());
                return BindingTaskType::Iterate { start, end, step };
            }
            return BindingTaskType::Direct;
        } else {
            i = i + 1;
        }
    }
    BindingTaskType::Direct
}

// ===========================================================================
// Trie construction
// ===========================================================================

/// Build a chain of trie nodes from path segments, bottom-up. The leaf
/// segment carries the target; the segments above only describe traversal.
pub fn build_terminal_chain(segments: &[&str], target: &str, ctx: &str) -> (r: Result<
    TrieNode,
    Error,
>)
    ensures
        segments@.len() == 0 <==> r is Err,
        r matches Err(e) ==> (e matches Error::Suture(m) && m@ == ctx@
            + ": key produced no path segments"@),
        r matches Ok(node) ==> node@ == spec_chain(
            Seq::new(segments@.len(), |i: int| segments@[i]@),
            target@,
        ),
{
    let ghost segs = Seq::new(segments@.len(), |i: int| segments@[i]@);
    let n = segments.len();
    if n == 0 {
        return Err(Error::Suture(crate::text::join2(ctx, ": key produced no path segments")));
    }
    let leaf = segments[n - 1];
    let mut targets: Vec<String> = Vec::new();
    targets.push(target.to_string());
    let mut node = TrieNode {
        key: bare_ident(leaf).to_string(),
        binding: resolve_binding(leaf),
        targets,
        children: Vec::new(),
    };
    proof {
        broadcast use vstd::string::group_string_axioms;

        lemma_trie_children(node);
        assert(segs.subrange(n - 1, n as int) =~= seq![segs[n - 1]]);
        assert(tries(node.children@) =~= Seq::empty());
        assert(strings(node.targets@) =~= seq![target@]);
    }
    let mut k: usize = n - 1;
    while k > 0
        invariant
            n == segments@.len(),
            segs == Seq::new(segments@.len(), |i: int| segments@[i]@),
            0 <= k < n,
            trie_of(node) == spec_chain(segs.subrange(k as int, n as int), target@),
        decreases k,
    {
        k = k - 1;
        let seg = segments[k];
        let mut children: Vec<TrieNode> = Vec::new();
        children.push(node);
        node = TrieNode {
            key: bare_ident(seg).to_string(),
            binding: resolve_binding(seg),
            targets: Vec::new(),
            children,
        };
        proof {
            broadcast use vstd::string::group_string_axioms;

            lemma_trie_children(node);
            assert(segs.subrange(k as int, n as int).drop_first() =~= segs.subrange(
                k + 1,
                n as int,
            ));
            assert(tries(node.children@) =~= seq![
                spec_chain(segs.subrange(k + 1, n as int), target@),
            ]);
            assert(strings(node.targets@) =~= Seq::empty());
        }
    }
    assert(segs.subrange(0, n as int) =~= segs);
    Ok(node)
}

/// Whether two bindings are the same.
pub fn same_binding(a: &BindingTaskType, b: &BindingTaskType) -> (r: bool)
    ensures
        r == (a@ == b@),
{
    match (a, b) {
        (BindingTaskType::Direct, BindingTaskType::Direct) => true,
        (
            BindingTaskType::Iterate { start: s1, end: e1, step: t1 },
            BindingTaskType::Iterate { start: s2, end: e2, step: t2 },
        ) => same_opt(s1, s2) && same_opt(e1, e2) && same_opt(t1, t2),
        (
            BindingTaskType::IteratePattern { pattern: p1, start: s1, end: e1, step: t1 },
            BindingTaskType::IteratePattern { pattern: p2, start: s2, end: e2, step: t2 },
        ) => *p1 == *p2 && same_opt(s1, s2) && same_opt(e1, e2) && same_opt(t1, t2),
        _ => false,
    }
}

fn same_opt(a: &Option<i64>, b: &Option<i64>) -> (r: bool)
    ensures
        r == (*a == *b),
{
    match (a, b) {
        (Some(x), Some(y)) => *x == *y,
        (None, None) => true,
        _ => false,
    }
}

/// Merge a child node into a parent's children.
///
/// If a child with the same key and binding exists, the new child's targets
/// are added to it (fan-out) and its children merged into it recursively;
/// otherwise the new child is appended.
#[verifier::loop_isolation(false)]
pub fn merge_into(parent: &mut TrieNode, child: TrieNode)
    ensures
        final(parent)@ == spec_merge(old(parent)@, child@),
    decreases child,
{
    proof {
        lemma_trie_children(*parent);
        lemma_trie_children(child);
        lemma_match_index(tries(parent.children@), child.key@, binding_of(child.binding));
    }
    let ghost p0 = trie_of(*parent);
    let ghost c0 = trie_of(child);
    let mut idx: usize = 0;
    #[verifier::loop_isolation(true)]
    while idx < parent.children.len()
        invariant
            idx <= parent.children@.len(),
            trie_of(*parent) == p0,
            p0.children == tries(parent.children@),
            c0.key == child.key@,
            c0.binding == binding_of(child.binding),
            forall|j: int|
                0 <= j < idx ==> !(#[trigger] p0.children[j].key == c0.key
                    && p0.children[j].binding == c0.binding),
        ensures
            idx <= parent.children@.len(),
            trie_of(*parent) == p0,
            p0.children == tries(parent.children@),
            forall|j: int|
                0 <= j < idx ==> !(#[trigger] p0.children[j].key == c0.key
                    && p0.children[j].binding == c0.binding),
            idx < parent.children@.len() ==> p0.children[idx as int].key == c0.key
                && p0.children[idx as int].binding == c0.binding,
        decreases parent.children@.len() - idx,
    {
        proof {
            lemma_trie_children(parent.children@[idx as int]);
        }
        if parent.children[idx].key == child.key && same_binding(
            &parent.children[idx].binding,
            &child.binding,
        ) {
            break;
        }
        idx = idx + 1;
    }
    let ghost i = match_index(p0.children, c0.key, c0.binding);
    if idx == parent.children.len() {
        assert(i < 0) by {
            if i >= 0 {
                assert(p0.children[i].key == c0.key && p0.children[i].binding == c0.binding);
            }
        }
        parent.children.push(child);
        proof {
            lemma_trie_children(*parent);
            assert(tries(parent.children@) =~= p0.children.push(c0));
        }
        return;
    }
    assert(i == idx) by {
        lemma_trie_children(parent.children@[idx as int]);
        if i < 0 || i > idx {
            assert(!(p0.children[idx as int].key == c0.key && p0.children[idx as int].binding
                == c0.binding));
        }
    }
    let ghost child0 = child;
    let TrieNode { key: _, binding: _, targets: mut new_targets, children: grandchildren } = child;
    let ghost e = p0.children[i];
    let mut existing = parent.children.remove(idx);
    proof {
        lemma_trie_children(existing);
        assert(trie_of(existing) == e);
    }
    existing.targets.append(&mut new_targets);
    let ghost e1 = Trie { targets: e.targets + c0.targets, ..e };
    proof {
        lemma_trie_children(existing);
        assert(strings(existing.targets@) =~= e.targets + c0.targets);
        assert(trie_of(existing) == e1);
        assert(c0.children.skip(0) =~= c0.children);
    }
    let mut gs = grandchildren;
    let ghost mut k: int = 0;
    while gs.len() > 0
        invariant
            0 <= k <= child0.children@.len(),
            gs@ == child0.children@.skip(k),
            c0.children == tries(child0.children@),
            merge_all(e1, c0.children) == merge_all(trie_of(existing), tries(gs@)),
        decreases gs@.len(),
    {
        let g = gs.remove(0);
        proof {
            assert(g == child0.children@[k]);
            assert(decreases_to!(child0.children@ => child0.children@[k]));
            assert(decreases_to!(child0.children => child0.children@));
            assert(decreases_to!(child0 => child0.children));
            assert(decreases_to!(child0 => g));
            let old_gs = child0.children@.skip(k);
            assert(tries(old_gs)[0] == trie_of(g));
            assert(tries(old_gs).drop_first() =~= tries(gs@));
        }
        merge_into(&mut existing, g);
        proof {
            k = k + 1;
            assert(gs@ =~= child0.children@.skip(k));
        }
    }
    proof {
        assert(tries(gs@) =~= Seq::empty());
    }
    parent.children.insert(idx, existing);
    proof {
        lemma_trie_children(*parent);
        assert(tries(parent.children@) =~= p0.children.update(i, merge_all(e1, c0.children)));
    }
}


// ===========================================================================
// Compilation of a suture set
// ===========================================================================

/// A key loses exactly one leading `/`.
pub open spec fn strip_slash(k: Seq<char>) -> Seq<char> {
    if k.len() > 0 && k[0] == '/' {
        k.drop_first()
    } else {
        k
    }
}

/// The path segments of a key: none for an empty path.
pub open spec fn key_segments(k: Seq<char>, sep: char) -> Seq<Seq<char>> {
    let p = strip_slash(k);
    if p.len() == 0 {
        Seq::empty()
    } else {
        spec_split_path(p, sep)
    }
}

/// The trie with one more terminal: on the root itself when the path is
/// empty, else through the chain of the path merged into the root.
pub open spec fn add_terminal(root: Trie, segs: Seq<Seq<char>>, t: Seq<char>) -> Trie {
    if segs.len() == 0 {
        Trie { targets: root.targets.push(t), ..root }
    } else {
        spec_merge(root, spec_chain(segs, t))
    }
}

/// The terminals `items[k..]` added in order; every item must be a valid
/// terminal string.
pub open spec fn add_terminals(
    root: Trie,
    segs: Seq<Seq<char>>,
    items: Seq<Json>,
    k: int,
    d: Direction,
) -> Option<Trie>
    decreases items.len() - k,
{
    if k < 0 || k >= items.len() {
        Some(root)
    } else {
        match items[k] {
            Json::Str(t) => if terminal_ok(t, d) {
                add_terminals(add_terminal(root, segs, t), segs, items, k + 1, d)
            } else {
                None
            },
            _ => None,
        }
    }
}

/// The constants `items[k..]` of a `_` array added in order: each must be an
/// object with exactly one property, whose key is a valid terminal.
pub open spec fn add_constant_items(
    consts: Seq<(Seq<char>, Json)>,
    items: Seq<Json>,
    k: int,
    d: Direction,
) -> Option<Seq<(Seq<char>, Json)>>
    decreases items.len() - k,
{
    if k < 0 || k >= items.len() {
        Some(consts)
    } else {
        match items[k] {
            Json::Object(es) => if es.len() != 1 || !terminal_ok(es[0].0, d) {
                None
            } else {
                add_constant_items(consts.push(es[0]), items, k + 1, d)
            },
            _ => None,
        }
    }
}

/// The constants of a `_` value added in order; the value must be an array.
pub open spec fn add_constants(consts: Seq<(Seq<char>, Json)>, val: Json, d: Direction) -> Option<
    Seq<(Seq<char>, Json)>,
> {
    match val {
        Json::Array(items) => add_constant_items(consts, items, 0, d),
        _ => None,
    }
}

/// The full key of a nested entry: a child key that starts with the
/// separator or a bracket attaches directly, any other after a separator.
pub open spec fn child_key(key: Seq<char>, ck: Seq<char>, sep: char) -> Seq<char> {
    if ck.len() > 0 && (ck[0] == sep || ck[0] == '[') {
        key + ck
    } else {
        key + seq![sep] + ck
    }
}

/// The entries `es[k..]` of a nested object: `_` entries add constants, the
/// others are queued under their full keys.
pub open spec fn object_children(
    consts: Seq<(Seq<char>, Json)>,
    more: Seq<(Seq<char>, Json)>,
    key: Seq<char>,
    es: Seq<(Seq<char>, Json)>,
    k: int,
    d: Direction,
) -> Option<(Seq<(Seq<char>, Json)>, Seq<(Seq<char>, Json)>)>
    decreases es.len() - k,
{
    if k < 0 || k >= es.len() {
        Some((consts, more))
    } else if es[k].0 == "_"@ {
        match add_constants(consts, es[k].1, d) {
            Some(c2) => object_children(c2, more, key, es, k + 1, d),
            None => None,
        }
    } else {
        object_children(
            consts,
            more.push((child_key(key, es[k].0, separator(d)), es[k].1)),
            key,
            es,
            k + 1,
            d,
        )
    }
}

/// The state of a compilation: the trie so far and the constants so far.
pub struct Build {
    pub root: Trie,
    pub consts: Seq<(Seq<char>, Json)>,
}

/// One queued entry processed: the new state and the entries it queues, or
/// `None` when the entry is refused.
pub open spec fn compile_entry(st: Build, key: Seq<char>, val: Json, d: Direction) -> Option<
    (Build, Seq<(Seq<char>, Json)>),
> {
    if key == "_"@ {
        match add_constants(st.consts, val, d) {
            Some(c) => Some((Build { consts: c, ..st }, Seq::empty())),
            None => None,
        }
    } else if !key_ok(key, d) {
        None
    } else {
        let segs = key_segments(key, separator(d));
        match val {
            Json::Str(t) => if terminal_ok(t, d) {
                Some((Build { root: add_terminal(st.root, segs, t), ..st }, Seq::empty()))
            } else {
                None
            },
            Json::Array(items) => if items.len() == 0 {
                None
            } else {
                match add_terminals(st.root, segs, items, 0, d) {
                    Some(r) => Some((Build { root: r, ..st }, Seq::empty())),
                    None => None,
                }
            },
            Json::Object(es) => match object_children(st.consts, Seq::empty(), key, es, 0, d) {
                Some((c, more)) => Some((Build { consts: c, ..st }, more)),
                None => None,
            },
            _ => None,
        }
    }
}

pub proof fn lemma_object_children_size(
    consts: Seq<(Seq<char>, Json)>,
    more: Seq<(Seq<char>, Json)>,
    key: Seq<char>,
    es: Seq<(Seq<char>, Json)>,
    k: int,
    d: Direction,
)
    requires
        0 <= k <= es.len(),
    ensures
        object_children(consts, more, key, es, k, d) matches Some((_, m)) ==> values_size(m)
            <= values_size(more) + values_size(es.subrange(k, es.len() as int)),
    decreases es.len() - k,
{
    if k < es.len() {
        let rest = es.subrange(k, es.len() as int);
        lemma_values_size_front(rest);
        assert(rest.drop_first() =~= es.subrange(k + 1, es.len() as int));
        if es[k].0 == "_"@ {
            if let Some(c2) = add_constants(consts, es[k].1, d) {
                lemma_object_children_size(c2, more, key, es, k + 1, d);
            }
        } else {
            let e = (child_key(key, es[k].0, separator(d)), es[k].1);
            lemma_object_children_size(consts, more.push(e), key, es, k + 1, d);
            lemma_values_size_concat(more, seq![e]);
            assert(more + seq![e] =~= more.push(e));
            lemma_values_size_front(seq![e]);
            assert(seq![e].drop_first() =~= Seq::<(Seq<char>, Json)>::empty());
        }
    }
}

/// The entries an entry queues hold fewer nodes than its value.
pub proof fn lemma_compile_entry_size(st: Build, key: Seq<char>, val: Json, d: Direction)
    ensures
        compile_entry(st, key, val, d) matches Some((_, more)) ==> values_size(more) < jsize(val),
{
    assert(values_size(Seq::<(Seq<char>, Json)>::empty()) == 0);
    if key != "_"@ && key_ok(key, d) {
        if let Json::Object(es) = val {
            lemma_object_children_size(st.consts, Seq::empty(), key, es, 0, d);
            assert(es.subrange(0, es.len() as int) =~= es);
        }
    }
}

/// The queue processed front to back, nested objects queuing their entries
/// at the back. `None` when an entry is refused.
pub open spec fn run_queue(st: Build, q: Seq<(Seq<char>, Json)>, d: Direction) -> Option<Build>
    decreases values_size(q),
{
    if q.len() == 0 {
        Some(st)
    } else {
        match compile_entry(st, q[0].0, q[0].1, d) {
            None => None,
            Some((st2, more)) => {
                proof {
                    lemma_compile_entry_size(st, q[0].0, q[0].1, d);
                    lemma_values_size_front(q);
                    lemma_values_size_concat(q.drop_first(), more);
                }
                run_queue(st2, q.drop_first() + more, d)
            },
        }
    }
}

/// The sutures `sutures[i..]` compiled in order: each must be an object,
/// whose entries are queued in order.
pub open spec fn run_sutures(st: Build, sutures: Seq<Json>, i: int, d: Direction) -> Option<Build>
    decreases sutures.len() - i,
{
    if i < 0 || i >= sutures.len() {
        Some(st)
    } else {
        match sutures[i] {
            Json::Object(es) => match run_queue(st, es, d) {
                Some(st2) => run_sutures(st2, sutures, i + 1, d),
                None => None,
            },
            _ => None,
        }
    }
}

/// A compilation message: the context, a separator, then the text of the
/// underlying compilation error.
pub open spec fn wrapped(ctx: Seq<char>, sep: Seq<char>, inner: Seq<char>) -> Seq<char> {
    ctx + sep + "suture error: "@ + inner
}

/// The message for the first constant item of `items[k..]` that is refused.
pub open spec fn add_constant_items_err(
    items: Seq<Json>,
    k: int,
    d: Direction,
    ctx: Seq<char>,
) -> Seq<char>
    decreases items.len() - k,
{
    if k < 0 || k >= items.len() {
        Seq::empty()
    } else {
        match items[k] {
            Json::Object(es) => if es.len() != 1 {
                ctx + ": constant entry must have exactly one property"@
            } else if !terminal_ok(es[0].0, d) {
                wrapped(ctx + ": constant '"@ + es[0].0, "': "@, terminal_err(es[0].0, d))
            } else {
                add_constant_items_err(items, k + 1, d, ctx)
            },
            _ => ctx + ": constant entry must be an object"@,
        }
    }
}

/// The message for a `_` value that is refused.
pub open spec fn add_constants_err(val: Json, d: Direction, ctx: Seq<char>) -> Seq<char> {
    match val {
        Json::Array(items) => add_constant_items_err(items, 0, d, ctx),
        _ => ctx + ": '_' must be an array"@,
    }
}

/// The message for the first entry of `es[k..]` of a nested object that is
/// refused (only `_` entries can be).
pub open spec fn object_children_err(
    consts: Seq<(Seq<char>, Json)>,
    es: Seq<(Seq<char>, Json)>,
    k: int,
    d: Direction,
    ctx: Seq<char>,
) -> Seq<char>
    decreases es.len() - k,
{
    if k < 0 || k >= es.len() {
        Seq::empty()
    } else if es[k].0 == "_"@ {
        match add_constants(consts, es[k].1, d) {
            Some(c2) => object_children_err(c2, es, k + 1, d, ctx),
            None => add_constants_err(es[k].1, d, ctx),
        }
    } else {
        object_children_err(consts, es, k + 1, d, ctx)
    }
}

/// The message for the first terminal of `items[k..]` that is refused.
pub open spec fn add_terminals_err(items: Seq<Json>, k: int, d: Direction, at: Seq<char>) -> Seq<char>
    decreases items.len() - k,
{
    if k < 0 || k >= items.len() {
        Seq::empty()
    } else {
        match items[k] {
            Json::Str(t) => if terminal_ok(t, d) {
                add_terminals_err(items, k + 1, d, at)
            } else {
                wrapped(at, ": "@, terminal_err(t, d))
            },
            _ => at + ": array items must be strings"@,
        }
    }
}

/// The message for a queued entry that is refused; `ctx` names the suture.
pub open spec fn compile_entry_err(
    st: Build,
    key: Seq<char>,
    val: Json,
    d: Direction,
    ctx: Seq<char>,
) -> Seq<char> {
    let at = ctx + "."@ + key;
    if key == "_"@ {
        add_constants_err(val, d, ctx)
    } else if !key_ok(key, d) {
        wrapped(ctx, ": "@, key_err(key, d))
    } else {
        match val {
            Json::Str(t) => wrapped(at, ": "@, terminal_err(t, d)),
            Json::Array(items) => if items.len() == 0 {
                at + ": array value must not be empty"@
            } else {
                add_terminals_err(items, 0, d, at)
            },
            Json::Object(es) => object_children_err(st.consts, es, 0, d, ctx),
            _ => at + ": value must be a string, array, or object"@,
        }
    }
}

/// The message for the first queued entry that is refused.
pub open spec fn run_queue_err(st: Build, q: Seq<(Seq<char>, Json)>, d: Direction, ctx: Seq<char>) -> Seq<
    char,
>
    decreases values_size(q),
{
    if q.len() == 0 {
        Seq::empty()
    } else {
        match compile_entry(st, q[0].0, q[0].1, d) {
            None => compile_entry_err(st, q[0].0, q[0].1, d, ctx),
            Some((st2, more)) => {
                proof {
                    lemma_compile_entry_size(st, q[0].0, q[0].1, d);
                    lemma_values_size_front(q);
                    lemma_values_size_concat(q.drop_first(), more);
                }
                run_queue_err(st2, q.drop_first() + more, d, ctx)
            },
        }
    }
}

/// The context naming suture `i`.
pub open spec fn suture_ctx(i: int) -> Seq<char> {
    "suture["@ + decimal(i as nat) + "]"@
}

/// The message for the first suture of `sutures[i..]` that is refused.
pub open spec fn run_sutures_err(st: Build, sutures: Seq<Json>, i: int, d: Direction) -> Seq<char>
    decreases sutures.len() - i,
{
    if i < 0 || i >= sutures.len() {
        Seq::empty()
    } else {
        match sutures[i] {
            Json::Object(es) => match run_queue(st, es, d) {
                Some(st2) => run_sutures_err(st2, sutures, i + 1, d),
                None => run_queue_err(st, es, d, suture_ctx(i)),
            },
            _ => suture_ctx(i) + ": must be an object"@,
        }
    }
}

/// The message of a set whose compilation is refused.
pub open spec fn compile_err(set: RawSetModel) -> Seq<char> {
    if set.name.len() == 0 {
        "suture set name must not be empty"@
    } else {
        run_sutures_err(
            Build { root: root_of(set.name), consts: Seq::empty() },
            set.sutures,
            0,
            set.direction,
        )
    }
}

/// The trie of a set before any suture: a `Direct` root named after the set.
pub open spec fn root_of(name: Seq<char>) -> Trie {
    Trie { key: name, binding: Binding::Direct, targets: Seq::empty(), children: Seq::empty() }
}

/// What compiling the bindings of a set gives: the capture with its trie,
/// and the constants; `None` when some entry is refused.
pub open spec fn spec_compile_bindings(set: RawSetModel) -> Option<(Capture, Seq<(Seq<char>, Json)>)> {
    match run_sutures(
        Build { root: root_of(set.name), consts: Seq::empty() },
        set.sutures,
        0,
        set.direction,
    ) {
        Some(b) => Some(
            (
                match set.direction {
                    Direction::Request => Capture::Request(b.root),
                    Direction::Response => Capture::Response(b.root),
                },
                b.consts,
            ),
        ),
        None => None,
    }
}


/// Whether the key is the constants key `_`.
fn is_constants_key(s: &str) -> (r: bool)
    ensures
        r == (s@ == "_"@),
{
    proof {
        reveal_strlit("_");
    }
    if s.unicode_len() == 1 && s.get_char(0) == '_' {
        assert(s@ =~= "_"@);
        true
    } else {
        false
    }
}

/// A compilation error: `ctx`, a separator, then the text of `e`.
fn wrap_error(ctx: &str, sep: &str, e: &Error) -> (r: Error)
    ensures
        r matches Error::Suture(m) && m@ == ctx@ + sep@ + crate::error::error_text(*e),
{
    let d = e.describe();
    Error::Suture(crate::text::join3(ctx, sep, d.as_str()))
}

/// Validate and collect the constant entries of a `_` value.
#[verifier::loop_isolation(false)]
pub fn compile_constants(
    val: &JsonValue,
    constants: &mut Vec<(String, JsonValue)>,
    ctx: &str,
    direction: &Direction,
) -> (r: Result<(), Error>)
    ensures
        match add_constants(entry_models(old(constants)@), val@, *direction) {
            Some(c) => r is Ok && entry_models(final(constants)@) == c,
            None => r matches Err(Error::Suture(m)) && m@ == add_constants_err(
                val@,
                *direction,
                ctx@,
            ),
        },
{
    proof {
        broadcast use vstd::string::group_string_axioms;
    }
    let arr = match val {
        JsonValue::Array(arr) => arr,
        _ => return Err(Error::Suture(crate::text::join2(ctx, ": '_' must be an array"))),
    };
    proof {
        lemma_array_model(*arr);
    }
    let ghost items = models(arr@);
    let ghost c0 = entry_models(constants@);
    let mut k: usize = 0;
    while k < arr.len()
        invariant
            k <= arr@.len(),
            items == models(arr@),
            add_constant_items(c0, items, 0, *direction) == add_constant_items(
                entry_models(constants@),
                items,
                k as int,
                *direction,
            ),
            add_constant_items_err(items, 0, *direction, ctx@) == add_constant_items_err(
                items,
                k as int,
                *direction,
                ctx@,
            ),
        decreases arr@.len() - k,
    {
        let cobj = match &arr[k] {
            JsonValue::Object(cobj) => cobj,
            _ => {
                return Err(
                    Error::Suture(crate::text::join2(ctx, ": constant entry must be an object")),
                )
            },
        };
        proof {
            lemma_object_model(*cobj);
        }
        if cobj.len() != 1 {
            return Err(
                Error::Suture(
                    crate::text::join2(ctx, ": constant entry must have exactly one property"),
                ),
            );
        }
        let terminal = &cobj[0].0;
        match validate_terminal(terminal.as_str(), direction) {
            Ok(()) => {},
            Err(e) => {
                let head = crate::text::join3(ctx, ": constant '", terminal.as_str());
                return Err(wrap_error(head.as_str(), "': ", &e));
            },
        }
        match validate_constant(&cobj[0].1) {
            Ok(()) => {},
            Err(e) => return Err(wrap_error(ctx, ": ", &e)),
        }
        let ghost before = entry_models(constants@);
        constants.push((terminal.clone(), cobj[0].1.duplicate()));
        assert(entry_models(constants@) =~= before.push(entry_models(cobj@)[0]));
        k = k + 1;
    }
    Ok(())
}

/// Queue the entries of a nested object under their full keys, collecting
/// its `_` entries as constants.
fn enqueue_children(
    obj: &Vec<(String, JsonValue)>,
    key: &String,
    constants: &mut Vec<(String, JsonValue)>,
    queue: &mut VecDeque<(String, JsonValue)>,
    ctx: &str,
    direction: &Direction,
) -> (r: Result<(), Error>)
    ensures
        match object_children(
            entry_models(old(constants)@),
            Seq::empty(),
            key@,
            entry_models(obj@),
            0,
            *direction,
        ) {
            Some((c, more)) => r is Ok && entry_models(final(constants)@) == c && entry_models(
                final(queue)@,
            ) == entry_models(old(queue)@) + more,
            None => r matches Err(Error::Suture(m)) && m@ == object_children_err(
                entry_models(old(constants)@),
                entry_models(obj@),
                0,
                *direction,
                ctx@,
            ),
        },
{
    let sep = terminal_separator(direction);
    let ghost es = entry_models(obj@);
    let ghost q0 = entry_models(queue@);
    let ghost c0 = entry_models(constants@);
    let ghost mut more: Seq<(Seq<char>, Json)> = Seq::empty();
    assert(entry_models(queue@) =~= q0 + more);
    let mut k: usize = 0;
    while k < obj.len()
        invariant
            k <= obj@.len(),
            es == entry_models(obj@),
            sep == separator(*direction),
            entry_models(queue@) == q0 + more,
            q0 == entry_models(old(queue)@),
            c0 == entry_models(old(constants)@),
            object_children(c0, Seq::empty(), key@, es, 0, *direction) == object_children(
                entry_models(constants@),
                more,
                key@,
                es,
                k as int,
                *direction,
            ),
            object_children_err(c0, es, 0, *direction, ctx@) == object_children_err(
                entry_models(constants@),
                es,
                k as int,
                *direction,
                ctx@,
            ),
        decreases obj@.len() - k,
    {
        let ck_s = &obj[k].0;
        let child_val = &obj[k].1;
        assert(es[k as int] == (ck_s@, child_val@));
        if is_constants_key(ck_s.as_str()) {
            match compile_constants(child_val, constants, ctx, direction) {
                Ok(()) => {},
                Err(e) => return Err(e),
            }
        } else {
            let ck = chars_of(ck_s.as_str());
            let full = if ck.len() > 0 && (ck[0] == sep || ck[0] == '[') {
                crate::text::join2(key.as_str(), ck_s.as_str())
            } else {
                let mut sv: Vec<char> = Vec::new();
                sv.push(sep);
                let s = string_from(sv.as_slice());
                assert(s@ =~= seq![sep]);
                crate::text::join3(key.as_str(), s.as_str(), ck_s.as_str())
            };
            assert(full@ == child_key(key@, ck_s@, sep));
            let ghost before = entry_models(queue@);
            let ghost fm = full@;
            let dup = child_val.duplicate();
            assert(dup@ == child_val@);
            queue.push_back((full, dup));
            assert(entry_models(queue@) =~= before.push((fm, child_val@)));
            proof {
                more = more.push((child_key(key@, ck_s@, sep), child_val@));
            }
            assert(entry_models(queue@) =~= q0 + more);
        }
        k = k + 1;
    }
    Ok(())
}

/// Add the terminal `target` along `segments` (onto the root when there
/// are none).
fn add_terminal_exec(root: &mut TrieNode, segments: &Vec<&str>, target: &str, ctx: &str)
    ensures
        final(root)@ == add_terminal(old(root)@, Seq::new(segments@.len(), |i: int| segments@[i]@), target@),
{
    if segments.len() == 0 {
        proof {
            lemma_trie_children(*root);
        }
        let ghost t0 = root@;
        root.targets.push(target.to_string());
        proof {
            lemma_trie_children(*root);
            assert(strings(root.targets@) =~= t0.targets.push(target@));
        }
    } else {
        match build_terminal_chain(segments.as_slice(), target, ctx) {
            Ok(child) => merge_into(root, child),
            Err(_) => {},
        }
    }
}

/// The path segments of a key: one leading `/` stripped, then split.
fn key_path<'a>(key: &'a str, sep: char) -> (r: Vec<&'a str>)
    ensures
        Seq::new(r@.len(), |i: int| r@[i]@) == key_segments(key@, sep),
{
    let n = key.unicode_len();
    let path = if n > 0 && key.get_char(0) == '/' {
        key.substring_char(1, n)
    } else {
        key
    };
    assert(path@ =~= strip_slash(key@));
    if path.unicode_len() == 0 {
        let v: Vec<&str> = Vec::new();
        assert(Seq::new(v@.len(), |i: int| v@[i]@) =~= key_segments(key@, sep));
        v
    } else {
        let v = split_path(path, sep);
        assert(Seq::new(v@.len(), |i: int| v@[i]@) =~= key_segments(key@, sep));
        v
    }
}

/// Process one queued entry: constants, a terminal, a fan-out array of
/// terminals, or a nested object whose entries are queued.
#[verifier::loop_isolation(false)]
fn compile_key(
    root: &mut TrieNode,
    constants: &mut Vec<(String, JsonValue)>,
    queue: &mut VecDeque<(String, JsonValue)>,
    key: &String,
    val: &JsonValue,
    ctx: &str,
    direction: &Direction,
) -> (r: Result<(), Error>)
    ensures
        match compile_entry(
            Build { root: old(root)@, consts: entry_models(old(constants)@) },
            key@,
            val@,
            *direction,
        ) {
            Some((st, more)) => r is Ok && final(root)@ == st.root && entry_models(final(constants)@)
                == st.consts && entry_models(final(queue)@) == entry_models(old(queue)@) + more,
            None => r matches Err(Error::Suture(m)) && m@ == compile_entry_err(
                Build { root: old(root)@, consts: entry_models(old(constants)@) },
                key@,
                val@,
                *direction,
                ctx@,
            ),
        },
{
    proof {
        broadcast use vstd::string::group_string_axioms;
    }
    let ghost q0 = entry_models(queue@);
    if is_constants_key(key.as_str()) {
        let r = compile_constants(val, constants, ctx, direction);
        assert(entry_models(queue@) =~= q0 + Seq::<(Seq<char>, Json)>::empty());
        return r;
    }
    match validate_key(key.as_str(), direction) {
        Ok(()) => {},
        Err(e) => return Err(wrap_error(ctx, ": ", &e)),
    }
    let sep = terminal_separator(direction);
    let segments = key_path(key.as_str(), sep);
    let ghost segs = Seq::new(segments@.len(), |i: int| segments@[i]@);
    let where_ = crate::text::join3(ctx, ".", key.as_str());
    match val {
        JsonValue::String(target) => {
            match validate_terminal(target.as_str(), direction) {
                Ok(()) => {},
                Err(e) => return Err(wrap_error(where_.as_str(), ": ", &e)),
            }
            add_terminal_exec(root, &segments, target.as_str(), ctx);
            assert(entry_models(queue@) =~= q0 + Seq::<(Seq<char>, Json)>::empty());
            Ok(())
        },
        JsonValue::Array(arr) => {
            proof {
                lemma_array_model(*arr);
            }
            let ghost items = models(arr@);
            if arr.len() == 0 {
                return Err(
                    Error::Suture(crate::text::join2(where_.as_str(), ": array value must not be empty")),
                );
            }
            let ghost r0 = root@;
            let mut k: usize = 0;
            while k < arr.len()
                invariant
                    k <= arr@.len(),
                    items == models(arr@),
                    segs == Seq::new(segments@.len(), |i: int| segments@[i]@),
                    add_terminals(r0, segs, items, 0, *direction) == add_terminals(
                        root@,
                        segs,
                        items,
                        k as int,
                        *direction,
                    ),
                    add_terminals_err(items, 0, *direction, where_@) == add_terminals_err(
                        items,
                        k as int,
                        *direction,
                        where_@,
                    ),
                decreases arr@.len() - k,
            {
                let target = match &arr[k] {
                    JsonValue::String(t) => t,
                    _ => {
                        return Err(
                            Error::Suture(
                                crate::text::join2(where_.as_str(), ": array items must be strings"),
                            ),
                        )
                    },
                };
                match validate_terminal(target.as_str(), direction) {
                    Ok(()) => {},
                    Err(e) => return Err(wrap_error(where_.as_str(), ": ", &e)),
                }
                add_terminal_exec(root, &segments, target.as_str(), ctx);
                k = k + 1;
            }
            assert(entry_models(queue@) =~= q0 + Seq::<(Seq<char>, Json)>::empty());
            Ok(())
        },
        JsonValue::Object(obj) => {
            proof {
                lemma_object_model(*obj);
            }
            enqueue_children(obj, key, constants, queue, ctx, direction)
        },
        _ => Err(
            Error::Suture(
                crate::text::join2(where_.as_str(), ": value must be a string, array, or object"),
            ),
        ),
    }
}

/// Compile one suture object: its entries are processed front to back,
/// nested objects queuing their entries at the back.
fn compile_suture(
    obj: &Vec<(String, JsonValue)>,
    root: &mut TrieNode,
    constants: &mut Vec<(String, JsonValue)>,
    ctx: &str,
    direction: &Direction,
) -> (r: Result<(), Error>)
    ensures
        match run_queue(
            Build { root: old(root)@, consts: entry_models(old(constants)@) },
            entry_models(obj@),
            *direction,
        ) {
            Some(st) => r is Ok && final(root)@ == st.root && entry_models(final(constants)@)
                == st.consts,
            None => r matches Err(Error::Suture(m)) && m@ == run_queue_err(
                Build { root: old(root)@, consts: entry_models(old(constants)@) },
                entry_models(obj@),
                *direction,
                ctx@,
            ),
        },
{
    let ghost st0 = Build { root: root@, consts: entry_models(constants@) };
    let mut queue: VecDeque<(String, JsonValue)> = VecDeque::new();
    let mut k: usize = 0;
    while k < obj.len()
        invariant
            k <= obj@.len(),
            entry_models(queue@) == entry_models(obj@).take(k as int),
        decreases obj@.len() - k,
    {
        let ghost before = entry_models(queue@);
        queue.push_back((obj[k].0.clone(), obj[k].1.duplicate()));
        assert(entry_models(queue@) =~= before.push(entry_models(obj@)[k as int]));
        k = k + 1;
        assert(entry_models(queue@) =~= entry_models(obj@).take(k as int));
    }
    assert(entry_models(queue@) =~= entry_models(obj@));
    while queue.len() > 0
        invariant
            st0 == (Build { root: old(root)@, consts: entry_models(old(constants)@) }),
            run_queue(st0, entry_models(obj@), *direction) == run_queue(
                Build { root: root@, consts: entry_models(constants@) },
                entry_models(queue@),
                *direction,
            ),
            run_queue_err(st0, entry_models(obj@), *direction, ctx@) == run_queue_err(
                Build { root: root@, consts: entry_models(constants@) },
                entry_models(queue@),
                *direction,
                ctx@,
            ),
        decreases values_size(entry_models(queue@)),
    {
        let ghost q = entry_models(queue@);
        let (key, val) = match queue.pop_front() {
            Some(e) => e,
            None => return Err(Error::Suture(ctx.to_string())),
        };
        assert(entry_models(queue@) =~= q.drop_first());
        let ghost st = Build { root: root@, consts: entry_models(constants@) };
        match compile_key(root, constants, &mut queue, &key, &val, ctx, direction) {
            Ok(()) => {},
            Err(e) => return Err(e),
        }
        proof {
            lemma_compile_entry_size(st, key@, val@, *direction);
            lemma_values_size_front(q);
            if let Some((_, more)) = compile_entry(st, key@, val@, *direction) {
                lemma_values_size_concat(q.drop_first(), more);
            }
        }
    }
    assert(entry_models(queue@) =~= Seq::<(Seq<char>, Json)>::empty());
    Ok(())
}

/// Compile a suture set into its binding trie and constants, in one pass
/// over the sutures: each suture's entries are processed front to back,
/// nested objects queuing their entries at the back.
pub fn compile_bindings(suture_set: &RawSutureSet) -> (r: Result<(Bindings, Vec<(String, JsonValue)>), Error>)
    ensures
        match spec_compile_bindings(suture_set@) {
            Some((cap, c)) => r matches Ok((b, cs)) && b@ == cap && entry_models(cs@) == c,
            None => r matches Err(Error::Suture(m)) && m@ == run_sutures_err(
                Build { root: root_of(suture_set.name@), consts: Seq::empty() },
                models(suture_set.sutures@),
                0,
                suture_set.capture_direction,
            ),
        },
{
    proof {
        broadcast use vstd::string::group_string_axioms;
    }
    let direction = &suture_set.capture_direction;
    let mut root = TrieNode {
        key: suture_set.name.clone(),
        binding: BindingTaskType::Direct,
        targets: Vec::new(),
        children: Vec::new(),
    };
    let mut constants: Vec<(String, JsonValue)> = Vec::new();
    proof {
        lemma_trie_children(root);
        assert(tries(root.children@) =~= Seq::empty());
        assert(strings(root.targets@) =~= Seq::empty());
        assert(entry_models(constants@) =~= Seq::empty());
    }
    let ghost sut = models(suture_set.sutures@);
    let ghost init = Build { root: root@, consts: entry_models(constants@) };
    assert(init == Build { root: root_of(suture_set.name@), consts: Seq::empty() });
    let mut i: usize = 0;
    while i < suture_set.sutures.len()
        invariant
            i <= suture_set.sutures@.len(),
            sut == models(suture_set.sutures@),
            direction == &suture_set.capture_direction,
            init == (Build { root: root_of(suture_set.name@), consts: Seq::empty() }),
            run_sutures(init, sut, 0, *direction) == run_sutures(
                Build { root: root@, consts: entry_models(constants@) },
                sut,
                i as int,
                *direction,
            ),
            run_sutures_err(init, sut, 0, *direction) == run_sutures_err(
                Build { root: root@, consts: entry_models(constants@) },
                sut,
                i as int,
                *direction,
            ),
        decreases suture_set.sutures@.len() - i,
    {
        let num = crate::text::decimal_text(i);
        let ctx = crate::text::join3("suture[", num.as_str(), "]");
        let ghost cur = Build { root: root@, consts: entry_models(constants@) };
        assert(sut[i as int] == suture_set.sutures@[i as int]@);
        let obj = match &suture_set.sutures[i] {
            JsonValue::Object(obj) => obj,
            _ => {
                assert(run_sutures(cur, sut, i as int, *direction) is None);
                return Err(Error::Suture(crate::text::join2(ctx.as_str(), ": must be an object")));
            },
        };
        proof {
            lemma_object_model(*obj);
        }
        assert(sut[i as int] == Json::Object(entry_models(obj@)));
        match compile_suture(obj, &mut root, &mut constants, ctx.as_str(), direction) {
            Ok(()) => {},
            Err(e) => {
                assert(run_sutures(cur, sut, i as int, *direction) is None);
                return Err(e);
            },
        }
        assert(run_sutures(cur, sut, i as int, *direction) == run_sutures(
            Build { root: root@, consts: entry_models(constants@) },
            sut,
            i + 1,
            *direction,
        ));
        i = i + 1;
    }
    let binding = match suture_set.capture_direction {
        Direction::Request => Bindings::Request(root),
        Direction::Response => Bindings::Response(root),
    };
    Ok((binding, constants))
}

/// What compiling a set gives: its name must not be empty, then its
/// bindings are compiled; the set's id, name, description and version are
/// kept.
pub open spec fn spec_compile(set: RawSetModel) -> Option<SutureModel> {
    if set.name.len() == 0 {
        None
    } else {
        match spec_compile_bindings(set) {
            Some((cap, c)) => Some(
                SutureModel {
                    id: set.id,
                    name: set.name,
                    description: set.description,
                    version: set.version,
                    binding: cap,
                    constants: c,
                },
            ),
            None => None,
        }
    }
}

/// Compile a single suture set into a ready-to-use `Suture`.
pub fn compile(set: RawSutureSet) -> (r: Result<Suture, Error>)
    ensures
        match spec_compile(set@) {
            Some(m) => r matches Ok(s) && s@ == m,
            None => r matches Err(Error::Suture(m)) && m@ == compile_err(set@),
        },
        items_wf(set@.sutures) ==> (r matches Ok(s) ==> values_wf(s@.constants)),
{
    proof {
        if items_wf(set@.sutures) {
            lemma_compiled_suture_keeps_well_formed(set@, Json::Null);
        }
    }
    if set.name.unicode_len() == 0 {
        return Err(Error::Suture("suture set name must not be empty".to_string()));
    }
    let (binding, constants) = match compile_bindings(&set) {
        Ok(bc) => bc,
        Err(e) => return Err(e),
    };
    Ok(Suture {
        id: set.id,
        name: set.name,
        description: set.description,
        version: set.version,
        binding,
        constants,
    })
}

} // verus!
