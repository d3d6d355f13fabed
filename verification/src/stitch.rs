//! The value layer: walking a compiled trie against JSON documents.
//!
//! Forward walk: traverse the trie against a source document, placing the
//! values found at the flat target paths of the output.
//!
//! Reverse walk: read from the flat target paths of the source, and write
//! into the output following the trie's structure.
use vstd::prelude::*;
use crate::compile::{opt_part, spec_parse_range};
use crate::error::Error;
use crate::pattern::{
    regex_builds, regex_error, regex_finds, regex_is_match, regex_new, CompiledPattern,
};
use crate::suture::{
    lemma_trie_children, strings, trie_of, tries, Binding, BindingTaskType, Bindings, Capture, Suture,
    SutureModel, Trie, TrieNode,
};
use crate::validate::anchored;
use crate::wellformed::{lemma_walks_keep_well_formed, values_wf, well_formed};
use crate::json::{
    element, entries_or_empty, entry_index, entry_models, items_or_empty, lemma_array_model, model_of,
    lemma_entry_index, lemma_object_model, lookup, models, padded, with_entry, Json, JsonValue,
};
use crate::text::{
    chars_of, find_char, find_from, lemma_find_from, lemma_split_on_len, parse_i64,
    spec_parse_i64, split_chars, split_on, string_from, sub_chars,
};

verus! {

broadcast use vstd::string::group_string_axioms;

// ===========================================================================
// Pythonic slice indices
// ===========================================================================

/// `v` counted from the end when negative.
pub open spec fn resolve_index(v: int, len: int) -> int {
    if v < 0 {
        v + len
    } else {
        v
    }
}

pub open spec fn clamp(v: int, lo: int, hi: int) -> int {
    if v < lo {
        lo
    } else if v > hi {
        hi
    } else {
        v
    }
}

pub open spec fn nonneg(x: int) -> int {
    if x > 0 {
        x
    } else {
        0
    }
}

/// `i, i + step, i + 2*step, ...` while strictly before `e` (in the
/// direction of `step`).
pub open spec fn step_range(i: int, e: int, step: int) -> Seq<int>
    decreases (if step > 0 {
        nonneg(e - i)
    } else {
        nonneg(i - e)
    }),
{
    if step > 0 && i < e {
        seq![i] + step_range(i + step, e, step)
    } else if step < 0 && i > e {
        seq![i] + step_range(i + step, e, step)
    } else {
        Seq::empty()
    }
}

pub open spec fn opt_or(o: Option<i64>, d: int) -> int {
    match o {
        Some(v) => v as int,
        None => d,
    }
}

/// The indices a Python-style slice selects from a collection of length
/// `len`, as CPython's `slice.indices(len)` computes them. A single index
/// `[N]`, compiled as `(N, N+1, 1)` with the step given, selects element `N`,
/// counted from the end when negative; a slice with no step is an ordinary
/// slice (so `[-1:0]` selects nothing).
pub open spec fn spec_slice_indices(
    len: int,
    start: Option<i64>,
    end: Option<i64>,
    step: Option<i64>,
) -> Seq<int> {
    let st = opt_or(step, 1);
    if len == 0 || st == 0 {
        Seq::empty()
    } else if step == Some(1i64) && start is Some && end is Some && end->0 == start->0 + 1 {
        let r = resolve_index(start->0 as int, len);
        if 0 <= r < len {
            seq![r]
        } else {
            Seq::empty()
        }
    } else if st > 0 {
        let s = clamp(resolve_index(opt_or(start, 0), len), 0, len);
        let e = clamp(resolve_index(opt_or(end, len), len), 0, len);
        step_range(s, e, st)
    } else {
        let s = clamp(resolve_index(opt_or(start, len - 1), len), -1, len - 1);
        let e = clamp(resolve_index(opt_or(end, -len - 1), len), -1, len - 1);
        step_range(s, e, st)
    }
}

proof fn lemma_step_range_bounds(i: int, e: int, step: int, lo: int, hi: int)
    requires
        step != 0,
        step > 0 ==> lo <= i && e <= hi,
        step < 0 ==> i < hi && lo <= e + 1,
    ensures
        forall|k: int|
            0 <= k < step_range(i, e, step).len() ==> lo <= #[trigger] step_range(i, e, step)[k]
                < hi,
    decreases (if step > 0 {
        nonneg(e - i)
    } else {
        nonneg(i - e)
    }),
{
    if (step > 0 && i < e) || (step < 0 && i > e) {
        lemma_step_range_bounds(i + step, e, step, lo, hi);
        assert forall|k: int|
            0 <= k < step_range(i, e, step).len() implies lo <= #[trigger] step_range(
                i,
                e,
                step,
            )[k] < hi by {
            if k > 0 {
                assert(step_range(i, e, step)[k] == step_range(i + step, e, step)[k - 1]);
            }
        }
    }
}

/// Every index a slice selects lies within the collection.
pub proof fn lemma_slice_indices_in_bounds(
    len: int,
    start: Option<i64>,
    end: Option<i64>,
    step: Option<i64>,
)
    requires
        len >= 0,
    ensures
        forall|k: int|
            0 <= k < spec_slice_indices(len, start, end, step).len() ==> 0
                <= #[trigger] spec_slice_indices(len, start, end, step)[k] < len,
{
    let st = opt_or(step, 1);
    if len == 0 || st == 0 {
    } else if step == Some(1i64) && start is Some && end is Some && end->0 == start->0 + 1 {
    } else if st > 0 {
        let s = clamp(resolve_index(opt_or(start, 0), len), 0, len);
        let e = clamp(resolve_index(opt_or(end, len), len), 0, len);
        lemma_step_range_bounds(s, e, st, 0, len);
    } else {
        let s = clamp(resolve_index(opt_or(start, len - 1), len), -1, len - 1);
        let e = clamp(resolve_index(opt_or(end, -len - 1), len), -1, len - 1);
        lemma_step_range_bounds(s, e, st, 0, len);
    }
}

proof fn lemma_step_range_sorted(i: int, e: int, step: int)
    requires
        step != 0,
    ensures
        forall|a: int, b: int|
            0 <= a < b < step_range(i, e, step).len() ==> if step > 0 {
                #[trigger] step_range(i, e, step)[a] < #[trigger] step_range(i, e, step)[b]
            } else {
                step_range(i, e, step)[a] > step_range(i, e, step)[b]
            },
        forall|a: int|
            0 <= a < step_range(i, e, step).len() ==> if step > 0 {
                #[trigger] step_range(i, e, step)[a] >= i
            } else {
                step_range(i, e, step)[a] <= i
            },
    decreases (if step > 0 {
        nonneg(e - i)
    } else {
        nonneg(i - e)
    }),
{
    if (step > 0 && i < e) || (step < 0 && i > e) {
        lemma_step_range_sorted(i + step, e, step);
        let r = step_range(i, e, step);
        let t = step_range(i + step, e, step);
        assert(r == seq![i] + t);
        assert forall|a: int| 0 <= a < r.len() implies if step > 0 {
            #[trigger] r[a] >= i
        } else {
            r[a] <= i
        } by {
            if a > 0 {
                assert(r[a] == t[a - 1]);
            }
        }
        assert forall|a: int, b: int| 0 <= a < b < r.len() implies if step > 0 {
            #[trigger] r[a] < #[trigger] r[b]
        } else {
            r[a] > r[b]
        } by {
            assert(r[b] == t[b - 1]);
            if a > 0 {
                assert(r[a] == t[a - 1]);
            }
        }
    }
}

/// The indices a slice selects run strictly upwards for a positive step
/// and strictly downwards for a negative one; so none is selected twice.
pub proof fn lemma_slice_indices_ordered(
    len: int,
    start: Option<i64>,
    end: Option<i64>,
    step: Option<i64>,
)
    requires
        len >= 0,
    ensures
        ({
            let r = spec_slice_indices(len, start, end, step);
            &&& opt_or(step, 1) > 0 ==> forall|a: int, b: int|
                0 <= a < b < r.len() ==> #[trigger] r[a] < #[trigger] r[b]
            &&& opt_or(step, 1) < 0 ==> forall|a: int, b: int|
                0 <= a < b < r.len() ==> #[trigger] r[a] > #[trigger] r[b]
            &&& forall|a: int, b: int| 0 <= a < b < r.len() ==> #[trigger] r[a] != #[trigger] r[b]
        }),
{
    let st = opt_or(step, 1);
    if len == 0 || st == 0 {
    } else if step == Some(1i64) && start is Some && end is Some && end->0 == start->0 + 1 {
    } else if st > 0 {
        let s = clamp(resolve_index(opt_or(start, 0), len), 0, len);
        let e = clamp(resolve_index(opt_or(end, len), len), 0, len);
        lemma_step_range_sorted(s, e, st);
    } else {
        let s = clamp(resolve_index(opt_or(start, len - 1), len), -1, len - 1);
        let e = clamp(resolve_index(opt_or(end, -len - 1), len), -1, len - 1);
        lemma_step_range_sorted(s, e, st);
    }
}

pub open spec fn usizes(s: Seq<usize>) -> Seq<int> {
    Seq::new(s.len(), |i: int| s[i] as int)
}

/// Compute the indices a Python-style slice selects from a collection of
/// length `len`. Mirrors `slice.indices(len)` in CPython.
pub fn slice_indices(len: usize, start: Option<i64>, end: Option<i64>, step: Option<i64>) -> (r:
    Vec<usize>)
    ensures
        usizes(r@) == spec_slice_indices(len as int, start, end, step),
        forall|k: int| 0 <= k < r@.len() ==> #[trigger] r@[k] < len,
{
    let ghost full = spec_slice_indices(len as int, start, end, step);
    proof {
        lemma_slice_indices_in_bounds(len as int, start, end, step);
    }
    let mut result: Vec<usize> = Vec::new();
    if len == 0 {
        assert(usizes(result@) =~= full);
        return result;
    }
    let len_i: i128 = len as i128;
    let st: i128 = match step {
        Some(v) => v as i128,
        None => 1,
    };
    if st == 0 {
        assert(usizes(result@) =~= full);
        return result;
    }
    if step == Some(1i64) {
        if let (Some(s), Some(e)) = (start, end) {
            if e as i128 == s as i128 + 1 {
                let resolved: i128 = if s < 0 {
                    s as i128 + len_i
                } else {
                    s as i128
                };
                if resolved >= 0 && resolved < len_i {
                    result.push(resolved as usize);
                }
                assert(usizes(result@) =~= full);
                return result;
            }
        }
    }
    let (mut i, e): (i128, i128) = if st > 0 {
        let s0: i128 = match start {
            Some(v) => v as i128,
            None => 0,
        };
        let e0: i128 = match end {
            Some(v) => v as i128,
            None => len_i,
        };
        let s1: i128 = if s0 < 0 {
            s0 + len_i
        } else {
            s0
        };
        let e1: i128 = if e0 < 0 {
            e0 + len_i
        } else {
            e0
        };
        let s2: i128 = if s1 < 0 {
            0
        } else if s1 > len_i {
            len_i
        } else {
            s1
        };
        let e2: i128 = if e1 < 0 {
            0
        } else if e1 > len_i {
            len_i
        } else {
            e1
        };
        (s2, e2)
    } else {
        let s0: i128 = match start {
            Some(v) => v as i128,
            None => len_i - 1,
        };
        let e0: i128 = match end {
            Some(v) => v as i128,
            None => -len_i - 1,
        };
        let s1: i128 = if s0 < 0 {
            s0 + len_i
        } else {
            s0
        };
        let e1: i128 = if e0 < 0 {
            e0 + len_i
        } else {
            e0
        };
        let s2: i128 = if s1 < -1 {
            -1
        } else if s1 > len_i - 1 {
            len_i - 1
        } else {
            s1
        };
        let e2: i128 = if e1 < -1 {
            -1
        } else if e1 > len_i - 1 {
            len_i - 1
        } else {
            e1
        };
        (s2, e2)
    };
    assert(full == step_range(i as int, e as int, st as int));
    while (st > 0 && i < e) || (st < 0 && i > e)
        invariant
            st != 0,
            -9223372036854775809 <= st <= 9223372036854775807,
            -1 <= e <= len_i,
            st > 0 ==> 0 <= i,
            st < 0 ==> i <= len_i - 1,
            st < 0 ==> -1 <= e,
            len_i == len as int,
            full == spec_slice_indices(len as int, start, end, step),
            full == usizes(result@) + step_range(i as int, e as int, st as int),
            forall|k: int| 0 <= k < full.len() ==> 0 <= #[trigger] full[k] < len,
        decreases (if st > 0 {
            nonneg(e - i)
        } else {
            nonneg(i - e)
        }),
    {
        let ghost before = usizes(result@);
        assert(step_range(i as int, e as int, st as int)[0] == i);
        assert(full[before.len() as int] == i);
        result.push(i as usize);
        assert(usizes(result@) =~= before.push(i as int));
        assert(step_range(i as int, e as int, st as int) == seq![i as int] + step_range(
            (i + st) as int,
            e as int,
            st as int,
        ));
        assert(usizes(result@) + step_range((i + st) as int, e as int, st as int) =~= before + (
        seq![i as int] + step_range((i + st) as int, e as int, st as int)));
        i = i + st;
    }
    assert(usizes(result@) =~= full);
    proof {
        assert forall|k: int| 0 <= k < result@.len() implies #[trigger] result@[k] < len by {
            assert(usizes(result@)[k] == full[k]);
        }
    }
    result
}


// ===========================================================================
// Target path parsing
// ===========================================================================

/// One step of a flat target path.
#[derive(Debug)]
pub enum TargetSegment<'a> {
    /// Named key: navigate into an object.
    Key(&'a str),
    /// Fixed array index (may be negative for read-side resolution).
    Index(i64),
    /// Pythonic slice: iterates on the read side, consumes an index of the
    /// iteration context on the write side.
    Slice { start: Option<i64>, end: Option<i64>, step: Option<i64> },
}

/// The model of a target path step.
pub enum Seg {
    Key(Seq<char>),
    Index(i64),
    Slice(Option<i64>, Option<i64>, Option<i64>),
}

impl<'a> View for TargetSegment<'a> {
    type V = Seg;

    open spec fn view(&self) -> Seg {
        match self {
            TargetSegment::Key(k) => Seg::Key(k@),
            TargetSegment::Index(n) => Seg::Index(*n),
            TargetSegment::Slice { start, end, step } => Seg::Slice(*start, *end, *step),
        }
    }
}

pub open spec fn segs_of<'a>(s: Seq<TargetSegment<'a>>) -> Seq<Seg> {
    Seq::new(s.len(), |i: int| s[i]@)
}

/// The step a bracket expression stands for: a slice when it holds `:`,
/// an index when it is an integer, nothing otherwise.
pub open spec fn bracket_seg(inner: Seq<char>) -> Seq<Seg> {
    if inner.contains(':') {
        let parts = split_on(inner, ':');
        seq![
            Seg::Slice(
                opt_part(parts[0]),
                if parts.len() > 1 {
                    opt_part(parts[1])
                } else {
                    None
                },
                if parts.len() > 2 {
                    opt_part(parts[2])
                } else {
                    None
                },
            ),
        ]
    } else {
        match spec_parse_i64(inner) {
            Some(n) => seq![Seg::Index(n)],
            None => Seq::empty(),
        }
    }
}

/// The steps of one non-empty piece of a path: a standalone bracket
/// (`[:]`), a key with a bracket suffix (`items[0]`), or a plain key.
pub open spec fn raw_segs(raw: Seq<char>) -> Seq<Seg> {
    if raw.len() > 0 && raw[0] == '[' {
        if raw.len() >= 2 && raw.last() == ']' {
            bracket_seg(raw.subrange(1, raw.len() - 1))
        } else {
            Seq::empty()
        }
    } else {
        let bp = find_from(raw, '[', 0);
        if bp < raw.len() {
            let ks = if bp > 0 {
                seq![Seg::Key(raw.take(bp))]
            } else {
                Seq::empty()
            };
            let be = find_from(raw, ']', bp);
            ks + if be < raw.len() {
                bracket_seg(raw.subrange(bp + 1, be))
            } else {
                Seq::empty()
            }
        } else {
            seq![Seg::Key(raw)]
        }
    }
}

/// The steps of the non-empty pieces, in order.
pub open spec fn pieces_segs(pieces: Seq<Seq<char>>) -> Seq<Seg>
    decreases pieces.len(),
{
    if pieces.len() == 0 {
        Seq::empty()
    } else {
        pieces_segs(pieces.drop_last()) + if pieces.last().len() > 0 {
            raw_segs(pieces.last())
        } else {
            Seq::empty()
        }
    }
}

/// A JSON path loses its leading `/`.
pub open spec fn strip_root(path: Seq<char>, sep: char) -> Seq<char> {
    if sep == '/' && path.len() > 0 && path[0] == '/' {
        path.drop_first()
    } else {
        path
    }
}

/// The steps of a flat target path.
///
/// JSON targets (sep `/`): `/messages/[:]/content`.
/// Struct targets (sep `.`): `messages[:].content`.
pub open spec fn spec_target_segments(path: Seq<char>, sep: char) -> Seq<Seg> {
    pieces_segs(split_on(strip_root(path, sep), sep))
}

/// Push the step a bracket expression stands for.
pub fn push_bracket_segment<'a>(segments: &mut Vec<TargetSegment<'a>>, inner: &str)
    ensures
        segs_of(final(segments)@) == segs_of(old(segments)@) + bracket_seg(inner@),
{
    let cs = chars_of(inner);
    let ghost before = segs_of(segments@);
    if crate::text::contains_char(&cs, ':') {
        let parts = split_chars(&cs, ':');
        proof {
            lemma_split_on_len(inner@, ':');
        }
        let start = opt_part_chars(&parts[0]);
        let end = if parts.len() > 1 {
            opt_part_chars(&parts[1])
        } else {
            None
        };
        let step = if parts.len() > 2 {
            opt_part_chars(&parts[2])
        } else {
            None
        };
        segments.push(TargetSegment::Slice { start, end, step });
        assert(segs_of(segments@) =~= before + bracket_seg(inner@));
    } else {
        match parse_i64(&cs) {
            Some(n) => {
                segments.push(TargetSegment::Index(n));
                assert(segs_of(segments@) =~= before + bracket_seg(inner@));
            },
            None => {
                assert(segs_of(segments@) =~= before + bracket_seg(inner@));
            },
        }
    }
}

fn opt_part_chars(s: &Vec<char>) -> (r: Option<i64>)
    ensures
        r == opt_part(s@),
{
    if s.len() == 0 {
        None
    } else {
        parse_i64(s)
    }
}

/// Push the steps of the piece `path[a..b]`.
fn push_piece<'a>(segments: &mut Vec<TargetSegment<'a>>, path: &'a str, cs: &Vec<char>, a: usize, b: usize)
    requires
        cs@ == path@,
        a < b <= cs@.len(),
    ensures
        segs_of(final(segments)@) == segs_of(old(segments)@) + raw_segs(path@.subrange(a as int, b as int)),
{
    let ghost before = segs_of(segments@);
    let raw = sub_chars(cs, a, b);
    let n = raw.len();
    if raw[0] == '[' {
        if n >= 2 && raw[n - 1] == ']' {
            let inner = string_from(&sub_chars(&raw, 1, n - 1));
            push_bracket_segment(segments, inner.as_str());
        } else {
            assert(segs_of(segments@) =~= before + raw_segs(raw@));
        }
        return;
    }
    let bp = find_char(&raw, '[', 0);
    proof {
        lemma_find_from(raw@, '[', 0);
    }
    if bp < n {
        if bp > 0 {
            let key = path.substring_char(a, a + bp);
            assert(key@ =~= raw@.take(bp as int));
            segments.push(TargetSegment::Key(key));
        }
        let ghost mid = segs_of(segments@);
        assert(mid =~= before + if bp > 0 {
            seq![Seg::Key(raw@.take(bp as int))]
        } else {
            Seq::empty()
        });
        let be = find_char(&raw, ']', bp);
        proof {
            lemma_find_from(raw@, ']', bp as int);
        }
        if be < n {
            let inner = string_from(&sub_chars(&raw, bp + 1, be));
            push_bracket_segment(segments, inner.as_str());
        }
        assert(segs_of(segments@) =~= before + raw_segs(raw@));
    } else {
        let key = path.substring_char(a, b);
        segments.push(TargetSegment::Key(key));
        assert(segs_of(segments@) =~= before + raw_segs(raw@));
    }
}

/// Parse a flat target path into navigable steps.
pub fn parse_target_segments<'a>(path: &'a str, sep: char) -> (r: Vec<TargetSegment<'a>>)
    ensures
        segs_of(r@) == spec_target_segments(path@, sep),
{
    let cs = chars_of(path);
    let n = cs.len();
    let off: usize = if sep == '/' && n > 0 && cs[0] == '/' {
        1
    } else {
        0
    };
    let ghost p = strip_root(path@, sep);
    assert(p =~= path@.subrange(off as int, n as int));
    let mut segments: Vec<TargetSegment<'a>> = Vec::new();
    let mut a: usize = off;
    let mut i: usize = off;
    assert(p.take(0) =~= Seq::<char>::empty());
    assert(segs_of(segments@) =~= pieces_segs(split_on(p.take(0), sep).drop_last()));
    while i < n
        invariant
            cs@ == path@,
            n == cs@.len(),
            off <= a <= i <= n,
            p == path@.subrange(off as int, n as int),
            segs_of(segments@) == pieces_segs(split_on(p.take(i - off), sep).drop_last()),
            split_on(p.take(i - off), sep).last() == path@.subrange(a as int, i as int),
        decreases n - i,
    {
        proof {
            crate::text::lemma_split_on_len(p.take(i - off), sep);
            assert(p.take(i + 1 - off).drop_last() =~= p.take(i - off));
        }
        let ghost prev = split_on(p.take(i - off), sep);
        if cs[i] == sep {
            if a < i {
                push_piece(&mut segments, path, &cs, a, i);
            }
            proof {
                assert(split_on(p.take(i + 1 - off), sep).drop_last() =~= prev);
                assert(prev =~= prev.drop_last().push(prev.last()));
            }
            a = i + 1;
            i = i + 1;
            assert(path@.subrange(a as int, i as int) =~= Seq::<char>::empty());
        } else {
            i = i + 1;
            proof {
                assert(split_on(p.take(i - off), sep).drop_last() =~= prev.drop_last());
                assert(path@.subrange(a as int, i as int) =~= path@.subrange(a as int, i - 1).push(
                    cs@[i - 1],
                ));
            }
        }
    }
    proof {
        crate::text::lemma_split_on_len(p, sep);
        assert(p.take(n - off) =~= p);
        let pieces = split_on(p, sep);
        assert(pieces =~= pieces.drop_last().push(pieces.last()));
    }
    if a < n {
        push_piece(&mut segments, path, &cs, a, n);
    }
    segments
}

// ===========================================================================
// Writing at a target path
// ===========================================================================

/// The document `dst` with `value` written at the steps `segs[k..]`.
/// Keys create objects and entries as needed; indices create arrays padded
/// with nulls; a slice step consumes the next iteration index.
/// `None` when a step cannot be written.
pub open spec fn put_at(
    dst: Json,
    segs: Seq<Seg>,
    k: int,
    value: Json,
    idx: Seq<usize>,
    pos: int,
) -> Option<Json>
    decreases segs.len() - k,
{
    if k >= segs.len() || k < 0 {
        Some(value)
    } else {
        match segs[k] {
            Seg::Key(key) => {
                let obj = entries_or_empty(dst);
                let i = entry_index(obj, key);
                let cur = if i >= 0 {
                    obj[i].1
                } else {
                    Json::Null
                };
                match put_at(cur, segs, k + 1, value, idx, pos) {
                    Some(nv) => Some(Json::Object(with_entry(obj, key, nv))),
                    None => None,
                }
            },
            Seg::Index(n) => {
                if n < 0 || n >= usize::MAX {
                    None
                } else {
                    let items = padded(items_or_empty(dst), n + 1);
                    match put_at(items[n as int], segs, k + 1, value, idx, pos) {
                        Some(nv) => Some(Json::Array(items.update(n as int, nv))),
                        None => None,
                    }
                }
            },
            Seg::Slice(_, _, _) => {
                if 0 <= pos < idx.len() && idx[pos] < usize::MAX {
                    let n = idx[pos] as int;
                    let items = padded(items_or_empty(dst), n + 1);
                    match put_at(items[n], segs, k + 1, value, idx, pos + 1) {
                        Some(nv) => Some(Json::Array(items.update(n, nv))),
                        None => None,
                    }
                } else {
                    None
                }
            },
        }
    }
}

/// The message of the step at which `put_at` cannot write: a fixed index
/// that is negative (or beyond the machine's range), or a slice with no
/// iteration index left to consume. Empty where the write succeeds.
pub open spec fn put_at_err(
    dst: Json,
    segs: Seq<Seg>,
    k: int,
    value: Json,
    idx: Seq<usize>,
    pos: int,
) -> Seq<char>
    decreases segs.len() - k,
{
    if k >= segs.len() || k < 0 {
        Seq::empty()
    } else {
        match segs[k] {
            Seg::Key(key) => {
                let obj = entries_or_empty(dst);
                let i = entry_index(obj, key);
                let cur = if i >= 0 {
                    obj[i].1
                } else {
                    Json::Null
                };
                put_at_err(cur, segs, k + 1, value, idx, pos)
            },
            Seg::Index(n) => {
                if n < 0 || n >= usize::MAX {
                    "negative index on write side is not supported"@
                } else {
                    let items = padded(items_or_empty(dst), n + 1);
                    put_at_err(items[n as int], segs, k + 1, value, idx, pos)
                }
            },
            Seg::Slice(_, _, _) => {
                if 0 <= pos < idx.len() && idx[pos] < usize::MAX {
                    let n = idx[pos] as int;
                    let items = padded(items_or_empty(dst), n + 1);
                    put_at_err(items[n], segs, k + 1, value, idx, pos + 1)
                } else {
                    "more iterators in target path than iteration depth"@
                }
            },
        }
    }
}

/// The document `dst` with `value` written at the flat target `path`.
pub open spec fn put_path(dst: Json, path: Seq<char>, value: Json, idx: Seq<usize>, sep: char) -> Option<
    Json,
> {
    put_at(dst, spec_target_segments(path, sep), 0, value, idx, 0)
}

/// Position of the first entry whose key is `key`, or `entries.len()`.
#[verifier::loop_isolation(false)]
fn find_entry(entries: &Vec<(String, JsonValue)>, key: &String) -> (r: usize)
    ensures
        r <= entries@.len(),
        r < entries@.len() <==> entry_index(entry_models(entries@), key@) >= 0,
        r < entries@.len() ==> r == entry_index(entry_models(entries@), key@),
{
    let ghost es = entry_models(entries@);
    proof {
        lemma_entry_index(es, key@);
    }
    let mut i: usize = 0;
    while i < entries.len()
        invariant
            i <= entries@.len(),
            es == entry_models(entries@),
            forall|j: int| 0 <= j < i ==> (#[trigger] es[j]).0 != key@,
        decreases entries@.len() - i,
    {
        if entries[i].0 == *key {
            assert(es[i as int].0 == key@);
            proof {
                let e = entry_index(es, key@);
                if e < 0 || e > i {
                    assert(es[i as int].0 != key@);
                }
            }
            return i;
        }
        i = i + 1;
    }
    proof {
        let e = entry_index(es, key@);
        if e >= 0 {
            assert(es[e].0 != key@);
        }
    }
    i
}

/// A document consumed into its entries when an object, else no entries.
fn take_entries(dst: JsonValue) -> (r: Vec<(String, JsonValue)>)
    ensures
        entry_models(r@) == entries_or_empty(dst@),
{
    match dst {
        JsonValue::Object(e) => {
            proof {
                lemma_object_model(e);
            }
            e
        },
        _ => {
            let v: Vec<(String, JsonValue)> = Vec::new();
            assert(entry_models(v@) =~= Seq::empty());
            v
        },
    }
}

pub open spec fn nulls(n: nat) -> Seq<Json> {
    Seq::new(n, |i: int| Json::Null)
}

/// A document consumed into its items when an array, else no items,
/// padded with nulls up to length `n`.
fn take_items_padded(dst: JsonValue, n: usize) -> (r: Vec<JsonValue>)
    ensures
        models(r@) == padded(items_or_empty(dst@), n as int),
        r@.len() >= n,
{
    let mut items = match dst {
        JsonValue::Array(v) => {
            proof {
                lemma_array_model(v);
            }
            v
        },
        _ => {
            let v: Vec<JsonValue> = Vec::new();
            assert(models(v@) =~= Seq::empty());
            v
        },
    };
    let ghost orig = models(items@);
    assert(models(items@) =~= orig + nulls(0));
    while items.len() < n
        invariant
            orig.len() <= items@.len(),
            items@.len() <= n || items@.len() == orig.len(),
            models(items@) == orig + nulls((items@.len() - orig.len()) as nat),
        decreases n - items@.len(),
    {
        let ghost before = models(items@);
        items.push(JsonValue::Null);
        assert(models(items@) =~= before.push(Json::Null));
        assert(nulls((items@.len() - orig.len()) as nat) =~= nulls((before.len() - orig.len()) as nat).push(Json::Null));
    }
    assert(models(items@) =~= padded(orig, n as int));
    items
}

/// The document `dst` with `value` written at `segments[k..]`.
fn put_segments(
    dst: JsonValue,
    segments: &Vec<TargetSegment>,
    k: usize,
    value: JsonValue,
    indices: &[usize],
    pos: usize,
) -> (r: Result<JsonValue, Error>)
    ensures
        match put_at(dst@, segs_of(segments@), k as int, value@, indices@, pos as int) {
            Some(d) => r matches Ok(v) && v@ == d,
            None => r matches Err(Error::Stitch(m)) && m@ == put_at_err(
                dst@,
                segs_of(segments@),
                k as int,
                value@,
                indices@,
                pos as int,
            ),
        },
    decreases segments@.len() - k, 1nat,
{
    if k >= segments.len() {
        return Ok(value);
    }
    match &segments[k] {
        TargetSegment::Key(key) => {
            let key_s = (*key).to_string();
            let ghost d0 = dst@;
            let mut entries = take_entries(dst);
            let ghost obj = entry_models(entries@);
            let i = find_entry(&entries, &key_s);
            assert(segs_of(segments@)[k as int] == Seg::Key(key@));
            assert(entries_or_empty(d0) == obj);
            assert(key_s@ == key@);
            proof {
                lemma_entry_index(obj, key@);
            }
            if i < entries.len() {
                assert(entry_index(obj, key@) == i as int);
                let (kk, cur) = entries.remove(i);
                assert(obj[i as int].0 == kk@ && obj[i as int].1 == cur@);
                let nv = match put_segments(cur, segments, k + 1, value, indices, pos) {
                    Ok(v) => v,
                    Err(e) => return Err(e),
                };
                entries.insert(i, (kk, nv));
                assert(entry_models(entries@) =~= with_entry(obj, key@, nv@));
            } else {
                let nv = match put_segments(JsonValue::Null, segments, k + 1, value, indices, pos) {
                    Ok(v) => v,
                    Err(e) => return Err(e),
                };
                entries.push((key_s, nv));
                assert(entry_models(entries@) =~= with_entry(obj, key@, nv@));
            }
            proof {
                lemma_object_model(entries);
            }
            Ok(JsonValue::Object(entries))
        },
        TargetSegment::Index(n) => {
            if *n < 0 || (*n as u64) >= (usize::MAX as u64) {
                return Err(Error::Stitch("negative index on write side is not supported".to_string()));
            }
            let j = *n as usize;
            put_at_index(dst, j, segments, k + 1, value, indices, pos)
        },
        TargetSegment::Slice { .. } => {
            if pos >= indices.len() || indices[pos] == usize::MAX {
                return Err(
                    Error::Stitch(
                        "more iterators in target path than iteration depth".to_string(),
                    ),
                );
            }
            let j = indices[pos];
            put_at_index(dst, j, segments, k + 1, value, indices, pos + 1)
        },
    }
}

/// Helper of `put_segments`: write into element `j` of the array `dst`
/// (padded as needed), continuing with `segments[next..]`.
fn put_at_index(
    dst: JsonValue,
    j: usize,
    segments: &Vec<TargetSegment>,
    next: usize,
    value: JsonValue,
    indices: &[usize],
    pos: usize,
) -> (r: Result<JsonValue, Error>)
    requires
        0 < next <= segments@.len(),
        j < usize::MAX,
    ensures
        ({
            let items = padded(items_or_empty(dst@), j + 1);
            match put_at(items[j as int], segs_of(segments@), next as int, value@, indices@, pos as int) {
                Some(nv) => r matches Ok(v) && v@ == Json::Array(items.update(j as int, nv)),
                None => r matches Err(Error::Stitch(m)) && m@ == put_at_err(
                    items[j as int],
                    segs_of(segments@),
                    next as int,
                    value@,
                    indices@,
                    pos as int,
                ),
            }
        }),
    decreases segments@.len() - next + 1, 0nat,
{
    let mut items = take_items_padded(dst, j + 1);
    let ghost padded_items = models(items@);
    let cur = items.remove(j);
    let nv = match put_segments(cur, segments, next, value, indices, pos) {
        Ok(v) => v,
        Err(e) => return Err(e),
    };
    items.insert(j, nv);
    assert(models(items@) =~= padded_items.update(j as int, nv@));
    proof {
        lemma_array_model(items);
    }
    Ok(JsonValue::Array(items))
}

/// Write `value` into `dst` at the steps `segments`, consuming iteration
/// indices from `indices` for slice steps.
pub fn set_at_segments(
    dst: &mut JsonValue,
    segments: &Vec<TargetSegment>,
    value: JsonValue,
    indices: &[usize],
) -> (r: Result<(), Error>)
    ensures
        match put_at(old(dst)@, segs_of(segments@), 0, value@, indices@, 0) {
            Some(d) => r is Ok && final(dst)@ == d,
            None => r matches Err(Error::Stitch(m)) && m@ == put_at_err(
                old(dst)@,
                segs_of(segments@),
                0,
                value@,
                indices@,
                0,
            ),
        },
{
    let mut cur = JsonValue::Null;
    core::mem::swap(dst, &mut cur);
    match put_segments(cur, segments, 0, value, indices, 0) {
        Ok(v) => {
            *dst = v;
            Ok(())
        },
        Err(e) => Err(e),
    }
}

/// Write `value` into `dst` at the flat target `path`.
pub fn set_at_path(dst: &mut JsonValue, path: &str, value: JsonValue, indices: &[usize], sep: char) -> (r:
    Result<(), Error>)
    ensures
        match put_path(old(dst)@, path@, value@, indices@, sep) {
            Some(d) => r is Ok && final(dst)@ == d,
            None => r matches Err(Error::Stitch(m)) && m@ == put_at_err(
                old(dst)@,
                spec_target_segments(path@, sep),
                0,
                value@,
                indices@,
                0,
            ),
        },
{
    let segments = parse_target_segments(path, sep);
    set_at_segments(dst, &segments, value, indices)
}

// ===========================================================================
// Forward walk: traverse the trie against the source value
// ===========================================================================

/// `dst` with `value` written at each of `targets[i..]`, in order.
pub open spec fn put_targets(
    dst: Json,
    targets: Seq<Seq<char>>,
    i: int,
    value: Json,
    idx: Seq<usize>,
    sep: char,
) -> Option<Json>
    decreases targets.len() - i,
{
    if i < 0 || i >= targets.len() {
        Some(dst)
    } else {
        match put_path(dst, targets[i], value, idx, sep) {
            Some(d) => put_targets(d, targets, i + 1, value, idx, sep),
            None => None,
        }
    }
}

/// The values of the entries whose key the regex compiled from `source`
/// matches, in entry order.
pub open spec fn matching_values(entries: Seq<(Seq<char>, Json)>, source: Seq<char>) -> Seq<Json>
    decreases entries.len(),
{
    if entries.len() == 0 {
        Seq::empty()
    } else {
        let prev = matching_values(entries.drop_last(), source);
        if regex_finds(source, entries.last().0) {
            prev.push(entries.last().1)
        } else {
            prev
        }
    }
}

/// Forward walk of the children `node.children[i..]` of a node, in order,
/// against the source value `src`.
pub open spec fn fwd_children(
    node: Trie,
    i: int,
    src: Json,
    dst: Json,
    idx: Seq<usize>,
    sep: char,
) -> Option<Json>
    decreases node, nonneg(node.children.len() - i), 0int,
{
    if i < 0 || i >= node.children.len() {
        Some(dst)
    } else {
        proof {
            assert(decreases_to!(node => node.children));
            assert(decreases_to!(node.children => node.children[i]));
        }
        match fwd_child(node.children[i], src, dst, idx, sep) {
            Some(d) => fwd_children(node, i + 1, src, d, idx, sep),
            None => None,
        }
    }
}

/// Forward walk of one child against the source value of its parent:
/// - `Direct`: the value under the key is written to the targets, then
///   walked by the children (a missing key is skipped);
/// - `Iterate`: the selected elements of the array under the key (or of the
///   source itself when the key is empty) are walked in turn;
/// - `IteratePattern`: the selected values of the entries whose key matches
///   the anchored pattern are walked in turn; a pattern that does not
///   compile is an error.
pub open spec fn fwd_child(c: Trie, src: Json, dst: Json, idx: Seq<usize>, sep: char) -> Option<
    Json,
>
    decreases c, c.children.len() + 2, 0int,
{
    match c.binding {
        Binding::Direct => match lookup(src, c.key) {
            None => Some(dst),
            Some(v) => match put_targets(dst, c.targets, 0, v, idx, sep) {
                None => None,
                Some(d1) => if c.children.len() > 0 {
                    fwd_children(c, 0, v, d1, idx, sep)
                } else {
                    Some(d1)
                },
            },
        },
        Binding::Iterate(s, e, st) => {
            let arr = if c.key.len() == 0 {
                Some(src)
            } else {
                lookup(src, c.key)
            };
            match arr {
                Some(Json::Array(items)) => fwd_iter(
                    c,
                    items,
                    spec_slice_indices(items.len() as int, s, e, st),
                    0,
                    dst,
                    idx,
                    sep,
                ),
                _ => Some(dst),
            }
        },
        Binding::Pattern(p, s, e, st) => match src {
            Json::Object(entries) => if !regex_builds(anchored(p)) {
                None
            } else {
                let vals = matching_values(entries, anchored(p));
                fwd_iter(c, vals, spec_slice_indices(vals.len() as int, s, e, st), 0, dst, idx, sep)
            },
            _ => Some(dst),
        },
    }
}

/// The selected elements `elems[sel[k]]`, `elems[sel[k+1]]`, ... walked in
/// turn: each is written to the node's targets and walked by its children,
/// with its enumeration position pushed on the iteration indices.
pub open spec fn fwd_iter(
    c: Trie,
    elems: Seq<Json>,
    sel: Seq<int>,
    k: int,
    dst: Json,
    idx: Seq<usize>,
    sep: char,
) -> Option<Json>
    decreases c, c.children.len() + 1, nonneg(sel.len() - k),
{
    if k < 0 || k >= sel.len() {
        Some(dst)
    } else {
        let elem = elems[sel[k]];
        let idx2 = idx.push(k as usize);
        match put_targets(dst, c.targets, 0, elem, idx2, sep) {
            None => None,
            Some(d1) => {
                let d2 = if c.children.len() > 0 {
                    fwd_children(c, 0, elem, d1, idx2, sep)
                } else {
                    Some(d1)
                };
                match d2 {
                    None => None,
                    Some(d) => fwd_iter(c, elems, sel, k + 1, d, idx, sep),
                }
            },
        }
    }
}

/// The message of the first write of `targets[i..]` that fails, or empty.
pub open spec fn put_targets_err(
    dst: Json,
    targets: Seq<Seq<char>>,
    i: int,
    value: Json,
    idx: Seq<usize>,
    sep: char,
) -> Seq<char>
    decreases targets.len() - i,
{
    if i < 0 || i >= targets.len() {
        Seq::empty()
    } else {
        match put_path(dst, targets[i], value, idx, sep) {
            Some(d) => put_targets_err(d, targets, i + 1, value, idx, sep),
            None => put_at_err(dst, spec_target_segments(targets[i], sep), 0, value, idx, 0),
        }
    }
}

/// The message of the first failure of `fwd_children`, or empty.
pub open spec fn fwd_children_err(
    node: Trie,
    i: int,
    src: Json,
    dst: Json,
    idx: Seq<usize>,
    sep: char,
) -> Seq<char>
    decreases node, nonneg(node.children.len() - i), 0int,
{
    if i < 0 || i >= node.children.len() {
        Seq::empty()
    } else {
        proof {
            assert(decreases_to!(node => node.children));
            assert(decreases_to!(node.children => node.children[i]));
        }
        match fwd_child(node.children[i], src, dst, idx, sep) {
            Some(d) => fwd_children_err(node, i + 1, src, d, idx, sep),
            None => fwd_child_err(node.children[i], src, dst, idx, sep),
        }
    }
}

/// The message of the failure of `fwd_child`, or empty: a target that
/// cannot be written, or a pattern that does not compile.
pub open spec fn fwd_child_err(c: Trie, src: Json, dst: Json, idx: Seq<usize>, sep: char) -> Seq<char>
    decreases c, c.children.len() + 2, 0int,
{
    match c.binding {
        Binding::Direct => match lookup(src, c.key) {
            None => Seq::empty(),
            Some(v) => match put_targets(dst, c.targets, 0, v, idx, sep) {
                None => put_targets_err(dst, c.targets, 0, v, idx, sep),
                Some(d1) => if c.children.len() > 0 {
                    fwd_children_err(c, 0, v, d1, idx, sep)
                } else {
                    Seq::empty()
                },
            },
        },
        Binding::Iterate(s, e, st) => {
            let arr = if c.key.len() == 0 {
                Some(src)
            } else {
                lookup(src, c.key)
            };
            match arr {
                Some(Json::Array(items)) => fwd_iter_err(
                    c,
                    items,
                    spec_slice_indices(items.len() as int, s, e, st),
                    0,
                    dst,
                    idx,
                    sep,
                ),
                _ => Seq::empty(),
            }
        },
        Binding::Pattern(p, s, e, st) => match src {
            Json::Object(entries) => if !regex_builds(anchored(p)) {
                "invalid regex: "@ + regex_error(anchored(p))->0
            } else {
                let vals = matching_values(entries, anchored(p));
                fwd_iter_err(
                    c,
                    vals,
                    spec_slice_indices(vals.len() as int, s, e, st),
                    0,
                    dst,
                    idx,
                    sep,
                )
            },
            _ => Seq::empty(),
        },
    }
}

/// The message of the first failure of `fwd_iter`, or empty.
pub open spec fn fwd_iter_err(
    c: Trie,
    elems: Seq<Json>,
    sel: Seq<int>,
    k: int,
    dst: Json,
    idx: Seq<usize>,
    sep: char,
) -> Seq<char>
    decreases c, c.children.len() + 1, nonneg(sel.len() - k),
{
    if k < 0 || k >= sel.len() {
        Seq::empty()
    } else {
        let elem = elems[sel[k]];
        let idx2 = idx.push(k as usize);
        match put_targets(dst, c.targets, 0, elem, idx2, sep) {
            None => put_targets_err(dst, c.targets, 0, elem, idx2, sep),
            Some(d1) => {
                let d2 = if c.children.len() > 0 {
                    fwd_children(c, 0, elem, d1, idx2, sep)
                } else {
                    Some(d1)
                };
                match d2 {
                    None => fwd_children_err(c, 0, elem, d1, idx2, sep),
                    Some(d) => fwd_iter_err(c, elems, sel, k + 1, d, idx, sep),
                }
            },
        }
    }
}

/// Write `value` at each of `targets`, in order.
fn put_all_targets(
    targets: &Vec<String>,
    dst: &mut JsonValue,
    value: &JsonValue,
    indices: &Vec<usize>,
    sep: char,
) -> (r: Result<(), Error>)
    ensures
        match put_targets(old(dst)@, strings(targets@), 0, value@, indices@, sep) {
            Some(d) => r is Ok && final(dst)@ == d,
            None => r matches Err(Error::Stitch(m)) && m@ == put_targets_err(
                old(dst)@,
                strings(targets@),
                0,
                value@,
                indices@,
                sep,
            ),
        },
{
    let ghost ts = strings(targets@);
    let mut i: usize = 0;
    while i < targets.len()
        invariant
            i <= targets@.len(),
            ts == strings(targets@),
            put_targets(old(dst)@, ts, 0, value@, indices@, sep) == put_targets(
                dst@,
                ts,
                i as int,
                value@,
                indices@,
                sep,
            ),
            put_targets_err(old(dst)@, ts, 0, value@, indices@, sep) == put_targets_err(
                dst@,
                ts,
                i as int,
                value@,
                indices@,
                sep,
            ),
        decreases targets@.len() - i,
    {
        let v = value.duplicate();
        match set_at_path(dst, targets[i].as_str(), v, indices.as_slice(), sep) {
            Ok(()) => {},
            Err(e) => return Err(e),
        }
        i = i + 1;
    }
    Ok(())
}

/// The value under `key` when `src` is an object holding it.
pub fn json_get<'b>(src: &'b JsonValue, key: &String) -> (r: Option<&'b JsonValue>)
    ensures
        match r {
            Some(v) => lookup(src@, key@) == Some(v@),
            None => lookup(src@, key@) is None,
        },
{
    match src {
        JsonValue::Object(entries) => {
            proof {
                lemma_object_model(*entries);
            }
            let i = find_entry(entries, key);
            if i < entries.len() {
                Some(&entries[i].1)
            } else {
                None
            }
        },
        _ => None,
    }
}

/// Compile the anchored regex `^pattern$`.
pub fn compile_regex(pattern: &str) -> (r: Result<CompiledPattern, Error>)
    ensures
        r is Ok <==> regex_builds(anchored(pattern@)),
        r matches Ok(p) ==> p@ == anchored(pattern@),
        r matches Err(e) ==> (e matches Error::Stitch(m) && m@ == "invalid regex: "@ + regex_error(
            anchored(pattern@),
        )->0),
{
    let cs = chars_of(pattern);
    let mut src: Vec<char> = Vec::new();
    src.push('^');
    let mut i: usize = 0;
    while i < cs.len()
        invariant
            i <= cs@.len(),
            src@ == seq!['^'] + cs@.take(i as int),
        decreases cs@.len() - i,
    {
        src.push(cs[i]);
        i = i + 1;
        assert(src@ =~= seq!['^'] + cs@.take(i as int));
    }
    src.push('$');
    assert(cs@.take(cs@.len() as int) =~= cs@);
    assert(src@ =~= anchored(pattern@));
    let source = string_from(&src);
    match regex_new(source.as_str()) {
        Ok(p) => Ok(p),
        Err(text) => {
            let m = crate::text::join2("invalid regex: ", text.as_str());
            assert(m@ == "invalid regex: "@ + text@);
            Err(Error::Stitch(m))
        },
    }
}

pub open spec fn ref_models(s: Seq<&JsonValue>) -> Seq<Json> {
    Seq::new(s.len(), |i: int| model_of(*s[i]))
}

/// The values of the entries whose flag is set, in entry order.
pub open spec fn flagged_values(entries: Seq<(Seq<char>, Json)>, flags: Seq<bool>) -> Seq<Json>
    decreases entries.len(),
{
    if entries.len() == 0 {
        Seq::empty()
    } else {
        let prev = flagged_values(entries.drop_last(), flags);
        if flags[entries.len() - 1] {
            prev.push(entries.last().1)
        } else {
            prev
        }
    }
}

proof fn lemma_flagged_matching(entries: Seq<(Seq<char>, Json)>, flags: Seq<bool>, source: Seq<char>)
    requires
        flags.len() >= entries.len(),
        forall|i: int| 0 <= i < entries.len() ==> flags[i] == regex_finds(source, #[trigger] entries[i].0),
    ensures
        flagged_values(entries, flags) == matching_values(entries, source),
    decreases entries.len(),
{
    if entries.len() > 0 {
        let prefix = entries.drop_last();
        assert forall|i: int| 0 <= i < prefix.len() implies flags[i] == regex_finds(
            source,
            #[trigger] prefix[i].0,
        ) by {
            assert(prefix[i] == entries[i]);
        }
        lemma_flagged_matching(prefix, flags, source);
        assert(entries.last() == entries[entries.len() - 1]);
    }
}

/// For each entry, whether the compiled expression matches its key.
fn match_flags(entries: &Vec<(String, JsonValue)>, re: &CompiledPattern) -> (r: Vec<bool>)
    ensures
        r@.len() == entries@.len(),
        forall|i: int| 0 <= i < entries@.len() ==> r@[i] == regex_finds(re@, #[trigger] entries@[i].0@),
{
    let mut out: Vec<bool> = Vec::new();
    let mut i: usize = 0;
    while i < entries.len()
        invariant
            i <= entries@.len(),
            out@.len() == i,
            forall|j: int| 0 <= j < i ==> out@[j] == regex_finds(re@, #[trigger] entries@[j].0@),
        decreases entries@.len() - i,
    {
        out.push(regex_is_match(re, entries[i].0.as_str()));
        i = i + 1;
    }
    out
}

/// References to the values of the entries whose flag is set, in entry
/// order.
pub fn flagged_refs<'b>(entries: &'b Vec<(String, JsonValue)>, flags: &Vec<bool>) -> (r: Vec<
    &'b JsonValue,
>)
    requires
        flags@.len() == entries@.len(),
    ensures
        ref_models(r@) == flagged_values(entry_models(entries@), flags@),
        r@.len() == flagged_values(entry_models(entries@), flags@).len(),
{
    let ghost es = entry_models(entries@);
    let mut out: Vec<&'b JsonValue> = Vec::new();
    let mut i: usize = 0;
    assert(es.take(0) =~= Seq::<(Seq<char>, Json)>::empty());
    assert(ref_models(out@) =~= Seq::<Json>::empty());
    while i < entries.len()
        invariant
            i <= entries@.len(),
            flags@.len() == entries@.len(),
            es == entry_models(entries@),
            ref_models(out@) == flagged_values(es.take(i as int), flags@),
            out@.len() == ref_models(out@).len(),
        decreases entries@.len() - i,
    {
        assert(es.take(i + 1).drop_last() =~= es.take(i as int));
        assert(es.take(i + 1).last() == es[i as int]);
        let ghost before = ref_models(out@);
        if flags[i] {
            out.push(&entries[i].1);
            assert(ref_models(out@) =~= before.push(es[i as int].1));
        } else {
            assert(ref_models(out@) =~= before);
        }
        i = i + 1;
    }
    assert(es.take(entries@.len() as int) =~= es);
    out
}

/// References to the values of the entries whose key the compiled
/// expression matches, in entry order.
fn matching_refs<'b>(entries: &'b Vec<(String, JsonValue)>, re: &CompiledPattern) -> (r: Vec<
    &'b JsonValue,
>)
    ensures
        ref_models(r@) == matching_values(entry_models(entries@), re@),
        r@.len() == matching_values(entry_models(entries@), re@).len(),
{
    let flags = match_flags(entries, re);
    proof {
        let es = entry_models(entries@);
        assert forall|i: int| 0 <= i < es.len() implies flags@[i] == regex_finds(
            re@,
            #[trigger] es[i].0,
        ) by {
            assert(es[i].0 == entries@[i].0@);
        }
        lemma_flagged_matching(es, flags@, re@);
    }
    flagged_refs(entries, &flags)
}

/// References to the items of an array.
fn item_refs<'b>(items: &'b Vec<JsonValue>) -> (r: Vec<&'b JsonValue>)
    ensures
        ref_models(r@) == models(items@),
        r@.len() == items@.len(),
{
    let mut out: Vec<&'b JsonValue> = Vec::new();
    let mut i: usize = 0;
    assert(ref_models(out@) =~= models(items@).take(0));
    while i < items.len()
        invariant
            i <= items@.len(),
            out@.len() == i,
            ref_models(out@) == models(items@).take(i as int),
        decreases items@.len() - i,
    {
        let ghost before = ref_models(out@);
        out.push(&items[i]);
        assert(ref_models(out@) =~= before.push(models(items@)[i as int]));
        i = i + 1;
        assert(ref_models(out@) =~= models(items@).take(i as int));
    }
    assert(models(items@).take(items@.len() as int) =~= models(items@));
    out
}

/// Walk the selected elements in turn: write each to the node's targets and
/// walk it by the node's children, with its enumeration position pushed on
/// the iteration indices.
fn walk_selection(
    child: &TrieNode,
    elems: &Vec<&JsonValue>,
    sel: &Vec<usize>,
    dst: &mut JsonValue,
    indices: &mut Vec<usize>,
    target_sep: char,
) -> (r: Result<(), Error>)
    requires
        forall|k: int| 0 <= k < sel@.len() ==> #[trigger] sel@[k] < elems@.len(),
    ensures
        match fwd_iter(
            child@,
            ref_models(elems@),
            usizes(sel@),
            0,
            old(dst)@,
            old(indices)@,
            target_sep,
        ) {
            Some(d) => r is Ok && final(dst)@ == d && final(indices)@ == old(indices)@,
            None => r matches Err(Error::Stitch(m)) && m@ == fwd_iter_err(
                child@,
                ref_models(elems@),
                usizes(sel@),
                0,
                old(dst)@,
                old(indices)@,
                target_sep,
            ),
        },
    decreases child, 1nat,
{
    proof {
        lemma_trie_children(*child);
    }
    let ghost c = child@;
    let ghost es = ref_models(elems@);
    let ghost ss = usizes(sel@);
    let ghost idx0 = indices@;
    let ghost d0 = dst@;
    let mut k: usize = 0;
    while k < sel.len()
        invariant
            k <= sel@.len(),
            c == child@,
            c.children == tries(child.children@),
            c.targets == strings(child.targets@),
            es == ref_models(elems@),
            ss == usizes(sel@),
            indices@ == idx0,
            idx0 == old(indices)@,
            d0 == old(dst)@,
            forall|j: int| 0 <= j < sel@.len() ==> #[trigger] sel@[j] < elems@.len(),
            fwd_iter(c, es, ss, 0, d0, idx0, target_sep) == fwd_iter(
                c,
                es,
                ss,
                k as int,
                dst@,
                idx0,
                target_sep,
            ),
            fwd_iter_err(c, es, ss, 0, d0, idx0, target_sep) == fwd_iter_err(
                c,
                es,
                ss,
                k as int,
                dst@,
                idx0,
                target_sep,
            ),
        decreases sel@.len() - k,
    {
        let elem: &JsonValue = elems[sel[k]];
        let ghost kk = k as int;
        let ghost e_m = es[ss[kk]];
        assert(ss[kk] == sel@[kk] as int);
        assert(e_m == elem@);
        let ghost d_before = dst@;
        indices.push(k);
        let ghost idx2 = indices@;
        assert(idx2 == idx0.push(kk as usize));
        let ghost step = fwd_iter(c, es, ss, kk, d_before, idx0, target_sep);
        assert(step == match put_targets(d_before, c.targets, 0, e_m, idx2, target_sep) {
            None => None,
            Some(d1) => {
                let d2 = if c.children.len() > 0 {
                    fwd_children(c, 0, e_m, d1, idx2, target_sep)
                } else {
                    Some(d1)
                };
                match d2 {
                    None => None,
                    Some(d) => fwd_iter(c, es, ss, kk + 1, d, idx0, target_sep),
                }
            },
        });
        assert(fwd_iter_err(c, es, ss, kk, d_before, idx0, target_sep) == match put_targets(
            d_before,
            c.targets,
            0,
            e_m,
            idx2,
            target_sep,
        ) {
            None => put_targets_err(d_before, c.targets, 0, e_m, idx2, target_sep),
            Some(d1) => {
                let d2 = if c.children.len() > 0 {
                    fwd_children(c, 0, e_m, d1, idx2, target_sep)
                } else {
                    Some(d1)
                };
                match d2 {
                    None => fwd_children_err(c, 0, e_m, d1, idx2, target_sep),
                    Some(d) => fwd_iter_err(c, es, ss, kk + 1, d, idx0, target_sep),
                }
            },
        });
        match put_all_targets(&child.targets, dst, elem, indices, target_sep) {
            Ok(()) => {},
            Err(e) => {
                return Err(e);
            },
        }
        if child.children.len() > 0 {
            match forward_walk(child, elem, dst, indices, target_sep) {
                Ok(()) => {},
                Err(e) => {
                    return Err(e);
                },
            }
        }
        indices.pop();
        assert(indices@ =~= idx0);
        k = k + 1;
    }
    Ok(())
}

/// Forward walk of one child against the source value of its parent.
fn walk_child(
    child: &TrieNode,
    src: &JsonValue,
    dst: &mut JsonValue,
    indices: &mut Vec<usize>,
    target_sep: char,
) -> (r: Result<(), Error>)
    ensures
        match fwd_child(child@, src@, old(dst)@, old(indices)@, target_sep) {
            Some(d) => r is Ok && final(dst)@ == d && final(indices)@ == old(indices)@,
            None => r matches Err(Error::Stitch(m)) && m@ == fwd_child_err(
                child@,
                src@,
                old(dst)@,
                old(indices)@,
                target_sep,
            ),
        },
    decreases child, 2nat,
{
    proof {
        lemma_trie_children(*child);
    }
    let ghost c = child@;
    match &child.binding {
        BindingTaskType::Direct => {
            match json_get(src, &child.key) {
                None => Ok(()),
                Some(val) => {
                    match put_all_targets(&child.targets, dst, val, indices, target_sep) {
                        Ok(()) => {},
                        Err(e) => return Err(e),
                    }
                    if child.children.len() > 0 {
                        forward_walk(child, val, dst, indices, target_sep)
                    } else {
                        Ok(())
                    }
                },
            }
        },
        BindingTaskType::Iterate { start, end, step } => {
            let arr_val = if child.key.unicode_len() == 0 {
                Some(src)
            } else {
                json_get(src, &child.key)
            };
            let ghost arr = if c.key.len() == 0 {
                Some(src@)
            } else {
                lookup(src@, c.key)
            };
            assert(match arr_val {
                Some(v) => arr == Some(v@),
                None => arr is None,
            });
            match arr_val {
                Some(JsonValue::Array(items)) => {
                    proof {
                        lemma_array_model(*items);
                    }
                    let elems = item_refs(items);
                    let sel = slice_indices(items.len(), *start, *end, *step);
                    walk_selection(child, &elems, &sel, dst, indices, target_sep)
                },
                _ => Ok(()),
            }
        },
        BindingTaskType::IteratePattern { pattern, start, end, step } => {
            match src {
                JsonValue::Object(entries) => {
                    proof {
                        lemma_object_model(*entries);
                    }
                    let re = match compile_regex(pattern.as_str()) {
                        Ok(re) => re,
                        Err(e) => return Err(e),
                    };
                    let elems = matching_refs(entries, &re);
                    let sel = slice_indices(elems.len(), *start, *end, *step);
                    walk_selection(child, &elems, &sel, dst, indices, target_sep)
                },
                _ => Ok(()),
            }
        },
    }
}

/// Forward walk: traverse the trie's children against the source value,
/// placing the values found at the targets of the output.
pub fn forward_walk(
    node: &TrieNode,
    src: &JsonValue,
    dst: &mut JsonValue,
    indices: &mut Vec<usize>,
    target_sep: char,
) -> (r: Result<(), Error>)
    ensures
        match fwd_children(node@, 0, src@, old(dst)@, old(indices)@, target_sep) {
            Some(d) => r is Ok && final(dst)@ == d && final(indices)@ == old(indices)@,
            None => r matches Err(Error::Stitch(m)) && m@ == fwd_children_err(
                node@,
                0,
                src@,
                old(dst)@,
                old(indices)@,
                target_sep,
            ),
        },
    decreases node, 0nat,
{
    proof {
        lemma_trie_children(*node);
    }
    let ghost n = node@;
    let ghost idx0 = indices@;
    let ghost d0 = dst@;
    let mut i: usize = 0;
    while i < node.children.len()
        invariant
            i <= node.children@.len(),
            n == node@,
            n.children == tries(node.children@),
            indices@ == idx0,
            idx0 == old(indices)@,
            d0 == old(dst)@,
            fwd_children(n, 0, src@, d0, idx0, target_sep) == fwd_children(
                n,
                i as int,
                src@,
                dst@,
                idx0,
                target_sep,
            ),
            fwd_children_err(n, 0, src@, d0, idx0, target_sep) == fwd_children_err(
                n,
                i as int,
                src@,
                dst@,
                idx0,
                target_sep,
            ),
        decreases node.children@.len() - i,
    {
        let child = &node.children[i];
        proof {
            assert(decreases_to!(*node => node.children));
            assert(decreases_to!(node.children => node.children@));
            assert(decreases_to!(node.children@ => node.children@[i as int]));
            assert(n.children[i as int] == child@);
        }
        let ghost d_before = dst@;
        assert(fwd_children(n, i as int, src@, d_before, idx0, target_sep) == match fwd_child(
            child@,
            src@,
            d_before,
            idx0,
            target_sep,
        ) {
            Some(d) => fwd_children(n, i + 1, src@, d, idx0, target_sep),
            None => None,
        });
        assert(fwd_children_err(n, i as int, src@, d_before, idx0, target_sep) == match fwd_child(
            child@,
            src@,
            d_before,
            idx0,
            target_sep,
        ) {
            Some(d) => fwd_children_err(n, i + 1, src@, d, idx0, target_sep),
            None => fwd_child_err(child@, src@, d_before, idx0, target_sep),
        });
        match walk_child(child, src, dst, indices, target_sep) {
            Ok(()) => {},
            Err(e) => return Err(e),
        }
        i = i + 1;
    }
    Ok(())
}

/// Write the root's own targets (a root carries targets when a path maps
/// the whole document, e.g. `/` in a response suture).
pub fn emit_root_targets(
    root: &TrieNode,
    src: &JsonValue,
    dst: &mut JsonValue,
    indices: &Vec<usize>,
    target_sep: char,
) -> (r: Result<(), Error>)
    ensures
        match put_targets(old(dst)@, root@.targets, 0, src@, indices@, target_sep) {
            Some(d) => r is Ok && final(dst)@ == d,
            None => r matches Err(Error::Stitch(m)) && m@ == put_targets_err(
                old(dst)@,
                root@.targets,
                0,
                src@,
                indices@,
                target_sep,
            ),
        },
{
    proof {
        lemma_trie_children(*root);
    }
    put_all_targets(&root.targets, dst, src, indices, target_sep)
}

// ===========================================================================
// Reverse walk: read from flat target paths, write via the trie's structure
// ===========================================================================

/// One leaf of the compiled trie: the trie path from the root to the leaf
/// (key and binding at each level) and the flat target it maps to.
pub struct LeafMapping {
    pub trie_segments: Vec<(String, BindingTaskType)>,
    pub target: String,
}

/// The model of a leaf mapping.
pub struct Leaf {
    pub segs: Seq<(Seq<char>, Binding)>,
    pub target: Seq<char>,
}

pub open spec fn path_models(s: Seq<(String, BindingTaskType)>) -> Seq<(Seq<char>, Binding)> {
    Seq::new(s.len(), |i: int| (s[i].0@, s[i].1@))
}

impl View for LeafMapping {
    type V = Leaf;

    open spec fn view(&self) -> Leaf {
        Leaf { segs: path_models(self.trie_segments@), target: self.target@ }
    }
}

pub open spec fn leaf_models(s: Seq<LeafMapping>) -> Seq<Leaf> {
    Seq::new(s.len(), |i: int| s[i]@)
}

/// The leaves of a node reached by `path`: one per target of the node, then
/// those of each child in order, the child's key and binding appended to
/// the path.
pub open spec fn leaves_of(node: Trie, path: Seq<(Seq<char>, Binding)>) -> Seq<Leaf>
    decreases node, node.children.len() + 1,
{
    Seq::new(node.targets.len(), |i: int| Leaf { segs: path, target: node.targets[i] })
        + leaves_below(node, path, 0)
}

/// The leaves of the children `node.children[i..]`.
pub open spec fn leaves_below(node: Trie, path: Seq<(Seq<char>, Binding)>, i: int) -> Seq<Leaf>
    decreases node, nonneg(node.children.len() - i),
{
    if i < 0 || i >= node.children.len() {
        Seq::empty()
    } else {
        proof {
            assert(decreases_to!(node => node.children));
            assert(decreases_to!(node.children => node.children[i]));
        }
        let c = node.children[i];
        leaves_of(c, path.push((c.key, c.binding))) + leaves_below(node, path, i + 1)
    }
}

/// A copy of a trie path.
fn copy_path(path: &[(String, BindingTaskType)]) -> (r: Vec<(String, BindingTaskType)>)
    ensures
        path_models(r@) == path_models(path@),
{
    let mut out: Vec<(String, BindingTaskType)> = Vec::new();
    let mut i: usize = 0;
    while i < path.len()
        invariant
            i <= path@.len(),
            path_models(out@) == path_models(path@).take(i as int),
        decreases path@.len() - i,
    {
        let ghost before = path_models(out@);
        let k = path[i].0.clone();
        let b = path[i].1.duplicate();
        out.push((k, b));
        assert(path_models(out@) =~= before.push(path_models(path@)[i as int]));
        i = i + 1;
        assert(path_models(out@) =~= path_models(path@).take(i as int));
    }
    assert(path_models(path@).take(path@.len() as int) =~= path_models(path@));
    out
}

/// Flatten the trie into leaf mappings for the reverse walk.
pub fn collect_leaves(node: &TrieNode, path: &[(String, BindingTaskType)]) -> (r: Vec<LeafMapping>)
    ensures
        leaf_models(r@) == leaves_of(node@, path_models(path@)),
    decreases node,
{
    proof {
        lemma_trie_children(*node);
    }
    let ghost n = node@;
    let ghost pm = path_models(path@);
    let mut result: Vec<LeafMapping> = Vec::new();
    let mut t: usize = 0;
    let ghost own = Seq::new(n.targets.len(), |i: int| Leaf { segs: pm, target: n.targets[i] });
    while t < node.targets.len()
        invariant
            t <= node.targets@.len(),
            n == node@,
            n.targets == strings(node.targets@),
            pm == path_models(path@),
            own == Seq::new(n.targets.len(), |i: int| Leaf { segs: pm, target: n.targets[i] }),
            leaf_models(result@) == own.take(t as int),
        decreases node.targets@.len() - t,
    {
        let ghost before = leaf_models(result@);
        let segs = copy_path(path);
        let target = node.targets[t].clone();
        result.push(LeafMapping { trie_segments: segs, target });
        assert(leaf_models(result@) =~= before.push(own[t as int]));
        t = t + 1;
        assert(leaf_models(result@) =~= own.take(t as int));
    }
    assert(own.take(node.targets@.len() as int) =~= own);
    let mut i: usize = 0;
    assert(leaves_below(n, pm, 0) == leaves_below(n, pm, 0));
    while i < node.children.len()
        invariant
            i <= node.children@.len(),
            n == node@,
            n.children == tries(node.children@),
            pm == path_models(path@),
            leaf_models(result@) + leaves_below(n, pm, i as int) == own + leaves_below(n, pm, 0),
        decreases node.children@.len() - i,
    {
        let child = &node.children[i];
        proof {
            lemma_trie_children(*child);
            assert(decreases_to!(*node => node.children));
            assert(decreases_to!(node.children => node.children@));
            assert(decreases_to!(node.children@ => node.children@[i as int]));
            assert(n.children[i as int] == child@);
        }
        let mut child_path = copy_path(path);
        let ghost cp0 = path_models(child_path@);
        child_path.push((child.key.clone(), child.binding.duplicate()));
        assert(path_models(child_path@) =~= pm.push((child@.key, child@.binding)));
        let mut sub = collect_leaves(child, child_path.as_slice());
        let ghost before = leaf_models(result@);
        let ghost sm = leaf_models(sub@);
        result.append(&mut sub);
        assert(leaf_models(result@) =~= before + sm);
        assert(leaves_below(n, pm, i as int) == sm + leaves_below(n, pm, i + 1));
        assert(leaf_models(result@) + leaves_below(n, pm, i + 1) =~= before + leaves_below(
            n,
            pm,
            i as int,
        ));
        i = i + 1;
    }
    assert(leaves_below(n, pm, i as int) =~= Seq::<Leaf>::empty());
    assert(leaf_models(result@) =~= leaf_models(result@) + leaves_below(n, pm, i as int));
    result
}


/// The element an index step reads: counted from the end when negative.
pub open spec fn index_elem(src: Json, n: i64) -> Option<Json> {
    if n < 0 {
        element(src, items_or_empty(src).len() + n)
    } else {
        element(src, n as int)
    }
}

/// The values found by walking `src` along the steps `segs[k..]`, each with
/// the enumeration positions of the slices it was reached through. A key or
/// index that is missing yields nothing; a slice yields the selected
/// elements in turn.
pub open spec fn extract(src: Json, segs: Seq<Seg>, k: int, idx: Seq<usize>) -> Seq<(Json, Seq<usize>)>
    decreases nonneg(segs.len() - k), 1int, 0int,
{
    if k < 0 || k >= segs.len() {
        seq![(src, idx)]
    } else {
        match segs[k] {
            Seg::Key(key) => match lookup(src, key) {
                Some(v) => extract(v, segs, k + 1, idx),
                None => Seq::empty(),
            },
            Seg::Index(n) => match index_elem(src, n) {
                Some(v) => extract(v, segs, k + 1, idx),
                None => Seq::empty(),
            },
            Seg::Slice(s, e, st) => match src {
                Json::Array(items) => extract_sel(
                    items,
                    spec_slice_indices(items.len() as int, s, e, st),
                    0,
                    segs,
                    k,
                    idx,
                ),
                _ => Seq::empty(),
            },
        }
    }
}

/// The values found below the selected elements `items[sel[j..]]` of the
/// slice step `segs[k]`.
pub open spec fn extract_sel(
    items: Seq<Json>,
    sel: Seq<int>,
    j: int,
    segs: Seq<Seg>,
    k: int,
    idx: Seq<usize>,
) -> Seq<(Json, Seq<usize>)>
    decreases nonneg(segs.len() - k), 0int, nonneg(sel.len() - j),
{
    if j < 0 || j >= sel.len() || k < 0 || k >= segs.len() {
        Seq::empty()
    } else {
        extract(items[sel[j]], segs, k + 1, idx.push(j as usize)) + extract_sel(
            items,
            sel,
            j + 1,
            segs,
            k,
            idx,
        )
    }
}

pub open spec fn result_models(s: Seq<(JsonValue, Vec<usize>)>) -> Seq<(Json, Seq<usize>)> {
    Seq::new(s.len(), |i: int| (s[i].0@, s[i].1@))
}

fn copy_indices(v: &Vec<usize>) -> (r: Vec<usize>)
    ensures
        r@ == v@,
{
    let mut out: Vec<usize> = Vec::new();
    let mut i: usize = 0;
    while i < v.len()
        invariant
            i <= v@.len(),
            out@ == v@.take(i as int),
        decreases v@.len() - i,
    {
        out.push(v[i]);
        i = i + 1;
        assert(out@ =~= v@.take(i as int));
    }
    assert(v@.take(v@.len() as int) =~= v@);
    out
}

/// Walk the source along the steps `segments[seg_idx..]`, collecting each
/// value reached together with the iteration indices accumulated on the way.
pub fn extract_values(
    src: &JsonValue,
    segments: &Vec<TargetSegment>,
    seg_idx: usize,
    indices: &mut Vec<usize>,
    results: &mut Vec<(JsonValue, Vec<usize>)>,
)
    ensures
        result_models(final(results)@) == result_models(old(results)@) + extract(
            src@,
            segs_of(segments@),
            seg_idx as int,
            old(indices)@,
        ),
        final(indices)@ == old(indices)@,
    decreases segments@.len() - seg_idx,
{
    let ghost segs = segs_of(segments@);
    let ghost r0 = result_models(results@);
    if seg_idx >= segments.len() {
        let v = src.duplicate();
        let ix = copy_indices(indices);
        results.push((v, ix));
        assert(result_models(results@) =~= r0 + seq![(src@, indices@)]);
        return;
    }
    assert(segs[seg_idx as int] == segments@[seg_idx as int]@);
    match &segments[seg_idx] {
        TargetSegment::Key(key) => {
            let key_s = (*key).to_string();
            match json_get(src, &key_s) {
                Some(val) => {
                    extract_values(val, segments, seg_idx + 1, indices, results);
                },
                None => {
                    assert(result_models(results@) =~= r0 + Seq::<(Json, Seq<usize>)>::empty());
                },
            }
        },
        TargetSegment::Index(n) => {
            let found: Option<&JsonValue> = match src {
                JsonValue::Array(items) => {
                    proof {
                        lemma_array_model(*items);
                    }
                    let len: i128 = items.len() as i128;
                    let at: i128 = if *n < 0 {
                        len + *n as i128
                    } else {
                        *n as i128
                    };
                    if 0 <= at && at < len {
                        Some(&items[at as usize])
                    } else {
                        None
                    }
                },
                _ => None,
            };
            assert(match found {
                Some(v) => index_elem(src@, *n) == Some(v@),
                None => index_elem(src@, *n) is None,
            });
            match found {
                Some(val) => {
                    extract_values(val, segments, seg_idx + 1, indices, results);
                },
                None => {
                    assert(result_models(results@) =~= r0 + Seq::<(Json, Seq<usize>)>::empty());
                },
            }
        },
        TargetSegment::Slice { start, end, step } => {
            match src {
                JsonValue::Array(items) => {
                    proof {
                        lemma_array_model(*items);
                    }
                    let ghost ms = models(items@);
                    let sel = slice_indices(items.len(), *start, *end, *step);
                    let ghost ss = usizes(sel@);
                    let ghost idx0 = indices@;
                    let mut j: usize = 0;
                    while j < sel.len()
                        invariant
                            j <= sel@.len(),
                            ss == usizes(sel@),
                            ms == models(items@),
                            indices@ == idx0,
                            seg_idx < segments.len(),
                            segs == segs_of(segments@),
                            forall|q: int| 0 <= q < sel@.len() ==> #[trigger] sel@[q] < items@.len(),
                            r0 + extract_sel(ms, ss, 0, segs, seg_idx as int, idx0) == result_models(
                                results@,
                            ) + extract_sel(ms, ss, j as int, segs, seg_idx as int, idx0),
                        decreases sel@.len() - j,
                    {
                        let ghost rb = result_models(results@);
                        let elem = &items[sel[j]];
                        assert(ms[ss[j as int]] == elem@);
                        indices.push(j);
                        assert(indices@ == idx0.push(j as usize));
                        extract_values(elem, segments, seg_idx + 1, indices, results);
                        indices.pop();
                        assert(indices@ =~= idx0);
                        let ghost got = extract(elem@, segs, seg_idx + 1, idx0.push(j as usize));
                        assert(extract_sel(ms, ss, j as int, segs, seg_idx as int, idx0) == got
                            + extract_sel(ms, ss, j + 1, segs, seg_idx as int, idx0));
                        assert(result_models(results@) + extract_sel(
                            ms,
                            ss,
                            j + 1,
                            segs,
                            seg_idx as int,
                            idx0,
                        ) =~= rb + extract_sel(ms, ss, j as int, segs, seg_idx as int, idx0));
                        j = j + 1;
                    }
                    assert(extract_sel(ms, ss, j as int, segs, seg_idx as int, idx0)
                        =~= Seq::<(Json, Seq<usize>)>::empty());
                    assert(result_models(results@) =~= result_models(results@) + extract_sel(
                        ms,
                        ss,
                        j as int,
                        segs,
                        seg_idx as int,
                        idx0,
                    ));
                },
                _ => {
                    assert(result_models(results@) =~= r0 + Seq::<(Json, Seq<usize>)>::empty());
                },
            }
        },
    }
}


/// The write position an `Iterate` step of the trie path takes, with the
/// next read position: a single fixed index `[N]` (compiled as `N, N+1`)
/// writes at `N`; any other range consumes the next read-side index.
pub open spec fn write_index(
    start: Option<i64>,
    end: Option<i64>,
    idx: Seq<usize>,
    pos: int,
) -> Option<(int, int)> {
    if start is Some && end is Some && end->0 == start->0 + 1 && start->0 >= 0 {
        Some(((start->0 as usize) as int, pos))
    } else if 0 <= pos < idx.len() {
        Some((idx[pos] as int, pos + 1))
    } else {
        None
    }
}

/// Determine the write index for an `Iterate` step of a trie path in the
/// reverse walk: a single fixed index `[N]` gives `N`; a full or range
/// iteration consumes the next index of the read side.
pub fn trie_write_index(
    start: &Option<i64>,
    end: &Option<i64>,
    _step: &Option<i64>,
    indices: &[usize],
    iter_pos: &mut usize,
) -> (r: Result<usize, Error>)
    ensures
        match write_index(*start, *end, indices@, *old(iter_pos) as int) {
            Some((n, p)) => r == Ok::<usize, Error>(n as usize) && *final(iter_pos) == p,
            None => r matches Err(Error::Stitch(m)) && m@
                == "iteration index mismatch in reverse walk"@ && *final(iter_pos) == *old(iter_pos),
        },
{
    if let (Some(s), Some(e)) = (start, end) {
        if *e as i128 == *s as i128 + 1 && *s >= 0 {
            return Ok(*s as usize);
        }
    }
    if *iter_pos < indices.len() {
        let idx = indices[*iter_pos];
        *iter_pos = *iter_pos + 1;
        Ok(idx)
    } else {
        Err(Error::Stitch("iteration index mismatch in reverse walk".to_string()))
    }
}

/// The document `dst` with `value` written along the trie path `segs[k..]`:
/// a `Direct` step writes under its key; an `Iterate` step writes into the
/// array under its key (or `dst` itself when the key is empty) at the
/// position `write_index` gives; a pattern step cannot be written.
pub open spec fn put_trie(
    dst: Json,
    segs: Seq<(Seq<char>, Binding)>,
    k: int,
    value: Json,
    idx: Seq<usize>,
    pos: int,
) -> Option<Json>
    decreases segs.len() - k,
{
    if k < 0 || k >= segs.len() {
        Some(value)
    } else {
        let key = segs[k].0;
        match segs[k].1 {
            Binding::Direct => {
                let obj = entries_or_empty(dst);
                let i = entry_index(obj, key);
                let cur = if i >= 0 {
                    obj[i].1
                } else {
                    Json::Null
                };
                match put_trie(cur, segs, k + 1, value, idx, pos) {
                    Some(nv) => Some(Json::Object(with_entry(obj, key, nv))),
                    None => None,
                }
            },
            Binding::Iterate(s, e, _) => match write_index(s, e, idx, pos) {
                None => None,
                Some((n, p2)) => if n >= usize::MAX {
                    None
                } else if key.len() == 0 {
                    let items = padded(items_or_empty(dst), n + 1);
                    match put_trie(items[n], segs, k + 1, value, idx, p2) {
                        Some(nv) => Some(Json::Array(items.update(n, nv))),
                        None => None,
                    }
                } else {
                    let obj = entries_or_empty(dst);
                    let i = entry_index(obj, key);
                    let cur = if i >= 0 {
                        obj[i].1
                    } else {
                        Json::Null
                    };
                    let items = padded(items_or_empty(cur), n + 1);
                    match put_trie(items[n], segs, k + 1, value, idx, p2) {
                        Some(nv) => Some(
                            Json::Object(with_entry(obj, key, Json::Array(items.update(n, nv)))),
                        ),
                        None => None,
                    }
                },
            },
            Binding::Pattern(_, _, _, _) => None,
        }
    }
}

/// The message of the step at which `put_trie` cannot write: no iteration
/// index left to consume, an index beyond the machine's range, or a pattern
/// step. Empty where the write succeeds.
pub open spec fn put_trie_err(
    dst: Json,
    segs: Seq<(Seq<char>, Binding)>,
    k: int,
    value: Json,
    idx: Seq<usize>,
    pos: int,
) -> Seq<char>
    decreases segs.len() - k,
{
    if k < 0 || k >= segs.len() {
        Seq::empty()
    } else {
        let key = segs[k].0;
        match segs[k].1 {
            Binding::Direct => {
                let obj = entries_or_empty(dst);
                let i = entry_index(obj, key);
                let cur = if i >= 0 {
                    obj[i].1
                } else {
                    Json::Null
                };
                put_trie_err(cur, segs, k + 1, value, idx, pos)
            },
            Binding::Iterate(s, e, _) => match write_index(s, e, idx, pos) {
                None => "iteration index mismatch in reverse walk"@,
                Some((n, p2)) => if n >= usize::MAX {
                    "write index out of range"@
                } else if key.len() == 0 {
                    let items = padded(items_or_empty(dst), n + 1);
                    put_trie_err(items[n], segs, k + 1, value, idx, p2)
                } else {
                    let obj = entries_or_empty(dst);
                    let i = entry_index(obj, key);
                    let cur = if i >= 0 {
                        obj[i].1
                    } else {
                        Json::Null
                    };
                    let items = padded(items_or_empty(cur), n + 1);
                    put_trie_err(items[n], segs, k + 1, value, idx, p2)
                },
            },
            Binding::Pattern(_, _, _, _) => "IteratePattern on the write side is not supported"@,
        }
    }
}

/// The document `dst` with `value` written along the trie path `segs[k..]`.
fn put_trie_segments(
    dst: JsonValue,
    segs: &Vec<(String, BindingTaskType)>,
    k: usize,
    value: JsonValue,
    indices: &Vec<usize>,
    pos: usize,
) -> (r: Result<JsonValue, Error>)
    ensures
        match put_trie(dst@, path_models(segs@), k as int, value@, indices@, pos as int) {
            Some(d) => r matches Ok(v) && v@ == d,
            None => r matches Err(Error::Stitch(m)) && m@ == put_trie_err(
                dst@,
                path_models(segs@),
                k as int,
                value@,
                indices@,
                pos as int,
            ),
        },
    decreases segs@.len() - k, 1nat,
{
    if k >= segs.len() {
        return Ok(value);
    }
    let ghost pm = path_models(segs@);
    let key = &segs[k].0;
    assert(pm[k as int].0 == key@);
    match &segs[k].1 {
        BindingTaskType::Direct => {
            let ghost d0 = dst@;
            let mut entries = take_entries(dst);
            let ghost obj = entry_models(entries@);
            let i = find_entry(&entries, key);
            proof {
                lemma_entry_index(obj, key@);
            }
            if i < entries.len() {
                let (kk, cur) = entries.remove(i);
                assert(obj[i as int].0 == kk@ && obj[i as int].1 == cur@);
                let nv = match put_trie_segments(cur, segs, k + 1, value, indices, pos) {
                    Ok(v) => v,
                    Err(e) => return Err(e),
                };
                entries.insert(i, (kk, nv));
                assert(entry_models(entries@) =~= with_entry(obj, key@, nv@));
            } else {
                let nv = match put_trie_segments(JsonValue::Null, segs, k + 1, value, indices, pos) {
                    Ok(v) => v,
                    Err(e) => return Err(e),
                };
                entries.push((key.clone(), nv));
                assert(entry_models(entries@) =~= with_entry(obj, key@, nv@));
            }
            proof {
                lemma_object_model(entries);
            }
            Ok(JsonValue::Object(entries))
        },
        BindingTaskType::Iterate { start, end, step } => {
            let mut p = pos;
            let n = match trie_write_index(start, end, step, indices.as_slice(), &mut p) {
                Ok(n) => n,
                Err(e) => return Err(e),
            };
            if n == usize::MAX {
                return Err(Error::Stitch("write index out of range".to_string()));
            }
            if key.unicode_len() == 0 {
                put_trie_at_index(dst, n, segs, k + 1, value, indices, p)
            } else {
                let mut entries = take_entries(dst);
                let ghost obj = entry_models(entries@);
                let i = find_entry(&entries, key);
                proof {
                    lemma_entry_index(obj, key@);
                }
                if i < entries.len() {
                    let (kk, cur) = entries.remove(i);
                    assert(obj[i as int].0 == kk@ && obj[i as int].1 == cur@);
                    let nv = match put_trie_at_index(cur, n, segs, k + 1, value, indices, p) {
                        Ok(v) => v,
                        Err(e) => return Err(e),
                    };
                    entries.insert(i, (kk, nv));
                    assert(entry_models(entries@) =~= with_entry(obj, key@, nv@));
                } else {
                    let nv = match put_trie_at_index(JsonValue::Null, n, segs, k + 1, value, indices, p) {
                        Ok(v) => v,
                        Err(e) => return Err(e),
                    };
                    entries.push((key.clone(), nv));
                    assert(entry_models(entries@) =~= with_entry(obj, key@, nv@));
                }
                proof {
                    lemma_object_model(entries);
                }
                Ok(JsonValue::Object(entries))
            }
        },
        BindingTaskType::IteratePattern { .. } => Err(
            Error::Stitch("IteratePattern on the write side is not supported".to_string()),
        ),
    }
}

/// Helper of `put_trie_segments`: write into element `j` of the array `dst`
/// (padded as needed), continuing along `segs[next..]`.
fn put_trie_at_index(
    dst: JsonValue,
    j: usize,
    segs: &Vec<(String, BindingTaskType)>,
    next: usize,
    value: JsonValue,
    indices: &Vec<usize>,
    pos: usize,
) -> (r: Result<JsonValue, Error>)
    requires
        0 < next <= segs@.len(),
        j < usize::MAX,
    ensures
        ({
            let items = padded(items_or_empty(dst@), j + 1);
            match put_trie(items[j as int], path_models(segs@), next as int, value@, indices@, pos as int) {
                Some(nv) => r matches Ok(v) && v@ == Json::Array(items.update(j as int, nv)),
                None => r matches Err(Error::Stitch(m)) && m@ == put_trie_err(
                    items[j as int],
                    path_models(segs@),
                    next as int,
                    value@,
                    indices@,
                    pos as int,
                ),
            }
        }),
    decreases segs@.len() - next + 1, 0nat,
{
    let mut items = take_items_padded(dst, j + 1);
    let ghost padded_items = models(items@);
    let cur = items.remove(j);
    let nv = match put_trie_segments(cur, segs, next, value, indices, pos) {
        Ok(v) => v,
        Err(e) => return Err(e),
    };
    items.insert(j, nv);
    assert(models(items@) =~= padded_items.update(j as int, nv@));
    proof {
        lemma_array_model(items);
    }
    Ok(JsonValue::Array(items))
}


/// `dst` with each found value `results[j..]` written along the leaf's trie
/// path, in order, each with its own iteration indices.
pub open spec fn put_results(
    dst: Json,
    leaf: Leaf,
    results: Seq<(Json, Seq<usize>)>,
    j: int,
) -> Option<Json>
    decreases results.len() - j,
{
    if j < 0 || j >= results.len() {
        Some(dst)
    } else {
        match put_trie(dst, leaf.segs, 0, results[j].0, results[j].1, 0) {
            Some(d) => put_results(d, leaf, results, j + 1),
            None => None,
        }
    }
}

/// Reverse walk of `leaves[i..]`: each leaf reads its values from `src` at
/// its flat target (steps separated by `sep`) and writes them along its
/// trie path.
pub open spec fn rev_leaves(dst: Json, leaves: Seq<Leaf>, i: int, src: Json, sep: char) -> Option<Json>
    decreases leaves.len() - i,
{
    if i < 0 || i >= leaves.len() {
        Some(dst)
    } else {
        let found = extract(src, spec_target_segments(leaves[i].target, sep), 0, Seq::empty());
        match put_results(dst, leaves[i], found, 0) {
            Some(d) => rev_leaves(d, leaves, i + 1, src, sep),
            None => None,
        }
    }
}

/// The message of the first write of `results[j..]` that fails, or empty.
pub open spec fn put_results_err(
    dst: Json,
    leaf: Leaf,
    results: Seq<(Json, Seq<usize>)>,
    j: int,
) -> Seq<char>
    decreases results.len() - j,
{
    if j < 0 || j >= results.len() {
        Seq::empty()
    } else {
        match put_trie(dst, leaf.segs, 0, results[j].0, results[j].1, 0) {
            Some(d) => put_results_err(d, leaf, results, j + 1),
            None => put_trie_err(dst, leaf.segs, 0, results[j].0, results[j].1, 0),
        }
    }
}

/// The message of the first write of the reverse walk of `leaves[i..]`
/// that fails, or empty.
pub open spec fn rev_leaves_err(dst: Json, leaves: Seq<Leaf>, i: int, src: Json, sep: char) -> Seq<
    char,
>
    decreases leaves.len() - i,
{
    if i < 0 || i >= leaves.len() {
        Seq::empty()
    } else {
        let found = extract(src, spec_target_segments(leaves[i].target, sep), 0, Seq::empty());
        match put_results(dst, leaves[i], found, 0) {
            Some(d) => rev_leaves_err(d, leaves, i + 1, src, sep),
            None => put_results_err(dst, leaves[i], found, 0),
        }
    }
}

/// Reverse walk: for each leaf, read from the source at its target path and
/// write into the output along its trie path.
pub fn reverse_walk(leaves: &Vec<LeafMapping>, src: &JsonValue, dst: &mut JsonValue, read_sep: char) -> (r:
    Result<(), Error>)
    ensures
        match rev_leaves(old(dst)@, leaf_models(leaves@), 0, src@, read_sep) {
            Some(d) => r is Ok && final(dst)@ == d,
            None => r matches Err(Error::Stitch(m)) && m@ == rev_leaves_err(
                old(dst)@,
                leaf_models(leaves@),
                0,
                src@,
                read_sep,
            ),
        },
{
    let ghost lm = leaf_models(leaves@);
    let ghost d0 = dst@;
    let mut i: usize = 0;
    while i < leaves.len()
        invariant
            i <= leaves@.len(),
            lm == leaf_models(leaves@),
            d0 == old(dst)@,
            rev_leaves(d0, lm, 0, src@, read_sep) == rev_leaves(dst@, lm, i as int, src@, read_sep),
            rev_leaves_err(d0, lm, 0, src@, read_sep) == rev_leaves_err(
                dst@,
                lm,
                i as int,
                src@,
                read_sep,
            ),
        decreases leaves@.len() - i,
    {
        let leaf = &leaves[i];
        assert(lm[i as int] == leaf@);
        let read_segments = parse_target_segments(leaf.target.as_str(), read_sep);
        let mut results: Vec<(JsonValue, Vec<usize>)> = Vec::new();
        let mut scratch: Vec<usize> = Vec::new();
        assert(result_models(results@) =~= Seq::<(Json, Seq<usize>)>::empty());
        extract_values(src, &read_segments, 0, &mut scratch, &mut results);
        let ghost found = result_models(results@);
        assert(found =~= extract(src@, spec_target_segments(leaf@.target, read_sep), 0, Seq::empty()));
        let ghost d_leaf = dst@;
        let mut j: usize = 0;
        while j < results.len()
            invariant
                j <= results@.len(),
                found == result_models(results@),
                i < leaves@.len(),
                lm == leaf_models(leaves@),
                lm[i as int] == leaf@,
                d0 == old(dst)@,
                found == extract(src@, spec_target_segments(leaf@.target, read_sep), 0, Seq::empty()),
                rev_leaves(d0, lm, 0, src@, read_sep) == rev_leaves(d_leaf, lm, i as int, src@, read_sep),
                put_results(d_leaf, leaf@, found, 0) == put_results(dst@, leaf@, found, j as int),
                rev_leaves_err(d0, lm, 0, src@, read_sep) == rev_leaves_err(
                    d_leaf,
                    lm,
                    i as int,
                    src@,
                    read_sep,
                ),
                put_results_err(d_leaf, leaf@, found, 0) == put_results_err(
                    dst@,
                    leaf@,
                    found,
                    j as int,
                ),
            decreases results@.len() - j,
        {
            let mut cur = JsonValue::Null;
            core::mem::swap(dst, &mut cur);
            let value = results[j].0.duplicate();
            assert(found[j as int] == (results@[j as int].0@, results@[j as int].1@));
            match put_trie_segments(cur, &leaf.trie_segments, 0, value, &results[j].1, 0) {
                Ok(v) => {
                    *dst = v;
                },
                Err(e) => {
                    assert(rev_leaves(d_leaf, lm, i as int, src@, read_sep) is None);
                    return Err(e);
                },
            }
            j = j + 1;
        }
        i = i + 1;
    }
    Ok(())
}

/// `dst` with each constant `consts[i..]` written at its target path, in order.
pub open spec fn put_constants(dst: Json, consts: Seq<(Seq<char>, Json)>, i: int, sep: char) -> Option<
    Json,
>
    decreases consts.len() - i,
{
    if i < 0 || i >= consts.len() {
        Some(dst)
    } else {
        match put_path(dst, consts[i].0, consts[i].1, Seq::empty(), sep) {
            Some(d) => put_constants(d, consts, i + 1, sep),
            None => None,
        }
    }
}

/// Write each constant at its target path, in order.
pub fn inject_constants(dst: &mut JsonValue, constants: &Vec<(String, JsonValue)>, sep: char) -> (r:
    Result<(), Error>)
    ensures
        match put_constants(old(dst)@, entry_models(constants@), 0, sep) {
            Some(d) => r is Ok && final(dst)@ == d,
            None => r matches Err(Error::Stitch(m)) && m@ == put_constants_err(
                old(dst)@,
                entry_models(constants@),
                0,
                sep,
            ),
        },
{
    let ghost cm = entry_models(constants@);
    let ghost d0 = dst@;
    let no_indices: Vec<usize> = Vec::new();
    let mut i: usize = 0;
    while i < constants.len()
        invariant
            i <= constants@.len(),
            cm == entry_models(constants@),
            d0 == old(dst)@,
            no_indices@ == Seq::<usize>::empty(),
            put_constants(d0, cm, 0, sep) == put_constants(dst@, cm, i as int, sep),
            put_constants_err(d0, cm, 0, sep) == put_constants_err(dst@, cm, i as int, sep),
        decreases constants@.len() - i,
    {
        let value = constants[i].1.duplicate();
        assert(cm[i as int] == (constants@[i as int].0@, constants@[i as int].1@));
        match set_at_path(dst, constants[i].0.as_str(), value, no_indices.as_slice(), sep) {
            Ok(()) => {},
            Err(e) => return Err(e),
        }
        i = i + 1;
    }
    Ok(())
}


// ===========================================================================
// Stitch and unstitch
// ===========================================================================

/// The message of the first constant that cannot be written, or empty.
pub open spec fn put_constants_err(dst: Json, consts: Seq<(Seq<char>, Json)>, i: int, sep: char) -> Seq<
    char,
>
    decreases consts.len() - i,
{
    if i < 0 || i >= consts.len() {
        Seq::empty()
    } else {
        match put_path(dst, consts[i].0, consts[i].1, Seq::empty(), sep) {
            Some(d) => put_constants_err(d, consts, i + 1, sep),
            None => put_at_err(dst, spec_target_segments(consts[i].0, sep), 0, consts[i].1, Seq::empty(), 0),
        }
    }
}

/// The message of the failure of `forward_doc`, or empty.
pub open spec fn forward_doc_err(root: Trie, consts: Seq<(Seq<char>, Json)>, src: Json, sep: char) -> Seq<
    char,
> {
    let e = Json::Object(Seq::empty());
    match put_targets(e, root.targets, 0, src, Seq::empty(), sep) {
        None => put_targets_err(e, root.targets, 0, src, Seq::empty(), sep),
        Some(d1) => match fwd_children(root, 0, src, d1, Seq::empty(), sep) {
            None => fwd_children_err(root, 0, src, d1, Seq::empty(), sep),
            Some(d2) => put_constants_err(d2, consts, 0, sep),
        },
    }
}

/// The message of the failure of `reverse_doc`, or empty.
pub open spec fn reverse_doc_err(root: Trie, src: Json, sep: char) -> Seq<char> {
    rev_leaves_err(Json::Object(Seq::empty()), leaves_of(root, Seq::empty()), 0, src, sep)
}

/// The message of a failed stitch.
pub open spec fn spec_stitch_err(s: SutureModel, src: Json) -> Seq<char> {
    match s.binding {
        Capture::Request(root) => forward_doc_err(root, s.constants, src, '/'),
        Capture::Response(root) => reverse_doc_err(root, src, '.'),
    }
}

/// The message of a failed unstitch.
pub open spec fn spec_unstitch_err(s: SutureModel, src: Json) -> Seq<char> {
    match s.binding {
        Capture::Request(root) => reverse_doc_err(root, src, '/'),
        Capture::Response(root) => forward_doc_err(root, s.constants, src, '.'),
    }
}

/// The forward walk of a whole document: the root's own targets, then its
/// children, then the constants, starting from an empty object.
pub open spec fn forward_doc(root: Trie, consts: Seq<(Seq<char>, Json)>, src: Json, sep: char) -> Option<
    Json,
> {
    match put_targets(Json::Object(Seq::empty()), root.targets, 0, src, Seq::empty(), sep) {
        None => None,
        Some(d1) => match fwd_children(root, 0, src, d1, Seq::empty(), sep) {
            None => None,
            Some(d2) => put_constants(d2, consts, 0, sep),
        },
    }
}

/// The reverse walk of a whole document over the leaves of the trie,
/// starting from an empty object.
pub open spec fn reverse_doc(root: Trie, src: Json, sep: char) -> Option<Json> {
    rev_leaves(Json::Object(Seq::empty()), leaves_of(root, Seq::empty()), 0, src, sep)
}

/// What stitching `src` gives: a request suture walks its trie forward and
/// writes JSON paths (`/`); a response suture reads JSON paths (`.` on the
/// struct side) back through its trie. `None` stands for a stitch error.
pub open spec fn spec_stitch(s: SutureModel, src: Json) -> Option<Json> {
    match s.binding {
        Capture::Request(root) => forward_doc(root, s.constants, src, '/'),
        Capture::Response(root) => reverse_doc(root, src, '.'),
    }
}

/// What unstitching `src` gives: the opposite walk of `spec_stitch`.
/// `None` stands for an unstitch error.
pub open spec fn spec_unstitch(s: SutureModel, src: Json) -> Option<Json> {
    match s.binding {
        Capture::Request(root) => reverse_doc(root, src, '/'),
        Capture::Response(root) => forward_doc(root, s.constants, src, '.'),
    }
}

/// A stitch error becomes an unstitch error; any other error is kept.
pub open spec fn unstitch_error(e: Error) -> Error {
    match e {
        Error::Stitch(msg) => Error::Unstitch(msg),
        other => other,
    }
}

/// Turn a stitch error into an unstitch error, keeping its message.
pub fn stitch_to_unstitch(e: Error) -> (r: Error)
    ensures
        r == unstitch_error(e),
{
    match e {
        Error::Stitch(msg) => Error::Unstitch(msg),
        other => other,
    }
}

fn forward_document(root: &TrieNode, constants: &Vec<(String, JsonValue)>, src: &JsonValue, sep: char) -> (r:
    Result<JsonValue, Error>)
    ensures
        match forward_doc(root@, entry_models(constants@), src@, sep) {
            Some(d) => r matches Ok(v) && v@ == d,
            None => r matches Err(Error::Stitch(m)) && m@ == forward_doc_err(
                root@,
                entry_models(constants@),
                src@,
                sep,
            ),
        },
{
    let mut dst = JsonValue::empty_object();
    let mut indices: Vec<usize> = Vec::new();
    assert(indices@ =~= Seq::<usize>::empty());
    match emit_root_targets(root, src, &mut dst, &indices, sep) {
        Ok(()) => {},
        Err(e) => return Err(e),
    }
    match forward_walk(root, src, &mut dst, &mut indices, sep) {
        Ok(()) => {},
        Err(e) => return Err(e),
    }
    match inject_constants(&mut dst, constants, sep) {
        Ok(()) => {},
        Err(e) => return Err(e),
    }
    Ok(dst)
}

fn reverse_document(root: &TrieNode, src: &JsonValue, sep: char) -> (r: Result<JsonValue, Error>)
    ensures
        match reverse_doc(root@, src@, sep) {
            Some(d) => r matches Ok(v) && v@ == d,
            None => r matches Err(Error::Stitch(m)) && m@ == reverse_doc_err(root@, src@, sep),
        },
{
    let no_path: Vec<(String, BindingTaskType)> = Vec::new();
    assert(path_models(no_path@) =~= Seq::empty());
    let leaves = collect_leaves(root, no_path.as_slice());
    let mut dst = JsonValue::empty_object();
    match reverse_walk(&leaves, src, &mut dst, sep) {
        Ok(()) => Ok(dst),
        Err(e) => Err(e),
    }
}

impl Suture {
    /// Stitch a document: a request suture builds the JSON body from the
    /// struct's document; a response suture reads the JSON paths of the
    /// source and builds the struct's document.
    pub fn stitch_value(&self, input: &JsonValue) -> (r: Result<JsonValue, Error>)
        ensures
            match spec_stitch(self@, input@) {
                Some(d) => r matches Ok(v) && v@ == d,
                None => r matches Err(Error::Stitch(m)) && m@ == spec_stitch_err(self@, input@),
            },
            well_formed(input@) && values_wf(self@.constants) ==> (r matches Ok(v) ==> well_formed(
                v@,
            )),
    {
        proof {
            if well_formed(input@) && values_wf(self@.constants) {
                lemma_walks_keep_well_formed(self@, input@);
            }
        }
        match &self.binding {
            Bindings::Request(root) => forward_document(root, &self.constants, input, '/'),
            Bindings::Response(root) => reverse_document(root, input, '.'),
        }
    }

    /// Unstitch a document: the opposite walk of `stitch_value`, with its
    /// errors reported as unstitch errors.
    pub fn unstitch_value(&self, input: &JsonValue) -> (r: Result<JsonValue, Error>)
        ensures
            match spec_unstitch(self@, input@) {
                Some(d) => r matches Ok(v) && v@ == d,
                None => r matches Err(Error::Unstitch(m)) && m@ == spec_unstitch_err(self@, input@),
            },
            well_formed(input@) && values_wf(self@.constants) ==> (r matches Ok(v) ==> well_formed(
                v@,
            )),
    {
        proof {
            if well_formed(input@) && values_wf(self@.constants) {
                lemma_walks_keep_well_formed(self@, input@);
            }
        }
        let r = match &self.binding {
            Bindings::Request(root) => reverse_document(root, input, '/'),
            Bindings::Response(root) => forward_document(root, &self.constants, input, '.'),
        };
        match r {
            Ok(v) => Ok(v),
            Err(e) => Err(stitch_to_unstitch(e)),
        }
    }
}

} // verus!
