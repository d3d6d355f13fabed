//! The JSON documents that sutures read and write.
//!
//! `JsonValue` is the executable document; `Json` is its mathematical model.
//! Objects keep their entries in order; a key is looked up at its first
//! occurrence, and writing a key that is absent appends it.
//!
//! An object is held as a list of entries rather than as a `serde_json::Map`:
//! the walks read and write objects key by key and must be proved, and a map
//! of an outside crate would be opaque to Verus. The order of entries matters
//! in two places: a pattern step selects the matching keys in entry order,
//! and a suture object is compiled in entry order. A document decoded through
//! `serde_json` (as the application layer does) carries the order of
//! `serde_json::Map`, which sorts its keys; a document built by hand carries
//! the order it was built in, and only there can the results differ from
//! those on a `serde_json::Value`. Keys that occur twice are not produced by
//! that decoding; the first occurrence is the one read. A document with no
//! key twice in any object is `well_formed` (module `wellformed`), and the
//! walks keep it so.
use vstd::prelude::*;

verus! {

/// A JSON document.
#[derive(Debug, PartialEq)]
pub enum JsonValue {
    Null,
    Bool(bool),
    /// A number, held as its JSON literal text (`42`, `-1.5e3`).
    Number(String),
    String(String),
    Array(Vec<JsonValue>),
    Object(Vec<(String, JsonValue)>),
}

/// The model of a JSON document.
pub enum Json {
    Null,
    Bool(bool),
    Number(Seq<char>),
    Str(Seq<char>),
    Array(Seq<Json>),
    Object(Seq<(Seq<char>, Json)>),
}

/// The model of one document.
pub open spec fn model_of(v: JsonValue) -> Json
    decreases v,
{
    match v {
        JsonValue::Null => Json::Null,
        JsonValue::Bool(b) => Json::Bool(b),
        JsonValue::Number(n) => Json::Number(n@),
        JsonValue::String(s) => Json::Str(s@),
        JsonValue::Array(items) => Json::Array(
            Seq::new(
                items@.len(),
                |i: int|
                    if 0 <= i < items@.len() {
                        model_of(items@[i])
                    } else {
                        Json::Null
                    },
            ),
        ),
        JsonValue::Object(entries) => Json::Object(
            Seq::new(
                entries@.len(),
                |i: int|
                    if 0 <= i < entries@.len() {
                        (entries@[i].0@, model_of(entries@[i].1))
                    } else {
                        (Seq::empty(), Json::Null)
                    },
            ),
        ),
    }
}

impl View for JsonValue {
    type V = Json;

    open spec fn view(&self) -> Json {
        model_of(*self)
    }
}

/// The models of a sequence of documents.
pub open spec fn models(s: Seq<JsonValue>) -> Seq<Json> {
    Seq::new(s.len(), |i: int| model_of(s[i]))
}

/// The models of a sequence of object entries.
pub open spec fn entry_models(s: Seq<(String, JsonValue)>) -> Seq<(Seq<char>, Json)> {
    Seq::new(s.len(), |i: int| (s[i].0@, model_of(s[i].1)))
}

pub proof fn lemma_array_model(items: Vec<JsonValue>)
    ensures
        model_of(JsonValue::Array(items)) == Json::Array(models(items@)),
{
    let m = model_of(JsonValue::Array(items));
    assert(m is Array);
    assert(models(items@) =~= m->Array_0);
    assert(models(items@) =~= Seq::new(
        items@.len(),
        |i: int|
            if 0 <= i < items@.len() {
                model_of(items@[i])
            } else {
                Json::Null
            },
    ));
}

pub proof fn lemma_object_model(entries: Vec<(String, JsonValue)>)
    ensures
        model_of(JsonValue::Object(entries)) == Json::Object(entry_models(entries@)),
{
    let m = model_of(JsonValue::Object(entries));
    assert(m is Object);
    assert(entry_models(entries@) =~= m->Object_0);
    assert(entry_models(entries@) =~= Seq::new(
        entries@.len(),
        |i: int|
            if 0 <= i < entries@.len() {
                (entries@[i].0@, model_of(entries@[i].1))
            } else {
                (Seq::empty(), Json::Null)
            },
    ));
}

/// Index of the first entry with key `k`, or -1.
pub open spec fn entry_index(entries: Seq<(Seq<char>, Json)>, k: Seq<char>) -> int
    decreases entries.len(),
{
    if entries.len() == 0 {
        -1
    } else {
        let i = entry_index(entries.drop_last(), k);
        if i >= 0 {
            i
        } else if entries.last().0 == k {
            entries.len() - 1
        } else {
            -1
        }
    }
}

pub proof fn lemma_entry_index(entries: Seq<(Seq<char>, Json)>, k: Seq<char>)
    ensures
        -1 <= entry_index(entries, k) < entries.len(),
        entry_index(entries, k) >= 0 ==> entries[entry_index(entries, k)].0 == k,
        forall|j: int|
            0 <= j < entries.len() && (entry_index(entries, k) < 0 || j < entry_index(entries, k))
                ==> #[trigger] entries[j].0 != k,
    decreases entries.len(),
{
    if entries.len() > 0 {
        lemma_entry_index(entries.drop_last(), k);
        assert forall|j: int|
            0 <= j < entries.len() && (entry_index(entries, k) < 0 || j < entry_index(entries, k))
                implies #[trigger] entries[j].0 != k by {
            if j < entries.len() - 1 {
                assert(entries.drop_last()[j] == entries[j]);
            }
        }
        if entry_index(entries.drop_last(), k) >= 0 {
            assert(entries.drop_last()[entry_index(entries.drop_last(), k)] == entries[entry_index(
                entries,
                k,
            )]);
        }
    }
}

/// The value under key `k` in an object model, if any.
pub open spec fn lookup(j: Json, k: Seq<char>) -> Option<Json> {
    match j {
        Json::Object(entries) => if entry_index(entries, k) >= 0 {
            Some(entries[entry_index(entries, k)].1)
        } else {
            None
        },
        _ => None,
    }
}

/// The element at position `i` of an array model, if any.
pub open spec fn element(j: Json, i: int) -> Option<Json> {
    match j {
        Json::Array(items) => if 0 <= i < items.len() {
            Some(items[i])
        } else {
            None
        },
        _ => None,
    }
}

/// The entries of `j` when it is an object, else no entries.
pub open spec fn entries_or_empty(j: Json) -> Seq<(Seq<char>, Json)> {
    match j {
        Json::Object(entries) => entries,
        _ => Seq::empty(),
    }
}

/// The items of `j` when it is an array, else no items.
pub open spec fn items_or_empty(j: Json) -> Seq<Json> {
    match j {
        Json::Array(items) => items,
        _ => Seq::empty(),
    }
}

/// `items` padded with nulls up to length `n`.
pub open spec fn padded(items: Seq<Json>, n: int) -> Seq<Json> {
    if items.len() >= n {
        items
    } else {
        items + Seq::new((n - items.len()) as nat, |i: int| Json::Null)
    }
}

/// `entries` with key `k` set to `v`: the first entry with that key is
/// replaced, or a new entry is appended.
pub open spec fn with_entry(entries: Seq<(Seq<char>, Json)>, k: Seq<char>, v: Json) -> Seq<
    (Seq<char>, Json),
> {
    if entry_index(entries, k) >= 0 {
        entries.update(entry_index(entries, k), (k, v))
    } else {
        entries.push((k, v))
    }
}

/// The number of nodes of a document.
pub open spec fn jsize(j: Json) -> nat
    decreases j, 0int,
{
    match j {
        Json::Array(items) => 1 + items_size(items, items.len() as int),
        Json::Object(entries) => 1 + entries_size(entries, entries.len() as int),
        _ => 1,
    }
}

/// The number of nodes of the documents `items[..n]`.
pub open spec fn items_size(items: Seq<Json>, n: int) -> nat
    decreases items, n,
{
    if n <= 0 || n > items.len() {
        0
    } else {
        proof {
            assert(decreases_to!(items => items[n - 1]));
        }
        items_size(items, n - 1) + jsize(items[n - 1])
    }
}

/// The number of nodes of the values of `entries[..n]`.
pub open spec fn entries_size(entries: Seq<(Seq<char>, Json)>, n: int) -> nat
    decreases entries, n,
{
    if n <= 0 || n > entries.len() {
        0
    } else {
        proof {
            assert(decreases_to!(entries => entries[n - 1]));
            assert(decreases_to!(entries[n - 1] => entries[n - 1].1));
        }
        entries_size(entries, n - 1) + jsize(entries[n - 1].1)
    }
}

/// The number of nodes of the values of all entries.
pub open spec fn values_size(entries: Seq<(Seq<char>, Json)>) -> nat {
    entries_size(entries, entries.len() as int)
}

proof fn lemma_entries_size_prefix(a: Seq<(Seq<char>, Json)>, b: Seq<(Seq<char>, Json)>, n: int)
    requires
        0 <= n <= a.len(),
        a.len() <= b.len(),
        forall|i: int| 0 <= i < a.len() ==> a[i] == b[i],
    ensures
        entries_size(a, n) == entries_size(b, n),
    decreases n,
{
    if n > 0 {
        lemma_entries_size_prefix(a, b, n - 1);
    }
}

/// The size of a concatenation is the sum of the sizes.
pub proof fn lemma_values_size_concat(a: Seq<(Seq<char>, Json)>, b: Seq<(Seq<char>, Json)>)
    ensures
        values_size(a + b) == values_size(a) + values_size(b),
    decreases b.len(),
{
    if b.len() == 0 {
        assert(a + b =~= a);
    } else {
        let b1 = b.drop_last();
        lemma_values_size_concat(a, b1);
        assert((a + b).drop_last() =~= a + b1);
        lemma_entries_size_prefix(a + b1, a + b, (a + b1).len() as int);
        lemma_entries_size_prefix(b1, b, b1.len() as int);
    }
}

/// The size of a sequence is that of its first entry plus that of the rest.
pub proof fn lemma_values_size_front(q: Seq<(Seq<char>, Json)>)
    requires
        q.len() > 0,
    ensures
        values_size(q) == jsize(q[0].1) + values_size(q.drop_first()),
{
    lemma_values_size_concat(seq![q[0]], q.drop_first());
    assert(seq![q[0]] + q.drop_first() =~= q);
    assert(entries_size(seq![q[0]], 0) == 0);
}

impl JsonValue {
    /// A copy of the document with the same model.
    #[verifier::loop_isolation(false)]
    pub fn duplicate(&self) -> (r: JsonValue)
        ensures
            r@ == self@,
        decreases self,
    {
        match self {
            JsonValue::Null => JsonValue::Null,
            JsonValue::Bool(b) => JsonValue::Bool(*b),
            JsonValue::Number(n) => JsonValue::Number(n.clone()),
            JsonValue::String(s) => JsonValue::String(s.clone()),
            JsonValue::Array(items) => {
                let mut out: Vec<JsonValue> = Vec::new();
                let mut i: usize = 0;
                while i < items.len()
                    invariant
                        i <= items@.len(),
                        out@.len() == i,
                        forall|j: int| 0 <= j < i ==> model_of(#[trigger] out@[j]) == model_of(
                            items@[j],
                        ),
                    decreases items@.len() - i,
                {
                    proof {
                        assert(decreases_to!(items@ => items@[i as int]));
                        assert(decreases_to!(*items => items@));
                        assert(decreases_to!(*self => (*self)->Array_0));
                        assert(decreases_to!(*self => items@[i as int]));
                    }
                    let c = items[i].duplicate();
                    out.push(c);
                    i = i + 1;
                }
                proof {
                    lemma_array_model(*items);
                    lemma_array_model(out);
                    assert(models(out@) =~= models(items@));
                }
                JsonValue::Array(out)
            },
            JsonValue::Object(entries) => {
                let mut out: Vec<(String, JsonValue)> = Vec::new();
                let mut i: usize = 0;
                while i < entries.len()
                    invariant
                        i <= entries@.len(),
                        out@.len() == i,
                        forall|j: int|
                            0 <= j < i ==> (#[trigger] out@[j]).0@ == entries@[j].0@ && model_of(
                                out@[j].1,
                            ) == model_of(entries@[j].1),
                    decreases entries@.len() - i,
                {
                    let k = entries[i].0.clone();
                    proof {
                        assert(decreases_to!(entries@[i as int] => entries@[i as int].1));
                        assert(decreases_to!(entries@ => entries@[i as int]));
                        assert(decreases_to!(*entries => entries@));
                        assert(decreases_to!(*self => (*self)->Object_0));
                        assert(decreases_to!(*self => entries@[i as int].1));
                    }
                    let c = entries[i].1.duplicate();
                    out.push((k, c));
                    i = i + 1;
                }
                proof {
                    lemma_object_model(*entries);
                    lemma_object_model(out);
                    assert(entry_models(out@) =~= entry_models(entries@));
                }
                JsonValue::Object(out)
            },
        }
    }

    /// An empty object.
    pub fn empty_object() -> (r: JsonValue)
        ensures
            r@ == Json::Object(Seq::empty()),
    {
        let v: Vec<(String, JsonValue)> = Vec::new();
        proof {
            lemma_object_model(v);
            assert(entry_models(v@) =~= Seq::empty());
        }
        JsonValue::Object(v)
    }
}

} // verus!
