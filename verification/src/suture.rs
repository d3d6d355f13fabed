//! A compiled suture and its mapping trie.
use vstd::prelude::*;
use crate::json::{Json, JsonValue};

verus! {

/// A validated suture: one suture set, compiled and ready to operate.
#[derive(Debug)]
pub struct Suture {
    pub id: Option<String>,
    pub name: String,
    pub description: Option<String>,
    pub version: Option<String>,
    pub binding: Bindings,
    pub constants: Vec<(String, JsonValue)>,
}

/// Compiled mapping trie, varying by capture direction.
///
/// - **Request**: the trie follows struct-side paths, targets are JSON-side.
/// - **Response**: the trie follows JSON-side paths, targets are struct-side.
#[derive(Debug)]
pub enum Bindings {
    Request(TrieNode),
    Response(TrieNode),
}

/// A node in the compiled mapping trie: how to traverse (`binding`), where
/// to write the current value (`targets`), and what lies below (`children`).
///
/// A single index `[N]` is compiled as `Iterate { start: N, end: N+1, step: 1 }`.
#[derive(Debug)]
pub struct TrieNode {
    pub key: String,
    pub binding: BindingTaskType,
    pub targets: Vec<String>,
    pub children: Vec<TrieNode>,
}

#[derive(Debug, PartialEq, Eq)]
pub enum BindingTaskType {
    /// Direct key lookup.
    Direct,
    /// Iterate an array with an optional pythonic slice range.
    Iterate { start: Option<i64>, end: Option<i64>, step: Option<i64> },
    /// Iterate the keys matching a regex pattern, with an optional range.
    IteratePattern { pattern: String, start: Option<i64>, end: Option<i64>, step: Option<i64> },
}

// ===========================================================================
// Models
// ===========================================================================

/// The model of a binding.
pub enum Binding {
    Direct,
    Iterate(Option<i64>, Option<i64>, Option<i64>),
    Pattern(Seq<char>, Option<i64>, Option<i64>, Option<i64>),
}

/// The model of a trie node.
pub struct Trie {
    pub key: Seq<char>,
    pub binding: Binding,
    pub targets: Seq<Seq<char>>,
    pub children: Seq<Trie>,
}

/// The model of a compiled binding.
pub enum Capture {
    Request(Trie),
    Response(Trie),
}

/// The model of a suture.
pub struct SutureModel {
    pub id: Option<Seq<char>>,
    pub name: Seq<char>,
    pub description: Option<Seq<char>>,
    pub version: Option<Seq<char>>,
    pub binding: Capture,
    pub constants: Seq<(Seq<char>, Json)>,
}

pub open spec fn binding_of(b: BindingTaskType) -> Binding {
    match b {
        BindingTaskType::Direct => Binding::Direct,
        BindingTaskType::Iterate { start, end, step } => Binding::Iterate(start, end, step),
        BindingTaskType::IteratePattern { pattern, start, end, step } => Binding::Pattern(
            pattern@,
            start,
            end,
            step,
        ),
    }
}

impl View for BindingTaskType {
    type V = Binding;

    open spec fn view(&self) -> Binding {
        binding_of(*self)
    }
}

pub open spec fn strings(s: Seq<String>) -> Seq<Seq<char>> {
    Seq::new(s.len(), |i: int| s[i]@)
}

pub open spec fn trie_of(n: TrieNode) -> Trie
    decreases n,
{
    Trie {
        key: n.key@,
        binding: binding_of(n.binding),
        targets: strings(n.targets@),
        children: Seq::new(
            n.children@.len(),
            |i: int|
                if 0 <= i < n.children@.len() {
                    trie_of(n.children@[i])
                } else {
                    Trie {
                        key: Seq::empty(),
                        binding: Binding::Direct,
                        targets: Seq::empty(),
                        children: Seq::empty(),
                    }
                },
        ),
    }
}

impl View for TrieNode {
    type V = Trie;

    open spec fn view(&self) -> Trie {
        trie_of(*self)
    }
}

pub open spec fn tries(s: Seq<TrieNode>) -> Seq<Trie> {
    Seq::new(s.len(), |i: int| trie_of(s[i]))
}

pub proof fn lemma_trie_children(n: TrieNode)
    ensures
        trie_of(n).children == tries(n.children@),
        trie_of(n).key == n.key@,
        trie_of(n).binding == binding_of(n.binding),
        trie_of(n).targets == strings(n.targets@),
{
    let t = trie_of(n);
    assert(t.children =~= tries(n.children@));
}

impl View for Bindings {
    type V = Capture;

    open spec fn view(&self) -> Capture {
        match self {
            Bindings::Request(root) => Capture::Request(root@),
            Bindings::Response(root) => Capture::Response(root@),
        }
    }
}

pub open spec fn opt_string(o: Option<String>) -> Option<Seq<char>> {
    match o {
        Some(s) => Some(s@),
        None => None,
    }
}

impl View for Suture {
    type V = SutureModel;

    open spec fn view(&self) -> SutureModel {
        SutureModel {
            id: opt_string(self.id),
            name: self.name@,
            description: opt_string(self.description),
            version: opt_string(self.version),
            binding: self.binding@,
            constants: crate::json::entry_models(self.constants@),
        }
    }
}

/// The text a suture displays as: `name@version (id)`, leaving out the parts
/// that are not set.
pub open spec fn display_text(s: SutureModel) -> Seq<char> {
    match (s.id, s.version) {
        (Some(id), Some(v)) => s.name + "@"@ + v + " ("@ + id + ")"@,
        (Some(id), None) => s.name + " ("@ + id + ")"@,
        (None, Some(v)) => s.name + "@"@ + v,
        (None, None) => s.name,
    }
}

// ===========================================================================
// Accessors
// ===========================================================================

fn opt_str(o: &Option<String>) -> (r: Option<&str>)
    ensures
        match r {
            Some(s) => opt_string(*o) == Some(s@),
            None => o is None,
        },
{
    match o {
        Some(s) => Some(s.as_str()),
        None => None,
    }
}

impl Suture {
    /// Returns the suture's id, if one was set.
    pub fn id(&self) -> (r: Option<&str>)
        ensures
            match r {
                Some(s) => self@.id == Some(s@),
                None => self@.id is None,
            },
    {
        opt_str(&self.id)
    }

    /// Returns the suture's name.
    pub fn name(&self) -> (r: &str)
        ensures
            r@ == self@.name,
    {
        self.name.as_str()
    }

    /// Returns the description, if one was set.
    pub fn description(&self) -> (r: Option<&str>)
        ensures
            match r {
                Some(s) => self@.description == Some(s@),
                None => self@.description is None,
            },
    {
        opt_str(&self.description)
    }

    /// Returns the version, if one was set.
    pub fn version(&self) -> (r: Option<&str>)
        ensures
            match r {
                Some(s) => self@.version == Some(s@),
                None => self@.version is None,
            },
    {
        opt_str(&self.version)
    }

    /// Returns a reference to the compiled binding.
    pub fn binding(&self) -> (r: &Bindings)
        ensures
            r@ == self@.binding,
    {
        &self.binding
    }

    /// Returns the constants injected after the mappings, in order.
    pub fn constants(&self) -> (r: &Vec<(String, JsonValue)>)
        ensures
            crate::json::entry_models(r@) == self@.constants,
    {
        &self.constants
    }

    /// True when the binding captures the request direction (struct → JSON).
    pub fn is_request(&self) -> (r: bool)
        ensures
            r == (self@.binding is Request),
    {
        match self.binding {
            Bindings::Request(_) => true,
            Bindings::Response(_) => false,
        }
    }

    /// True when the binding captures the response direction (JSON → struct).
    pub fn is_response(&self) -> (r: bool)
        ensures
            r == (self@.binding is Response),
    {
        match self.binding {
            Bindings::Request(_) => false,
            Bindings::Response(_) => true,
        }
    }

    /// The text the suture displays as: `name@version (id)`, leaving out the
    /// parts that are not set.
    pub fn display(&self) -> (r: String)
        ensures
            r@ == display_text(self@),
    {
        let mut out = self.name.clone();
        match (&self.id, &self.version) {
            (Some(id), Some(v)) => {
                out.append("@");
                out.append(v.as_str());
                out.append(" (");
                out.append(id.as_str());
                out.append(")");
            },
            (Some(id), None) => {
                out.append(" (");
                out.append(id.as_str());
                out.append(")");
            },
            (None, Some(v)) => {
                out.append("@");
                out.append(v.as_str());
            },
            (None, None) => {},
        }
        out
    }
}

impl BindingTaskType {
    /// A copy of the binding with the same model.
    pub fn duplicate(&self) -> (r: BindingTaskType)
        ensures
            r@ == self@,
    {
        match self {
            BindingTaskType::Direct => BindingTaskType::Direct,
            BindingTaskType::Iterate { start, end, step } => BindingTaskType::Iterate {
                start: *start,
                end: *end,
                step: *step,
            },
            BindingTaskType::IteratePattern { pattern, start, end, step } => {
                BindingTaskType::IteratePattern {
                    pattern: pattern.clone(),
                    start: *start,
                    end: *end,
                    step: *step,
                }
            },
        }
    }
}

impl TrieNode {
    /// The key this node matches on the read side.
    pub fn key(&self) -> (r: &str)
        ensures
            r@ == self@.key,
    {
        proof {
            lemma_trie_children(*self);
        }
        self.key.as_str()
    }

    /// How the node traverses the value under its key.
    pub fn binding(&self) -> (r: &BindingTaskType)
        ensures
            r@ == self@.binding,
    {
        proof {
            lemma_trie_children(*self);
        }
        &self.binding
    }

    /// Where the current value is written.
    pub fn targets(&self) -> (r: &Vec<String>)
        ensures
            strings(r@) == self@.targets,
    {
        proof {
            lemma_trie_children(*self);
        }
        &self.targets
    }

    /// The nodes below this one.
    pub fn children(&self) -> (r: &Vec<TrieNode>)
        ensures
            tries(r@) == self@.children,
    {
        proof {
            lemma_trie_children(*self);
        }
        &self.children
    }
}

} // verus!
