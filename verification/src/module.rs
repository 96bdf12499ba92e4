//! Module references and the module dependency graph consumed by chunking.

use vstd::prelude::*;
use vstd::seq_lib::*;

verus! {

/// Identifier of a source module: its resolved logical path, possibly
/// followed by a query string (`path?key=value&other=1`).
#[derive(Clone, Debug, PartialEq, Eq, Hash)]
pub struct ModuleId {
    pub id: String,
}

impl View for ModuleId {
    type V = Seq<char>;

    open spec fn view(&self) -> Seq<char> {
        self.id@
    }
}

impl ModuleId {
    pub fn new(id: String) -> (r: Self)
        ensures
            r@ == id@,
    {
        ModuleId { id }
    }

    /// A copy with the same id, usable wherever contracts speak of the view.
    pub fn duplicate(&self) -> (r: ModuleId)
        ensures
            r@ == self@,
    {
        ModuleId { id: self.id.clone() }
    }

    /// Identity comparison: two module references are equal iff their
    /// (path, query) string is equal.
    pub fn same_id(&self, other: &ModuleId) -> (r: bool)
        ensures
            r == (self@ == other@),
    {
        self.id == other.id
    }
}

/// Per-module data produced by the resolution stage; chunking reads only the
/// precomputed 64-bit content hash.
#[derive(Clone, Debug)]
pub struct ModuleInfo {
    pub raw_hash: u64,
}

/// How one module depends on another.
#[derive(Clone, Copy, Debug, PartialEq, Eq)]
pub enum EdgeKind {
    /// A synchronous import: the target must load with its importer.
    Sync,
    /// A dynamic import: the target starts a chunk of its own, loaded on demand.
    DynamicImport,
    /// A worker spawn: the target is the root of a separate execution context.
    Worker,
}

/// One outgoing dependency edge of a module, in source declaration order.
#[derive(Clone, Debug)]
pub struct Dep {
    pub target: ModuleId,
    pub kind: EdgeKind,
}

/// A resolved module: its identity, its precomputed content hash (if the
/// resolution stage supplied one), and its dependency edges in declaration
/// order.
#[derive(Clone, Debug)]
pub struct Module {
    pub id: ModuleId,
    pub info: Option<ModuleInfo>,
    pub deps: Vec<Dep>,
}


/// The targets of a module's synchronous import edges, in declaration order.
pub open spec fn sync_targets(deps: Seq<Dep>) -> Seq<Seq<char>>
    decreases deps.len(),
{
    if deps.len() == 0 {
        Seq::empty()
    } else {
        sync_targets(deps.drop_last()) + (if deps.last().kind is Sync {
            seq![deps.last().target@]
        } else {
            Seq::empty()
        })
    }
}

/// The id views of a sequence of module references.
pub open spec fn ids_of(v: Seq<ModuleId>) -> Seq<Seq<char>> {
    v.map_values(|m: ModuleId| m@)
}

/// No id occurs twice in the sequence.
pub open spec fn no_dup(s: Seq<Seq<char>>) -> bool {
    forall|i: int, j: int| 0 <= i < j < s.len() ==> s[i] != s[j]
}

/// Removing the first occurrence of a value from a duplicate-free sequence
/// leaves a duplicate-free sequence that no longer contains the value.
pub proof fn lemma_remove_value_no_dup(s: Seq<Seq<char>>, v: Seq<char>)
    requires
        no_dup(s),
    ensures
        no_dup(s.remove_value(v)),
        !s.remove_value(v).contains(v),
        s.contains(v) ==> s.remove_value(v).len() == s.len() - 1,
        !s.contains(v) ==> s.remove_value(v) == s,
{
    s.index_of_first_ensures(v);
    match s.index_of_first(v) {
        Some(i) => {
            let t = s.remove(i);
            assert forall|k: int| 0 <= k < t.len() implies t[k] != v by {
                if k < i {
                    assert(t[k] == s[k]);
                } else {
                    assert(t[k] == s[k + 1]);
                }
            }
            assert forall|a: int, b: int| 0 <= a < b < t.len() implies t[a] != t[b] by {
                if b < i {
                    assert(t[a] == s[a] && t[b] == s[b]);
                } else if a >= i {
                    assert(t[a] == s[a + 1] && t[b] == s[b + 1]);
                } else {
                    assert(t[a] == s[a] && t[b] == s[b + 1]);
                }
            }
        },
        None => {},
    }
}

} // verus!
