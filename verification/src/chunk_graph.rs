//! The finalized output of grouping: the set of chunks keyed by id plus the
//! directed loads-before edges between chunk ids.

use vstd::prelude::*;
use crate::chunk::Chunk;
use crate::module::ModuleId;
use crate::module::no_dup;
use crate::module::ids_of;
use crate::module::sync_targets;
use crate::module_graph::ModuleGraph;
use crate::chunk::ChunkType;
use vstd::multiset::Multiset;

verus! {

/// The chunk ids, in creation order.
pub open spec fn chunk_ids_of(chunks: Seq<Chunk>) -> Seq<Seq<char>> {
    chunks.map_values(|c: Chunk| c.id@)
}

/// Some chunk holds the module.
pub open spec fn assigned_in(chunks: Seq<Chunk>, id: Seq<char>) -> bool {
    exists|i: int| 0 <= i < chunks.len() && #[trigger] chunks[i].members().contains(id)
}

pub open spec fn all_wf_in(chunks: Seq<Chunk>) -> bool {
    forall|i: int| 0 <= i < chunks.len() ==> (#[trigger] chunks[i]).wf()
}

/// No module sits in two chunks.
pub open spec fn disjoint_in(chunks: Seq<Chunk>) -> bool {
    forall|i: int, j: int, id: Seq<char>|
        0 <= i < j < chunks.len() ==> !(#[trigger] chunks[i].members().contains(id)
            && #[trigger] chunks[j].members().contains(id))
}

/// Every chunk member is a module of the graph.
pub open spec fn members_in_graph(g: &ModuleGraph, chunks: Seq<Chunk>) -> bool {
    forall|i: int, id: Seq<char>|
        0 <= i < chunks.len() && #[trigger] chunks[i].members().contains(id)
            ==> g.contains_id(id)
}

/// Closure under synchronous edges: every synchronous dependency of an
/// assigned module is itself assigned to some chunk.
pub open spec fn sync_closed_in(g: &ModuleGraph, chunks: Seq<Chunk>) -> bool {
    forall|i: int, id: Seq<char>, d: Seq<char>|
        0 <= i < chunks.len() && #[trigger] chunks[i].members().contains(id)
            && g.contains_id(id)
            && #[trigger] sync_targets(g.module_for(id).deps@).contains(d)
            ==> assigned_in(chunks, d)
}

pub struct ChunkGraph {
    pub chunks: Vec<Chunk>,
    /// A directed edge (a, b): chunk `a` depends on chunk `b`; `b` must
    /// load before `a`.
    pub edges: Vec<(ModuleId, ModuleId)>,
}

impl ChunkGraph {
    pub open spec fn chunk_ids(&self) -> Seq<Seq<char>> {
        chunk_ids_of(self.chunks@)
    }

    pub open spec fn edge_views(&self) -> Seq<(Seq<char>, Seq<char>)> {
        edge_views_of(self.edges@)
    }

    pub open spec fn has_edge(&self, a: Seq<char>, b: Seq<char>) -> bool {
        self.edge_views().contains((a, b))
    }

    /// Well-formed: chunk ids unique, every chunk duplicate-free, every edge
    /// between existing chunks.
    pub open spec fn wf(&self) -> bool {
        &&& no_dup(self.chunk_ids())
        &&& all_wf_in(self.chunks@)
        &&& forall|k: int| 0 <= k < self.edge_views().len()
            ==> self.chunk_ids().contains((#[trigger] self.edge_views()[k]).0)
                && self.chunk_ids().contains(self.edge_views()[k].1)
    }

    pub open spec fn contains_chunk(&self, id: Seq<char>) -> bool {
        self.chunk_ids().contains(id)
    }

    pub open spec fn chunk_for(&self, id: Seq<char>) -> Chunk {
        self.chunks@[choose|i: int|
            0 <= i < self.chunks@.len() && self.chunks@[i].id@ == id]
    }

    /// Some chunk of the graph holds the module.
    pub open spec fn assigned(&self, id: Seq<char>) -> bool {
        assigned_in(self.chunks@, id)
    }

    pub fn new() -> (r: Self)
        ensures
            r.chunks@ == Seq::<Chunk>::empty(),
            r.edges@ == Seq::<(ModuleId, ModuleId)>::empty(),
            r.wf(),
    {
        let r = ChunkGraph { chunks: Vec::new(), edges: Vec::new() };
        proof {
            assert(r.chunk_ids() =~= Seq::<Seq<char>>::empty());
            assert(r.edge_views() =~= Seq::<(Seq<char>, Seq<char>)>::empty());
        }
        r
    }

    /// Looks a chunk up by id.
    pub fn chunk(&self, id: &ModuleId) -> (r: Option<&Chunk>)
        requires
            self.wf(),
        ensures
            match r {
                Some(c) => self.contains_chunk(id@) && *c == self.chunk_for(id@),
                None => !self.contains_chunk(id@),
            },
    {
        let n = self.chunks.len();
        let mut i: usize = 0;
        while i < n
            invariant
                self.wf(),
                i <= n,
                n == self.chunks@.len(),
                forall|j: int| 0 <= j < i ==> self.chunk_ids()[j] != id@,
            decreases n - i,
        {
            if self.chunks[i].id.same_id(id) {
                proof {
                    assert(self.chunk_ids()[i as int] == id@);
                    let j = choose|j: int|
                        0 <= j < self.chunks@.len() && self.chunks@[j].id@ == id@;
                    if j != i {
                        assert(self.chunk_ids()[j] == self.chunk_ids()[i as int]);
                        assert(false);
                    }
                }
                return Some(&self.chunks[i]);
            }
            i += 1;
        }
        proof {
            if self.contains_chunk(id@) {
                let j = choose|j: int|
                    0 <= j < self.chunk_ids().len() && self.chunk_ids()[j] == id@;
                assert(false);
            }
        }
        None
    }

    pub fn chunk_count(&self) -> (r: usize)
        ensures
            r == self.chunks@.len(),
    {
        self.chunks.len()
    }

    /// The chunks themselves, in creation order.
    pub fn get_chunks(&self) -> (r: &Vec<Chunk>)
        ensures
            *r == self.chunks,
    {
        &self.chunks
    }

    /// Whether any chunk holds the module.
    pub fn any_chunk_has(&self, m: &ModuleId) -> (r: bool)
        ensures
            r == self.assigned(m@),
    {
        any_member(&self.chunks, m)
    }

    /// The ids a chunk directly depends on (its loads-before targets), in
    /// edge creation order.
    pub fn dependencies_of(&self, id: &ModuleId) -> (r: Vec<ModuleId>)
        ensures
            ids_of(r@) == dep_targets(self.edge_views(), id@),
    {
        let ghost ev = self.edge_views();
        let mut r: Vec<ModuleId> = Vec::new();
        let n = self.edges.len();
        let mut i: usize = 0;
        proof {
            assert(ids_of(r@) =~= dep_targets(ev.take(0), id@));
        }
        while i < n
            invariant
                i <= n,
                n == self.edges@.len(),
                ev == self.edge_views(),
                ids_of(r@) == dep_targets(ev.take(i as int), id@),
            decreases n - i,
        {
            let ghost pre = ids_of(r@);
            if self.edges[i].0.same_id(id) {
                r.push(self.edges[i].1.duplicate());
                proof {
                    assert(ids_of(r@) =~= pre.push(ev[i as int].1));
                }
            }
            proof {
                assert(ev.take(i + 1).drop_last() =~= ev.take(i as int));
                assert(ev.take(i + 1).last() == ev[i as int]);
                assert(ids_of(r@) =~= dep_targets(ev.take(i + 1), id@));
            }
            i += 1;
        }
        proof {
            assert(ev.take(n as int) =~= ev);
        }
        r
    }
}

/// The endpoint ids of the edge list.
pub open spec fn edge_views_of(es: Seq<(ModuleId, ModuleId)>) -> Seq<(Seq<char>, Seq<char>)> {
    es.map_values(|e: (ModuleId, ModuleId)| (e.0@, e.1@))
}

/// Whether the edge list already holds the edge (a, b).
pub fn edge_present(es: &Vec<(ModuleId, ModuleId)>, a: &ModuleId, b: &ModuleId) -> (r: bool)
    ensures
        r == edge_views_of(es@).contains((a@, b@)),
{
    let n = es.len();
    let mut i: usize = 0;
    while i < n
        invariant
            i <= n,
            n == es@.len(),
            forall|j: int| 0 <= j < i ==> edge_views_of(es@)[j] != (a@, b@),
        decreases n - i,
    {
        if es[i].0.same_id(a) && es[i].1.same_id(b) {
            proof {
                assert(edge_views_of(es@)[i as int] == (a@, b@));
            }
            return true;
        }
        i += 1;
    }
    proof {
        if edge_views_of(es@).contains((a@, b@)) {
            let j = choose|j: int|
                0 <= j < edge_views_of(es@).len() && edge_views_of(es@)[j] == (a@, b@);
            assert(false);
        }
    }
    false
}

/// The edge targets out of `a`, in edge order.
pub open spec fn dep_targets(es: Seq<(Seq<char>, Seq<char>)>, a: Seq<char>) -> Seq<Seq<char>>
    decreases es.len(),
{
    if es.len() == 0 {
        Seq::empty()
    } else {
        dep_targets(es.drop_last(), a) + (if es.last().0 == a {
            seq![es.last().1]
        } else {
            Seq::empty()
        })
    }
}

/// Whether any chunk of the list holds the module.
pub fn any_member(chunks: &Vec<Chunk>, m: &ModuleId) -> (r: bool)
    ensures
        r == assigned_in(chunks@, m@),
{
    let n = chunks.len();
    let mut i: usize = 0;
    while i < n
        invariant
            i <= n,
            n == chunks@.len(),
            forall|j: int| 0 <= j < i ==> !(#[trigger] chunks@[j].members().contains(m@)),
        decreases n - i,
    {
        if chunks[i].has_module(m) {
            return true;
        }
        i += 1;
    }
    false
}

/// Whether a chunk with the given id is in the list.
pub fn id_present(chunks: &Vec<Chunk>, id: &ModuleId) -> (r: bool)
    ensures
        r == chunk_ids_of(chunks@).contains(id@),
{
    let n = chunks.len();
    let mut i: usize = 0;
    while i < n
        invariant
            i <= n,
            n == chunks@.len(),
            forall|j: int| 0 <= j < i ==> chunk_ids_of(chunks@)[j] != id@,
        decreases n - i,
    {
        if chunks[i].id.same_id(id) {
            proof {
                assert(chunk_ids_of(chunks@)[i as int] == id@);
            }
            return true;
        }
        i += 1;
    }
    proof {
        if chunk_ids_of(chunks@).contains(id@) {
            let j = choose|j: int|
                0 <= j < chunk_ids_of(chunks@).len() && chunk_ids_of(chunks@)[j] == id@;
            assert(false);
        }
    }
    false
}

/// The chunk is loaded on demand; a loads-before cycle among such chunks
/// has no legal emission order.
pub open spec fn is_split_chunk(c: Chunk) -> bool {
    c.chunk_type is Async || c.chunk_type matches ChunkType::Worker(_)
}

/// The ids of the on-demand (Async and Worker) chunks, in creation order.
pub open spec fn split_ids_of(chunks: Seq<Chunk>) -> Seq<Seq<char>>
    decreases chunks.len(),
{
    if chunks.len() == 0 {
        Seq::empty()
    } else {
        split_ids_of(chunks.drop_last()) + (if is_split_chunk(chunks.last()) {
            seq![chunks.last().id@]
        } else {
            Seq::empty()
        })
    }
}

/// Every split-chunk dependency of `id` (an edge out of `id` into the split
/// set) is already in `done`.
pub open spec fn ready_in(
    es: Seq<(Seq<char>, Seq<char>)>,
    splits: Seq<Seq<char>>,
    id: Seq<char>,
    done: Seq<Seq<char>>,
) -> bool {
    forall|k: int| 0 <= k < es.len() && (#[trigger] es[k]).0 == id && splits.contains(es[k].1)
        ==> done.contains(es[k].1)
}

/// Some edge out of `id` points back into `set`.
pub open spec fn depends_within(
    es: Seq<(Seq<char>, Seq<char>)>,
    set: Seq<Seq<char>>,
    id: Seq<char>,
) -> bool {
    exists|k: int| 0 <= k < es.len() && (#[trigger] es[k]).0 == id && set.contains(es[k].1)
}

/// Whether the list holds a reference with this id.
pub fn id_in_vec(v: &Vec<ModuleId>, id: &ModuleId) -> (r: bool)
    ensures
        r == ids_of(v@).contains(id@),
{
    let n = v.len();
    let mut i: usize = 0;
    while i < n
        invariant
            i <= n,
            n == v@.len(),
            forall|j: int| 0 <= j < i ==> ids_of(v@)[j] != id@,
        decreases n - i,
    {
        if v[i].same_id(id) {
            proof {
                assert(ids_of(v@)[i as int] == id@);
            }
            return true;
        }
        i += 1;
    }
    proof {
        if ids_of(v@).contains(id@) {
            let j = choose|j: int| 0 <= j < ids_of(v@).len() && ids_of(v@)[j] == id@;
            assert(false);
        }
    }
    false
}

impl ChunkGraph {
    /// The ids of the on-demand chunks, as a vector.
    pub fn split_chunk_ids(&self) -> (r: Vec<ModuleId>)
        ensures
            ids_of(r@) == split_ids_of(self.chunks@),
    {
        let mut r: Vec<ModuleId> = Vec::new();
        let n = self.chunks.len();
        let mut i: usize = 0;
        proof {
            assert(ids_of(r@) =~= split_ids_of(self.chunks@.take(0)));
        }
        while i < n
            invariant
                i <= n,
                n == self.chunks@.len(),
                ids_of(r@) == split_ids_of(self.chunks@.take(i as int)),
            decreases n - i,
        {
            let ghost pre = ids_of(r@);
            let is_split = match &self.chunks[i].chunk_type {
                ChunkType::Async => true,
                ChunkType::Worker(_) => true,
                _ => false,
            };
            if is_split {
                r.push(self.chunks[i].id.duplicate());
                proof {
                    assert(ids_of(r@) =~= pre.push(self.chunks@[i as int].id@));
                }
            }
            proof {
                assert(self.chunks@.take(i + 1).drop_last() =~= self.chunks@.take(i as int));
                assert(self.chunks@.take(i + 1).last() == self.chunks@[i as int]);
                assert(ids_of(r@) =~= split_ids_of(self.chunks@.take(i + 1)));
            }
            i += 1;
        }
        proof {
            assert(self.chunks@.take(n as int) =~= self.chunks@);
        }
        r
    }

    /// Whether every split-chunk dependency of `id` is already in `done`.
    fn is_ready(&self, splits: &Vec<ModuleId>, id: &ModuleId, done: &Vec<ModuleId>) -> (r:
        bool)
        ensures
            r == ready_in(self.edge_views(), ids_of(splits@), id@, ids_of(done@)),
    {
        let n = self.edges.len();
        let mut k: usize = 0;
        while k < n
            invariant
                k <= n,
                n == self.edges@.len(),
                forall|j: int| 0 <= j < k && (#[trigger] self.edge_views()[j]).0 == id@
                    && ids_of(splits@).contains(self.edge_views()[j].1)
                    ==> ids_of(done@).contains(self.edge_views()[j].1),
            decreases n - k,
        {
            if self.edges[k].0.same_id(id) {
                if id_in_vec(splits, &self.edges[k].1) {
                    if !id_in_vec(done, &self.edges[k].1) {
                        proof {
                            assert((self.edge_views()[k as int]).0 == id@);
                            assert(!ids_of(done@).contains(self.edge_views()[k as int].1));
                        }
                        return false;
                    }
                }
            }
            k += 1;
        }
        true
    }

    /// An emission order for the on-demand chunks: each chunk comes after
    /// every split chunk it depends on. When a loads-before cycle makes
    /// that impossible — a structural error — the ids still unordered are
    /// returned instead; every one of them depends on another of them.
    pub fn load_order(&self) -> (r: Result<Vec<ModuleId>, Vec<ModuleId>>)
        ensures
            match r {
                Ok(order) => {
                    &&& ids_of(order@).to_multiset() == split_ids_of(
                        self.chunks@).to_multiset()
                    &&& forall|x: int| 0 <= x < order@.len() ==> ready_in(self.edge_views(),
                        split_ids_of(self.chunks@), #[trigger] ids_of(order@)[x],
                        ids_of(order@).take(x))
                },
                Err(rem) => {
                    &&& ids_of(rem@).len() > 0
                    &&& forall|x: int| 0 <= x < rem@.len() ==> split_ids_of(
                        self.chunks@).contains(#[trigger] ids_of(rem@)[x])
                    &&& forall|x: int| 0 <= x < rem@.len() ==> depends_within(
                        self.edge_views(), ids_of(rem@), #[trigger] ids_of(rem@)[x])
                },
            },
    {
        broadcast use vstd::seq_lib::group_to_multiset_ensures;
        broadcast use vstd::multiset::group_multiset_axioms;

        let ghost splits_g = split_ids_of(self.chunks@);
        let splits = self.split_chunk_ids();
        let mut remaining = self.split_chunk_ids();
        let mut order: Vec<ModuleId> = Vec::new();
        proof {
            assert(ids_of(order@) =~= Seq::<Seq<char>>::empty());
            assert(ids_of(order@).to_multiset().add(ids_of(remaining@).to_multiset())
                =~= splits_g.to_multiset());
        }
        while remaining.len() > 0
            invariant
                splits_g == split_ids_of(self.chunks@),
                ids_of(splits@) == splits_g,
                ids_of(order@).to_multiset().add(ids_of(remaining@).to_multiset())
                    == splits_g.to_multiset(),
                forall|x: int| 0 <= x < order@.len() ==> ready_in(self.edge_views(),
                    splits_g, #[trigger] ids_of(order@)[x], ids_of(order@).take(x)),
            decreases remaining@.len(),
        {
            let nr = remaining.len();
            let mut found: Option<usize> = None;
            let mut ri: usize = 0;
            while ri < nr
                invariant
                    ri <= nr,
                    nr == remaining@.len(),
                    ids_of(splits@) == splits_g,
                    match found {
                        Some(i) => i < nr && ready_in(self.edge_views(), splits_g,
                            ids_of(remaining@)[i as int], ids_of(order@)),
                        None => forall|x: int| 0 <= x < ri ==> !ready_in(self.edge_views(),
                            splits_g, #[trigger] ids_of(remaining@)[x], ids_of(order@)),
                    },
                decreases nr - ri,
            {
                if found.is_none() {
                    if self.is_ready(&splits, &remaining[ri], &order) {
                        found = Some(ri);
                    }
                }
                ri += 1;
            }
            match found {
                Some(i) => {
                    let ghost rem0 = ids_of(remaining@);
                    let ghost ord0 = ids_of(order@);
                    let m = remaining.remove(i);
                    order.push(m);
                    proof {
                        assert(ids_of(remaining@) =~= rem0.remove(i as int));
                        assert(ids_of(order@) =~= ord0.push(rem0[i as int]));
                        vstd::seq_lib::to_multiset_remove(rem0, i as int);
                        vstd::seq_lib::to_multiset_build(ord0, rem0[i as int]);
                        assert(rem0.contains(rem0[i as int]));
                        vstd::seq_lib::to_multiset_contains(rem0, rem0[i as int]);
                        assert(ids_of(order@).to_multiset().add(
                            ids_of(remaining@).to_multiset()) =~= splits_g.to_multiset());
                        assert forall|x: int| 0 <= x < order@.len() implies ready_in(
                            self.edge_views(), splits_g, #[trigger] ids_of(order@)[x],
                            ids_of(order@).take(x)) by {
                            if x < ord0.len() {
                                assert(ids_of(order@)[x] == ord0[x]);
                                assert(ids_of(order@).take(x) =~= ord0.take(x));
                            } else {
                                assert(ids_of(order@)[x] == rem0[i as int]);
                                assert(ids_of(order@).take(x) =~= ord0);
                            }
                        }
                    }
                },
                None => {
                    proof {
                        broadcast use vstd::seq_lib::group_to_multiset_ensures;
                        broadcast use vstd::multiset::group_multiset_axioms;
                        assert(ids_of(remaining@).len() > 0);
                        assert forall|x: int| 0 <= x < remaining@.len() implies
                            split_ids_of(self.chunks@).contains(
                            #[trigger] ids_of(remaining@)[x]) by {
                            let id = ids_of(remaining@)[x];
                            assert(ids_of(remaining@).contains(id));
                            vstd::seq_lib::to_multiset_contains(ids_of(remaining@), id);
                            assert(ids_of(remaining@).to_multiset().count(id) > 0);
                            assert(ids_of(order@).to_multiset().add(
                                ids_of(remaining@).to_multiset()).count(id)
                                == ids_of(order@).to_multiset().count(id)
                                    + ids_of(remaining@).to_multiset().count(id));
                            assert(splits_g.to_multiset().count(id) > 0);
                            vstd::seq_lib::to_multiset_contains(splits_g, id);
                            assert(splits_g.contains(id));
                        }
                        assert forall|x: int| 0 <= x < remaining@.len() implies depends_within(
                            self.edge_views(), ids_of(remaining@),
                            #[trigger] ids_of(remaining@)[x]) by {
                            let id = ids_of(remaining@)[x];
                            assert(!ready_in(self.edge_views(), splits_g, id,
                                ids_of(order@)));
                            let k = choose|k: int| 0 <= k < self.edge_views().len()
                                && (#[trigger] self.edge_views()[k]).0 == id
                                && splits_g.contains(self.edge_views()[k].1)
                                && !ids_of(order@).contains(self.edge_views()[k].1);
                            let t = self.edge_views()[k].1;
                            vstd::seq_lib::to_multiset_contains(splits_g, t);
                            vstd::seq_lib::to_multiset_contains(ids_of(order@), t);
                            vstd::seq_lib::to_multiset_contains(ids_of(remaining@), t);
                            assert(ids_of(order@).to_multiset().add(
                                ids_of(remaining@).to_multiset()).count(t)
                                == ids_of(order@).to_multiset().count(t)
                                    + ids_of(remaining@).to_multiset().count(t));
                            assert(ids_of(remaining@).contains(t));
                        }
                    }
                    return Err(remaining);
                },
            }
        }
        proof {
            assert(ids_of(remaining@) =~= Seq::<Seq<char>>::empty());
            assert(ids_of(remaining@).to_multiset() =~= Multiset::<Seq<char>>::empty());
            assert(ids_of(order@).to_multiset() =~= splits_g.to_multiset());
        }
        Ok(order)
    }
}

} // verus!
