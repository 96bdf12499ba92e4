//! The chunk grouping algorithm: breadth-first traversal of the module
//! graph from the entry points in caller order, filling one chunk per entry
//! and one per split boundary (dynamic import or worker spawn), with a
//! loads-before edge recorded at every split.

use vstd::prelude::*;
use crate::module::ModuleId;
use crate::module::EdgeKind;
use crate::module::no_dup;
use crate::module::ids_of;
use crate::module::sync_targets;
use crate::module_graph::ModuleGraph;
use crate::chunk::Chunk;
use crate::chunk::ChunkType;
use crate::chunk_graph::ChunkGraph;
use crate::chunk_graph::chunk_ids_of;
use crate::chunk_graph::assigned_in;
use crate::chunk_graph::all_wf_in;
use crate::chunk_graph::disjoint_in;
use crate::chunk_graph::members_in_graph;
use crate::chunk_graph::sync_closed_in;
use crate::chunk_graph::any_member;
use crate::chunk_graph::id_present;
use crate::chunk_graph::edge_views_of;
use crate::chunk_graph::edge_present;
use vstd::pervasive::unreached;

verus! {

/// A grouping failure, surfaced before any chunk is built.
#[derive(Debug, Clone, PartialEq, Eq)]
pub enum GroupError {
    /// An entry point whose module is not in the module graph.
    EntryNotFound(ModuleId),
    /// A module named as an entry point more than once.
    DuplicateEntry(ModuleId),
}

/// The entry module ids, in caller order.
pub open spec fn entry_ids(entries: Seq<(ModuleId, String)>) -> Seq<Seq<char>> {
    entries.map_values(|e: (ModuleId, String)| e.0@)
}

/// A duplicate-free sequence of graph module ids is no longer than the graph.
proof fn lemma_card_bound(ids: Seq<Seq<char>>, g: &ModuleGraph)
    requires
        no_dup(ids),
        forall|x: int| 0 <= x < ids.len() ==> g.contains_id(#[trigger] ids[x]),
    ensures
        ids.len() <= g.module_ids().len(),
{
    broadcast use vstd::seq_lib::seq_to_set_is_finite;
    broadcast use vstd::set::group_set_axioms;

    assert(ids.no_duplicates());
    ids.unique_seq_to_set();
    g.module_ids().lemma_cardinality_of_set();
    assert(ids.to_set().subset_of(g.module_ids().to_set()));
    vstd::set_lib::lemma_len_subset(ids.to_set(), g.module_ids().to_set());
}

/// Breadth-first walk of the synchronous edges out of `root`, filling the
/// fresh chunk `ck`. A module already assigned — to an earlier chunk, or to
/// `ck` itself when the graph has a cycle — is not re-traversed, so the walk
/// terminates on any graph. Dynamic-import and worker edges are not
/// followed; they are appended to `pending` as split points.
fn bfs_build(
    g: &ModuleGraph,
    chunks: &Vec<Chunk>,
    pending: &mut Vec<(ModuleId, EdgeKind, ModuleId)>,
    ck: Chunk,
    root: &ModuleId,
) -> (r: Chunk)
    requires
        g.wf(),
        g.fully_resolved(),
        g.contains_id(root@),
        ck.wf(),
        ck.members() == Seq::<Seq<char>>::empty(),
    ensures
        r.id == ck.id,
        r.chunk_type == ck.chunk_type,
        r.wf(),
        forall|id: Seq<char>| #[trigger] r.members().contains(id)
            ==> g.contains_id(id) && !assigned_in(chunks@, id),
        assigned_in(chunks@, root@) || r.members().contains(root@),
        forall|id: Seq<char>, d: Seq<char>| #[trigger] r.members().contains(id)
            && #[trigger] sync_targets(g.module_for(id).deps@).contains(d)
            ==> assigned_in(chunks@, d) || r.members().contains(d),
        final(pending)@.len() >= old(pending)@.len(),
        final(pending)@.take(old(pending)@.len() as int) == old(pending)@,
        forall|x: int| old(pending)@.len() <= x < final(pending)@.len()
            ==> g.contains_id((#[trigger] final(pending)@[x]).0@)
                && final(pending)@[x].2@ == ck.id@,
{
    let ghost ck0 = ck;
    let ghost p0 = pending@;
    let mut ck = ck;
    let mut queue: Vec<ModuleId> = Vec::new();
    queue.push(root.duplicate());
    proof {
        assert(ids_of(queue@) =~= seq![root@]);
        assert(ids_of(queue@)[0] == root@);
        assert(ids_of(queue@).contains(root@));
    }
    while queue.len() > 0
        invariant
            g.wf(),
            g.fully_resolved(),
            g.contains_id(root@),
            ck.id == ck0.id,
            ck.chunk_type == ck0.chunk_type,
            ck.wf(),
            forall|id: Seq<char>| #[trigger] ck.members().contains(id)
                ==> g.contains_id(id) && !assigned_in(chunks@, id),
            forall|x: int| 0 <= x < queue@.len() ==> g.contains_id((#[trigger] queue@[x])@),
            assigned_in(chunks@, root@) || ck.members().contains(root@)
                || ids_of(queue@).contains(root@),
            forall|id: Seq<char>, d: Seq<char>| #[trigger] ck.members().contains(id)
                && #[trigger] sync_targets(g.module_for(id).deps@).contains(d)
                ==> assigned_in(chunks@, d) || ck.members().contains(d)
                    || ids_of(queue@).contains(d),
            pending@.len() >= p0.len(),
            pending@.take(p0.len() as int) == p0,
            forall|x: int| p0.len() <= x < pending@.len()
                ==> g.contains_id((#[trigger] pending@[x]).0@) && pending@[x].2@ == ck0.id@,
        decreases
            g.module_ids().len() - ck.members().len(),
            queue@.len(),
    {
        proof {
            assert forall|x: int| 0 <= x < ck.members().len() implies g.contains_id(
                #[trigger] ck.members()[x]) by {
                assert(ck.members().contains(ck.members()[x]));
            }
            lemma_card_bound(ck.members(), g);
        }
        let ghost q0 = ids_of(queue@);
        let m = queue.remove(0);
        proof {
            assert(ids_of(queue@) =~= q0.drop_first());
            assert(m@ == q0[0]);
        }
        let in_prev = any_member(chunks, &m);
        let in_self = ck.has_module(&m);
        if !in_prev && !in_self {
            let ghost mem0 = ck.members();
            ck.add_module(m.duplicate());
            proof {
                mem0.index_of_first_ensures(m@);
                assert(mem0.remove_value(m@) == mem0);
                assert(ck.members() == mem0.push(m@));
            }
            let mm = match g.get_module(&m) {
                Some(x) => x,
                None => unreached(),
            };
            proof {
                // pin the module's position so fully_resolved applies to it
                let w = choose|w: int|
                    0 <= w < g.modules@.len() && g.modules@[w].id@ == m@;
                assert(g.module_ids()[w] == m@);
                assert(g.modules@[w] == g.module_for(m@));
                assert forall|j: int| 0 <= j < mm.deps@.len() implies g.contains_id(
                    #[trigger] mm.deps@[j].target@) by {
                    assert(g.contains_id(g.modules@[w].deps@[j].target@));
                }
            }
            let ghost q1 = ids_of(queue@);
            let ghost p1 = pending@;
            let nd = mm.deps.len();
            let mut di: usize = 0;
            while di < nd
                invariant
                    di <= nd,
                    nd == mm.deps@.len(),
                    forall|j: int| 0 <= j < mm.deps@.len() ==> g.contains_id(
                        #[trigger] mm.deps@[j].target@),
                    ids_of(queue@) == q1 + sync_targets(mm.deps@.take(di as int)),
                    pending@.len() >= p1.len(),
                    pending@.take(p1.len() as int) == p1,
                    forall|x: int| p1.len() <= x < pending@.len()
                        ==> g.contains_id((#[trigger] pending@[x]).0@)
                            && pending@[x].2@ == ck0.id@,
                    forall|x: int| 0 <= x < queue@.len() ==> g.contains_id(
                        (#[trigger] queue@[x])@),
                    ck.id == ck0.id,
                decreases nd - di,
            {
                let ghost qpre = ids_of(queue@);
                let ghost ppre = pending@;
                let dep = &mm.deps[di];
                match dep.kind {
                    EdgeKind::Sync => {
                        queue.push(dep.target.duplicate());
                        proof {
                            assert(ids_of(queue@) =~= qpre.push(dep.target@));
                        }
                    },
                    _ => {
                        pending.push((dep.target.duplicate(), dep.kind, ck.id.duplicate()));
                        proof {
                            assert(pending@.take(p1.len() as int) =~= ppre.take(p1.len() as int));
                        }
                    },
                }
                proof {
                    assert(mm.deps@.take(di + 1).drop_last() =~= mm.deps@.take(di as int));
                    assert(mm.deps@.take(di + 1).last() == mm.deps@[di as int]);
                    if mm.deps@[di as int].kind is Sync {
                        assert(sync_targets(mm.deps@.take(di + 1)) =~= sync_targets(
                            mm.deps@.take(di as int)) + seq![mm.deps@[di as int].target@]);
                        assert(ids_of(queue@) =~= q1 + sync_targets(mm.deps@.take(di + 1)));
                    } else {
                        assert(sync_targets(mm.deps@.take(di + 1)) =~= sync_targets(
                            mm.deps@.take(di as int)));
                        assert(ids_of(queue@) =~= q1 + sync_targets(mm.deps@.take(di + 1)));
                    }
                }
                di += 1;
            }
            proof {
                assert(mm.deps@.take(nd as int) =~= mm.deps@);
                assert(ids_of(queue@) == q1 + sync_targets(g.module_for(m@).deps@));
                assert(ck.members()[mem0.len() as int] == m@);
                assert(ck.members().contains(m@));
                assert forall|id: Seq<char>| mem0.contains(id)
                    implies #[trigger] ck.members().contains(id) by {
                    let kk = choose|kk: int| 0 <= kk < mem0.len() && mem0[kk] == id;
                    assert(ck.members()[kk] == id);
                }
                // the new member's missing dependencies are all in the queue;
                // everyone else's were already covered, up to the removed head
                assert forall|id: Seq<char>, d: Seq<char>| #[trigger] ck.members().contains(id)
                    && #[trigger] sync_targets(g.module_for(id).deps@).contains(d)
                    implies assigned_in(chunks@, d) || ck.members().contains(d)
                        || ids_of(queue@).contains(d) by {
                    if id == m@ {
                        let k = choose|k: int| 0 <= k
                            < sync_targets(g.module_for(m@).deps@).len()
                            && sync_targets(g.module_for(m@).deps@)[k] == d;
                        assert(ids_of(queue@)[q1.len() + k] == d);
                        assert(ids_of(queue@).contains(d));
                    } else {
                        let kk = choose|kk: int|
                            0 <= kk < ck.members().len() && ck.members()[kk] == id;
                        assert(kk < mem0.len());
                        assert(mem0[kk] == id);
                        assert(mem0.contains(id));
                        if !assigned_in(chunks@, d) && !ck.members().contains(d) {
                            assert(!mem0.contains(d));
                            assert(q0.contains(d));
                            let k = choose|k: int| 0 <= k < q0.len() && q0[k] == d;
                            if k == 0 {
                                assert(d == m@);
                                assert(false);
                            } else {
                                assert(q1[k - 1] == d);
                                assert(ids_of(queue@)[k - 1] == d);
                                assert(ids_of(queue@).contains(d));
                            }
                        }
                    }
                }
                // all members are graph modules not assigned elsewhere
                assert forall|id: Seq<char>| #[trigger] ck.members().contains(id)
                    implies g.contains_id(id) && !assigned_in(chunks@, id) by {
                    let k = choose|k: int|
                        0 <= k < ck.members().len() && ck.members()[k] == id;
                    if k < mem0.len() {
                        assert(mem0[k] == id);
                        assert(mem0.contains(id));
                    } else {
                        assert(id == m@);
                    }
                }
                // root stays covered
                if !assigned_in(chunks@, root@) && !ck.members().contains(root@) {
                    assert(!mem0.contains(root@));
                    assert(q0.contains(root@));
                    let k = choose|k: int| 0 <= k < q0.len() && q0[k] == root@;
                    assert(k > 0);
                    assert(q1[k - 1] == root@);
                    assert(ids_of(queue@)[k - 1] == root@);
                    assert(ids_of(queue@).contains(root@));
                }
                // the pending prefix facts carry over the inner loop
                assert(pending@.take(p0.len() as int) =~= p1.take(p0.len() as int));
                assert forall|x: int| p0.len() <= x < pending@.len() implies g.contains_id(
                    (#[trigger] pending@[x]).0@) && pending@[x].2@ == ck0.id@ by {
                    if x < p1.len() {
                        assert(pending@[x] == pending@.take(p1.len() as int)[x]);
                        assert(pending@[x] == p1[x]);
                    }
                }
                assert forall|x: int| 0 <= x < ck.members().len() implies g.contains_id(
                    #[trigger] ck.members()[x]) by {
                    assert(ck.members().contains(ck.members()[x]));
                }
                lemma_card_bound(ck.members(), g);
            }
        } else {
            proof {
                // the skipped head was already covered; everything else in
                // the queue only moved one slot forward
                assert forall|id: Seq<char>, d: Seq<char>| #[trigger] ck.members().contains(id)
                    && #[trigger] sync_targets(g.module_for(id).deps@).contains(d)
                    implies assigned_in(chunks@, d) || ck.members().contains(d)
                        || ids_of(queue@).contains(d) by {
                    if !assigned_in(chunks@, d) && !ck.members().contains(d) {
                        assert(q0.contains(d));
                        let k = choose|k: int| 0 <= k < q0.len() && q0[k] == d;
                        if k == 0 {
                            assert(d == m@);
                            assert(in_prev || in_self);
                            assert(false);
                        } else {
                            assert(0 <= k - 1 < ids_of(queue@).len());
                            assert(ids_of(queue@)[k - 1] == d);
                            assert(ids_of(queue@).contains(d));
                        }
                    }
                }
                if !assigned_in(chunks@, root@) && !ck.members().contains(root@) {
                    let k = choose|k: int| 0 <= k < q0.len() && q0[k] == root@;
                    if k == 0 {
                        assert(root@ == m@);
                        assert(false);
                    } else {
                        assert(ids_of(queue@)[k - 1] == root@);
                    }
                }
            }
        }
    }
    proof {
        assert(ids_of(queue@).len() == 0);
    }
    ck
}

/// Chunk `c` is the Entry chunk for entry point `ent`.
pub open spec fn is_entry_chunk_for(c: Chunk, ent: (ModuleId, String)) -> bool {
    &&& c.id@ == ent.0@
    &&& c.chunk_type matches ChunkType::Entry(m, n, sh) && m@ == ent.0@ && n@ == ent.1@
        && sh == false
}

/// Converts the module graph plus the caller-ordered entry points into a
/// chunk graph: one Entry chunk per entry point, filled by a breadth-first
/// walk of the synchronous edges; then one Async or Worker chunk per split
/// point discovered, in discovery order, each with a loads-before edge from
/// the chunk that crossed the split. A module already placed in a chunk is
/// never placed again, so every reached module ends in exactly one chunk.
/// Configuration errors — an entry point missing from the graph, or named
/// twice — are surfaced before grouping begins.
pub fn group_chunks(g: &ModuleGraph, entries: &Vec<(ModuleId, String)>) -> (r: Result<
    ChunkGraph,
    GroupError,
>)
    requires
        g.wf(),
        g.fully_resolved(),
    ensures
        match r {
            Ok(cg) => {
                &&& cg.wf()
                &&& disjoint_in(cg.chunks@)
                &&& members_in_graph(g, cg.chunks@)
                &&& sync_closed_in(g, cg.chunks@)
                &&& forall|k: int| 0 <= k < entries@.len() ==> cg.assigned(
                    #[trigger] entry_ids(entries@)[k])
                &&& entries@.len() <= cg.chunks@.len()
                &&& forall|k: int| 0 <= k < entries@.len() ==> is_entry_chunk_for(
                    cg.chunks@[k], #[trigger] entries@[k])
            },
            Err(GroupError::EntryNotFound(m)) => !g.contains_id(m@) && entry_ids(
                entries@,
            ).contains(m@),
            Err(GroupError::DuplicateEntry(m)) => !no_dup(entry_ids(entries@)) && entry_ids(
                entries@,
            ).contains(m@),
        },
        r is Ok <==> (no_dup(entry_ids(entries@)) && (forall|k: int|
            0 <= k < entries@.len() ==> g.contains_id(#[trigger] entry_ids(entries@)[k]))),
{
    let ne = entries.len();
    let mut a: usize = 0;
    while a < ne
        invariant
            a <= ne,
            ne == entries@.len(),
            g.wf(),
            forall|x: int| 0 <= x < a ==> g.contains_id(#[trigger] entry_ids(entries@)[x]),
        decreases ne - a,
    {
        let got = g.get_module(&entries[a].0);
        if got.is_none() {
            proof {
                assert(entry_ids(entries@)[a as int] == entries@[a as int].0@);
                assert(entry_ids(entries@).contains(entries@[a as int].0@));
            }
            return Err(GroupError::EntryNotFound(entries[a].0.duplicate()));
        }
        a += 1;
    }
    let mut a: usize = 0;
    while a < ne
        invariant
            a <= ne,
            ne == entries@.len(),
            g.wf(),
            forall|x: int, y: int| 0 <= x < y < ne && x < a
                ==> #[trigger] entry_ids(entries@)[x] != #[trigger] entry_ids(entries@)[y],
        decreases ne - a,
    {
        let mut b = a + 1;
        while b < ne
            invariant
                a < b <= ne,
                ne == entries@.len(),
                g.wf(),
                forall|y: int| a < y < b
                    ==> entry_ids(entries@)[a as int] != #[trigger] entry_ids(entries@)[y],
            decreases ne - b,
        {
            if entries[a].0.same_id(&entries[b].0) {
                proof {
                    assert(entry_ids(entries@)[a as int] == entry_ids(entries@)[b as int]);
                    assert(!no_dup(entry_ids(entries@)));
                    assert(entry_ids(entries@).contains(entries@[b as int].0@));
                }
                return Err(GroupError::DuplicateEntry(entries[b].0.duplicate()));
            }
            b += 1;
        }
        a += 1;
    }
    proof {
        assert(no_dup(entry_ids(entries@)));
    }

    let mut chunks: Vec<Chunk> = Vec::new();
    let mut edges: Vec<(ModuleId, ModuleId)> = Vec::new();
    let mut pending: Vec<(ModuleId, EdgeKind, ModuleId)> = Vec::new();
    let mut e: usize = 0;
    proof {
        assert(chunk_ids_of(chunks@) =~= entry_ids(entries@).take(0));
    }
    while e < ne
        invariant
            e <= ne,
            ne == entries@.len(),
            g.wf(),
            g.fully_resolved(),
            no_dup(entry_ids(entries@)),
            forall|x: int| 0 <= x < ne ==> g.contains_id(#[trigger] entry_ids(entries@)[x]),
            chunk_ids_of(chunks@) == entry_ids(entries@).take(e as int),
            all_wf_in(chunks@),
            disjoint_in(chunks@),
            members_in_graph(g, chunks@),
            sync_closed_in(g, chunks@),
            forall|x: int| 0 <= x < e ==> assigned_in(chunks@,
                #[trigger] entry_ids(entries@)[x]),
            chunks@.len() == e,
            forall|x: int| 0 <= x < e ==> is_entry_chunk_for(chunks@[x],
                #[trigger] entries@[x]),
            forall|x: int| 0 <= x < pending@.len() ==> g.contains_id(
                (#[trigger] pending@[x]).0@) && chunk_ids_of(chunks@).contains(
                pending@[x].2@),
            edges@.len() == 0,
        decreases ne - e,
    {
        let eid = entries[e].0.duplicate();
        let ename = entries[e].1.clone();
        proof {
            assert(eid@ == entry_ids(entries@)[e as int]);
        }
        let nk = Chunk::new(eid.duplicate(), ChunkType::Entry(eid.duplicate(), ename, false));
        let ghost c0 = chunks@;
        let ghost pb = pending@;
        let ck = bfs_build(g, &chunks, &mut pending, nk, &eid);
        chunks.push(ck);
        proof {
            assert(chunk_ids_of(chunks@) =~= chunk_ids_of(c0).push(eid@));
            assert(entry_ids(entries@).take(e + 1).drop_last() =~= entry_ids(
                entries@).take(e as int));
            assert(entry_ids(entries@).take(e + 1).last() == entry_ids(entries@)[e as int]);
            assert(chunk_ids_of(chunks@) =~= entry_ids(entries@).take(e + 1));
            let n0 = c0.len() as int;
            assert(chunks@[n0] == ck);
            assert forall|id: Seq<char>| assigned_in(c0, id) implies assigned_in(chunks@,
                id) by {
                let i = choose|i: int| 0 <= i < c0.len() && c0[i].members().contains(id);
                assert(chunks@[i].members().contains(id));
            }
            // the new chunk holds only modules no other chunk holds
            assert forall|i: int, j: int, id: Seq<char>| 0 <= i < j < chunks@.len()
                implies !(#[trigger] chunks@[i].members().contains(id)
                    && #[trigger] chunks@[j].members().contains(id)) by {
                if j == n0 {
                    if chunks@[i].members().contains(id) && chunks@[j].members().contains(id) {
                        assert(assigned_in(c0, id));
                        assert(!assigned_in(c0, id));
                    }
                }
            }
            // closure carries over: old members were closed in c0, new ones
            // are closed up to c0-assignment or the new chunk itself
            assert forall|i: int, id: Seq<char>, d: Seq<char>| 0 <= i < chunks@.len()
                && #[trigger] chunks@[i].members().contains(id) && g.contains_id(id)
                && #[trigger] sync_targets(g.module_for(id).deps@).contains(d)
                implies assigned_in(chunks@, d) by {
                if i < n0 {
                    assert(assigned_in(c0, d));
                    let w = choose|w: int| 0 <= w < c0.len() && c0[w].members().contains(d);
                    assert(chunks@[w].members().contains(d));
                } else {
                    assert(ck.members().contains(id));
                    if assigned_in(c0, d) {
                        let w = choose|w: int|
                            0 <= w < c0.len() && c0[w].members().contains(d);
                        assert(chunks@[w].members().contains(d));
                    } else {
                        assert(ck.members().contains(d));
                        assert(chunks@[n0].members().contains(d));
                    }
                }
            }
            // the new entry point is now assigned
            assert forall|x: int| 0 <= x < e + 1 implies assigned_in(chunks@,
                #[trigger] entry_ids(entries@)[x]) by {
                if x < e {
                    let i = choose|i: int|
                        0 <= i < c0.len() && c0[i].members().contains(entry_ids(entries@)[x]);
                    assert(chunks@[i].members().contains(entry_ids(entries@)[x]));
                } else {
                    if assigned_in(c0, eid@) {
                        let i = choose|i: int|
                            0 <= i < c0.len() && c0[i].members().contains(eid@);
                        assert(chunks@[i].members().contains(eid@));
                    } else {
                        assert(ck.members().contains(eid@));
                        assert(chunks@[n0].members().contains(eid@));
                    }
                }
            }
            assert(is_entry_chunk_for(chunks@[n0], entries@[e as int]));
            // pending: old items keep their home chunk, new ones point at the
            // entry chunk just pushed
            assert forall|x: int| 0 <= x < pending@.len() implies g.contains_id(
                (#[trigger] pending@[x]).0@) && chunk_ids_of(chunks@).contains(
                pending@[x].2@) by {
                if x < pb.len() {
                    assert(pending@[x] == pending@.take(pb.len() as int)[x]);
                    assert(pending@[x] == pb[x]);
                    let w = choose|w: int|
                        0 <= w < chunk_ids_of(c0).len() && chunk_ids_of(c0)[w] == pb[x].2@;
                    assert(chunk_ids_of(chunks@)[w] == pb[x].2@);
                } else {
                    assert(pending@[x].2@ == eid@);
                    assert(chunk_ids_of(chunks@)[n0] == eid@);
                }
            }
        }
        e += 1;
    }

    let mut pi: usize = 0;
    while pi < pending.len()
        invariant
            pi <= pending@.len(),
            g.wf(),
            g.fully_resolved(),
            ne == entries@.len(),
            no_dup(chunk_ids_of(chunks@)),
            forall|x: int| 0 <= x < chunks@.len() ==> g.contains_id(
                #[trigger] chunk_ids_of(chunks@)[x]),
            all_wf_in(chunks@),
            disjoint_in(chunks@),
            members_in_graph(g, chunks@),
            sync_closed_in(g, chunks@),
            forall|x: int| 0 <= x < ne ==> assigned_in(chunks@,
                #[trigger] entry_ids(entries@)[x]),
            ne <= chunks@.len(),
            forall|x: int| 0 <= x < ne ==> is_entry_chunk_for(chunks@[x],
                #[trigger] entries@[x]),
            forall|x: int| 0 <= x < pending@.len() ==> g.contains_id(
                (#[trigger] pending@[x]).0@) && chunk_ids_of(chunks@).contains(
                pending@[x].2@),
            forall|k: int| 0 <= k < edge_views_of(edges@).len()
                ==> chunk_ids_of(chunks@).contains((#[trigger] edge_views_of(edges@)[k]).0)
                    && chunk_ids_of(chunks@).contains(edge_views_of(edges@)[k].1),
        decreases
            g.module_ids().len() - chunks@.len(),
            pending@.len() - pi,
    {
        proof {
            lemma_card_bound(chunk_ids_of(chunks@), g);
        }
        let t = pending[pi].0.duplicate();
        let kd = pending[pi].1;
        let from = pending[pi].2.duplicate();
        proof {
            assert(g.contains_id(t@));
            assert(chunk_ids_of(chunks@).contains(from@));
        }
        if id_present(&chunks, &t) {
            if !edge_present(&edges, &from, &t) {
                let ghost ev0 = edge_views_of(edges@);
                edges.push((from, t));
                proof {
                    assert(edge_views_of(edges@) =~= ev0.push((from@, t@)));
                    assert forall|k: int| 0 <= k < edge_views_of(edges@).len()
                        implies chunk_ids_of(chunks@).contains(
                        (#[trigger] edge_views_of(edges@)[k]).0) && chunk_ids_of(
                        chunks@).contains(edge_views_of(edges@)[k].1) by {
                        if k < ev0.len() {
                            assert(edge_views_of(edges@)[k] == ev0[k]);
                        } else {
                            assert(edge_views_of(edges@)[k] == (from@, t@));
                        }
                    }
                }
            }
        } else {
            let kind = match kd {
                EdgeKind::Worker => ChunkType::Worker(t.duplicate()),
                _ => ChunkType::Async,
            };
            let nk = Chunk::new(t.duplicate(), kind);
            let ghost c0 = chunks@;
            let ghost pb = pending@;
            let ck = bfs_build(g, &chunks, &mut pending, nk, &t);
            chunks.push(ck);
            proof {
                let n0 = c0.len() as int;
                assert(chunks@[n0] == ck);
                assert(chunk_ids_of(chunks@) =~= chunk_ids_of(c0).push(t@));
                assert forall|i: int, j: int| 0 <= i < j < chunk_ids_of(chunks@).len()
                    implies chunk_ids_of(chunks@)[i] != chunk_ids_of(chunks@)[j] by {
                    if j == n0 {
                        assert(chunk_ids_of(chunks@)[i] == chunk_ids_of(c0)[i]);
                        if chunk_ids_of(c0)[i] == t@ {
                            assert(chunk_ids_of(c0).contains(t@));
                        }
                    } else {
                        assert(chunk_ids_of(chunks@)[i] == chunk_ids_of(c0)[i]);
                        assert(chunk_ids_of(chunks@)[j] == chunk_ids_of(c0)[j]);
                    }
                }
                assert forall|id: Seq<char>| assigned_in(c0, id) implies assigned_in(
                    chunks@, id) by {
                    let i = choose|i: int| 0 <= i < c0.len() && c0[i].members().contains(id);
                    assert(chunks@[i].members().contains(id));
                }
                assert forall|i: int, j: int, id: Seq<char>| 0 <= i < j < chunks@.len()
                    implies !(#[trigger] chunks@[i].members().contains(id)
                        && #[trigger] chunks@[j].members().contains(id)) by {
                    if j == n0 {
                        if chunks@[i].members().contains(id)
                            && chunks@[j].members().contains(id) {
                            assert(assigned_in(c0, id));
                            assert(!assigned_in(c0, id));
                        }
                    }
                }
                assert forall|i: int, id: Seq<char>, d: Seq<char>| 0 <= i < chunks@.len()
                    && #[trigger] chunks@[i].members().contains(id) && g.contains_id(id)
                    && #[trigger] sync_targets(g.module_for(id).deps@).contains(d)
                    implies assigned_in(chunks@, d) by {
                    if i < n0 {
                        assert(assigned_in(c0, d));
                        let w = choose|w: int|
                            0 <= w < c0.len() && c0[w].members().contains(d);
                        assert(chunks@[w].members().contains(d));
                    } else {
                        assert(ck.members().contains(id));
                        if assigned_in(c0, d) {
                            let w = choose|w: int|
                                0 <= w < c0.len() && c0[w].members().contains(d);
                            assert(chunks@[w].members().contains(d));
                        } else {
                            assert(ck.members().contains(d));
                            assert(chunks@[n0].members().contains(d));
                        }
                    }
                }
                assert forall|x: int| 0 <= x < ne implies assigned_in(chunks@,
                    #[trigger] entry_ids(entries@)[x]) by {
                    let i = choose|i: int|
                        0 <= i < c0.len() && c0[i].members().contains(entry_ids(entries@)[x]);
                    assert(chunks@[i].members().contains(entry_ids(entries@)[x]));
                }
                assert forall|x: int| 0 <= x < pending@.len() implies g.contains_id(
                    (#[trigger] pending@[x]).0@) && chunk_ids_of(chunks@).contains(
                    pending@[x].2@) by {
                    if x < pb.len() {
                        assert(pending@[x] == pending@.take(pb.len() as int)[x]);
                        assert(pending@[x] == pb[x]);
                        let w = choose|w: int| 0 <= w < chunk_ids_of(c0).len()
                            && chunk_ids_of(c0)[w] == pb[x].2@;
                        assert(chunk_ids_of(chunks@)[w] == pb[x].2@);
                    } else {
                        assert(pending@[x].2@ == t@);
                        assert(chunk_ids_of(chunks@)[n0] == t@);
                    }
                }
                assert forall|k: int| 0 <= k < edge_views_of(edges@).len()
                    implies chunk_ids_of(chunks@).contains(
                    (#[trigger] edge_views_of(edges@)[k]).0) && chunk_ids_of(
                    chunks@).contains(edge_views_of(edges@)[k].1) by {
                    let w = choose|w: int| 0 <= w < chunk_ids_of(c0).len()
                        && chunk_ids_of(c0)[w] == edge_views_of(edges@)[k].0;
                    assert(chunk_ids_of(chunks@)[w] == edge_views_of(edges@)[k].0);
                    let w2 = choose|w2: int| 0 <= w2 < chunk_ids_of(c0).len()
                        && chunk_ids_of(c0)[w2] == edge_views_of(edges@)[k].1;
                    assert(chunk_ids_of(chunks@)[w2] == edge_views_of(edges@)[k].1);
                }
                assert forall|x: int| 0 <= x < chunks@.len() implies g.contains_id(
                    #[trigger] chunk_ids_of(chunks@)[x]) by {
                    if x < n0 {
                        assert(chunk_ids_of(chunks@)[x] == chunk_ids_of(c0)[x]);
                    }
                }
                lemma_card_bound(chunk_ids_of(chunks@), g);
            }
            if !edge_present(&edges, &from, &t) {
                let ghost ev0 = edge_views_of(edges@);
                edges.push((from, t));
                proof {
                    assert(edge_views_of(edges@) =~= ev0.push((from@, t@)));
                    assert(chunk_ids_of(chunks@).contains(t@));
                    assert forall|k: int| 0 <= k < edge_views_of(edges@).len()
                        implies chunk_ids_of(chunks@).contains(
                        (#[trigger] edge_views_of(edges@)[k]).0) && chunk_ids_of(
                        chunks@).contains(edge_views_of(edges@)[k].1) by {
                        if k < ev0.len() {
                            assert(edge_views_of(edges@)[k] == ev0[k]);
                        } else {
                            assert(edge_views_of(edges@)[k] == (from@, t@));
                        }
                    }
                }
            }
        }
        pi += 1;
    }
    let cg = ChunkGraph { chunks, edges };
    proof {
        assert(cg.chunk_ids() == chunk_ids_of(cg.chunks@));
        assert(no_dup(cg.chunk_ids()));
        assert(all_wf_in(cg.chunks@));
        assert forall|k: int| 0 <= k < cg.edge_views().len() implies cg.chunk_ids().contains(
            (#[trigger] cg.edge_views()[k]).0) && cg.chunk_ids().contains(
            cg.edge_views()[k].1) by {
            assert(cg.edge_views()[k] == edge_views_of(cg.edges@)[k]);
        }
        assert(cg.wf());
        assert(disjoint_in(cg.chunks@));
        assert(members_in_graph(g, cg.chunks@));
        assert(sync_closed_in(g, cg.chunks@));
        assert forall|k: int| 0 <= k < entries@.len() implies cg.assigned(
            #[trigger] entry_ids(entries@)[k]) by {
            assert(assigned_in(cg.chunks@, entry_ids(entries@)[k]));
        }
        assert forall|k: int| 0 <= k < entries@.len() implies is_entry_chunk_for(
            cg.chunks@[k], #[trigger] entries@[k]) by {
            assert(0 <= k < ne);
        }
    }
    Ok(cg)
}

/// A synchronous path through the module graph: each id is a module, each
/// next id a synchronous dependency of the one before.
pub open spec fn is_sync_path(g: &ModuleGraph, p: Seq<Seq<char>>) -> bool {
    &&& p.len() > 0
    &&& forall|i: int| 0 <= i < p.len() ==> g.contains_id(#[trigger] p[i])
    &&& forall|i: int| 0 <= i < p.len() - 1 ==> sync_targets(g.module_for(
        #[trigger] p[i]).deps@).contains(p[i + 1])
}

/// `dst` is reachable from `src` along synchronous import edges.
pub open spec fn sync_reachable(g: &ModuleGraph, src: Seq<char>, dst: Seq<char>) -> bool {
    exists|p: Seq<Seq<char>>| is_sync_path(g, p) && p.first() == src && p.last() == dst
}

proof fn lemma_path_assigned(g: &ModuleGraph, chunks: Seq<Chunk>, p: Seq<Seq<char>>)
    requires
        sync_closed_in(g, chunks),
        is_sync_path(g, p),
        assigned_in(chunks, p.first()),
    ensures
        assigned_in(chunks, p.last()),
    decreases p.len(),
{
    if p.len() > 1 {
        let i = choose|i: int| 0 <= i < chunks.len() && chunks[i].members().contains(p[0]);
        assert(chunks[i].members().contains(p[0]));
        assert(sync_targets(g.module_for(p[0]).deps@).contains(p[1]));
        assert(assigned_in(chunks, p[1]));
        let q = p.drop_first();
        assert(q.len() > 0);
        assert forall|k: int| 0 <= k < q.len() implies g.contains_id(#[trigger] q[k]) by {
            assert(q[k] == p[k + 1]);
        }
        assert forall|k: int| 0 <= k < q.len() - 1 implies sync_targets(g.module_for(
            #[trigger] q[k]).deps@).contains(q[k + 1]) by {
            assert(q[k] == p[k + 1]);
            assert(q[k + 1] == p[k + 2]);
        }
        assert(q.first() == p[1]);
        lemma_path_assigned(g, chunks, q);
        assert(q.last() == p.last());
    }
}

/// Reachability closure: on grouping's output, every module synchronously
/// reachable from an assigned module (an entry point in particular) is
/// assigned to exactly one chunk — none orphaned, none duplicated.
pub proof fn lemma_reachability_closure(
    g: &ModuleGraph,
    cg: &ChunkGraph,
    src: Seq<char>,
    dst: Seq<char>,
)
    requires
        sync_closed_in(g, cg.chunks@),
        disjoint_in(cg.chunks@),
        cg.assigned(src),
        sync_reachable(g, src, dst),
    ensures
        cg.assigned(dst),
        forall|i: int, j: int| 0 <= i < cg.chunks@.len() && 0 <= j < cg.chunks@.len()
            && #[trigger] cg.chunks@[i].members().contains(dst)
            && #[trigger] cg.chunks@[j].members().contains(dst) ==> i == j,
{
    let p = choose|p: Seq<Seq<char>>|
        is_sync_path(g, p) && p.first() == src && p.last() == dst;
    lemma_path_assigned(g, cg.chunks@, p);
    assert forall|i: int, j: int| 0 <= i < cg.chunks@.len() && 0 <= j < cg.chunks@.len()
        && #[trigger] cg.chunks@[i].members().contains(dst)
        && #[trigger] cg.chunks@[j].members().contains(dst) implies i == j by {
        if i < j {
            assert(false);
        } else if j < i {
            assert(false);
        }
    }
}

} // verus!
