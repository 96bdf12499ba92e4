//! The library-wide laws: determinism of naming, order-independence of the
//! content hash, no duplicate membership, and what keeps filenames of
//! query-carrying ids apart.

use vstd::prelude::*;
use vstd::seq_lib::lemma_sorted_unique;
use crate::chunk::Chunk;
use crate::chunk::ChunkType;
use crate::chunk::filename_of;
use crate::chunk::chunk_base_name;
use crate::chunk::serialized_query;
use crate::chunk::path_part;
use crate::hashing::query_suffix_hash;
use crate::module::no_dup;
use crate::module::lemma_remove_value_no_dup;
use crate::module_graph::ModuleGraph;
use crate::strings::lex_leq_fn;
use crate::strings::lemma_lex_total_ordering;

verus! {

/// The member sequence after `add_module`, as its contract states it.
pub open spec fn members_after_add(s: Seq<Seq<char>>, id: Seq<char>) -> Seq<Seq<char>> {
    s.remove_value(id).push(id)
}

/// Determinism: filename and content hash are pure functions of the chunk's
/// id, kind, member set and the module graph — two chunks that agree on
/// those agree on both outputs, so re-running a build on unchanged input
/// reproduces them byte for byte.
pub proof fn lemma_naming_deterministic(a: &Chunk, b: &Chunk, g: &ModuleGraph)
    requires
        a.id@ == b.id@,
        a.chunk_type == b.chunk_type,
        a.members() == b.members(),
    ensures
        filename_of(a.id@, a.chunk_type) == filename_of(b.id@, b.chunk_type),
        a.hash_of(g) == b.hash_of(g),
{
}

/// The content hash is independent of the order members were added: chunks
/// over the same member multiset hash identically, because members are
/// sorted by id before hashing.
pub proof fn lemma_hash_order_independent(a: &Chunk, b: &Chunk, g: &ModuleGraph)
    requires
        a.members().to_multiset() == b.members().to_multiset(),
    ensures
        a.hash_of(g) == b.hash_of(g),
{
    lemma_lex_total_ordering();
    a.members().lemma_sort_by_ensures(lex_leq_fn());
    b.members().lemma_sort_by_ensures(lex_leq_fn());
    lemma_sorted_unique(
        a.members().sort_by(lex_leq_fn()),
        b.members().sort_by(lex_leq_fn()),
        lex_leq_fn(),
    );
}

/// An Entry chunk's filename is the caller-supplied name with the
/// extension: independent of the chunk's membership entirely.
pub proof fn lemma_entry_filename_ignores_members(c: &Chunk)
    requires
        c.chunk_type matches ChunkType::Entry(_, _, _),
    ensures
        filename_of(c.id@, c.chunk_type) == (c.chunk_type->Entry_1)@ + ".js"@,
{
}

/// No duplicate membership: one add puts the reference at the tail exactly
/// once; a second add of the same reference changes nothing (in particular
/// membership never grows past the size after the first add), and an add of
/// a present reference keeps the size.
pub proof fn lemma_no_duplicate_membership(before: Seq<Seq<char>>, id: Seq<char>)
    requires
        no_dup(before),
    ensures
        members_after_add(members_after_add(before, id), id) == members_after_add(before, id),
        members_after_add(before, id).last() == id,
        members_after_add(before, id).contains(id),
        no_dup(members_after_add(before, id)),
        members_after_add(before, id).len() <= before.len() + 1,
        before.contains(id) ==> members_after_add(before, id).len() == before.len(),
        forall|x: Seq<char>| members_after_add(before, id).contains(x)
            <==> before.contains(x) || x == id,
{
    lemma_remove_value_no_dup(before, id);
    let x = before.remove_value(id);
    let once = x.push(id);
    assert(once.last() == id);
    assert(once.contains(id));
    // no_dup(once): x is duplicate-free and does not contain id
    assert forall|i: int, j: int| 0 <= i < j < once.len() implies once[i] != once[j] by {
        if j < x.len() {
            assert(once[i] == x[i] && once[j] == x[j]);
        } else {
            assert(once[j] == id && once[i] == x[i]);
        }
    }
    // a second add removes exactly the tail and pushes it back
    once.index_of_first_ensures(id);
    let idx = once.index_of_first(id)->Some_0;
    if idx < x.len() {
        assert(once[idx] == x[idx]);
        assert(x.contains(id));
        assert(false);
    }
    assert(idx == x.len());
    assert(once.remove(idx) =~= x);
    assert(members_after_add(once, id) == once);
    // membership is the old membership plus the new id
    before.index_of_first_ensures(id);
    assert forall|y: Seq<char>| once.contains(y) implies before.contains(y) || y == id by {
        if y != id {
            let k = choose|k: int| 0 <= k < once.len() && once[k] == y;
            assert(once[k] == x[k]);
            match before.index_of_first(id) {
                Some(m) => {
                    if k < m {
                        assert(x[k] == before[k]);
                    } else {
                        assert(x[k] == before[k + 1]);
                    }
                },
                None => {
                    assert(x == before);
                },
            }
        }
    }
    assert forall|y: Seq<char>| before.contains(y) && y != id implies once.contains(y) by {
        let k = choose|k: int| 0 <= k < before.len() && before[k] == y;
        match before.index_of_first(id) {
            Some(m) => {
                assert(before[m] == id);
                if k < m {
                    assert(x[k] == before[k]);
                    assert(once[k] == y);
                } else {
                    assert(k != m);
                    assert(x[k - 1] == before[k]);
                    assert(once[k - 1] == y);
                }
            },
            None => {
                assert(x == before);
                assert(once[k] == y);
            },
        }
    }
}

/// What keeps filenames of query-carrying ids apart: for two chunks of the
/// same (non-Runtime, non-Entry) kind whose ids share a logical path, one
/// with query parameters never collides with one without, and two with
/// different short query hashes never collide with each other. The concrete
/// separation of two given query strings is then decided by the MD5-based
/// suffix itself.
pub proof fn lemma_query_suffix_separates(id1: Seq<char>, id2: Seq<char>, t: ChunkType)
    requires
        path_part(id1) == path_part(id2),
        !(t is Runtime),
        !(t matches ChunkType::Entry(_, _, _)),
        serialized_query(id1).len() > 0,
    ensures
        serialized_query(id2).len() == 0 ==> filename_of(id1, t) != filename_of(id2, t),
        serialized_query(id2).len() > 0 && query_suffix_hash(serialized_query(id1))
            != query_suffix_hash(serialized_query(id2))
            ==> filename_of(id1, t) != filename_of(id2, t),
{
    let base = chunk_base_name(id1);
    let name = crate::strings::join_chars(
        crate::chunk::name_parts(crate::strings::split_chars(path_part(id1), '/')),
        '_',
    );
    let q1 = serialized_query(id1);
    let q2 = serialized_query(id2);
    let h1 = query_suffix_hash(q1);
    let h2 = query_suffix_hash(q2);
    let sfx = match t {
        ChunkType::Worker(_) => "-worker.js"@,
        _ => "-async.js"@,
    };
    assert(filename_of(id1, t) == name + "_q_"@ + h1 + sfx);
    if q2.len() == 0 {
        assert(filename_of(id2, t) == name + sfx);
        reveal_strlit("_q_");
        assert(filename_of(id1, t).len() > filename_of(id2, t).len());
    } else if h1 != h2 {
        assert(filename_of(id2, t) == name + "_q_"@ + h2 + sfx);
        if filename_of(id1, t) == filename_of(id2, t) {
            let p = name.len() + "_q_"@.len();
            assert(filename_of(id1, t).len() == p + h1.len() + sfx.len());
            assert(filename_of(id2, t).len() == p + h2.len() + sfx.len());
            assert(h1.len() == h2.len());
            assert forall|i: int| 0 <= i < h1.len() implies h1[i] == h2[i] by {
                assert(filename_of(id1, t)[p + i] == h1[i]);
                assert(filename_of(id2, t)[p + i] == h2[i]);
            }
            assert(h1 =~= h2);
            assert(false);
        }
    }
}

} // verus!
