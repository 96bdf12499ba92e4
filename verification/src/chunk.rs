//! One output unit of the bundle: an insertion-ordered, deduplicated set of
//! module references tagged with a chunk kind, able to derive its output
//! filename and content-identity hash.

use vstd::prelude::*;
use crate::module::ModuleId;
use crate::module::no_dup;
use crate::module::lemma_remove_value_no_dup;
use crate::member_set::member_ids;
use crate::member_set::iset_new;
use crate::member_set::iset_insert;
use crate::member_set::iset_shift_remove;
use crate::member_set::iset_contains;
use crate::member_set::iset_len;
use crate::member_set::iset_to_vec;
use vstd::pervasive::unreached;
use crate::strings::split_chars;
use crate::strings::split_str;
use crate::strings::join_chars;
use crate::strings::join_strs;
use crate::strings::views_of;
use crate::strings::has_sep;
use crate::strings::sanitized;
use crate::strings::sanitize_segment;
use crate::strings::find_first;
use crate::strings::push_char;
use crate::strings::lemma_split_nonempty;
use crate::strings::dec_chars;
use crate::strings::usize_to_string;
use crate::hashing::query_suffix_hash;
use crate::hashing::short_query_hash;
use crate::hashing::xx64_of;
use crate::hashing::xx_new;
use crate::hashing::xx_write_u64;
use crate::hashing::xx_finish;
use crate::hashing::written_words;
use crate::strings::lex_leq;
use crate::strings::lex_leq_fn;
use crate::strings::str_lex_leq;
use crate::strings::lemma_lex_refl;
use crate::strings::lemma_lex_trans;
use crate::strings::lemma_lex_connected;
use crate::strings::lemma_lex_total_ordering;
use crate::module::ids_of;
use crate::module_graph::ModuleGraph;
use vstd::seq_lib::lemma_sorted_unique;
use vstd::seq_lib::to_multiset_remove;
use vstd::seq_lib::to_multiset_build;
use vstd::relations::sorted_by;
use vstd::multiset::Multiset;

verus! {

pub type ChunkId = ModuleId;

#[derive(Clone, Debug, PartialEq, Eq)]
pub enum ChunkType {
    /// Bundler-injected bootstrap code, not tied to any source module.
    Runtime,
    /// Entry(chunk_id, chunk_name, is_shared_chunk): a build entry point.
    Entry(ModuleId, String, bool),
    /// Reachable only through a dynamic import; loaded on demand.
    Async,
    /// Not itself async, but a dependency of an async chunk: loads eagerly with it.
    Sync,
    /// Root module of a web-worker execution context.
    Worker(ModuleId),
}

pub struct Chunk {
    pub id: ChunkId,
    pub chunk_type: ChunkType,
    pub modules: indexmap::IndexSet<ModuleId>,
    pub content: Option<String>,
    pub source_map: Option<String>,
}

/// The name of a chunk kind, as `describe` renders it.
pub open spec fn kind_word(t: ChunkType) -> Seq<char> {
    match t {
        ChunkType::Runtime => "Runtime"@,
        ChunkType::Entry(_, _, _) => "Entry"@,
        ChunkType::Async => "Async"@,
        ChunkType::Sync => "Sync"@,
        ChunkType::Worker(_) => "Worker"@,
    }
}

/// The logical path of an id: everything before the first query marker.
pub open spec fn path_part(s: Seq<char>) -> Seq<char> {
    split_chars(s, '?')[0]
}

/// The raw query text of an id: between the first query marker and the next
/// one (or the end); empty when the id has no query marker.
pub open spec fn raw_query_part(s: Seq<char>) -> Seq<char> {
    let parts = split_chars(s, '?');
    if parts.len() > 1 {
        parts[1]
    } else {
        Seq::empty()
    }
}

/// The key-value pairs one `&`-separated piece contributes: `k=v` splits at
/// the first `=` (a second `=` and beyond is cut off), a bare word is a key
/// with an empty value, an empty piece contributes nothing.
pub open spec fn pair_of(p: Seq<char>) -> Seq<(Seq<char>, Seq<char>)> {
    if has_sep(p, '=') {
        let kv = split_chars(p, '=');
        seq![(kv[0], kv[1])]
    } else if p.len() > 0 {
        seq![(p, Seq::<char>::empty())]
    } else {
        Seq::empty()
    }
}

pub open spec fn pairs_of(parts: Seq<Seq<char>>) -> Seq<(Seq<char>, Seq<char>)>
    decreases parts.len(),
{
    if parts.len() == 0 {
        Seq::empty()
    } else {
        pairs_of(parts.drop_last()) + pair_of(parts.last())
    }
}

/// The query key-value pairs of an id.
pub open spec fn query_pairs(s: Seq<char>) -> Seq<(Seq<char>, Seq<char>)> {
    pairs_of(split_chars(raw_query_part(s), '&'))
}

pub open spec fn pair_views(v: Seq<(String, String)>) -> Seq<(Seq<char>, Seq<char>)> {
    v.map_values(|kv: (String, String)| (kv.0@, kv.1@))
}

/// `key=value`.
pub open spec fn pair_text(kv: (Seq<char>, Seq<char>)) -> Seq<char> {
    kv.0 + seq!['='] + kv.1
}

pub open spec fn pair_texts(ps: Seq<(Seq<char>, Seq<char>)>) -> Seq<Seq<char>> {
    ps.map_values(|kv: (Seq<char>, Seq<char>)| pair_text(kv))
}

/// The parsed query pairs rejoined to one `k=v&k2=v2` string; this is the
/// text the query-hash suffix is computed over.
pub open spec fn serialized_query(s: Seq<char>) -> Seq<char> {
    join_chars(pair_texts(query_pairs(s)), '&')
}

/// A parsed id: logical path plus query key-value pairs.
#[derive(Debug, Clone)]
pub struct FileRequest {
    pub path: String,
    pub query: Vec<(String, String)>,
}

/// Splits an id into its logical path and its query key-value pairs.
pub fn parse_path(path: &str) -> (r: FileRequest)
    ensures
        r.path@ == path_part(path@),
        pair_views(r.query@) == query_pairs(path@),
{
    let parts = split_str(path, '?');
    let p = parts[0].clone();
    let q: &str = if parts.len() > 1 {
        parts[1].as_str()
    } else {
        ""
    };
    proof {
        reveal_strlit("");
        if parts@.len() > 1 {
            assert(q@ == views_of(parts@)[1]);
        } else {
            assert(q@ =~= raw_query_part(path@));
        }
        assert(q@ == raw_query_part(path@));
        assert(p@ == views_of(parts@)[0]);
    }
    let pieces = split_str(q, '&');
    let ghost qv = views_of(pieces@);
    let mut query: Vec<(String, String)> = Vec::new();
    let n = pieces.len();
    let mut i: usize = 0;
    while i < n
        invariant
            i <= n,
            n == pieces@.len(),
            qv == views_of(pieces@),
            pair_views(query@) == pairs_of(qv.take(i as int)),
        decreases n - i,
    {
        let ghost pre = pair_views(query@);
        let piece = &pieces[i];
        proof {
            assert(piece@ == qv[i as int]);
        }
        match find_first(piece.as_str(), '=') {
            Some(_) => {
                proof {
                    lemma_split_nonempty(piece@, '=');
                }
                let kv = split_str(piece.as_str(), '=');
                let k = kv[0].clone();
                let v = kv[1].clone();
                query.push((k, v));
                proof {
                    assert(k@ == views_of(kv@)[0] && v@ == views_of(kv@)[1]);
                    assert(pair_of(qv[i as int]) =~= seq![(k@, v@)]);
                    assert(pair_views(query@) =~= pre + pair_of(qv[i as int]));
                }
            },
            None => {
                if piece.as_str().unicode_len() > 0 {
                    query.push((piece.clone(), String::new()));
                    proof {
                        assert(pair_of(qv[i as int]) =~= seq![(piece@, Seq::<char>::empty())]);
                        assert(pair_views(query@) =~= pre + pair_of(qv[i as int]));
                    }
                } else {
                    proof {
                        assert(pair_of(qv[i as int]) =~= Seq::<(Seq<char>, Seq<char>)>::empty());
                        assert(pair_views(query@) =~= pre + pair_of(qv[i as int]));
                    }
                }
            },
        }
        proof {
            assert(qv.take(i + 1).drop_last() =~= qv.take(i as int));
            assert(qv.take(i + 1).last() == qv[i as int]);
            assert(pairs_of(qv.take(i + 1)) == pairs_of(qv.take(i as int)) + pair_of(qv[i as int]));
        }
        i += 1;
    }
    proof {
        assert(qv.take(n as int) =~= qv);
    }
    FileRequest { path: p, query }
}

/// A path segment's contribution to the chunk name: root and current-dir
/// segments are dropped, a parent-dir segment becomes the sentinel `@`, and
/// any other segment is kept with dots and query markers rewritten to
/// underscores.
pub open spec fn seg_parts(seg: Seq<char>) -> Seq<Seq<char>> {
    if seg.len() == 0 || seg == seq!['.'] {
        Seq::empty()
    } else if seg == seq!['.', '.'] {
        seq![seq!['@']]
    } else {
        seq![sanitized(seg)]
    }
}

pub open spec fn name_parts(segs: Seq<Seq<char>>) -> Seq<Seq<char>>
    decreases segs.len(),
{
    if segs.len() == 0 {
        Seq::empty()
    } else {
        name_parts(segs.drop_last()) + seg_parts(segs.last())
    }
}

/// The path-derived base name of an async, sync or worker chunk: the kept
/// path segments joined with underscores, plus the query-hash suffix when
/// the id carries query parameters.
pub open spec fn chunk_base_name(id: Seq<char>) -> Seq<char> {
    let name = join_chars(name_parts(split_chars(path_part(id), '/')), '_');
    let q = serialized_query(id);
    if q.len() > 0 {
        name + "_q_"@ + query_suffix_hash(q)
    } else {
        name
    }
}

/// The output filename of a chunk with this id and kind.
pub open spec fn filename_of(id: Seq<char>, t: ChunkType) -> Seq<char> {
    match t {
        ChunkType::Runtime => "runtime.js"@,
        ChunkType::Entry(_, name, _) => name@ + ".js"@,
        ChunkType::Worker(_) => chunk_base_name(id) + "-worker.js"@,
        ChunkType::Async => chunk_base_name(id) + "-async.js"@,
        ChunkType::Sync => chunk_base_name(id) + "-async.js"@,
    }
}

/// The precomputed content hashes of the listed modules, in list order.
pub open spec fn hash_words(ids: Seq<Seq<char>>, g: &ModuleGraph) -> Seq<u64> {
    ids.map_values(|id: Seq<char>| g.raw_hash_of(id))
}

/// Sorts module references by their id, in the lexicographic order of
/// `lex_leq`; the result is pinned to vstd's `sort_by` of the id views.
pub fn sort_ids(v: Vec<ModuleId>) -> (r: Vec<ModuleId>)
    ensures
        ids_of(r@) == ids_of(v@).sort_by(lex_leq_fn()),
{
    let ghost orig = ids_of(v@);
    let mut src = v;
    let mut out: Vec<ModuleId> = Vec::new();
    proof {
        broadcast use vstd::seq_lib::group_to_multiset_ensures;
        broadcast use vstd::multiset::group_multiset_axioms;
        assert(ids_of(out@) =~= Seq::<Seq<char>>::empty());
        assert(ids_of(out@).to_multiset().add(ids_of(src@).to_multiset())
            =~= orig.to_multiset());
    }
    while src.len() > 0
        invariant
            ids_of(out@).to_multiset().add(ids_of(src@).to_multiset()) == orig.to_multiset(),
            sorted_by(ids_of(out@), lex_leq_fn()),
            forall|p: int, q: int| 0 <= p < out@.len() && 0 <= q < src@.len()
                ==> #[trigger] lex_leq_fn()(ids_of(out@)[p], ids_of(src@)[q]),
        decreases src@.len(),
    {
        let ghost src0 = ids_of(src@);
        let ghost out0 = ids_of(out@);
        let n = src.len();
        let mut mi: usize = 0;
        let mut k: usize = 1;
        proof {
            lemma_lex_refl(ids_of(src@)[0]);
        }
        while k < n
            invariant
                n == src@.len(),
                n > 0,
                mi < k,
                k <= n,
                forall|j: int| 0 <= j < k ==> lex_leq(#[trigger] ids_of(src@)[mi as int],
                    ids_of(src@)[j]),
            decreases n - k,
        {
            if str_lex_leq(src[k].id.as_str(), src[mi].id.as_str()) {
                proof {
                    let ids = ids_of(src@);
                    assert forall|j: int| 0 <= j < k + 1 implies lex_leq(
                        #[trigger] ids[k as int], ids[j]) by {
                        if j < k {
                            lemma_lex_trans(ids[k as int], ids[mi as int], ids[j]);
                        } else {
                            lemma_lex_refl(ids[k as int]);
                        }
                    }
                }
                mi = k;
            } else {
                proof {
                    let ids = ids_of(src@);
                    lemma_lex_connected(ids[k as int], ids[mi as int]);
                }
            }
            k += 1;
        }
        let m = src.remove(mi);
        out.push(m);
        proof {
            broadcast use vstd::seq_lib::group_to_multiset_ensures;
            broadcast use vstd::multiset::group_multiset_axioms;
            let ghost mv = src0[mi as int];
            assert(ids_of(src@) =~= src0.remove(mi as int));
            to_multiset_remove(src0, mi as int);
            assert(ids_of(out@) =~= out0.push(mv));
            to_multiset_build(out0, mv);
            assert(src0.contains(mv));
            vstd::seq_lib::to_multiset_contains(src0, mv);
            assert(src0.to_multiset().count(mv) > 0);
            assert(ids_of(out@).to_multiset().add(ids_of(src@).to_multiset())
                =~= orig.to_multiset());
            // the popped minimum keeps the output sorted and below the rest
            assert forall|p: int, q: int| 0 <= p < out@.len() && 0 <= q < src@.len()
                implies #[trigger] lex_leq_fn()(ids_of(out@)[p], ids_of(src@)[q]) by {
                let sq = if q < mi { q } else { q + 1 };
                assert(ids_of(src@)[q] == src0[sq]);
                if p < out0.len() {
                    assert(lex_leq_fn()(out0[p], src0[sq]));
                } else {
                    assert(ids_of(out@)[p] == mv);
                    assert(lex_leq(mv, src0[sq]));
                }
            }
            assert forall|p: int, q: int| 0 <= p < q < ids_of(out@).len()
                implies #[trigger] lex_leq_fn()(ids_of(out@)[p], ids_of(out@)[q]) by {
                if q < out0.len() {
                    assert(lex_leq_fn()(out0[p], out0[q]));
                } else {
                    assert(ids_of(out@)[q] == mv);
                    assert(lex_leq_fn()(out0[p], src0[mi as int]));
                }
            }
        }
    }
    proof {
        broadcast use vstd::seq_lib::group_to_multiset_ensures;
        broadcast use vstd::multiset::group_multiset_axioms;
        assert(ids_of(src@) =~= Seq::<Seq<char>>::empty());
        assert(ids_of(src@).to_multiset() =~= Multiset::<Seq<char>>::empty());
        assert(ids_of(out@).to_multiset() =~= orig.to_multiset());
        lemma_lex_total_ordering();
        orig.lemma_sort_by_ensures(lex_leq_fn());
        lemma_sorted_unique(ids_of(out@), orig.sort_by(lex_leq_fn()), lex_leq_fn());
        assert(ids_of(out@) == orig.sort_by(lex_leq_fn()));
    }
    out
}

impl Chunk {
    /// The member ids, in insertion order.
    pub open spec fn members(&self) -> Seq<Seq<char>> {
        member_ids(self.modules)
    }

    /// Well-formed: no module reference appears twice among the members.
    pub open spec fn wf(&self) -> bool {
        no_dup(self.members())
    }

    pub fn new(id: ChunkId, chunk_type: ChunkType) -> (r: Self)
        ensures
            r.id == id,
            r.chunk_type == chunk_type,
            r.members() == Seq::<Seq<char>>::empty(),
            r.content is None,
            r.source_map is None,
            r.wf(),
    {
        Self { modules: iset_new(), id, chunk_type, content: None, source_map: None }
    }

    /// Inserts the reference. If it is already a member it is removed and
    /// reinserted at the tail, so repeated use reflects most-recent-reference
    /// ordering; membership itself never grows on a repeat.
    pub fn add_module(&mut self, module_id: ModuleId)
        requires
            old(self).wf(),
        ensures
            final(self).id == old(self).id,
            final(self).chunk_type == old(self).chunk_type,
            final(self).content == old(self).content,
            final(self).source_map == old(self).source_map,
            final(self).members() == old(self).members().remove_value(module_id@).push(module_id@),
            final(self).wf(),
    {
        proof {
            lemma_remove_value_no_dup(self.members(), module_id@);
        }
        if iset_contains(&self.modules, &module_id) {
            iset_shift_remove(&mut self.modules, &module_id);
        } else {
            proof {
                self.members().index_of_first_ensures(module_id@);
            }
        }
        iset_insert(&mut self.modules, module_id);
    }

    /// Removes the reference if present; a no-op when it is absent.
    pub fn remove_module(&mut self, module_id: &ModuleId)
        ensures
            final(self).id == old(self).id,
            final(self).chunk_type == old(self).chunk_type,
            final(self).content == old(self).content,
            final(self).source_map == old(self).source_map,
            final(self).members() == old(self).members().remove_value(module_id@),
            old(self).wf() ==> final(self).wf(),
    {
        proof {
            if old(self).wf() {
                lemma_remove_value_no_dup(self.members(), module_id@);
            }
        }
        iset_shift_remove(&mut self.modules, module_id);
    }

    /// Membership test.
    pub fn has_module(&self, module_id: &ModuleId) -> (r: bool)
        ensures
            r == self.members().contains(module_id@),
    {
        iset_contains(&self.modules, module_id)
    }

    /// Number of members.
    pub fn module_count(&self) -> (r: usize)
        ensures
            r == self.members().len(),
    {
        iset_len(&self.modules)
    }


    /// The deterministic output filename, a pure function of the chunk's id
    /// and kind.
    pub fn filename(&self) -> (r: String)
        ensures
            r@ == filename_of(self.id@, self.chunk_type),
    {
        match &self.chunk_type {
            ChunkType::Runtime => "runtime.js".to_owned(),
            ChunkType::Entry(_, name, _) => {
                let mut r = name.clone();
                r.append(".js");
                r
            },
            _ => {
                let parsed = parse_path(self.id.id.as_str());

                let mut pair_strs: Vec<String> = Vec::new();
                let nq = parsed.query.len();
                let mut i: usize = 0;
                while i < nq
                    invariant
                        i <= nq,
                        nq == parsed.query@.len(),
                        views_of(pair_strs@) == pair_texts(pair_views(parsed.query@).take(i as int)),
                    decreases nq - i,
                {
                    let ghost pvs = pair_views(parsed.query@);
                    let ghost pre = views_of(pair_strs@);
                    let kv = &parsed.query[i];
                    let mut t = kv.0.clone();
                    push_char(&mut t, '=');
                    t.append(kv.1.as_str());
                    pair_strs.push(t);
                    proof {
                        assert(t@ =~= pair_text(pvs[i as int]));
                        assert(views_of(pair_strs@) =~= pre.push(t@));
                        assert(pair_texts(pvs.take(i + 1)) =~= pair_texts(pvs.take(i as int)).push(
                            pair_text(pvs[i as int])));
                        assert(views_of(pair_strs@) =~= pair_texts(pvs.take(i + 1)));
                    }
                    i += 1;
                }
                proof {
                    assert(pair_views(parsed.query@).take(nq as int) =~= pair_views(parsed.query@));
                }
                let query_str = join_strs(&pair_strs, '&');
                proof {
                    assert(query_str@ == serialized_query(self.id@));
                }

                let segs = split_str(parsed.path.as_str(), '/');
                let ghost sv = views_of(segs@);
                let mut parts: Vec<String> = Vec::new();
                let ns = segs.len();
                let mut j: usize = 0;
                while j < ns
                    invariant
                        j <= ns,
                        ns == segs@.len(),
                        sv == views_of(segs@),
                        views_of(parts@) == name_parts(sv.take(j as int)),
                    decreases ns - j,
                {
                    let ghost pre = views_of(parts@);
                    let seg = &segs[j];
                    proof {
                        assert(seg@ == sv[j as int]);
                    }
                    let sl = seg.as_str().unicode_len();
                    if sl == 0 {
                        proof {
                            assert(seg_parts(sv[j as int]) =~= Seq::<Seq<char>>::empty());
                            assert(views_of(parts@) =~= pre + seg_parts(sv[j as int]));
                        }
                    } else if sl == 1 && seg.as_str().get_char(0) == '.' {
                        proof {
                            assert(seg@ =~= seq!['.']);
                            assert(seg_parts(sv[j as int]) =~= Seq::<Seq<char>>::empty());
                            assert(views_of(parts@) =~= pre + seg_parts(sv[j as int]));
                        }
                    } else if sl == 2 && seg.as_str().get_char(0) == '.'
                        && seg.as_str().get_char(1) == '.' {
                        parts.push("@".to_owned());
                        proof {
                            assert(seg@ =~= seq!['.', '.']);
                            reveal_strlit("@");
                            assert("@"@ =~= seq!['@']);
                            assert(seg_parts(sv[j as int]) =~= seq![seq!['@']]);
                            assert(views_of(parts@) =~= pre.push("@"@));
                            assert(views_of(parts@) =~= pre + seg_parts(sv[j as int]));
                        }
                    } else {
                        let sani = sanitize_segment(seg.as_str());
                        let ghost saniv = sani@;
                        parts.push(sani);
                        proof {
                            assert(views_of(parts@) =~= pre.push(saniv));
                            if seg@ == seq!['.'] {
                                assert(seg@.len() == 1 && seg@[0] == '.');
                                assert(false);
                            }
                            if seg@ == seq!['.', '.'] {
                                assert(seg@.len() == 2 && seg@[0] == '.' && seg@[1] == '.');
                                assert(false);
                            }
                            assert(seg_parts(sv[j as int]) =~= seq![sanitized(seg@)]);
                            assert(views_of(parts@) =~= pre + seg_parts(sv[j as int]));
                        }
                    }
                    proof {
                        assert(sv.take(j + 1).drop_last() =~= sv.take(j as int));
                        assert(sv.take(j + 1).last() == sv[j as int]);
                        assert(name_parts(sv.take(j + 1)) == name_parts(sv.take(j as int))
                            + seg_parts(sv[j as int]));
                    }
                    j += 1;
                }
                proof {
                    assert(sv.take(ns as int) =~= sv);
                }
                let mut name = join_strs(&parts, '_');

                if query_str.as_str().unicode_len() > 0 {
                    name.append("_q_");
                    let h = short_query_hash(query_str.as_str());
                    name.append(h.as_str());
                }
                let is_worker = match &self.chunk_type {
                    ChunkType::Worker(_) => true,
                    _ => false,
                };
                if is_worker {
                    name.append("-worker.js");
                } else {
                    name.append("-async.js");
                }
                name
            },
        }
    }


    /// The 64-bit content identity of the chunk: each member's precomputed
    /// hash, streamed in the lexicographic order of the member ids (not in
    /// insertion order), through XXH64 with seed 0.
    pub open spec fn hash_of(&self, g: &ModuleGraph) -> u64 {
        xx64_of(hash_words(self.members().sort_by(lex_leq_fn()), g))
    }

    /// Computes the chunk's content identity hash. Every member must be in
    /// the module graph with a precomputed hash; a member outside the graph
    /// is an invariant violation of the upstream resolution stage.
    pub fn hash(&self, mg: &ModuleGraph) -> (r: u64)
        requires
            mg.wf(),
            forall|id: Seq<char>| self.members().contains(id) ==> mg.has_hash(id),
        ensures
            r == self.hash_of(mg),
    {
        let ids = iset_to_vec(&self.modules);
        proof {
            assert(ids_of(ids@) =~= self.members());
        }
        let sorted = sort_ids(ids);
        let ghost sv = self.members().sort_by(lex_leq_fn());
        proof {
            lemma_lex_total_ordering();
            self.members().lemma_sort_by_ensures(lex_leq_fn());
        }
        let n = sorted.len();
        let mut h = xx_new();
        let mut i: usize = 0;
        while i < n
            invariant
                i <= n,
                n == sorted@.len(),
                mg.wf(),
                sv == ids_of(sorted@),
                forall|id: Seq<char>| sv.contains(id) ==> mg.has_hash(id),
                written_words(h) == hash_words(sv, mg).take(i as int),
            decreases n - i,
        {
            proof {
                assert(sv[i as int] == ids_of(sorted@)[i as int]);
                assert(sv.contains(sv[i as int]));
            }
            let ghost pre = written_words(h);
            let mm = match mg.get_module(&sorted[i]) {
                Some(mm) => mm,
                None => unreached(),
            };
            let info = match &mm.info {
                Some(info) => info,
                None => unreached(),
            };
            xx_write_u64(&mut h, info.raw_hash);
            proof {
                assert(info.raw_hash == mg.raw_hash_of(sv[i as int]));
                assert(written_words(h) =~= pre.push(mg.raw_hash_of(sv[i as int])));
                assert(hash_words(sv, mg).take(i + 1) =~= hash_words(sv, mg).take(i as int).push(
                    hash_words(sv, mg)[i as int]));
                assert(written_words(h) =~= hash_words(sv, mg).take(i + 1));
            }
            i += 1;
        }
        proof {
            assert(hash_words(sv, mg).take(n as int) =~= hash_words(sv, mg));
        }
        xx_finish(&h)
    }


    /// The short debug description of the chunk: its id, its member count,
    /// and its kind, as `id#count(kind)`.
    pub fn describe(&self) -> (r: String)
        ensures
            r@ == self.id@ + seq!['#'] + dec_chars(self.members().len() as int)
                + seq!['('] + kind_word(self.chunk_type) + seq![')'],
    {
        let mut s = self.id.id.clone();
        push_char(&mut s, '#');
        let cnt = usize_to_string(self.module_count());
        s.append(cnt.as_str());
        push_char(&mut s, '(');
        let word = match &self.chunk_type {
            ChunkType::Runtime => "Runtime",
            ChunkType::Entry(_, _, _) => "Entry",
            ChunkType::Async => "Async",
            ChunkType::Sync => "Sync",
            ChunkType::Worker(_) => "Worker",
        };
        s.append(word);
        push_char(&mut s, ')');
        proof {
            reveal_strlit("Runtime");
            reveal_strlit("Entry");
            reveal_strlit("Async");
            reveal_strlit("Sync");
            reveal_strlit("Worker");
            assert(s@ =~= self.id@ + seq!['#'] + dec_chars(self.members().len() as int)
                + seq!['('] + kind_word(self.chunk_type) + seq![')']);
        }
        s
    }

    /// The member set itself, mutable. What a caller does through this
    /// reference is outside the chunk's contracts; the well-formedness of
    /// the member sequence is re-established by `IndexSet` itself, which
    /// never holds duplicates.
    pub fn mut_modules(&mut self) -> (r: &mut indexmap::IndexSet<ModuleId>)
    {
        &mut self.modules
    }

    /// The member set itself, read-only.
    pub fn get_modules(&self) -> (r: &indexmap::IndexSet<ModuleId>)
        ensures
            member_ids(*r) == self.members(),
    {
        &self.modules
    }
}

} // verus!
