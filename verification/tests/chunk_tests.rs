use chunk_graph::chunk::Chunk;
use chunk_graph::chunk::ChunkType;
use chunk_graph::module::Module;
use chunk_graph::module::ModuleId;
use chunk_graph::module::ModuleInfo;
use chunk_graph::module_graph::ModuleGraph;
use std::hash::Hasher;

#[test]
fn test_filename() {
    let module_id = ModuleId::new("foo/bar.tsx".into());
    let chunk = Chunk::new(
        module_id.clone(),
        ChunkType::Entry(module_id, "foo_bar".to_string(), false),
    );
    assert_eq!(chunk.filename(), "foo_bar.js");

    let chunk = Chunk::new(ModuleId::new("./foo/bar.tsx".into()), ChunkType::Async);
    assert_eq!(chunk.filename(), "foo_bar_tsx-async.js");

    let chunk = Chunk::new(ModuleId::new("foo/bar.tsx".into()), ChunkType::Runtime);
    assert_eq!(chunk.filename(), "runtime.js");
}

#[test]
fn filename_sync_and_worker_kinds() {
    let chunk = Chunk::new(ModuleId::new("foo/bar.tsx".into()), ChunkType::Sync);
    assert_eq!(chunk.filename(), "foo_bar_tsx-async.js");

    let root = ModuleId::new("foo/worker.ts".into());
    let chunk = Chunk::new(root.clone(), ChunkType::Worker(root));
    assert_eq!(chunk.filename(), "foo_worker_ts-worker.js");
}

#[test]
fn filename_parent_dir_sentinel() {
    let chunk = Chunk::new(ModuleId::new("../foo/bar.ts".into()), ChunkType::Async);
    assert_eq!(chunk.filename(), "@_foo_bar_ts-async.js");
}

#[test]
fn filename_query_suffix_matches_md5_base64() {
    let chunk = Chunk::new(ModuleId::new("foo/bar.tsx?a=1".into()), ChunkType::Async);
    let digest = md5::compute("a=1");
    let short = base64::Engine::encode(&base64::engine::general_purpose::URL_SAFE, digest.0)
        [..4]
        .to_string();
    assert_eq!(chunk.filename(), format!("foo_bar_tsx_q_{}-async.js", short));
}

#[test]
fn filename_query_suffixes_differ() {
    let c1 = Chunk::new(ModuleId::new("./foo/bar.tsx?a=1".into()), ChunkType::Async);
    let c2 = Chunk::new(ModuleId::new("./foo/bar.tsx?a=2".into()), ChunkType::Async);
    let f1 = c1.filename();
    let f2 = c2.filename();
    assert_ne!(f1, f2);
    assert!(f1.contains("_q_"));
    assert!(f2.contains("_q_"));

    let c3 = Chunk::new(ModuleId::new("./foo/bar.tsx".into()), ChunkType::Async);
    assert_ne!(c3.filename(), f1);
    assert!(!c3.filename().contains("_q_"));
}

#[test]
fn add_module_deduplicates_and_moves_to_tail() {
    let mut chunk = Chunk::new(ModuleId::new("e".into()), ChunkType::Async);
    chunk.add_module(ModuleId::new("a".into()));
    chunk.add_module(ModuleId::new("b".into()));
    assert_eq!(chunk.module_count(), 2);

    chunk.add_module(ModuleId::new("a".into()));
    assert_eq!(chunk.module_count(), 2);

    let order: Vec<String> = chunk.get_modules().iter().map(|m| m.id.clone()).collect();
    assert_eq!(order, vec!["b".to_string(), "a".to_string()]);
}

#[test]
fn remove_module_is_noop_when_absent() {
    let mut chunk = Chunk::new(ModuleId::new("e".into()), ChunkType::Async);
    chunk.add_module(ModuleId::new("a".into()));
    chunk.remove_module(&ModuleId::new("missing".into()));
    assert_eq!(chunk.module_count(), 1);
    assert!(chunk.has_module(&ModuleId::new("a".into())));

    chunk.remove_module(&ModuleId::new("a".into()));
    assert_eq!(chunk.module_count(), 0);
    assert!(!chunk.has_module(&ModuleId::new("a".into())));
}

fn leaf(id: &str, raw_hash: u64) -> Module {
    Module {
        id: ModuleId::new(id.into()),
        info: Some(ModuleInfo { raw_hash }),
        deps: Vec::new(),
    }
}

#[test]
fn hash_is_independent_of_insertion_order() {
    let mut g = ModuleGraph::new();
    g.add_module(leaf("a", 11));
    g.add_module(leaf("b", 22));

    let mut c1 = Chunk::new(ModuleId::new("e".into()), ChunkType::Async);
    c1.add_module(ModuleId::new("a".into()));
    c1.add_module(ModuleId::new("b".into()));

    let mut c2 = Chunk::new(ModuleId::new("e".into()), ChunkType::Async);
    c2.add_module(ModuleId::new("b".into()));
    c2.add_module(ModuleId::new("a".into()));

    assert_eq!(c1.hash(&g), c2.hash(&g));
}

#[test]
fn hash_matches_streaming_xxhash_over_sorted_members() {
    let mut g = ModuleGraph::new();
    g.add_module(leaf("zebra", 7));
    g.add_module(leaf("apple", 5));

    let mut chunk = Chunk::new(ModuleId::new("e".into()), ChunkType::Async);
    chunk.add_module(ModuleId::new("zebra".into()));
    chunk.add_module(ModuleId::new("apple".into()));

    // members sorted by id: apple (5) then zebra (7)
    let mut expected: twox_hash::XxHash64 = Default::default();
    expected.write_u64(5);
    expected.write_u64(7);
    assert_eq!(chunk.hash(&g), expected.finish());
}

#[test]
fn hash_changes_with_membership() {
    let mut g = ModuleGraph::new();
    g.add_module(leaf("a", 1));
    g.add_module(leaf("b", 2));

    let mut c1 = Chunk::new(ModuleId::new("e".into()), ChunkType::Async);
    c1.add_module(ModuleId::new("a".into()));
    let h1 = c1.hash(&g);
    c1.add_module(ModuleId::new("b".into()));
    let h2 = c1.hash(&g);
    assert_ne!(h1, h2);
}

#[test]
fn entry_filename_ignores_members() {
    let eid = ModuleId::new("src/index.tsx".into());
    let mut chunk = Chunk::new(
        eid.clone(),
        ChunkType::Entry(eid, "main".to_string(), false),
    );
    let before = chunk.filename();
    chunk.add_module(ModuleId::new("src/util.ts".into()));
    assert_eq!(chunk.filename(), before);
    assert_eq!(chunk.filename(), "main.js");
}

#[test]
fn naming_and_hashing_are_deterministic() {
    let mut g = ModuleGraph::new();
    g.add_module(leaf("a", 1));
    let build = || {
        let mut c = Chunk::new(ModuleId::new("./x/y.ts?q=1".into()), ChunkType::Async);
        c.add_module(ModuleId::new("a".into()));
        c
    };
    let c1 = build();
    let c2 = build();
    assert_eq!(c1.filename(), c2.filename());
    assert_eq!(c1.hash(&g), c2.hash(&g));
}

#[test]
fn module_graph_lookup() {
    let mut g = ModuleGraph::new();
    g.add_module(leaf("a", 1));
    assert_eq!(g.module_count(), 1);
    assert!(g.get_module(&ModuleId::new("a".into())).is_some());
    assert!(g.get_module(&ModuleId::new("b".into())).is_none());
}

#[test]
fn describe_renders_id_count_and_kind() {
    let mut chunk = Chunk::new(ModuleId::new("foo/bar.tsx".into()), ChunkType::Async);
    chunk.add_module(ModuleId::new("a".into()));
    chunk.add_module(ModuleId::new("b".into()));
    assert_eq!(chunk.describe(), "foo/bar.tsx#2(Async)");

    let chunk = Chunk::new(ModuleId::new("r".into()), ChunkType::Runtime);
    assert_eq!(chunk.describe(), "r#0(Runtime)");
}

#[test]
fn filename_query_serialization_edge_cases() {
    // a bare key serializes as `key=`; pairs join with `&`
    let chunk = Chunk::new(ModuleId::new("a.ts?raw".into()), ChunkType::Async);
    let digest = md5::compute("raw=");
    let short = base64::Engine::encode(&base64::engine::general_purpose::URL_SAFE, digest.0)
        [..4]
        .to_string();
    assert_eq!(chunk.filename(), format!("a_ts_q_{}-async.js", short));

    let chunk = Chunk::new(ModuleId::new("a.ts?x=1&y=2".into()), ChunkType::Async);
    let digest = md5::compute("x=1&y=2");
    let short = base64::Engine::encode(&base64::engine::general_purpose::URL_SAFE, digest.0)
        [..4]
        .to_string();
    assert_eq!(chunk.filename(), format!("a_ts_q_{}-async.js", short));
}
