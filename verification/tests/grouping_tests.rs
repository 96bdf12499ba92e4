use chunk_graph::chunk::ChunkType;
use chunk_graph::grouping::group_chunks;
use chunk_graph::grouping::GroupError;
use chunk_graph::module::Dep;
use chunk_graph::module::EdgeKind;
use chunk_graph::module::Module;
use chunk_graph::module::ModuleId;
use chunk_graph::module::ModuleInfo;
use chunk_graph::module_graph::ModuleGraph;
use chunk_graph::chunk::Chunk;
use chunk_graph::chunk_graph::ChunkGraph;

fn module(id: &str, raw_hash: u64, deps: Vec<(&str, EdgeKind)>) -> Module {
    Module {
        id: ModuleId::new(id.into()),
        info: Some(ModuleInfo { raw_hash }),
        deps: deps
            .into_iter()
            .map(|(t, kind)| Dep { target: ModuleId::new(t.into()), kind })
            .collect(),
    }
}

fn entry(id: &str, name: &str) -> (ModuleId, String) {
    (ModuleId::new(id.into()), name.to_string())
}

#[test]
fn grouping_missing_entry_is_configuration_error() {
    let mut g = ModuleGraph::new();
    g.add_module(module("a", 1, vec![]));
    let entries = vec![entry("a", "a"), entry("ghost", "g")];
    match group_chunks(&g, &entries) {
        Err(GroupError::EntryNotFound(m)) => assert_eq!(m.id, "ghost"),
        _ => panic!("expected EntryNotFound"),
    }
}

#[test]
fn grouping_duplicate_entry_is_configuration_error() {
    let mut g = ModuleGraph::new();
    g.add_module(module("a", 1, vec![]));
    let entries = vec![entry("a", "one"), entry("a", "two")];
    match group_chunks(&g, &entries) {
        Err(GroupError::DuplicateEntry(m)) => assert_eq!(m.id, "a"),
        _ => panic!("expected DuplicateEntry"),
    }
}

#[test]
fn grouping_entry_with_sync_and_async_edges() {
    let mut g = ModuleGraph::new();
    g.add_module(module(
        "app.ts",
        1,
        vec![("util.ts", EdgeKind::Sync), ("lazy.ts", EdgeKind::DynamicImport)],
    ));
    g.add_module(module("util.ts", 2, vec![]));
    g.add_module(module("lazy.ts", 3, vec![("shared.ts", EdgeKind::Sync)]));
    g.add_module(module("shared.ts", 4, vec![]));

    let cg = group_chunks(&g, &vec![entry("app.ts", "app")]).unwrap();
    assert_eq!(cg.chunk_count(), 2);

    let ec = cg.chunk(&ModuleId::new("app.ts".into())).unwrap();
    assert!(matches!(ec.chunk_type, ChunkType::Entry(_, _, false)));
    assert_eq!(ec.filename(), "app.js");
    assert!(ec.has_module(&ModuleId::new("app.ts".into())));
    assert!(ec.has_module(&ModuleId::new("util.ts".into())));
    assert!(!ec.has_module(&ModuleId::new("lazy.ts".into())));

    let ac = cg.chunk(&ModuleId::new("lazy.ts".into())).unwrap();
    assert!(matches!(ac.chunk_type, ChunkType::Async));
    assert_eq!(ac.filename(), "lazy_ts-async.js");
    assert!(ac.has_module(&ModuleId::new("lazy.ts".into())));
    assert!(ac.has_module(&ModuleId::new("shared.ts".into())));

    let deps = cg.dependencies_of(&ModuleId::new("app.ts".into()));
    assert_eq!(deps.len(), 1);
    assert_eq!(deps[0].id, "lazy.ts");
}

#[test]
fn grouping_worker_edge_makes_worker_chunk() {
    let mut g = ModuleGraph::new();
    g.add_module(module("main.ts", 1, vec![("w.ts", EdgeKind::Worker)]));
    g.add_module(module("w.ts", 2, vec![]));

    let cg = group_chunks(&g, &vec![entry("main.ts", "main")]).unwrap();
    let wc = cg.chunk(&ModuleId::new("w.ts".into())).unwrap();
    assert!(matches!(wc.chunk_type, ChunkType::Worker(_)));
    assert_eq!(wc.filename(), "w_ts-worker.js");
}

#[test]
fn grouping_survives_sync_cycle() {
    let mut g = ModuleGraph::new();
    g.add_module(module("a", 1, vec![("b", EdgeKind::Sync)]));
    g.add_module(module("b", 2, vec![("a", EdgeKind::Sync)]));

    let cg = group_chunks(&g, &vec![entry("a", "a")]).unwrap();
    assert_eq!(cg.chunk_count(), 1);
    let c = cg.chunk(&ModuleId::new("a".into())).unwrap();
    assert!(c.has_module(&ModuleId::new("a".into())));
    assert!(c.has_module(&ModuleId::new("b".into())));
}

#[test]
fn grouping_places_each_module_once() {
    // both entries reach "shared"; it stays in the first entry's chunk
    let mut g = ModuleGraph::new();
    g.add_module(module("e1", 1, vec![("shared", EdgeKind::Sync)]));
    g.add_module(module("e2", 2, vec![("shared", EdgeKind::Sync)]));
    g.add_module(module("shared", 3, vec![]));

    let cg = group_chunks(&g, &vec![entry("e1", "one"), entry("e2", "two")]).unwrap();
    let c1 = cg.chunk(&ModuleId::new("e1".into())).unwrap();
    let c2 = cg.chunk(&ModuleId::new("e2".into())).unwrap();
    assert!(c1.has_module(&ModuleId::new("shared".into())));
    assert!(!c2.has_module(&ModuleId::new("shared".into())));
    assert!(!cg.any_chunk_has(&ModuleId::new("nowhere".into())));
}

#[test]
fn grouping_reuses_async_chunk_and_records_both_edges() {
    let mut g = ModuleGraph::new();
    g.add_module(module("e1", 1, vec![("lazy", EdgeKind::DynamicImport)]));
    g.add_module(module("e2", 2, vec![("lazy", EdgeKind::DynamicImport)]));
    g.add_module(module("lazy", 3, vec![]));

    let cg = group_chunks(&g, &vec![entry("e1", "one"), entry("e2", "two")]).unwrap();
    assert_eq!(cg.chunk_count(), 3);
    assert_eq!(cg.dependencies_of(&ModuleId::new("e1".into())).len(), 1);
    assert_eq!(cg.dependencies_of(&ModuleId::new("e2".into())).len(), 1);
}

#[test]
fn grouping_is_deterministic() {
    let build = || {
        let mut g = ModuleGraph::new();
        g.add_module(module(
            "app.ts",
            1,
            vec![("x.ts", EdgeKind::Sync), ("y.ts", EdgeKind::DynamicImport)],
        ));
        g.add_module(module("x.ts", 2, vec![]));
        g.add_module(module("y.ts", 3, vec![]));
        let cg = group_chunks(&g, &vec![entry("app.ts", "app")]).unwrap();
        let mut out: Vec<(String, u64)> = Vec::new();
        for c in cg.get_chunks() {
            out.push((c.filename(), c.hash(&g)));
        }
        out
    };
    assert_eq!(build(), build());
}

#[test]
fn load_order_orders_dependencies_first() {
    let a = Chunk::new(ModuleId::new("a".into()), ChunkType::Async);
    let b = Chunk::new(ModuleId::new("b".into()), ChunkType::Async);
    let cg = ChunkGraph {
        chunks: vec![a, b],
        // a depends on b: b must load before a
        edges: vec![(ModuleId::new("a".into()), ModuleId::new("b".into()))],
    };
    let order = cg.load_order().unwrap();
    let ids: Vec<String> = order.into_iter().map(|m| m.id).collect();
    assert_eq!(ids, vec!["b".to_string(), "a".to_string()]);
}

#[test]
fn load_order_reports_cycle() {
    let a = Chunk::new(ModuleId::new("a".into()), ChunkType::Async);
    let b = Chunk::new(ModuleId::new("b".into()), ChunkType::Worker(ModuleId::new("b".into())));
    let cg = ChunkGraph {
        chunks: vec![a, b],
        edges: vec![
            (ModuleId::new("a".into()), ModuleId::new("b".into())),
            (ModuleId::new("b".into()), ModuleId::new("a".into())),
        ],
    };
    let rem = cg.load_order().unwrap_err();
    let mut ids: Vec<String> = rem.into_iter().map(|m| m.id).collect();
    ids.sort();
    assert_eq!(ids, vec!["a".to_string(), "b".to_string()]);
}

#[test]
fn load_order_ignores_entry_chunks() {
    let mut g = ModuleGraph::new();
    g.add_module(module("app.ts", 1, vec![("lazy.ts", EdgeKind::DynamicImport)]));
    g.add_module(module("lazy.ts", 2, vec![]));
    let cg = group_chunks(&g, &vec![entry("app.ts", "app")]).unwrap();
    let order = cg.load_order().unwrap();
    assert_eq!(order.len(), 1);
    assert_eq!(order[0].id, "lazy.ts");
}
