//! Admission-failure scenarios: each blocking condition surfaces its own
//! bailout reason on the discarded root.

use module_concat::chunks::ChunkGraph;
use module_concat::graph::{Connection, DependencyKind, ModuleGraph, ModuleInfo, SourceType};
use module_concat::pass::ModuleConcatenationPlugin;
use module_concat::runtime::RuntimeSpec;

fn rt(names: &[u64]) -> RuntimeSpec {
    let mut r = RuntimeSpec::new();
    for n in names {
        r.insert(*n);
    }
    r
}

fn module(name: &str, runtimes: &[u64]) -> ModuleInfo {
    ModuleInfo {
        readable_identifier: name.to_string(),
        intrinsic_bailout: None,
        is_async: false,
        strict: true,
        exports: Vec::new(),
        used_runtimes: rt(runtimes),
        size_js: 1,
        source: None,
        source_types: vec![SourceType::JavaScript],
        layer: None,
        depth: 0,
    }
}

fn esm(from: usize, to: usize, runtimes: &[u64]) -> Connection {
    Connection {
        origin: Some(from),
        target: to,
        kind: DependencyKind::EsmImport,
        active_in: rt(runtimes),
        has_named_imports: true,
    }
}

fn log_contains(g: &ModuleGraph, module: usize, needle: &str) -> bool {
    g.bailouts[module].iter().any(|line| line.contains(needle))
}

#[test]
fn candidate_missing_from_a_root_chunk_bails_out() {
    let mut g = ModuleGraph::new();
    let root = g.add_module(module("root.js", &[0]));
    let d = g.add_module(module("d.js", &[0]));
    g.add_connection(esm(root, d, &[0]));
    let mut cg = ChunkGraph::new();
    cg.add_module();
    cg.add_module();
    let c0 = cg.add_chunk(Some("main".to_string()), rt(&[0]), None);
    let c1 = cg.add_chunk(Some("vendor".to_string()), rt(&[0]), None);
    cg.connect_chunk_and_module(c0, root);
    cg.connect_chunk_and_module(c1, root);
    cg.connect_chunk_and_module(c0, d);
    cg.add_entry_module(c0, root);

    let mut plugin = ModuleConcatenationPlugin::new();
    plugin.optimize_chunk_modules_impl(&mut g, &mut cg).unwrap();

    assert_eq!(g.len(), 2);
    assert!(log_contains(&g, root, "is not in the same chunk(s)"));
    assert!(log_contains(&g, root, "vendor"));
}

#[test]
fn externally_referenced_candidate_bails_out() {
    let mut g = ModuleGraph::new();
    let root = g.add_module(module("root.js", &[0]));
    let d = g.add_module(module("d.js", &[0]));
    g.add_connection(esm(root, d, &[0]));
    // a live reference that does not come from another module
    g.add_connection(Connection {
        origin: None,
        target: d,
        kind: DependencyKind::EsmImport,
        active_in: rt(&[0]),
        has_named_imports: true,
    });
    let mut cg = ChunkGraph::new();
    cg.add_module();
    cg.add_module();
    let c0 = cg.add_chunk(Some("main".to_string()), rt(&[0]), None);
    cg.connect_chunk_and_module(c0, root);
    cg.connect_chunk_and_module(c0, d);
    cg.add_entry_module(c0, root);

    let mut plugin = ModuleConcatenationPlugin::new();
    plugin.optimize_chunk_modules_impl(&mut g, &mut cg).unwrap();

    assert_eq!(g.len(), 2);
    assert!(log_contains(&g, root, "Module d.js is referenced"));
}

#[test]
fn runtime_dependent_reference_bails_out_under_multiple_runtimes() {
    let mut g = ModuleGraph::new();
    let root = g.add_module(module("root.js", &[0, 1]));
    let d = g.add_module(module("d.js", &[0, 1]));
    let y = g.add_module(module("y.js", &[0, 1]));
    g.add_connection(esm(root, d, &[0, 1]));
    // y reaches d only for one of the two runtimes
    g.add_connection(esm(y, d, &[0]));
    let mut cg = ChunkGraph::new();
    for _ in 0..g.len() {
        cg.add_module();
    }
    let c0 = cg.add_chunk(Some("main".to_string()), rt(&[0, 1]), None);
    for m in 0..g.len() {
        cg.connect_chunk_and_module(c0, m);
    }
    cg.add_entry_module(c0, root);

    let mut plugin = ModuleConcatenationPlugin::new();
    plugin.optimize_chunk_modules_impl(&mut g, &mut cg).unwrap();

    // d could not be absorbed, and no group formed around the root alone
    assert!(log_contains(&g, root, "is runtime-dependent referenced by these modules:"));
    assert!(log_contains(&g, root, "y.js"));
}

#[test]
fn ineligible_inner_cites_its_own_bailout() {
    let mut g = ModuleGraph::new();
    let root = g.add_module(module("root.js", &[0]));
    let e = g.add_module(module("e.js", &[0]));
    g.add_connection(esm(root, e, &[0]));
    let mut cg = ChunkGraph::new();
    cg.add_module();
    cg.add_module();
    let c0 = cg.add_chunk(Some("main".to_string()), rt(&[0]), None);
    cg.connect_chunk_and_module(c0, root);
    cg.connect_chunk_and_module(c0, e);
    // both are entry modules, so e may not be absorbed
    cg.add_entry_module(c0, root);
    cg.add_entry_module(c0, e);

    let mut plugin = ModuleConcatenationPlugin::new();
    plugin.optimize_chunk_modules_impl(&mut g, &mut cg).unwrap();

    assert_eq!(g.len(), 2);
    assert!(log_contains(&g, root, "Cannot concat with e.js"));
    assert!(log_contains(&g, root, "Module is an entry point"));
    // the classifier also logged the entry bailout on e itself
    assert!(log_contains(&g, e, "Module is an entry point"));
}

#[test]
fn classifier_layer_precedes_search_warnings() {
    let mut g = ModuleGraph::new();
    let root = g.add_module(module("root.js", &[0]));
    let e = g.add_module(module("e.js", &[0]));
    g.add_connection(esm(root, e, &[0]));
    let mut cg = ChunkGraph::new();
    cg.add_module();
    cg.add_module();
    let c0 = cg.add_chunk(Some("main".to_string()), rt(&[0]), None);
    cg.connect_chunk_and_module(c0, root);
    cg.connect_chunk_and_module(c0, e);
    cg.add_entry_module(c0, root);
    cg.add_entry_module(c0, e);

    let mut plugin = ModuleConcatenationPlugin::new();
    plugin.optimize_chunk_modules_impl(&mut g, &mut cg).unwrap();

    // the root's log holds its own classifier line first, then the warning
    // the discarded search left behind
    let classifier = g.bailouts[root]
        .iter()
        .position(|line| line.contains("Module is an entry point"))
        .expect("classifier line");
    let search = g.bailouts[root]
        .iter()
        .position(|line| line.contains("Cannot concat with e.js"))
        .expect("search warning");
    assert!(classifier < search);
}
