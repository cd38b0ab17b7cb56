//! Unit tests for diagnostic rendering and the graph invariant errors.

use module_concat::chunks::ChunkGraph;
use module_concat::config::{Problem, Warning};
use module_concat::graph::{Connection, DependencyKind, ModuleGraph, ModuleInfo, SourceType};
use module_concat::pass::{format_bailout_reason, ModuleConcatenationPlugin};
use module_concat::runtime::RuntimeSpec;

fn rt(names: &[u64]) -> RuntimeSpec {
    let mut r = RuntimeSpec::new();
    for n in names {
        r.insert(*n);
    }
    r
}

fn named_module(name: &str) -> ModuleInfo {
    ModuleInfo {
        readable_identifier: name.to_string(),
        intrinsic_bailout: None,
        is_async: false,
        strict: true,
        exports: Vec::new(),
        used_runtimes: rt(&[0]),
        size_js: 1,
        source: None,
        source_types: vec![SourceType::JavaScript],
        layer: None,
        depth: 0,
    }
}

#[test]
fn problem_messages_render_exactly() {
    let p = Problem::NotInSameChunks {
        module: "m.js".to_string(),
        missing_chunks: vec!["main".to_string(), "vendor".to_string()],
        module_chunks: vec!["lazy".to_string()],
    };
    assert_eq!(
        p.message(),
        "Module m.js is not in the same chunk(s) (expected in chunk(s) main, vendor, module is in chunk(s) lazy)",
    );
    let p2 = Problem::ReferencedExternally { module: "m.js".to_string() };
    assert_eq!(p2.message(), "Module m.js is referenced");
    let p3 = Problem::ReferencedFromDifferentChunks {
        module: "m.js".to_string(),
        importers: vec!["x.js".to_string()],
    };
    assert_eq!(
        p3.message(),
        "Module m.js is referenced from different chunks by these modules: x.js",
    );
    let p4 = Problem::UnsupportedSyntax {
        module: "m.js".to_string(),
        importers: vec!["a.js (referenced with cjs require)".to_string()],
    };
    assert_eq!(
        p4.message(),
        "Module m.js is referenced from these modules with unsupported syntax: a.js (referenced with cjs require)",
    );
    let p5 = Problem::RuntimeCondition {
        module: "m.js".to_string(),
        importers: vec!["a.js".to_string(), "b.js".to_string()],
    };
    assert_eq!(
        p5.message(),
        "Module m.js is runtime-dependent referenced by these modules: a.js, b.js",
    );
}

#[test]
fn bailout_lines_carry_the_prefix() {
    assert_eq!(
        format_bailout_reason("Module is async"),
        "ModuleConcatenation bailout: Module is async",
    );
}

#[test]
fn transitive_warnings_cite_the_blocking_module() {
    let mut g = ModuleGraph::new();
    g.add_module(named_module("a.js"));
    g.add_module(named_module("b.js"));
    let mut plugin = ModuleConcatenationPlugin::new();
    plugin.set_inner_bailout_reason(1, "Module is an entry point".to_string());

    // blocked by its own reason
    let own = plugin.format_bailout_warning(&g, 1, &Warning::Id(1));
    assert_eq!(
        own,
        "ModuleConcatenation bailout: Cannot concat with b.js: Module is an entry point",
    );
    // blocked transitively by another module
    let transitive = plugin.format_bailout_warning(&g, 0, &Warning::Id(1));
    assert_eq!(
        transitive,
        "ModuleConcatenation bailout: Cannot concat with a.js because of b.js: Module is an entry point",
    );
    // blocked by a module with no recorded reason
    let bare = plugin.format_bailout_warning(&g, 0, &Warning::Id(0));
    assert_eq!(bare, "ModuleConcatenation bailout: Cannot concat with a.js");
}

#[test]
fn malformed_module_graph_is_an_internal_error() {
    let mut g = ModuleGraph::new();
    g.add_module(named_module("a.js"));
    // an edge pointing at a module the graph does not hold
    g.connections.push(Connection {
        origin: Some(0),
        target: 7,
        kind: DependencyKind::EsmImport,
        active_in: rt(&[0]),
        has_named_imports: false,
    });
    let mut cg = ChunkGraph::new();
    cg.add_module();
    let mut plugin = ModuleConcatenationPlugin::new();
    let r = plugin.optimize_chunk_modules_impl(&mut g, &mut cg);
    match r {
        Err(e) => assert!(e.message().contains("module graph invariant")),
        Ok(_) => panic!("expected an internal error"),
    }
    // the graphs were left untouched
    assert_eq!(g.len(), 1);
    assert_eq!(g.bailouts[0].len(), 0);
}

#[test]
fn malformed_chunk_graph_is_an_internal_error() {
    let mut g = ModuleGraph::new();
    g.add_module(named_module("a.js"));
    // a chunk graph sized for a different module table
    let cg_small = ChunkGraph::new();
    let mut cg = cg_small;
    let mut plugin = ModuleConcatenationPlugin::new();
    let r = plugin.optimize_chunk_modules_impl(&mut g, &mut cg);
    match r {
        Err(e) => assert!(e.message().contains("chunk graph invariant")),
        Ok(_) => panic!("expected an internal error"),
    }
}
