//! End-to-end scenarios for the concatenation pass.

use module_concat::chunks::ChunkGraph;
use module_concat::config::Warning;
use module_concat::graph::{Connection, DependencyKind, ModuleGraph, ModuleInfo, SourceType};
use module_concat::pass::ModuleConcatenationPlugin;
use module_concat::pass::{build_all_facts, find_configurations, select_relevant};
use module_concat::runtime::RuntimeSpec;

fn rt(names: &[u64]) -> RuntimeSpec {
    let mut r = RuntimeSpec::new();
    for n in names {
        r.insert(*n);
    }
    r
}

fn module(name: &str, depth: u64) -> ModuleInfo {
    ModuleInfo {
        readable_identifier: name.to_string(),
        intrinsic_bailout: None,
        is_async: false,
        strict: true,
        exports: Vec::new(),
        used_runtimes: rt(&[0, 1]),
        size_js: 10,
        source: Some(name.as_bytes().to_vec()),
        source_types: vec![SourceType::JavaScript],
        layer: None,
        depth,
    }
}

fn esm(from: usize, to: usize, runtimes: &[u64]) -> Connection {
    Connection {
        origin: Some(from),
        target: to,
        kind: DependencyKind::EsmImport,
        active_in: rt(runtimes),
        has_named_imports: true,
    }
}

fn cjs(from: usize, to: usize, runtimes: &[u64]) -> Connection {
    Connection {
        origin: Some(from),
        target: to,
        kind: DependencyKind::CommonJsRequire,
        active_in: rt(runtimes),
        has_named_imports: true,
    }
}

/// One chunk holding the given modules, the first being the entry.
fn single_chunk(g: &ModuleGraph, entry: usize) -> ChunkGraph {
    let mut cg = ChunkGraph::new();
    for _ in 0..g.len() {
        cg.add_module();
    }
    let c = cg.add_chunk(Some("main".to_string()), rt(&[0]), None);
    for m in 0..g.len() {
        cg.connect_chunk_and_module(c, m);
    }
    cg.add_entry_module(c, entry);
    cg
}

#[test]
fn chain_of_three_is_merged() {
    // Entry -> B -> C, all ESM, synchronous, strict, single chunk, closed
    // export sets, no other referrers: one configuration {Entry, B, C}.
    let mut g = ModuleGraph::new();
    let entry = g.add_module(module("entry.js", 0));
    let b = g.add_module(module("b.js", 1));
    let c = g.add_module(module("c.js", 2));
    g.add_connection(esm(entry, b, &[0]));
    g.add_connection(esm(b, c, &[0]));
    let mut cg = single_chunk(&g, entry);

    let mut plugin = ModuleConcatenationPlugin::new();
    let result = plugin.optimize_chunk_modules_impl(&mut g, &mut cg);
    let applied = match result {
        Ok(applied) => applied,
        Err(_) => panic!("the graphs are well-formed"),
    };

    // one configuration was applied, claiming the whole chain
    assert_eq!(applied.len(), 1);
    assert_eq!(applied[0].configuration.root_module, entry);
    assert_eq!(applied[0].configuration.modules.as_slice(), &[entry, b, c]);
    assert_eq!(applied[0].merged.as_slice(), &[entry, b, c]);

    // one merged module was added
    assert_eq!(g.len(), 4);
    let merged = 3;
    assert_eq!(g.modules[merged].readable_identifier, "entry.js");
    // the merged module sits in exactly the chunk the root sat in
    assert_eq!(cg.module_chunks_list(merged).as_slice(), &[0]);
    // the absorbed members and the root left the chunk
    assert!(!cg.is_module_in_chunk(entry, 0));
    assert!(!cg.is_module_in_chunk(b, 0));
    assert!(!cg.is_module_in_chunk(c, 0));
}

#[test]
fn pass_is_idempotent_on_merged_graph() {
    let mut g = ModuleGraph::new();
    let entry = g.add_module(module("entry.js", 0));
    let b = g.add_module(module("b.js", 1));
    let c = g.add_module(module("c.js", 2));
    g.add_connection(esm(entry, b, &[0]));
    g.add_connection(esm(b, c, &[0]));
    let mut cg = single_chunk(&g, entry);

    let mut plugin = ModuleConcatenationPlugin::new();
    plugin.optimize_chunk_modules_impl(&mut g, &mut cg).unwrap();
    assert_eq!(g.len(), 4);

    // a second pass over the already fully concatenated graph accepts no
    // configuration and adds no module
    let mut plugin2 = ModuleConcatenationPlugin::new();
    plugin2.optimize_chunk_modules_impl(&mut g, &mut cg).unwrap();
    assert_eq!(g.len(), 4);
    assert_eq!(cg.module_chunks_list(3).as_slice(), &[0]);
}

#[test]
fn commonjs_require_keeps_target_out() {
    // Entry -> B via ESM, B -> C via a CommonJS require: the configuration is
    // {Entry, B} and C stays standalone in its chunk.
    let mut g = ModuleGraph::new();
    let entry = g.add_module(module("entry.js", 0));
    let b = g.add_module(module("b.js", 1));
    let c = g.add_module(module("c.js", 2));
    g.add_connection(esm(entry, b, &[0]));
    g.add_connection(cjs(b, c, &[0]));
    let mut cg = single_chunk(&g, entry);

    let mut plugin = ModuleConcatenationPlugin::new();
    plugin.optimize_chunk_modules_impl(&mut g, &mut cg).unwrap();

    assert_eq!(g.len(), 4);
    let merged = 3;
    assert_eq!(cg.module_chunks_list(merged).as_slice(), &[0]);
    assert!(!cg.is_module_in_chunk(entry, 0));
    assert!(!cg.is_module_in_chunk(b, 0));
    // C was never absorbed: it keeps its chunk
    assert!(cg.is_module_in_chunk(c, 0));
}

#[test]
fn commonjs_referrer_bails_out_with_unsupported_syntax() {
    // C is also reachable as an ESM candidate, but a CommonJS referrer blocks
    // its absorption, with a warning citing the unsupported syntax.
    let mut g = ModuleGraph::new();
    let entry = g.add_module(module("entry.js", 0));
    let b = g.add_module(module("b.js", 1));
    let c = g.add_module(module("c.js", 2));
    g.add_connection(esm(entry, b, &[0]));
    g.add_connection(esm(entry, c, &[0]));
    g.add_connection(cjs(b, c, &[0]));
    let cg = single_chunk(&g, entry);

    let mut plugin = ModuleConcatenationPlugin::new();
    let (relevant, inners) = select_relevant(&mut plugin, &mut g, &cg);
    let facts = build_all_facts(&g, &cg);
    let (configs, _log) = find_configurations(&plugin, &g, &cg, &facts, &relevant, &inners);

    assert_eq!(configs.len(), 1);
    let config = &configs[0];
    assert_eq!(config.root_module, entry);
    assert_eq!(config.modules.as_slice(), &[entry, b]);
    // the warning recorded against C names the unsupported syntax
    let mut found = false;
    for (m, w) in config.warnings.iter() {
        if *m == c {
            match w {
                Warning::Problem(p) => {
                    let text = p.message();
                    assert!(text.contains("unsupported syntax"));
                    assert!(text.contains("b.js"));
                    found = true;
                },
                Warning::Id(_) => panic!("expected a problem warning"),
            }
        }
    }
    assert!(found);
}

#[test]
fn referrer_in_other_chunk_bails_out() {
    // D sits in the root's chunk, but one of its importers sits in a
    // different chunk: D is excluded, citing referencing from different
    // chunks, and the root's configuration stays empty.
    let mut g = ModuleGraph::new();
    let root = g.add_module(module("root.js", 0));
    let d = g.add_module(module("d.js", 1));
    let x = g.add_module(module("x.js", 0));
    g.add_connection(esm(root, d, &[0]));
    g.add_connection(esm(x, d, &[0]));
    let mut cg = ChunkGraph::new();
    for _ in 0..g.len() {
        cg.add_module();
    }
    let c0 = cg.add_chunk(Some("main".to_string()), rt(&[0]), None);
    let c1 = cg.add_chunk(Some("other".to_string()), rt(&[0]), None);
    cg.connect_chunk_and_module(c0, root);
    cg.connect_chunk_and_module(c0, d);
    cg.connect_chunk_and_module(c1, x);
    cg.add_entry_module(c0, root);
    cg.add_entry_module(c1, x);

    let mut plugin = ModuleConcatenationPlugin::new();
    plugin.optimize_chunk_modules_impl(&mut g, &mut cg).unwrap();

    // nothing was merged
    assert_eq!(g.len(), 3);
    // the discarded configuration logged the reason on the root
    let mut found = false;
    for line in g.bailouts[root].iter() {
        if line.contains("is referenced from different chunks by these modules:")
            && line.contains("x.js")
        {
            found = true;
        }
    }
    assert!(found);
}

#[test]
fn disjoint_chains_merge_independently() {
    // Two independent entry chains with disjoint dependency sets produce two
    // merged nodes with no shared absorbed members.
    let mut g = ModuleGraph::new();
    let e1 = g.add_module(module("e1.js", 0));
    let a1 = g.add_module(module("a1.js", 1));
    let e2 = g.add_module(module("e2.js", 0));
    let a2 = g.add_module(module("a2.js", 1));
    g.add_connection(esm(e1, a1, &[0]));
    g.add_connection(esm(e2, a2, &[1]));
    let mut cg = ChunkGraph::new();
    for _ in 0..g.len() {
        cg.add_module();
    }
    let c0 = cg.add_chunk(Some("one".to_string()), rt(&[0]), None);
    let c1 = cg.add_chunk(Some("two".to_string()), rt(&[1]), None);
    cg.connect_chunk_and_module(c0, e1);
    cg.connect_chunk_and_module(c0, a1);
    cg.connect_chunk_and_module(c1, e2);
    cg.connect_chunk_and_module(c1, a2);
    cg.add_entry_module(c0, e1);
    cg.add_entry_module(c1, e2);

    let mut plugin = ModuleConcatenationPlugin::new();
    plugin.optimize_chunk_modules_impl(&mut g, &mut cg).unwrap();

    assert_eq!(g.len(), 6);
    // each merged node took over exactly its root's chunk
    let merged_first = 4;
    let merged_second = 5;
    let chunks_first = cg.module_chunks_list(merged_first).clone();
    let chunks_second = cg.module_chunks_list(merged_second).clone();
    assert_eq!(chunks_first.len(), 1);
    assert_eq!(chunks_second.len(), 1);
    assert_ne!(chunks_first[0], chunks_second[0]);
    // no absorbed member is shared: every original module left its chunk
    for m in 0..4 {
        assert_eq!(cg.get_number_of_module_chunks(m), 0);
    }
}

#[test]
fn shared_inner_goes_to_the_bigger_group() {
    // E is eligible as inner for R1 (3 members) and R2 (5 members); after
    // resolver ordering E ends up only in R2's group, and R1's group forms
    // without E.
    let mut g = ModuleGraph::new();
    let r1 = g.add_module(module("r1.js", 0));
    let a = g.add_module(module("a.js", 1));
    let r2 = g.add_module(module("r2.js", 0));
    let b1 = g.add_module(module("b1.js", 1));
    let b2 = g.add_module(module("b2.js", 2));
    let b3 = g.add_module(module("b3.js", 3));
    let e = g.add_module(module("e.js", 4));
    g.add_connection(esm(r1, a, &[0]));
    g.add_connection(esm(a, e, &[0]));
    g.add_connection(esm(r2, b1, &[1]));
    g.add_connection(esm(b1, b2, &[1]));
    g.add_connection(esm(b2, b3, &[1]));
    g.add_connection(esm(b3, e, &[1]));
    let mut cg = ChunkGraph::new();
    for _ in 0..g.len() {
        cg.add_module();
    }
    let c0 = cg.add_chunk(Some("one".to_string()), rt(&[0]), None);
    let c1 = cg.add_chunk(Some("two".to_string()), rt(&[1]), None);
    for m in [r1, a, e] {
        cg.connect_chunk_and_module(c0, m);
    }
    for m in [r2, b1, b2, b3, e] {
        cg.connect_chunk_and_module(c1, m);
    }
    cg.add_entry_module(c0, r1);
    cg.add_entry_module(c1, r2);

    let mut plugin = ModuleConcatenationPlugin::new();
    let applied = plugin.optimize_chunk_modules_impl(&mut g, &mut cg).unwrap_or_default();

    // both groups merged: the bigger group first, claiming E; the smaller
    // group formed without it
    assert_eq!(applied.len(), 2);
    assert_eq!(applied[0].configuration.root_module, r2);
    assert_eq!(applied[0].merged.as_slice(), &[r2, b1, b2, b3, e]);
    assert_eq!(applied[1].configuration.root_module, r1);
    assert_eq!(applied[1].merged.as_slice(), &[r1, a]);
    assert_eq!(g.len(), 9);
    // R2's group (5 members) was applied first and claimed E: E left the
    // second chunk
    assert!(!cg.is_module_in_chunk(e, c1));
    // R1's group formed without E, so E still serves the first chunk
    assert!(cg.is_module_in_chunk(e, c0));
    // the members of the two applied groups are disjoint: each original
    // module of either chain left its own chunk exactly once
    for m in [r1, a, r2, b1, b2, b3] {
        assert_eq!(cg.get_number_of_module_chunks(m), 0);
    }
}
