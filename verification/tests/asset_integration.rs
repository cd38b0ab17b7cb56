//! Integration scenarios around non-JavaScript output types: a member that
//! still emits an asset keeps its chunk slot with only its JavaScript
//! contribution dropped, and an asset-emitting root stays connected so the
//! asset is not lost.

use module_concat::chunks::ChunkGraph;
use module_concat::graph::{Connection, DependencyKind, ModuleGraph, ModuleInfo, SourceType};
use module_concat::pass::ModuleConcatenationPlugin;
use module_concat::runtime::RuntimeSpec;

fn rt(names: &[u64]) -> RuntimeSpec {
    let mut r = RuntimeSpec::new();
    for n in names {
        r.insert(*n);
    }
    r
}

fn module(name: &str, types: Vec<SourceType>) -> ModuleInfo {
    ModuleInfo {
        readable_identifier: name.to_string(),
        intrinsic_bailout: None,
        is_async: false,
        strict: true,
        exports: Vec::new(),
        used_runtimes: rt(&[0]),
        size_js: 1,
        source: None,
        source_types: types,
        layer: None,
        depth: 0,
    }
}

fn esm(from: usize, to: usize) -> Connection {
    Connection {
        origin: Some(from),
        target: to,
        kind: DependencyKind::EsmImport,
        active_in: rt(&[0]),
        has_named_imports: true,
    }
}

#[test]
fn asset_emitting_member_keeps_its_chunk_slot() {
    let mut g = ModuleGraph::new();
    let entry = g.add_module(module("entry.js", vec![SourceType::JavaScript]));
    let pic = g.add_module(module("pic.js", vec![SourceType::JavaScript, SourceType::Asset]));
    g.add_connection(esm(entry, pic));
    let mut cg = ChunkGraph::new();
    cg.add_module();
    cg.add_module();
    let c0 = cg.add_chunk(Some("main".to_string()), rt(&[0]), None);
    cg.connect_chunk_and_module(c0, entry);
    cg.connect_chunk_and_module(c0, pic);
    cg.add_entry_module(c0, entry);

    let mut plugin = ModuleConcatenationPlugin::new();
    plugin.optimize_chunk_modules_impl(&mut g, &mut cg).unwrap();

    assert_eq!(g.len(), 3);
    let merged = 2;
    assert_eq!(cg.module_chunks_list(merged).as_slice(), &[c0]);
    // the absorbed asset module stays attached, but only with its asset
    // output: its JavaScript contribution is gone
    assert!(cg.is_module_in_chunk(pic, c0));
    let types = cg.get_chunk_module_source_types(&g, c0, pic);
    assert_eq!(types, vec![SourceType::Asset]);
    // the root contributed only JavaScript and left the chunk
    assert!(!cg.is_module_in_chunk(entry, c0));
}

#[test]
fn asset_emitting_root_stays_connected() {
    let mut g = ModuleGraph::new();
    let root = g.add_module(module("logo.js", vec![SourceType::JavaScript, SourceType::Asset]));
    let helper = g.add_module(module("helper.js", vec![SourceType::JavaScript]));
    g.add_connection(esm(root, helper));
    let mut cg = ChunkGraph::new();
    cg.add_module();
    cg.add_module();
    let c0 = cg.add_chunk(Some("main".to_string()), rt(&[0]), None);
    cg.connect_chunk_and_module(c0, root);
    cg.connect_chunk_and_module(c0, helper);
    cg.add_entry_module(c0, root);

    let mut plugin = ModuleConcatenationPlugin::new();
    plugin.optimize_chunk_modules_impl(&mut g, &mut cg).unwrap();

    assert_eq!(g.len(), 3);
    let merged = 2;
    // the merged node carries the JavaScript behaviour in the root's chunk
    assert_eq!(cg.module_chunks_list(merged).as_slice(), &[c0]);
    // the root is still connected so its asset output is not lost, with the
    // JavaScript contribution stripped
    assert!(cg.is_module_in_chunk(root, c0));
    let types = cg.get_chunk_module_source_types(&g, c0, root);
    assert_eq!(types, vec![SourceType::Asset]);
    // the plain member was absorbed and left the chunk
    assert!(!cg.is_module_in_chunk(helper, c0));
}
