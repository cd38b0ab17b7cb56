//! Unit tests for the eligibility classifier and the configuration type.

use module_concat::chunks::ChunkGraph;
use module_concat::classify::classify_module;
use module_concat::config::{ConcatConfiguration, Problem, Warning};
use module_concat::graph::{ExportFact, ModuleGraph, ModuleInfo, SourceType};
use module_concat::runtime::RuntimeSpec;

fn rt(names: &[u64]) -> RuntimeSpec {
    let mut r = RuntimeSpec::new();
    for n in names {
        r.insert(*n);
    }
    r
}

fn plain_module(name: &str) -> ModuleInfo {
    ModuleInfo {
        readable_identifier: name.to_string(),
        intrinsic_bailout: None,
        is_async: false,
        strict: true,
        exports: Vec::new(),
        used_runtimes: rt(&[0]),
        size_js: 1,
        source: None,
        source_types: vec![SourceType::JavaScript],
        layer: None,
        depth: 0,
    }
}

fn one_chunk(n: usize, entry: Option<usize>) -> ChunkGraph {
    let mut cg = ChunkGraph::new();
    for _ in 0..n {
        cg.add_module();
    }
    let c = cg.add_chunk(Some("main".to_string()), rt(&[0]), None);
    for m in 0..n {
        cg.connect_chunk_and_module(c, m);
    }
    if let Some(e) = entry {
        cg.add_entry_module(c, e);
    }
    cg
}

#[test]
fn plain_module_is_root_and_inner() {
    let mut g = ModuleGraph::new();
    g.add_module(plain_module("m.js"));
    let cg = one_chunk(1, None);
    let (root, inner, reasons) = classify_module(&g, &cg, 0);
    assert!(root);
    assert!(inner);
    assert_eq!(reasons.len(), 0);
}

#[test]
fn intrinsic_bailout_disqualifies_both() {
    let mut g = ModuleGraph::new();
    let mut m = plain_module("m.js");
    m.intrinsic_bailout = Some("Module is not an ECMAScript module".to_string());
    g.add_module(m);
    let cg = one_chunk(1, None);
    let (root, inner, reasons) = classify_module(&g, &cg, 0);
    assert!(!root);
    assert!(!inner);
    assert_eq!(reasons, vec!["Module is not an ECMAScript module".to_string()]);
}

#[test]
fn async_module_disqualifies_both() {
    let mut g = ModuleGraph::new();
    let mut m = plain_module("m.js");
    m.is_async = true;
    g.add_module(m);
    let cg = one_chunk(1, None);
    let (root, inner, reasons) = classify_module(&g, &cg, 0);
    assert!(!root);
    assert!(!inner);
    assert_eq!(reasons, vec!["Module is async".to_string()]);
}

#[test]
fn non_strict_module_disqualifies_both() {
    let mut g = ModuleGraph::new();
    let mut m = plain_module("m.js");
    m.strict = false;
    g.add_module(m);
    let cg = one_chunk(1, None);
    let (root, inner, reasons) = classify_module(&g, &cg, 0);
    assert!(!root);
    assert!(!inner);
    assert_eq!(reasons, vec!["Module is not in strict mode".to_string()]);
}

#[test]
fn orphan_module_disqualifies_both() {
    let mut g = ModuleGraph::new();
    g.add_module(plain_module("m.js"));
    let mut cg = ChunkGraph::new();
    cg.add_module();
    let (root, inner, reasons) = classify_module(&g, &cg, 0);
    assert!(!root);
    assert!(!inner);
    assert_eq!(reasons, vec!["Module is not in any chunk".to_string()]);
}

#[test]
fn unresolved_reexport_disqualifies_both() {
    let mut g = ModuleGraph::new();
    let mut m = plain_module("m.js");
    m.exports = vec![ExportFact {
        name: "star".to_string(),
        is_reexport: true,
        target_known: false,
        provided: true,
    }];
    g.add_module(m);
    let cg = one_chunk(1, None);
    let (root, inner, reasons) = classify_module(&g, &cg, 0);
    assert!(!root);
    assert!(!inner);
    assert_eq!(
        reasons,
        vec!["Reexports in this module do not have a static target (star)".to_string()],
    );
}

#[test]
fn dynamic_exports_disqualify_root_only() {
    let mut g = ModuleGraph::new();
    let mut m = plain_module("m.js");
    m.exports = vec![ExportFact {
        name: "maybe".to_string(),
        is_reexport: false,
        target_known: true,
        provided: false,
    }];
    g.add_module(m);
    let cg = one_chunk(1, None);
    let (root, inner, reasons) = classify_module(&g, &cg, 0);
    assert!(!root);
    assert!(inner);
    assert_eq!(reasons, vec!["List of module exports is dynamic (maybe)".to_string()]);
}

#[test]
fn entry_module_disqualifies_inner_only() {
    let mut g = ModuleGraph::new();
    g.add_module(plain_module("m.js"));
    let cg = one_chunk(1, Some(0));
    let (root, inner, reasons) = classify_module(&g, &cg, 0);
    assert!(root);
    assert!(!inner);
    assert_eq!(reasons, vec!["Module is an entry point".to_string()]);
}

#[test]
fn configuration_tracks_members_in_insertion_order() {
    let mut c = ConcatConfiguration::new(5, None);
    assert!(c.is_empty());
    assert!(c.has(5));
    c.add(2);
    c.add(9);
    c.add(2);
    assert!(!c.is_empty());
    assert_eq!(c.get_modules().as_slice(), &[5, 2, 9]);
    assert_eq!(c.len(), 3);
}

#[test]
fn configuration_rollback_truncates_to_snapshot() {
    let mut c = ConcatConfiguration::new(1, None);
    c.add(2);
    let snap = c.snapshot();
    c.add(3);
    c.add(4);
    assert_eq!(c.len(), 4);
    c.rollback(snap);
    assert_eq!(c.get_modules().as_slice(), &[1, 2]);
}

#[test]
fn configuration_warnings_are_sorted_by_module() {
    let mut c = ConcatConfiguration::new(0, None);
    c.add_warning(9, Warning::Id(1));
    c.add_warning(3, Warning::Problem(Problem::ReferencedExternally {
        module: "m.js".to_string(),
    }));
    c.add_warning(9, Warning::Id(2));
    let sorted = c.get_warnings_sorted();
    assert_eq!(sorted.len(), 2);
    assert_eq!(sorted[0].0, 3);
    assert_eq!(sorted[1].0, 9);
    match &sorted[1].1 {
        Warning::Id(id) => assert_eq!(*id, 2),
        Warning::Problem(_) => panic!("expected the replacing warning"),
    }
}
