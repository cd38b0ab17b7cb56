//! Unit tests for loader content, code-generation artifacts, dependency
//! templates, and the chunk utility queries.

use module_concat::chunks::{chunk_has_css, chunk_has_js, is_enabled_for_chunk, ChunkGraph,
    ChunkLoading};
use module_concat::codegen::{AssetInfo, CodeGenerationDataAssetInfo, CodeGenerationDataFilename,
    CodeGenerationDataUrl, CodeGenerationPublicPathAutoReplace, CodeGenResultId};
use module_concat::content::{Content, SwcLoaderPlugin};
use module_concat::deps::{DependencyRange, DependencyTemplateType, ESMAcceptDependency,
    ESMAcceptDependencyTemplate,
    ModuleDecoratorDependency, ModuleDecoratorDependencyTemplate, RuntimeGlobals};
use module_concat::graph::{DependencyKind, ModuleGraph, ModuleInfo, SourceType};
use module_concat::runtime::RuntimeSpec;

#[test]
fn content_string_round_trip() {
    let c = Content::String("hello".to_string());
    assert!(c.is_string());
    assert!(!c.is_buffer());
    assert_eq!(c.as_bytes(), b"hello");
    assert_eq!(c.into_string_lossy(), "hello");
}

#[test]
fn content_buffer_round_trip() {
    let c = Content::Buffer(vec![104, 105]);
    assert!(c.is_buffer());
    assert!(!c.is_string());
    assert_eq!(c.as_bytes(), b"hi");
    // valid UTF-8 bytes decode to exactly their text
    assert_eq!(c.into_string_lossy(), "hi");
}

#[test]
fn content_buffer_into_bytes() {
    let c = Content::Buffer(vec![0, 159, 146, 150]);
    assert_eq!(c.into_bytes(), vec![0, 159, 146, 150]);
    let s = Content::String("ab".to_string());
    assert_eq!(s.into_bytes(), vec![97, 98]);
}

#[test]
fn codegen_url_holds_its_text() {
    let url = CodeGenerationDataUrl::new("data:text/plain;base64,".to_string());
    assert_eq!(url.inner(), "data:text/plain;base64,");
}

#[test]
fn codegen_filename_holds_both_parts() {
    let f = CodeGenerationDataFilename::new("img.png".to_string(), "/assets/".to_string());
    assert_eq!(f.filename(), "img.png");
    assert_eq!(f.public_path(), "/assets/");
}

#[test]
fn codegen_asset_info_round_trips() {
    let info = AssetInfo {
        immutable: Some(true),
        minimized: None,
        development: Some(false),
        hot_module_replacement: None,
    };
    let data = CodeGenerationDataAssetInfo::new(info);
    assert_eq!(data.inner().immutable, Some(true));
    assert_eq!(data.inner().minimized, None);
    assert_eq!(data.inner().development, Some(false));
    let _flag = CodeGenerationPublicPathAutoReplace(true);
    let _id = CodeGenResultId(0);
}

#[test]
fn dependency_templates_have_stable_types() {
    match ModuleDecoratorDependencyTemplate::template_type() {
        DependencyTemplateType::Dependency(kind) => {
            assert!(matches!(kind, DependencyKind::ModuleDecorator));
        },
        DependencyTemplateType::Custom(_) => panic!("expected a dependency-keyed template"),
    }
    match ESMAcceptDependencyTemplate::template_type() {
        DependencyTemplateType::Custom(name) => assert_eq!(name, "ESMAcceptDependency"),
        DependencyTemplateType::Dependency(_) => panic!("expected a custom template"),
    }
    let dep = ModuleDecoratorDependency::new(RuntimeGlobals::NodeModuleDecorator, true);
    assert!(matches!(dep.decorator, RuntimeGlobals::NodeModuleDecorator));
    assert!(dep.allow_exports_access);
}

fn rt(names: &[u64]) -> RuntimeSpec {
    let mut r = RuntimeSpec::new();
    for n in names {
        r.insert(*n);
    }
    r
}

fn module_with_types(types: Vec<SourceType>) -> ModuleInfo {
    ModuleInfo {
        readable_identifier: "m.js".to_string(),
        intrinsic_bailout: None,
        is_async: false,
        strict: true,
        exports: Vec::new(),
        used_runtimes: rt(&[0]),
        size_js: 1,
        source: None,
        source_types: types,
        layer: None,
        depth: 0,
    }
}

#[test]
fn chunk_queries_see_source_types_and_entries() {
    let mut g = ModuleGraph::new();
    g.add_module(module_with_types(vec![SourceType::Css]));
    let mut cg = ChunkGraph::new();
    cg.add_module();
    let c0 = cg.add_chunk(Some("styles".to_string()), rt(&[0]), None);
    cg.connect_chunk_and_module(c0, 0);
    // a chunk of one CSS module has CSS but no JavaScript
    assert!(chunk_has_css(c0, &g, &cg));
    assert!(!chunk_has_js(c0, &g, &cg));
    // an entry module makes the chunk emit JavaScript regardless
    cg.add_entry_module(c0, 0);
    assert!(chunk_has_js(c0, &g, &cg));
}

#[test]
fn chunk_loading_option_beats_the_default() {
    let mut cg = ChunkGraph::new();
    cg.default_chunk_loading = ChunkLoading::Jsonp;
    let c0 = cg.add_chunk(None, RuntimeSpec::new(), None);
    let c1 = cg.add_chunk(None, RuntimeSpec::new(), Some(ChunkLoading::ImportScripts));
    assert!(is_enabled_for_chunk(c0, &ChunkLoading::Jsonp, &cg));
    assert!(!is_enabled_for_chunk(c0, &ChunkLoading::ImportScripts, &cg));
    assert!(is_enabled_for_chunk(c1, &ChunkLoading::ImportScripts, &cg));
    assert!(!is_enabled_for_chunk(c1, &ChunkLoading::Jsonp, &cg));
}

#[test]
fn esm_accept_dependency_keeps_its_span() {
    let dep = ESMAcceptDependency::new(
        DependencyRange { start: 12, end: 40 },
        true,
        vec![0, 2],
    );
    assert!(dep.has_callback);
    assert_eq!(dep.dependency_ids, vec![0, 2]);
    let loc = dep.loc().expect("a parsed dependency has a location");
    assert_eq!(loc.start, 12);
    assert_eq!(loc.end, 40);
}

#[test]
fn swc_loader_plugin_constructs() {
    let _plugin = SwcLoaderPlugin::new();
}
