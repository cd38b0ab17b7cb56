//! Dependency objects of the closed dependency-kind model that carry their
//! own code-generation templates.

use vstd::prelude::*;

use crate::graph::DependencyKind;

verus! {

/// The runtime global a module decorator asks for.
#[derive(Clone, Copy, Debug, PartialEq, Eq, Structural)]
pub enum RuntimeGlobals {
    NodeModuleDecorator,
    EsmModuleDecorator,
    ModuleLoaded,
    ModuleId,
    Module,
}

/// How a template is keyed in the template registry.
pub enum DependencyTemplateType {
    Dependency(DependencyKind),
    Custom(&'static str),
}

/// A synthetic dependency decorating the module object (`module.loaded`,
/// `module.id`) for CommonJS interop.  Dependencies carry no identity of
/// their own here: the graph keys an edge by its position in the edge table
/// when the dependency is registered.
pub struct ModuleDecoratorDependency {
    pub decorator: RuntimeGlobals,
    pub allow_exports_access: bool,
}

impl ModuleDecoratorDependency {
    pub fn new(decorator: RuntimeGlobals, allow_exports_access: bool) -> (r:
        ModuleDecoratorDependency)
        ensures
            r.decorator == decorator,
            r.allow_exports_access == allow_exports_access,
    {
        ModuleDecoratorDependency { decorator, allow_exports_access }
    }
}

/// Renders a module decorator dependency.
pub struct ModuleDecoratorDependencyTemplate;

impl ModuleDecoratorDependencyTemplate {
    pub fn template_type() -> (r: DependencyTemplateType)
        ensures
            r == DependencyTemplateType::Dependency(DependencyKind::ModuleDecorator),
    {
        DependencyTemplateType::Dependency(DependencyKind::ModuleDecorator)
    }
}

/// A byte span in the module's source text.
#[derive(Clone, Copy, PartialEq, Eq, Structural)]
pub struct DependencyRange {
    pub start: u32,
    pub end: u32,
}

/// A resolved location of a dependency in its module.  Locations are modeled
/// as raw byte spans; refining a span to line and column through a source map
/// is a host concern and stays outside the library.
#[derive(Clone, Copy, PartialEq, Eq, Structural)]
pub struct DependencyLocation {
    pub start: u32,
    pub end: u32,
}

/// The accept handler of a hot-update ESM dependency: the span of the
/// `module.hot.accept` call, whether the call passed a callback, and the
/// edges (by their positions in the edge table) whose updates it accepts.
pub struct ESMAcceptDependency {
    pub range: DependencyRange,
    pub has_callback: bool,
    pub dependency_ids: Vec<usize>,
}

impl ESMAcceptDependency {
    pub fn new(range: DependencyRange, has_callback: bool, dependency_ids: Vec<usize>) -> (r:
        ESMAcceptDependency)
        ensures
            r.range == range,
            r.has_callback == has_callback,
            r.dependency_ids@ == dependency_ids@,
    {
        ESMAcceptDependency { range, has_callback, dependency_ids }
    }

    /// The dependency's location: the span it was parsed from.
    pub fn loc(&self) -> (l: Option<DependencyLocation>)
        ensures
            (l matches Option::Some(loc) && loc.start == self.range.start && loc.end
                == self.range.end),
    {
        Option::Some(DependencyLocation { start: self.range.start, end: self.range.end })
    }
}

/// Renders the accept callback of a hot-update ESM dependency.
pub struct ESMAcceptDependencyTemplate;

impl ESMAcceptDependencyTemplate {
    pub fn template_type() -> (r: DependencyTemplateType)
        ensures
            r matches DependencyTemplateType::Custom(s) && s@ == "ESMAcceptDependency"@,
    {
        DependencyTemplateType::Custom("ESMAcceptDependency")
    }
}

} // verus!
