//! The per-module fact cache: for every module, the union runtime across its
//! chunks, whether its export names are fully known, its ESM-like outgoing
//! connections, and its incoming connections grouped by origin module.
//!
//! The cache is a pure memoization of graph facts, computed once per pass and
//! read-only afterwards.

use vstd::prelude::*;

use crate::chunks::ChunkGraph;
use crate::classify::spec_dynamic_export_names;
use crate::graph::{
    is_esm_dep_like, runtime_opt_view, spec_connection_active, spec_is_esm_dep_like, ModuleGraph,
};
use crate::runtime::RuntimeSpec;

verus! {

/// The runtime-independent facts about one module.
pub struct NoRuntimeModuleCache {
    /// Union of the runtimes of every chunk containing the module.
    pub runtime: RuntimeSpec,
    /// Is the module's set of provided export names fully known?
    pub provided_names: bool,
    /// Indices of the module's outgoing ESM-like connections, in edge order.
    pub connections: Vec<usize>,
    /// Indices of the module's incoming connections, grouped by origin.
    pub incomings: Vec<(Option<usize>, Vec<usize>)>,
}

/// The module's outgoing ESM-like connection indices among the first `upto`
/// edges of the graph, in edge order.
pub open spec fn spec_esm_out(g: &ModuleGraph, m: usize, upto: int) -> Seq<usize>
    decreases upto,
{
    if upto <= 0 {
        Seq::<usize>::empty()
    } else {
        let prev = spec_esm_out(g, m, upto - 1);
        let c = g.connections@[upto - 1];
        if c.origin == Option::Some(m) && spec_is_esm_dep_like(c.kind) {
            prev.push((upto - 1) as usize)
        } else {
            prev
        }
    }
}

/// Well-formed incoming groups for module `m`: distinct keys, every listed
/// edge really is an incoming edge of `m` from the group's origin, and every
/// incoming edge of `m` is listed under its origin.
pub open spec fn incomings_wf(
    g: &ModuleGraph,
    m: usize,
    groups: Seq<(Option<usize>, Vec<usize>)>,
) -> bool {
    &&& forall|a: int, b: int|
        0 <= a < b < groups.len() ==> (#[trigger] groups[a]).0 != (#[trigger] groups[b]).0
    &&& forall|a: int, k: int|
        #![trigger groups[a].1@[k]]
        0 <= a < groups.len() && 0 <= k < groups[a].1@.len() ==> ((groups[a].1@[k] as int)
            < g.connections@.len() && g.connections@[groups[a].1@[k] as int].target == m
            && g.connections@[groups[a].1@[k] as int].origin == groups[a].0)
    &&& forall|j: int|
        0 <= j < g.connections@.len() && (#[trigger] g.connections@[j]).target == m
            ==> exists|a: int|
            0 <= a < groups.len() && (#[trigger] groups[a]).0 == g.connections@[j].origin
                && groups[a].1@.contains(j as usize)
}

/// The facts are about module `m` of graph `g`.
pub open spec fn facts_ok(
    g: &ModuleGraph,
    cg: &ChunkGraph,
    m: usize,
    f: &NoRuntimeModuleCache,
) -> bool {
    &&& f.runtime.wf()
    &&& forall|x: u64| f.runtime@.contains(x) <==> cg.module_runtime_has(m as int, x)
    &&& f.provided_names == (spec_dynamic_export_names(g, m as int).len() == 0)
    &&& f.connections@ == spec_esm_out(g, m, g.connections@.len() as int)
    &&& incomings_wf(g, m, f.incomings@)
}

/// Compute the facts for one module.
pub fn build_module_facts(g: &ModuleGraph, cg: &ChunkGraph, m: usize) -> (f: NoRuntimeModuleCache)
    requires
        g.wf(),
        cg.wf(g.num_modules()),
        m < g.num_modules(),
    ensures
        facts_ok(g, cg, m, &f),
{
    let runtime = cg.module_runtime(m);
    let dynamic_count = count_dynamic_exports(g, m);
    let provided_names = dynamic_count == 0;

    // Outgoing ESM-like connections, in edge order.
    let mut connections: Vec<usize> = Vec::new();
    let mut j: usize = 0;
    let n = g.connections.len();
    while j < n
        invariant
            g.wf(),
            m < g.num_modules(),
            n == g.connections@.len(),
            0 <= j <= n,
            connections@ == spec_esm_out(g, m, j as int),
        decreases n - j,
    {
        let c = &g.connections[j];
        let is_origin = match c.origin {
            Option::Some(o) => o == m,
            Option::None => false,
        };
        if is_origin && is_esm_dep_like(c.kind) {
            connections.push(j);
        }
        j = j + 1;
    }

    // Incoming connections grouped by origin.
    let mut incomings: Vec<(Option<usize>, Vec<usize>)> = Vec::new();
    let mut j2: usize = 0;
    while j2 < n
        invariant
            g.wf(),
            m < g.num_modules(),
            n == g.connections@.len(),
            0 <= j2 <= n,
            forall|a: int, b: int|
                0 <= a < b < incomings@.len() ==> (#[trigger] incomings@[a]).0 != (
                #[trigger] incomings@[b]).0,
            forall|a: int, k: int|
                #![trigger incomings@[a].1@[k]]
                0 <= a < incomings@.len() && 0 <= k < incomings@[a].1@.len() ==> ((
                incomings@[a].1@[k] as int) < g.connections@.len()
                    && g.connections@[incomings@[a].1@[k] as int].target == m
                    && g.connections@[incomings@[a].1@[k] as int].origin == incomings@[a].0),
            forall|jj: int|
                0 <= jj < j2 && (#[trigger] g.connections@[jj]).target == m ==> exists|a: int|
                    0 <= a < incomings@.len() && (#[trigger] incomings@[a]).0
                        == g.connections@[jj].origin && incomings@[a].1@.contains(jj as usize),
        decreases n - j2,
    {
        let c = &g.connections[j2];
        if c.target == m {
            let key = c.origin;
            let mut gi: usize = 0;
            let mut found = false;
            let glen = incomings.len();
            while gi < glen && !found
                invariant
                    glen == incomings@.len(),
                    0 <= gi <= glen,
                    !found ==> forall|a: int| 0 <= a < gi ==> (#[trigger] incomings@[a]).0 != key,
                    found ==> gi < glen && incomings@[gi as int].0 == key,
                decreases glen - gi + (if found { 0int } else { 1int }),
            {
                let same = match (&incomings[gi].0, &key) {
                    (Option::Some(a), Option::Some(b)) => *a == *b,
                    (Option::None, Option::None) => true,
                    _ => false,
                };
                if same {
                    found = true;
                } else {
                    gi = gi + 1;
                }
            }
            let ghost before = incomings@;
            if found {
                let slot = &mut incomings[gi];
                slot.1.push(j2);
                proof {
                    assert(incomings@[gi as int].0 == key);
                    assert(incomings@[gi as int].1@ == before[gi as int].1@.push(j2));
                    assert(forall|a: int|
                        0 <= a < incomings@.len() && a != gi ==> incomings@[a] == before[a]);
                    assert(incomings@[gi as int].1@.contains(j2)) by {
                        assert(incomings@[gi as int].1@[before[gi as int].1@.len() as int] == j2);
                    }
                    assert forall|jj: int|
                        0 <= jj < j2 + 1 && (#[trigger] g.connections@[jj]).target
                            == m implies exists|a: int|
                        0 <= a < incomings@.len() && (#[trigger] incomings@[a]).0
                            == g.connections@[jj].origin && incomings@[a].1@.contains(
                        jj as usize,
                    ) by {
                        if jj < j2 {
                            let a = choose|a: int|
                                0 <= a < before.len() && (#[trigger] before[a]).0
                                    == g.connections@[jj].origin && before[a].1@.contains(
                                    jj as usize,
                                );
                            if a == gi {
                                assert(incomings@[a].1@.contains(jj as usize)) by {
                                    let k = choose|k: int|
                                        0 <= k < before[a].1@.len() && #[trigger] before[a].1@[k]
                                            == jj as usize;
                                    assert(incomings@[a].1@[k] == jj as usize);
                                }
                            } else {
                                assert(incomings@[a] == before[a]);
                            }
                        } else {
                            assert(incomings@[gi as int].0 == g.connections@[jj].origin);
                        }
                    }
                }
            } else {
                let mut fresh: Vec<usize> = Vec::new();
                fresh.push(j2);
                incomings.push((key, fresh));
                proof {
                    let a_new = before.len() as int;
                    assert(incomings@[a_new].0 == key);
                    assert(incomings@[a_new].1@ =~= seq![j2]);
                    assert(incomings@[a_new].1@.contains(j2)) by {
                        assert(incomings@[a_new].1@[0] == j2);
                    }
                    assert(forall|a: int| 0 <= a < before.len() ==> incomings@[a] == before[a]);
                    assert forall|jj: int|
                        0 <= jj < j2 + 1 && (#[trigger] g.connections@[jj]).target
                            == m implies exists|a: int|
                        0 <= a < incomings@.len() && (#[trigger] incomings@[a]).0
                            == g.connections@[jj].origin && incomings@[a].1@.contains(
                        jj as usize,
                    ) by {
                        if jj < j2 {
                            let a = choose|a: int|
                                0 <= a < before.len() && (#[trigger] before[a]).0
                                    == g.connections@[jj].origin && before[a].1@.contains(
                                    jj as usize,
                                );
                            assert(incomings@[a] == before[a]);
                        } else {
                            assert(incomings@[a_new].0 == g.connections@[jj].origin);
                        }
                    }
                }
            }
        }
        j2 = j2 + 1;
    }

    NoRuntimeModuleCache { runtime, provided_names, connections, incomings }
}

/// How many exports are not definitely provided.
fn count_dynamic_exports(g: &ModuleGraph, m: usize) -> (n: usize)
    requires
        g.wf(),
        m < g.num_modules(),
    ensures
        n == spec_dynamic_export_names(g, m as int).len(),
{
    let names = crate::classify::dynamic_export_names(g, m);
    names.len()
}

/// There is a live ESM-like edge from `from` to `to` for the given runtime.
pub open spec fn has_active_esm_import(
    g: &ModuleGraph,
    from: usize,
    to: usize,
    rt: Option<Seq<u64>>,
) -> bool {
    exists|j: int|
        0 <= j < g.connections@.len() && (#[trigger] g.connections@[j]).origin == Option::Some(from)
            && g.connections@[j].target == to && spec_is_esm_dep_like(g.connections@[j].kind)
            && spec_connection_active(g.connections@[j], rt)
}

/// The import targets of a module: targets of its live ESM-like outgoing
/// edges, first occurrence only, in edge order, kept when the edge names
/// specific exports or the importing module's own export names are known.
pub open spec fn spec_imports_upto(
    g: &ModuleGraph,
    cache_conns: Seq<usize>,
    provided: bool,
    rt: Option<Seq<u64>>,
    upto: int,
) -> Seq<usize>
    decreases upto,
{
    if upto <= 0 {
        Seq::<usize>::empty()
    } else {
        let prev = spec_imports_upto(g, cache_conns, provided, rt, upto - 1);
        let c = g.connections@[cache_conns[upto - 1] as int];
        if spec_connection_active(c, rt) && (c.has_named_imports || provided) && !prev.contains(
            c.target,
        ) {
            prev.push(c.target)
        } else {
            prev
        }
    }
}

/// The modules imported by `mi` under the working runtime.
pub(crate) fn get_imports_of(
    g: &ModuleGraph,
    cg: &ChunkGraph,
    mi: usize,
    runtime: Option<&RuntimeSpec>,
    facts: &NoRuntimeModuleCache,
) -> (r: Vec<usize>)
    requires
        g.wf(),
        cg.wf(g.num_modules()),
        mi < g.num_modules(),
        facts_ok(g, cg, mi, facts),
    ensures
        r@ == spec_imports_upto(
            g,
            facts.connections@,
            facts.provided_names,
            runtime_opt_view(runtime),
            facts.connections@.len() as int,
        ),
        crate::config::distinct_ids(r@),
        forall|k: int| 0 <= k < r@.len() ==> (#[trigger] r@[k]) < g.num_modules(),
        forall|k: int|
            0 <= k < r@.len() ==> has_active_esm_import(
                g,
                mi,
                #[trigger] r@[k],
                runtime_opt_view(runtime),
            ),
{
    let nconn = g.connections.len();
    let ghost rt = runtime_opt_view(runtime);
    let mut r: Vec<usize> = Vec::new();
    let mut i: usize = 0;
    let len = facts.connections.len();
    while i < len
        invariant
            g.wf(),
            cg.wf(g.num_modules()),
            mi < g.num_modules(),
            facts_ok(g, cg, mi, facts),
            rt == runtime_opt_view(runtime),
            nconn == g.connections@.len(),
            len == facts.connections@.len(),
            0 <= i <= len,
            r@ == spec_imports_upto(g, facts.connections@, facts.provided_names, rt, i as int),
            crate::config::distinct_ids(r@),
            forall|k: int| 0 <= k < r@.len() ==> (#[trigger] r@[k]) < g.num_modules(),
            forall|k: int|
                0 <= k < r@.len() ==> has_active_esm_import(g, mi, #[trigger] r@[k], rt),
        decreases len - i,
    {
        let j = facts.connections[i];
        proof {
            assert(g.connections@.len() <= usize::MAX);
            lemma_esm_out_elements(g, mi, g.connections@.len() as int);
            assert(facts.connections@.contains(j)) by {
                assert(facts.connections@[i as int] == j);
            }
        }
        let c = &g.connections[j];
        let ghost before = r@;
        if c.is_active(runtime) && (c.has_named_imports || facts.provided_names) {
            if !crate::chunks::contains_usize(&r, c.target) {
                r.push(c.target);
                proof {
                    crate::seq_util::lemma_push_contains(before, g.connections@[j as int].target);
                    assert(crate::config::distinct_ids(r@)) by {
                        assert(forall|k: int| 0 <= k < before.len() ==> r@[k] == before[k]);
                        assert(r@[before.len() as int] == g.connections@[j as int].target);
                    }
                    assert(has_active_esm_import(g, mi, g.connections@[j as int].target, rt)) by {
                        assert(g.connections@[j as int].origin == Option::Some(mi));
                        assert(spec_is_esm_dep_like(g.connections@[j as int].kind));
                    }
                }
            }
        }
        i = i + 1;
    }
    r
}

/// Every index listed by `spec_esm_out` is an ESM-like edge out of `m`.
pub proof fn lemma_esm_out_elements(g: &ModuleGraph, m: usize, upto: int)
    requires
        upto <= g.connections@.len(),
        upto <= usize::MAX,
    ensures
        forall|k: int|
            #![trigger spec_esm_out(g, m, upto)[k]]
            0 <= k < spec_esm_out(g, m, upto).len() ==> ((spec_esm_out(g, m, upto)[k] as int)
                < g.connections@.len() && g.connections@[spec_esm_out(g, m, upto)[k] as int].origin
                == Option::Some(m) && spec_is_esm_dep_like(
                g.connections@[spec_esm_out(g, m, upto)[k] as int].kind,
            )),
    decreases upto,
{
    if upto > 0 {
        lemma_esm_out_elements(g, m, upto - 1);
        let prev = spec_esm_out(g, m, upto - 1);
        let cur = spec_esm_out(g, m, upto);
        assert forall|k: int|
            0 <= k < cur.len() implies ((cur[k] as int) < g.connections@.len()
            && g.connections@[cur[k] as int].origin == Option::Some(m) && spec_is_esm_dep_like(
            g.connections@[cur[k] as int].kind,
        )) by {
            if cur == prev {
                assert(cur[k] == prev[k]);
            } else {
                if k < prev.len() {
                    assert(cur[k] == prev[k]);
                } else {
                    assert(cur[k] == (upto - 1) as usize);
                }
            }
        }
    }
}

} // verus!

verus! {

impl crate::pass::ModuleConcatenationPlugin {
    /// The modules imported by `mi` under the working runtime: the targets of
    /// its live ESM-like outgoing edges, kept when the edge names specific
    /// exports or the module's own export names are known, first occurrence
    /// only, in edge order.
    pub fn get_imports(
        g: &ModuleGraph,
        cg: &ChunkGraph,
        mi: usize,
        runtime: Option<&RuntimeSpec>,
        facts: &NoRuntimeModuleCache,
    ) -> (r: Vec<usize>)
        requires
            g.wf(),
            cg.wf(g.num_modules()),
            mi < g.num_modules(),
            facts_ok(g, cg, mi, facts),
        ensures
            r@ == spec_imports_upto(
                g,
                facts.connections@,
                facts.provided_names,
                runtime_opt_view(runtime),
                facts.connections@.len() as int,
            ),
            crate::config::distinct_ids(r@),
            forall|k: int| 0 <= k < r@.len() ==> (#[trigger] r@[k]) < g.num_modules(),
            forall|k: int|
                0 <= k < r@.len() ==> has_active_esm_import(
                    g,
                    mi,
                    #[trigger] r@[k],
                    runtime_opt_view(runtime),
                ),
    {
        get_imports_of(g, cg, mi, runtime, facts)
    }
}

} // verus!
