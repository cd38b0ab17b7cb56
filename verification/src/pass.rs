//! The optimization pass: eligibility classification, per-module fact cache,
//! root scheduling with the backtracking builder, configuration resolution,
//! and graph integration, in that order.  The search phases only read the
//! graph; all mutation is deferred to integration.

use vstd::prelude::*;

use crate::builder::{
    all_facts_ok, linked_to_earlier, members_admissible, members_linked, members_valid,
    modules_linked, try_to_add,
};
use crate::chunks::ChunkGraph;
use crate::classify::{classify_module, spec_can_be_inner, spec_can_be_root};
use crate::config::{
    ConcatConfiguration, Problem, ProblemView, Warning, WarningView,
};
use crate::facts::{build_module_facts, get_imports_of, NoRuntimeModuleCache};
use crate::graph::ModuleGraph;
use crate::runtime::RuntimeSpec;
use crate::text::{spec_join_comma, join_comma};

verus! {

/// The rendered text of a problem.
pub open spec fn spec_problem_text(p: ProblemView) -> Seq<char> {
    match p {
        ProblemView::NotInSameChunks { module, missing_chunks, module_chunks } => "Module "@
            + module + " is not in the same chunk(s) (expected in chunk(s) "@ + spec_join_comma(
            missing_chunks,
        ) + ", module is in chunk(s) "@ + spec_join_comma(module_chunks) + ")"@,
        ProblemView::ReferencedExternally { module } => "Module "@ + module + " is referenced"@,
        ProblemView::ReferencedFromDifferentChunks { module, importers } => "Module "@ + module
            + " is referenced from different chunks by these modules: "@ + spec_join_comma(
            importers,
        ),
        ProblemView::UnsupportedSyntax { module, importers } => "Module "@ + module
            + " is referenced from these modules with unsupported syntax: "@ + spec_join_comma(
            importers,
        ),
        ProblemView::RuntimeCondition { module, importers } => "Module "@ + module
            + " is runtime-dependent referenced by these modules: "@ + spec_join_comma(importers),
    }
}

impl Problem {
    /// Render the problem as a diagnostic line.
    pub fn message(&self) -> (r: String)
        ensures
            r@ == spec_problem_text(self.dview()),
    {
        match self {
            Problem::NotInSameChunks { module, missing_chunks, module_chunks } => {
                let missing = join_comma(missing_chunks);
                let own = join_comma(module_chunks);
                let mut r = String::new();
                r.append("Module ");
                r.append(module.as_str());
                r.append(" is not in the same chunk(s) (expected in chunk(s) ");
                r.append(missing.as_str());
                r.append(", module is in chunk(s) ");
                r.append(own.as_str());
                r.append(")");
                proof {
                    assert(r@ =~= spec_problem_text(self.dview()));
                }
                r
            },
            Problem::ReferencedExternally { module } => {
                let mut r = String::new();
                r.append("Module ");
                r.append(module.as_str());
                r.append(" is referenced");
                proof {
                    assert(r@ =~= spec_problem_text(self.dview()));
                }
                r
            },
            Problem::ReferencedFromDifferentChunks { module, importers } => {
                let joined = join_comma(importers);
                let mut r = String::new();
                r.append("Module ");
                r.append(module.as_str());
                r.append(" is referenced from different chunks by these modules: ");
                r.append(joined.as_str());
                proof {
                    assert(r@ =~= spec_problem_text(self.dview()));
                }
                r
            },
            Problem::UnsupportedSyntax { module, importers } => {
                let joined = join_comma(importers);
                let mut r = String::new();
                r.append("Module ");
                r.append(module.as_str());
                r.append(" is referenced from these modules with unsupported syntax: ");
                r.append(joined.as_str());
                proof {
                    assert(r@ =~= spec_problem_text(self.dview()));
                }
                r
            },
            Problem::RuntimeCondition { module, importers } => {
                let joined = join_comma(importers);
                let mut r = String::new();
                r.append("Module ");
                r.append(module.as_str());
                r.append(" is runtime-dependent referenced by these modules: ");
                r.append(joined.as_str());
                proof {
                    assert(r@ =~= spec_problem_text(self.dview()));
                }
                r
            },
        }
    }
}

/// The classifier's bailout reasons for a module, each as the full log line.
pub open spec fn spec_prefixed_reasons(g0: &ModuleGraph, cg: &ChunkGraph, m: int) -> Seq<
    Seq<char>,
> {
    crate::classify::spec_bailout_reasons(g0, cg, m).map_values(
        |t: Seq<char>| "ModuleConcatenation bailout: "@ + t,
    )
}

/// A bailout line, ready for the per-module optimization-bailout log.
pub fn format_bailout_reason(msg: &str) -> (r: String)
    ensures
        r@ == "ModuleConcatenation bailout: "@ + msg@,
{
    crate::text::str2("ModuleConcatenation bailout: ", msg)
}

/// A module's readable identifier, or a placeholder for an unknown id.
pub open spec fn spec_ident(g: &ModuleGraph, m: usize) -> Seq<char> {
    if m < g.num_modules() {
        g.modules@[m as int].readable_identifier@
    } else {
        "unknown module"@
    }
}

fn ident_of(g: &ModuleGraph, m: usize) -> (r: String)
    ensures
        r@ == spec_ident(g, m),
{
    if m < g.modules.len() {
        crate::config::clone_string(&g.modules[m].readable_identifier)
    } else {
        crate::classify::string_lit("unknown module")
    }
}

/// The reason recorded against a module id, first entry winning.
pub open spec fn spec_reason_lookup(s: Seq<(usize, String)>, m: usize) -> Option<Seq<char>>
    decreases s.len(),
{
    if s.len() == 0 {
        Option::None
    } else if s[0].0 == m {
        Option::Some(s[0].1@)
    } else {
        spec_reason_lookup(s.skip(1), m)
    }
}

/// The stage as a plugin object: it carries the per-module bailout reasons it
/// recorded, so transitive warnings can cite them.
pub struct ModuleConcatenationPlugin {
    pub bailout_reason_map: Vec<(usize, String)>,
}

/// The rendered text of a recorded warning against a candidate module.
pub open spec fn spec_warning_text(
    map: Seq<(usize, String)>,
    g: &ModuleGraph,
    module: usize,
    w: WarningView,
) -> Seq<char> {
    match w {
        WarningView::Problem(p) => "ModuleConcatenation bailout: "@ + "Cannot concat with "@
            + spec_ident(g, module) + ": "@ + spec_problem_text(p),
        WarningView::Id(id) => {
            let suffix = match spec_reason_lookup(map, id) {
                Option::Some(r) => ": "@ + r,
                Option::None => Seq::<char>::empty(),
            };
            if id == module {
                "ModuleConcatenation bailout: "@ + "Cannot concat with "@ + spec_ident(g, module)
                    + suffix
            } else {
                "ModuleConcatenation bailout: "@ + "Cannot concat with "@ + spec_ident(g, module)
                    + " because of "@ + spec_ident(g, id) + suffix
            }
        },
    }
}

impl ModuleConcatenationPlugin {
    pub fn new() -> (r: ModuleConcatenationPlugin)
        ensures
            r.bailout_reason_map@.len() == 0,
    {
        ModuleConcatenationPlugin { bailout_reason_map: Vec::new() }
    }

    /// Record the inner bailout reason for a module, replacing an earlier
    /// one; reasons recorded for other modules are untouched.
    pub fn set_inner_bailout_reason(&mut self, module: usize, reason: String)
        ensures
            spec_reason_lookup(final(self).bailout_reason_map@, module) == Option::Some(reason@),
            forall|m2: usize|
                m2 != module ==> spec_reason_lookup(final(self).bailout_reason_map@, m2)
                    == spec_reason_lookup(old(self).bailout_reason_map@, m2),
    {
        let mut i: usize = 0;
        let n = self.bailout_reason_map.len();
        while i < n
            invariant
                self.bailout_reason_map@ == old(self).bailout_reason_map@,
                n == self.bailout_reason_map@.len(),
                0 <= i <= n,
                forall|k: int| 0 <= k < i ==> (#[trigger] self.bailout_reason_map@[k]).0 != module,
            decreases n - i,
        {
            if self.bailout_reason_map[i].0 == module {
                let ghost before = self.bailout_reason_map@;
                self.bailout_reason_map[i] = (module, reason);
                proof {
                    lemma_reason_lookup_hit(self.bailout_reason_map@, module, i as int);
                    lemma_reason_lookup_other_keys(
                        before,
                        self.bailout_reason_map@,
                        i as int,
                        module,
                    );
                }
                return;
            }
            i = i + 1;
        }
        let ghost before = self.bailout_reason_map@;
        self.bailout_reason_map.push((module, reason));
        proof {
            assert(self.bailout_reason_map@[before.len() as int].0 == module);
            lemma_reason_lookup_hit(self.bailout_reason_map@, module, before.len() as int);
            lemma_reason_lookup_other_keys(
                before,
                self.bailout_reason_map@,
                before.len() as int,
                module,
            );
        }
    }

    /// The recorded inner bailout reason, if any.
    pub fn get_inner_bailout_reason(&self, module: usize) -> (r: Option<String>)
        ensures
            match r {
                Option::Some(s) => spec_reason_lookup(self.bailout_reason_map@, module)
                    == Option::Some(s@),
                Option::None => spec_reason_lookup(self.bailout_reason_map@, module) is None,
            },
    {
        let mut i: usize = 0;
        let n = self.bailout_reason_map.len();
        while i < n
            invariant
                n == self.bailout_reason_map@.len(),
                0 <= i <= n,
                forall|k: int| 0 <= k < i ==> (#[trigger] self.bailout_reason_map@[k]).0 != module,
            decreases n - i,
        {
            if self.bailout_reason_map[i].0 == module {
                let r = crate::config::clone_string(&self.bailout_reason_map[i].1);
                proof {
                    lemma_reason_lookup_hit(self.bailout_reason_map@, module, i as int);
                }
                return Option::Some(r);
            }
            i = i + 1;
        }
        proof {
            lemma_reason_lookup_miss(self.bailout_reason_map@, module);
        }
        Option::None
    }

    /// Record a bailout reason: the plugin's own map keeps the raw reason (so
    /// transitive warnings can cite it), and the module's optimization-bailout
    /// log gains the prefixed line.
    pub fn set_bailout_reason(&mut self, module: usize, reason: String, g: &mut ModuleGraph)
        requires
            old(g).wf(),
            module < old(g).num_modules(),
        ensures
            final(g).wf(),
            final(g).modules@ == old(g).modules@,
            final(g).connections@ == old(g).connections@,
            final(g).bailouts@.len() == old(g).bailouts@.len(),
            final(g).bailouts@[module as int]@.len() == old(g).bailouts@[module as int]@.len() + 1,
            forall|k: int|
                0 <= k < old(g).bailouts@[module as int]@.len() ==> final(g).bailouts@[module as int]@[k] == old(g).bailouts@[module as int]@[k],
            final(g).bailouts@[module as int]@.last()@ == "ModuleConcatenation bailout: "@
                + reason@,
            forall|i: int|
                0 <= i < old(g).bailouts@.len() && i != module ==> final(g).bailouts@[i] == old(g).bailouts@[i],
            spec_reason_lookup(final(self).bailout_reason_map@, module) == Option::Some(reason@),
            forall|m2: usize|
                m2 != module ==> spec_reason_lookup(final(self).bailout_reason_map@, m2)
                    == spec_reason_lookup(old(self).bailout_reason_map@, m2),
    {
        let line = format_bailout_reason(reason.as_str());
        self.set_inner_bailout_reason(module, reason);
        g.add_bailout(module, line);
    }

    /// Render a recorded warning as a bailout line, resolving a transitive
    /// reference to the blocking module's own recorded reason.
    pub fn format_bailout_warning(&self, g: &ModuleGraph, module: usize, warning: &Warning) -> (r:
        String)
        ensures
            r@ == spec_warning_text(self.bailout_reason_map@, g, module, warning.dview()),
    {
        match warning {
            Warning::Problem(p) => {
                let text = p.message();
                let ident = ident_of(g, module);
                let body = crate::text::str4(
                    "Cannot concat with ",
                    ident.as_str(),
                    ": ",
                    text.as_str(),
                );
                let r = format_bailout_reason(body.as_str());
                proof {
                    assert(r@ =~= spec_warning_text(
                        self.bailout_reason_map@,
                        g,
                        module,
                        warning.dview(),
                    ));
                }
                r
            },
            Warning::Id(id) => {
                let ident = ident_of(g, module);
                let suffix = match self.get_inner_bailout_reason(*id) {
                    Option::Some(reason) => crate::text::str2(": ", reason.as_str()),
                    Option::None => String::new(),
                };
                let body = if *id == module {
                    crate::text::str3("Cannot concat with ", ident.as_str(), suffix.as_str())
                } else {
                    let blocking = ident_of(g, *id);
                    crate::text::str5(
                        "Cannot concat with ",
                        ident.as_str(),
                        " because of ",
                        blocking.as_str(),
                        suffix.as_str(),
                    )
                };
                let r = format_bailout_reason(body.as_str());
                proof {
                    assert(r@ =~= spec_warning_text(
                        self.bailout_reason_map@,
                        g,
                        module,
                        warning.dview(),
                    ));
                }
                r
            },
        }
    }
}

/// Two reason maps that agree everywhere but at one position, whose key is
/// `m` in both, give the same lookup for every other key.
proof fn lemma_reason_lookup_other_keys(
    s1: Seq<(usize, String)>,
    s2: Seq<(usize, String)>,
    i: int,
    m: usize,
)
    requires
        s2.len() == s1.len() || (s2.len() == s1.len() + 1 && i == s1.len()),
        0 <= i < s2.len(),
        forall|k: int| 0 <= k < s1.len() && k != i ==> s2[k] == #[trigger] s1[k],
        i < s1.len() ==> s1[i].0 == m,
        s2[i].0 == m,
    ensures
        forall|m2: usize|
            m2 != m ==> spec_reason_lookup(s2, m2) == spec_reason_lookup(s1, m2),
    decreases s1.len(),
{
    assert forall|m2: usize| m2 != m implies spec_reason_lookup(s2, m2) == spec_reason_lookup(
        s1,
        m2,
    ) by {
        if s1.len() == 0 {
            // s2 is empty or holds only the m entry
            if s2.len() == 1 {
                assert(spec_reason_lookup(s2, m2) == spec_reason_lookup(s2.skip(1), m2));
                assert(s2.skip(1) =~= s1);
            }
        } else {
            if i == 0 {
                assert(s1[0].0 == m && s2[0].0 == m);
                assert(s1.skip(1) =~= s2.skip(1)) by {
                    assert(forall|k: int|
                        0 <= k < s1.len() - 1 ==> s1.skip(1)[k] == s1[k + 1] && s2.skip(1)[k]
                            == s2[k + 1]);
                }
            } else {
                assert(s1[0] == s2[0]);
                if s1[0].0 == m2 {
                } else {
                    assert(forall|k: int|
                        0 <= k < s1.len() - 1 ==> s1.skip(1)[k] == s1[k + 1]);
                    assert(forall|k: int|
                        0 <= k < s2.len() - 1 ==> s2.skip(1)[k] == s2[k + 1]);
                    lemma_reason_lookup_other_keys(s1.skip(1), s2.skip(1), i - 1, m);
                }
            }
        }
    }
}

proof fn lemma_reason_lookup_hit(s: Seq<(usize, String)>, m: usize, i: int)
    requires
        0 <= i < s.len(),
        s[i].0 == m,
        forall|k: int| 0 <= k < i ==> (#[trigger] s[k]).0 != m,
    ensures
        spec_reason_lookup(s, m) == Option::Some(s[i].1@),
    decreases i,
{
    if i == 0 {
    } else {
        assert(s[0].0 != m);
        assert(s.skip(1)[i - 1] == s[i]);
        assert(forall|k: int| 0 <= k < i - 1 ==> (#[trigger] s.skip(1)[k]).0 != m) by {
            assert(forall|k: int| 0 <= k < i - 1 ==> s.skip(1)[k] == s[k + 1]);
        }
        lemma_reason_lookup_hit(s.skip(1), m, i - 1);
    }
}

proof fn lemma_reason_lookup_miss(s: Seq<(usize, String)>, m: usize)
    requires
        forall|k: int| 0 <= k < s.len() ==> (#[trigger] s[k]).0 != m,
    ensures
        spec_reason_lookup(s, m) is None,
    decreases s.len(),
{
    if s.len() > 0 {
        assert(forall|k: int| 0 <= k < s.len() - 1 ==> (#[trigger] s.skip(1)[k]).0 != m) by {
            assert(forall|k: int| 0 <= k < s.len() - 1 ==> s.skip(1)[k] == s[k + 1]);
        }
        lemma_reason_lookup_miss(s.skip(1), m);
    }
}

} // verus!

verus! {

/// Classification depends only on the module table and the chunk graph, so
/// appending bailout log lines does not change it.
proof fn lemma_classify_stable(g1: &ModuleGraph, g2: &ModuleGraph, cg: &ChunkGraph, m: int)
    requires
        g1.modules@ == g2.modules@,
    ensures
        spec_can_be_root(g1, cg, m) == spec_can_be_root(g2, cg, m),
        spec_can_be_inner(g1, cg, m) == spec_can_be_inner(g2, cg, m),
        crate::classify::spec_bailout_reasons(g1, cg, m) == crate::classify::spec_bailout_reasons(
            g2,
            cg,
            m,
        ),
{
    assert(crate::classify::spec_unresolved_reexport_names(g1, m)
        == crate::classify::spec_unresolved_reexport_names(g2, m));
    assert(crate::classify::spec_dynamic_export_names(g1, m)
        == crate::classify::spec_dynamic_export_names(g2, m));
    assert(g1.modules@[m] == g2.modules@[m]);
}

/// Does `a` come no later than `b` in root order: shallower first, ties by
/// module id?
pub open spec fn depth_order_le(g: &ModuleGraph, a: usize, b: usize) -> bool {
    ||| g.modules@[a as int].depth < g.modules@[b as int].depth
    ||| (g.modules@[a as int].depth == g.modules@[b as int].depth && a <= b)
}

/// Sort candidate roots by graph depth, ties by id.
#[verifier::loop_isolation(false)]
fn sort_by_depth(g: &ModuleGraph, v: &Vec<usize>) -> (r: Vec<usize>)
    requires
        crate::config::distinct_ids(v@),
        forall|k: int| 0 <= k < v@.len() ==> (#[trigger] v@[k]) < g.num_modules(),
    ensures
        crate::config::distinct_ids(r@),
        r@.len() == v@.len(),
        forall|y: usize| r@.contains(y) <==> v@.contains(y),
        forall|i: int, j: int| 0 <= i < j < r@.len() ==> depth_order_le(g, r@[i], r@[j]),
{
    let mut r: Vec<usize> = Vec::new();
    let mut i: usize = 0;
    while i < v.len()
        invariant
            0 <= i <= v@.len(),
            r@.len() == i,
            forall|y: usize| r@.contains(y) <==> v@.take(i as int).contains(y),
            forall|p: int, q: int| 0 <= p < q < r@.len() ==> depth_order_le(g, r@[p], r@[q]),
            forall|k: int| 0 <= k < r@.len() ==> (#[trigger] r@[k]) < g.num_modules(),
            crate::config::distinct_ids(r@),
        decreases v@.len() - i,
    {
        let x = v[i];
        proof {
            assert(!r@.contains(x)) by {
                if v@.take(i as int).contains(x) {
                    let k = choose|k: int| 0 <= k < i && #[trigger] v@.take(i as int)[k] == x;
                    assert(v@[k] == x);
                    assert(v@[i as int] == x);
                    assert(false);
                }
            }
        }
        // find the insertion point
        let mut p: usize = 0;
        let rlen = r.len();
        while p < rlen && (g.modules[r[p]].depth < g.modules[x].depth || (g.modules[r[p]].depth
            == g.modules[x].depth && r[p] < x))
            invariant
                rlen == r@.len(),
                0 <= p <= rlen,
                forall|k: int| 0 <= k < p ==> depth_order_le(g, r@[k], x),
            decreases rlen - p,
        {
            proof {
                assert(depth_order_le(g, r@[p as int], x));
            }
            p = p + 1;
        }
        proof {
            if p < rlen {
                assert(depth_order_le(g, x, r@[p as int])) by {
                    assert(r@[p as int] != x) by {
                        assert(!r@.contains(x));
                        assert(r@[p as int] == r@[p as int]);
                    }
                }
            }
        }
        let ghost before = r@;
        r.insert(p, x);
        proof {
            assert(forall|k: int| 0 <= k < p ==> r@[k] == before[k]);
            assert(r@[p as int] == x);
            assert(forall|k: int| p < k < r@.len() ==> r@[k] == before[k - 1]);
            assert forall|a: int, b: int| 0 <= a < b < r@.len() implies depth_order_le(
                g,
                r@[a],
                r@[b],
            ) by {
                if a < p && b > p {
                    assert(depth_order_le(g, before[a], before[b - 1]) || b - 1 == a);
                    if b - 1 == a {
                        assert(depth_order_le(g, r@[a], x) || a >= p);
                    }
                } else if a == p && b > p {
                    assert(depth_order_le(g, x, r@[p as int]) || p >= before.len());
                    assert(depth_order_le(g, before[p as int], before[b - 1]) || b - 1 == p);
                } else if a < p && b == p {
                }
            }
            crate::seq_util::lemma_take_succ_contains(v@, i as int);
            assert forall|y: usize| r@.contains(y) <==> v@.take(i + 1).contains(y) by {
                if r@.contains(y) {
                    let k = choose|k: int| 0 <= k < r@.len() && #[trigger] r@[k] == y;
                    if k < p {
                        assert(before[k] == y);
                        assert(before.contains(y));
                    } else if k > p {
                        assert(before[k - 1] == y);
                        assert(before.contains(y));
                    }
                }
                if v@.take(i + 1).contains(y) {
                    if y == x {
                        assert(r@[p as int] == y);
                        assert(r@.contains(y));
                    } else {
                        assert(before.contains(y));
                        let k = choose|k: int|
                            0 <= k < before.len() && #[trigger] before[k] == y;
                        if k < p {
                            assert(r@[k] == y);
                        } else {
                            assert(r@[k + 1] == y);
                        }
                        assert(r@.contains(y));
                    }
                }
            }
            assert(crate::config::distinct_ids(r@)) by {
                assert forall|a: int, b: int| 0 <= a < b < r@.len() implies r@[a] != r@[b] by {
                    let a2: int = if a < p {
                        a
                    } else {
                        a - 1
                    };
                    let b2: int = if b < p {
                        b
                    } else {
                        b - 1
                    };
                    if a == p {
                        if before[b - 1] == x {
                            assert(before.contains(x));
                            assert(false);
                        }
                    } else if b == p {
                        if before[a] == x {
                            assert(before.contains(x));
                            assert(false);
                        }
                    } else {
                        assert(r@[a] == before[a2] && r@[b] == before[b2]);
                    }
                }
            }
        }
        i = i + 1;
    }
    proof {
        crate::seq_util::lemma_take_all(v@);
    }
    r
}

/// Classify every module, record the bailout diagnostics, and return the
/// candidate roots (shallowest first) and the eligible-inner table.
pub fn select_relevant(
    plugin: &mut ModuleConcatenationPlugin,
    g: &mut ModuleGraph,
    cg: &ChunkGraph,
) -> (r: (Vec<usize>, Vec<bool>))
    requires
        old(g).wf(),
        cg.wf(old(g).num_modules()),
    ensures
        final(g).wf(),
        final(g).modules@ == old(g).modules@,
        final(g).connections@ == old(g).connections@,
        final(g).bailouts@.len() == old(g).bailouts@.len(),
        // each module's log gains exactly its bailout reasons, prefixed, in
        // the order the classifier checks them
        forall|m: int|
            0 <= m < old(g).num_modules() ==> (#[trigger] final(g).bailouts@[m]).deep_view() == old(
                g,
            ).bailouts@[m].deep_view() + spec_prefixed_reasons(old(g), cg, m),
        r.1@.len() == old(g).num_modules(),
        forall|m: int|
            0 <= m < old(g).num_modules() ==> r.1@[m] == spec_can_be_inner(old(g), cg, m),
        crate::config::distinct_ids(r.0@),
        forall|k: int| 0 <= k < r.0@.len() ==> (#[trigger] r.0@[k]) < old(g).num_modules(),
        forall|k: int| 0 <= k < r.0@.len() ==> spec_can_be_root(old(g), cg, #[trigger] r.0@[k] as int),
        forall|m: usize|
            m < old(g).num_modules() && spec_can_be_root(old(g), cg, m as int) ==> r.0@.contains(m),
        forall|i: int, j: int| 0 <= i < j < r.0@.len() ==> depth_order_le(old(g), r.0@[i], r.0@[j]),
{
    let nm = g.len();
    let mut relevant: Vec<usize> = Vec::new();
    let mut inners: Vec<bool> = Vec::new();
    let mut m: usize = 0;
    while m < nm
        invariant
            g.wf(),
            cg.wf(old(g).num_modules()),
            nm == old(g).num_modules(),
            g.modules@ == old(g).modules@,
            g.connections@ == old(g).connections@,
            g.bailouts@.len() == old(g).bailouts@.len(),
            0 <= m <= nm,
            forall|m2: int|
                0 <= m2 < m ==> (#[trigger] g.bailouts@[m2]).deep_view() == old(
                    g,
                ).bailouts@[m2].deep_view() + spec_prefixed_reasons(old(g), cg, m2),
            forall|m2: int| m <= m2 < nm ==> g.bailouts@[m2] == old(g).bailouts@[m2],
            inners@.len() == m,
            forall|k: int| 0 <= k < m ==> inners@[k] == spec_can_be_inner(old(g), cg, k),
            crate::config::distinct_ids(relevant@),
            forall|k: int| 0 <= k < relevant@.len() ==> (#[trigger] relevant@[k]) < nm,
            forall|k: int|
                0 <= k < relevant@.len() ==> spec_can_be_root(
                    old(g),
                    cg,
                    #[trigger] relevant@[k] as int,
                ),
            forall|m2: usize|
                m2 < m && spec_can_be_root(old(g), cg, m2 as int) ==> relevant@.contains(m2),
            forall|a: int, b: int| 0 <= a < b < relevant@.len() ==> relevant@[a] < relevant@[b],
            forall|k: int| 0 <= k < relevant@.len() ==> (#[trigger] relevant@[k]) < m,
        decreases nm - m,
    {
        let (can_root, can_inner, reasons) = classify_module(g, cg, m);
        proof {
            lemma_classify_stable(g, old(g), cg, m as int);
        }
        let ghost rel_before = relevant@;
        if can_root {
            relevant.push(m);
            proof {
                assert(forall|k: int| 0 <= k < rel_before.len() ==> relevant@[k] == rel_before[k]);
                assert(relevant@[rel_before.len() as int] == m);
                assert forall|a: int, b: int|
                    0 <= a < b < relevant@.len() implies relevant@[a] < relevant@[b] by {
                    if b == relevant@.len() - 1 {
                        assert(relevant@[a] == rel_before[a]);
                        assert(rel_before[a] < m);
                    }
                }
                assert(crate::config::distinct_ids(relevant@)) by {
                    assert(forall|a: int, b: int|
                        0 <= a < b < relevant@.len() ==> relevant@[a] < relevant@[b]);
                }
            }
        }
        inners.push(can_inner);
        let ghost row_start = g.bailouts@[m as int].deep_view();
        let ghost rows_outer = g.bailouts@;
        proof {
            lemma_classify_stable(g, old(g), cg, m as int);
            assert(reasons.deep_view() == crate::classify::spec_bailout_reasons(old(g), cg, m as int));
        }
        let mut ri: usize = 0;
        let nreasons = reasons.len();
        while ri < nreasons
            invariant
                g.wf(),
                nm == old(g).num_modules(),
                g.modules@ == old(g).modules@,
                g.connections@ == old(g).connections@,
                g.bailouts@.len() == old(g).bailouts@.len(),
                m < nm,
                nreasons == reasons@.len(),
                0 <= ri <= nreasons,
                reasons.deep_view() == crate::classify::spec_bailout_reasons(old(g), cg, m as int),
                g.bailouts@[m as int].deep_view() == row_start + spec_prefixed_reasons(
                    old(g),
                    cg,
                    m as int,
                ).take(ri as int),
                rows_outer.len() == g.bailouts@.len(),
                forall|m2: int|
                    0 <= m2 < nm && m2 != m ==> #[trigger] g.bailouts@[m2] == rows_outer[m2],
            decreases nreasons - ri,
        {
            let ghost row_pre = g.bailouts@[m as int];
            let reason = crate::config::clone_string(&reasons[ri]);
            plugin.set_bailout_reason(m, reason, g);
            proof {
                let pr = spec_prefixed_reasons(old(g), cg, m as int);
                assert(pr[ri as int] == "ModuleConcatenation bailout: "@
                    + crate::classify::spec_bailout_reasons(old(g), cg, m as int)[ri as int]);
                assert(reason@ == reasons.deep_view()[ri as int]);
                assert(g.bailouts@[m as int].deep_view() =~= row_start + pr.take(ri + 1)) by {
                    let now = g.bailouts@[m as int].deep_view();
                    let pre_dv = row_pre.deep_view();
                    assert(pr.len() == nreasons) by {
                        assert(reasons.deep_view().len() == reasons@.len());
                    }
                    assert(pre_dv == row_start + pr.take(ri as int));
                    assert(pre_dv.len() == row_pre@.len());
                    assert(row_pre@.len() == row_start.len() + ri);
                    assert(now.len() == row_pre@.len() + 1);
                    assert forall|k: int| 0 <= k < now.len() implies now[k] == (row_start + pr.take(
                        ri + 1,
                    ))[k] by {
                        if k < row_pre@.len() {
                            assert(g.bailouts@[m as int]@[k] == row_pre@[k]);
                            assert(now[k] == g.bailouts@[m as int]@[k]@);
                            assert(pre_dv[k] == row_pre@[k]@);
                            assert((row_start + pr.take(ri + 1))[k] == pre_dv[k]) by {
                                if k >= row_start.len() {
                                    assert(pr.take(ri + 1)[k - row_start.len()] == pr.take(
                                        ri as int,
                                    )[k - row_start.len()]);
                                }
                            }
                        } else {
                            assert(g.bailouts@[m as int]@[k]@ == "ModuleConcatenation bailout: "@
                                + reason@);
                            assert(now[k] == g.bailouts@[m as int]@[k]@);
                            assert(pr[ri as int] == "ModuleConcatenation bailout: "@
                                + crate::classify::spec_bailout_reasons(old(g), cg, m as int)[ri as int]);
                            assert(reason@ == crate::classify::spec_bailout_reasons(
                                old(g),
                                cg,
                                m as int,
                            )[ri as int]) by {
                                assert(reason@ == reasons.deep_view()[ri as int]);
                            }
                            assert((row_start + pr.take(ri + 1))[k] == pr.take(ri + 1)[ri as int]);
                            assert(pr.take(ri + 1)[ri as int] == pr[ri as int]);
                        }
                    }
                }
            }
            ri = ri + 1;
        }
        proof {
            crate::seq_util::lemma_take_all(spec_prefixed_reasons(old(g), cg, m as int));
            assert(g.bailouts@[m as int].deep_view() == row_start + spec_prefixed_reasons(
                old(g),
                cg,
                m as int,
            ));
            assert(forall|m2: int|
                0 <= m2 < nm && m2 != m ==> #[trigger] g.bailouts@[m2] == rows_outer[m2]);
        }
        m = m + 1;
        proof {
            if can_root {
                assert(relevant@.contains((m - 1) as usize)) by {
                    assert(relevant@[rel_before.len() as int] == (m - 1) as usize);
                }
            }
            assert forall|m2: usize|
                m2 < m && spec_can_be_root(old(g), cg, m2 as int) implies relevant@.contains(
                m2,
            ) by {
                if m2 < m - 1 {
                    assert(rel_before.contains(m2));
                    let k = choose|k: int|
                        0 <= k < rel_before.len() && #[trigger] rel_before[k] == m2;
                    assert(relevant@[k] == m2);
                }
            }
        }
    }
    let sorted = sort_by_depth(g, &relevant);
    proof {
        assert forall|k: int|
            0 <= k < sorted@.len() implies ((#[trigger] sorted@[k]) < nm && spec_can_be_root(
            old(g),
            cg,
            sorted@[k] as int,
        )) by {
            assert(sorted@.contains(sorted@[k]));
            assert(relevant@.contains(sorted@[k]));
            let w = choose|w: int| 0 <= w < relevant@.len() && #[trigger] relevant@[w] == sorted@[k];
        }
        assert forall|i: int, j: int|
            0 <= i < j < sorted@.len() implies depth_order_le(old(g), sorted@[i], sorted@[j]) by {
            assert(depth_order_le(g, sorted@[i], sorted@[j]));
            assert(g.modules@ == old(g).modules@);
        }
        assert forall|m2: usize|
            m2 < nm && spec_can_be_root(old(g), cg, m2 as int) implies sorted@.contains(m2) by {
            assert(relevant@.contains(m2));
        }
    }
    (sorted, inners)
}

/// Compute the per-module fact cache for the whole graph.
pub fn build_all_facts(g: &ModuleGraph, cg: &ChunkGraph) -> (r: Vec<NoRuntimeModuleCache>)
    requires
        g.wf(),
        cg.wf(g.num_modules()),
    ensures
        all_facts_ok(g, cg, r@),
{
    let nm = g.len();
    let mut r: Vec<NoRuntimeModuleCache> = Vec::new();
    let mut m: usize = 0;
    while m < nm
        invariant
            g.wf(),
            cg.wf(g.num_modules()),
            nm == g.num_modules(),
            0 <= m <= nm,
            r@.len() == m,
            forall|k: int|
                0 <= k < m ==> crate::facts::facts_ok(g, cg, k as usize, &(#[trigger] r@[k])),
        decreases nm - m,
    {
        let f = build_module_facts(g, cg, m);
        r.push(f);
        m = m + 1;
    }
    r
}

} // verus!

verus! {

/// Does the optional runtime set stand for the root's active runtime: the
/// part of the root's union runtime for which its exports are used at all?
pub open spec fn matches_active_runtime(
    g: &ModuleGraph,
    f: NoRuntimeModuleCache,
    root: usize,
    rtv: Option<Seq<u64>>,
) -> bool {
    match rtv {
        Option::None => !crate::runtime::runtimes_meet(
            f.runtime@,
            g.modules@[root as int].used_runtimes@,
        ),
        Option::Some(s) => forall|x: u64|
            s.contains(x) <==> (f.runtime@.contains(x)
                && g.modules@[root as int].used_runtimes@.contains(x)),
    }
}

/// Under its active runtime, the root's import worklist starts out holding at
/// most the root itself: there is nothing to grow a configuration from.
pub open spec fn root_has_no_seeds(
    g: &ModuleGraph,
    f: NoRuntimeModuleCache,
    root: usize,
) -> bool {
    exists|rtv: Option<Seq<u64>>|
        #[trigger] matches_active_runtime(g, f, root, rtv) && (forall|q: int|
            0 <= q < crate::facts::spec_imports_upto(
                g,
                f.connections@,
                f.provided_names,
                rtv,
                f.connections@.len() as int,
            ).len() ==> crate::facts::spec_imports_upto(
                g,
                f.connections@,
                f.provided_names,
                rtv,
                f.connections@.len() as int,
            )[q] == root)
}

/// Some warning has been recorded in the configuration.
pub open spec fn some_warning_recorded(warnings: Seq<(usize, Warning)>) -> bool {
    exists|mm: usize| crate::config::spec_warning_lookup(warnings, mm) is Some
}

/// Every module marked visited is the root itself.
pub open spec fn only_root_visited(visited: Seq<bool>, root: usize) -> bool {
    forall|x: usize| (x as int) < visited.len() && visited[x as int] ==> x == root
}

/// Some accepted configuration is rooted at `m`.
pub open spec fn some_config_rooted_at(configs: Seq<ConcatConfiguration>, m: usize) -> bool {
    exists|k: int| 0 <= k < configs.len() && (#[trigger] configs[k]).root_module == m
}

/// Some accepted configuration holds `m` as a member.
pub open spec fn member_of_some_config(configs: Seq<ConcatConfiguration>, m: usize) -> bool {
    exists|k: int| 0 <= k < configs.len() && (#[trigger] configs[k]).members().contains(m)
}

/// Some bailout log line is keyed by `m`.
pub open spec fn log_mentions_root(log: Seq<(usize, String)>, m: usize) -> bool {
    exists|k: int| 0 <= k < log.len() && (#[trigger] log[k]).0 == m
}

/// The part of the root's union runtime for which its exports are used: the
/// whole runtime if every part is used, nothing if no part is, otherwise the
/// used part.
fn filter_root_runtime(runtime: &RuntimeSpec, used: &RuntimeSpec) -> (r: Option<RuntimeSpec>)
    requires
        runtime.wf(),
    ensures
        match r {
            Option::Some(s) => s.wf() && (forall|x: u64|
                s@.contains(x) <==> (runtime@.contains(x) && used@.contains(x))),
            Option::None => !crate::runtime::runtimes_meet(runtime@, used@),
        },
{
    if runtime.is_subset_of(used) {
        let r = runtime.clone_spec();
        proof {
            assert(forall|x: u64| r@.contains(x) <==> (runtime@.contains(x) && used@.contains(x)));
        }
        Option::Some(r)
    } else {
        let inter = runtime.intersection(used);
        if inter.len() == 0 {
            proof {
                if crate::runtime::runtimes_meet(runtime@, used@) {
                    let x = choose|x: u64| runtime@.contains(x) && used@.contains(x);
                    assert(inter@.contains(x));
                }
            }
            Option::None
        } else {
            Option::Some(inter)
        }
    }
}

/// The configuration's root is one of the scheduled candidate roots.
pub open spec fn root_from_relevant(relevant: Seq<usize>, c: ConcatConfiguration) -> bool {
    exists|w: int| 0 <= w < relevant.len() && relevant[w] == c.root_module
}

proof fn lemma_rooted_monotone(
    before: Seq<ConcatConfiguration>,
    after: Seq<ConcatConfiguration>,
    m: usize,
)
    requires
        before.len() <= after.len(),
        forall|k: int| 0 <= k < before.len() ==> after[k] == #[trigger] before[k],
        some_config_rooted_at(before, m),
    ensures
        some_config_rooted_at(after, m),
{
    let k = choose|k: int| 0 <= k < before.len() && (#[trigger] before[k]).root_module == m;
    assert(after[k].root_module == m);
}

proof fn lemma_member_monotone(
    before: Seq<ConcatConfiguration>,
    after: Seq<ConcatConfiguration>,
    m: usize,
)
    requires
        before.len() <= after.len(),
        forall|k: int| 0 <= k < before.len() ==> after[k] == #[trigger] before[k],
        member_of_some_config(before, m),
    ensures
        member_of_some_config(after, m),
{
    let k = choose|k: int| 0 <= k < before.len() && (#[trigger] before[k]).members().contains(m);
    assert(after[k].members().contains(m));
}

proof fn lemma_log_monotone(before: Seq<(usize, String)>, after: Seq<(usize, String)>, m: usize)
    requires
        before.len() <= after.len(),
        forall|k: int| 0 <= k < before.len() ==> after[k] == #[trigger] before[k],
        log_mentions_root(before, m),
    ensures
        log_mentions_root(after, m),
{
    let k = choose|k: int| 0 <= k < before.len() && (#[trigger] before[k]).0 == m;
    assert(after[k].0 == m);
}

/// Per-configuration guarantees the scheduler hands on.
pub open spec fn config_accepted(
    g: &ModuleGraph,
    cg: &ChunkGraph,
    inners: Seq<bool>,
    c: ConcatConfiguration,
) -> bool {
    &&& c.wf()
    &&& c.members().len() >= 2
    &&& members_valid(g, c.members())
    &&& members_linked(g, c.members())
    &&& members_admissible(g, cg, inners, c.root_module, c.members())
}

/// Drive the configuration builder over every candidate root, shallowest
/// first, skipping roots already absorbed by an earlier configuration.  The
/// worklist is seeded with the root's live imports and drained breadth-first;
/// failures become configuration-level warnings, and a configuration that
/// never grew beyond its root is discarded, its warnings rendered as bailout
/// log lines (returned alongside, keyed by root).
#[verifier::rlimit(100)]
#[verifier::spinoff_prover]
pub fn find_configurations(
    plugin: &ModuleConcatenationPlugin,
    g: &ModuleGraph,
    cg: &ChunkGraph,
    facts: &Vec<NoRuntimeModuleCache>,
    relevant_modules: &Vec<usize>,
    possible_inners: &Vec<bool>,
) -> (r: (Vec<ConcatConfiguration>, Vec<(usize, String)>))
    requires
        g.wf(),
        cg.wf(g.num_modules()),
        all_facts_ok(g, cg, facts@),
        crate::config::distinct_ids(relevant_modules@),
        forall|k: int|
            0 <= k < relevant_modules@.len() ==> (#[trigger] relevant_modules@[k])
                < g.num_modules(),
        possible_inners@.len() == g.num_modules(),
    ensures
        forall|k: int|
            0 <= k < r.0@.len() ==> config_accepted(g, cg, possible_inners@, #[trigger] r.0@[k]),
        forall|k: int|
            0 <= k < r.0@.len() ==> root_from_relevant(relevant_modules@, #[trigger] r.0@[k]),
        forall|a: int, b: int|
            0 <= a < b < r.0@.len() ==> (#[trigger] r.0@[a]).root_module != (
            #[trigger] r.0@[b]).root_module,
        forall|k: int| 0 <= k < r.1@.len() ==> (#[trigger] r.1@[k]).0 < g.num_modules(),
        // every scheduled root is accounted for: it roots a configuration, it
        // was absorbed into one, its discarded search logged its warnings, or
        // its worklist never held a candidate beyond the root itself
        forall|w: int|
            #![trigger relevant_modules@[w]]
            0 <= w < relevant_modules@.len() ==> (some_config_rooted_at(
                r.0@,
                relevant_modules@[w],
            ) || member_of_some_config(r.0@, relevant_modules@[w]) || log_mentions_root(
                r.1@,
                relevant_modules@[w],
            ) || root_has_no_seeds(
                g,
                facts@[relevant_modules@[w] as int],
                relevant_modules@[w],
            )),
{
    let nm = g.len();
    let mut configs: Vec<ConcatConfiguration> = Vec::new();
    let mut log: Vec<(usize, String)> = Vec::new();
    let mut used_as_inner: Vec<bool> = make_bool_table(nm, false);

    let mut ri: usize = 0;
    while ri < relevant_modules.len()
        invariant
            g.wf(),
            cg.wf(g.num_modules()),
            all_facts_ok(g, cg, facts@),
            nm == g.num_modules(),
            crate::config::distinct_ids(relevant_modules@),
            forall|k: int|
                0 <= k < relevant_modules@.len() ==> (#[trigger] relevant_modules@[k]) < nm,
            possible_inners@.len() == nm,
            used_as_inner@.len() == nm,
            0 <= ri <= relevant_modules@.len(),
            forall|k: int|
                0 <= k < configs@.len() ==> config_accepted(
                    g,
                    cg,
                    possible_inners@,
                    #[trigger] configs@[k],
                ),
            forall|k: int|
                0 <= k < configs@.len() ==> exists|w: int|
                    0 <= w < ri && relevant_modules@[w] == (#[trigger] configs@[k]).root_module,
            forall|a: int, b: int|
                0 <= a < b < configs@.len() ==> (#[trigger] configs@[a]).root_module != (
                #[trigger] configs@[b]).root_module,
            forall|k: int| 0 <= k < log@.len() ==> (#[trigger] log@[k]).0 < nm,
            forall|x: usize|
                (x as int) < used_as_inner@.len() && used_as_inner@[x as int]
                    ==> member_of_some_config(configs@, x),
            forall|w: int|
                #![trigger relevant_modules@[w]]
                0 <= w < ri ==> (some_config_rooted_at(configs@, relevant_modules@[w])
                    || member_of_some_config(configs@, relevant_modules@[w]) || log_mentions_root(
                    log@,
                    relevant_modules@[w],
                ) || root_has_no_seeds(
                    g,
                    facts@[relevant_modules@[w] as int],
                    relevant_modules@[w],
                )),
        decreases relevant_modules@.len() - ri,
    {
        let current_root = relevant_modules[ri];
        if used_as_inner[current_root] {
            proof {
                assert(member_of_some_config(configs@, current_root));
            }
            ri = ri + 1;
            continue;
        }
        let rootf = &facts[current_root];
        let runtime = rootf.runtime.clone_spec();

        // The root's active runtime: the part of its union runtime for which
        // its exports are used at all.
        let active_runtime: Option<RuntimeSpec> = filter_root_runtime(
            &runtime,
            &g.modules[current_root].used_runtimes,
        );
        let ghost rtv: Option<Seq<u64>> = match active_runtime {
            Option::Some(ref s) => Option::Some(s@),
            Option::None => Option::None,
        };
        proof {
            assert(matches_active_runtime(g, facts@[current_root as int], current_root, rtv)) by {
                assert(runtime@ == facts@[current_root as int].runtime@);
            }
        }
        let seed = match &active_runtime {
            Option::Some(rt) => get_imports_of(g, cg, current_root, Option::Some(rt), rootf),
            Option::None => get_imports_of(g, cg, current_root, Option::None, rootf),
        };
        let ghost seed0 = seed@;
        proof {
            assert(seed0 == crate::facts::spec_imports_upto(
                g,
                facts@[current_root as int].connections@,
                facts@[current_root as int].provided_names,
                rtv,
                facts@[current_root as int].connections@.len() as int,
            ));
        }
        let mut config = ConcatConfiguration::new(current_root, active_runtime);
        let mut failure_cache: Vec<Option<Warning>> = make_warning_table(nm);
        let mut visited: Vec<bool> = make_bool_table(nm, false);
        let mut queue: Vec<usize> = seed;
        let mut head: usize = 0;
        let ghost mut nontrivial: bool = false;

        proof {
            assert(config.members() =~= seq![current_root]);
            assert(members_valid(g, config.members()));
            assert(members_linked(g, config.members()));
            assert(members_admissible(
                g,
                cg,
                possible_inners@,
                current_root,
                config.members(),
            ));
            assert forall|k: int|
                0 <= k < queue@.len() implies ((#[trigger] queue@[k]) < nm && exists|p: int|
                0 <= p < config.members().len() && modules_linked(
                    g,
                    config.members()[p],
                    queue@[k],
                )) by {
                assert(crate::facts::has_active_esm_import(
                    g,
                    current_root,
                    queue@[k],
                    crate::graph::runtime_opt_view(
                        match active_runtime {
                            Option::Some(ref rt) => Option::Some(rt),
                            Option::None => Option::None,
                        },
                    ),
                ));
                assert(modules_linked(g, current_root, queue@[k]));
                assert(config.members()[0] == current_root);
            }
        }

        while head < queue.len()
            invariant
                g.wf(),
                cg.wf(g.num_modules()),
                all_facts_ok(g, cg, facts@),
                nm == g.num_modules(),
                possible_inners@.len() == nm,
                failure_cache@.len() == nm,
                visited@.len() == nm,
                0 <= head <= queue@.len(),
                config.wf(),
                config.root_module == current_root,
                current_root < nm,
                runtime.wf(),
                forall|q: int| 0 <= q < head ==> visited@[(#[trigger] queue@[q]) as int],
                !nontrivial ==> (queue@ == seed0 && only_root_visited(visited@, current_root)),
                nontrivial ==> (config.members().len() >= 2 || some_warning_recorded(
                    config.warnings@,
                )),
                members_valid(g, config.members()),
                members_linked(g, config.members()),
                members_admissible(g, cg, possible_inners@, current_root, config.members()),
                forall|k: int|
                    0 <= k < queue@.len() ==> ((#[trigger] queue@[k]) < nm && exists|p: int|
                        0 <= p < config.members().len() && modules_linked(
                            g,
                            config.members()[p],
                            queue@[k],
                        )),
            decreases crate::seq_util::count_false(visited@), queue@.len() - head,
        {
            let imp = queue[head];
            head = head + 1;
            if visited[imp] {
                proof {
                    assert(visited@[queue@[head - 1] as int]);
                }
                continue;
            }
            let ghost visited_before = visited@;
            let ghost nontrivial_before = nontrivial;
            visited[imp] = true;
            proof {
                crate::seq_util::lemma_count_false_update(visited_before, imp as int);
                assert(forall|q: int|
                    0 <= q < head ==> visited@[(#[trigger] queue@[q]) as int]) by {
                    assert(forall|q: int|
                        0 <= q < head - 1 ==> visited_before[(#[trigger] queue@[q]) as int]);
                    assert(queue@[head - 1] == imp);
                }
                if imp != current_root {
                    nontrivial = true;
                }
            }
            let mut import_candidates: Vec<usize> = Vec::new();
            let ghost members_before = config.members();
            let ghost warnings_before = config.warnings@;
            let res = try_to_add(
                g,
                cg,
                facts,
                &mut config,
                imp,
                Option::Some(&runtime),
                possible_inners,
                &mut import_candidates,
                &mut failure_cache,
                true,
            );
            let ghost queue_at_mark = queue@;
            match res {
                Option::Some(problem) => {
                    config.add_warning(imp, problem);
                    proof {
                        assert(some_warning_recorded(config.warnings@)) by {
                            assert(crate::config::spec_warning_lookup(config.warnings@, imp)
                                is Some);
                        }
                        assert(config.members() == members_before);
                        assert forall|k: int|
                            0 <= k < queue@.len() implies ((#[trigger] queue@[k]) < nm && exists|
                            p: int,
                        |
                            0 <= p < config.members().len() && modules_linked(
                                g,
                                config.members()[p],
                                queue@[k],
                            )) by {
                            let p = choose|p: int|
                                0 <= p < members_before.len() && modules_linked(
                                    g,
                                    members_before[p],
                                    queue@[k],
                                );
                            assert(config.members()[p] == members_before[p]);
                        }
                    }
                },
                Option::None => {
                    proof {
                        if imp != current_root {
                            assert(config.members().len() >= 2) by {
                                assert(config.members().contains(imp));
                                if config.members().len() == 1 {
                                    let q = choose|q: int|
                                        0 <= q < config.members().len()
                                            && #[trigger] config.members()[q] == imp;
                                    assert(config.members()[0] == current_root);
                                }
                            }
                        } else {
                            // the root is a member from the start: a
                            // self-import changes nothing
                            assert(config.members() == members_before);
                        }
                        assert(config.members().take(members_before.len() as int)
                            == members_before);
                        assert forall|k: int|
                            0 <= k < queue@.len() implies ((#[trigger] queue@[k]) < nm && exists|
                            p: int,
                        |
                            0 <= p < config.members().len() && modules_linked(
                                g,
                                config.members()[p],
                                queue@[k],
                            )) by {
                            let p = choose|p: int|
                                0 <= p < members_before.len() && modules_linked(
                                    g,
                                    members_before[p],
                                    queue@[k],
                                );
                            assert(config.members().take(members_before.len() as int)[p]
                                == members_before[p]);
                            assert(config.members()[p] == members_before[p]);
                        }
                    }
                    let mut qi: usize = 0;
                    let ncand = import_candidates.len();
                    proof {
                        assert(crate::builder::all_linked_to_members(
                            g,
                            config.members(),
                            import_candidates@.skip(0),
                        ));
                        assert(import_candidates@.skip(0) =~= import_candidates@);
                    }
                    while qi < ncand
                        invariant
                            g.wf(),
                            nm == g.num_modules(),
                            visited@.len() == nm,
                            ncand == import_candidates@.len(),
                            0 <= qi <= ncand,
                            ncand == 0 ==> queue@ == queue_at_mark,
                            head <= queue@.len(),
                            forall|q: int|
                                0 <= q < head ==> visited@[(#[trigger] queue@[q]) as int],
                            forall|k: int|
                                0 <= k < import_candidates@.len() ==> (
                                #[trigger] import_candidates@[k]) < nm,
                            crate::builder::all_linked_to_members(
                                g,
                                config.members(),
                                import_candidates@,
                            ),
                            forall|k: int|
                                0 <= k < queue@.len() ==> ((#[trigger] queue@[k]) < nm && exists|
                                p: int,
                            |
                                0 <= p < config.members().len() && modules_linked(
                                    g,
                                    config.members()[p],
                                    queue@[k],
                                )),
                        decreases ncand - qi,
                    {
                        let cand = import_candidates[qi];
                        queue.push(cand);
                        proof {
                            assert(crate::builder::all_linked_to_members(
                                g,
                                config.members(),
                                import_candidates@,
                            ));
                            let p = choose|p: int|
                                0 <= p < config.members().len() && modules_linked(
                                    g,
                                    config.members()[p],
                                    import_candidates@[qi as int],
                                );
                        }
                        qi = qi + 1;
                    }
                },
            }
        }

        if !config.is_empty() {
            let mems_len = config.len();
            let ghost used_at_start = used_as_inner@;
            let mut mi: usize = 1;
            while mi < mems_len
                invariant
                    config.wf(),
                    members_valid(g, config.members()),
                    nm == g.num_modules(),
                    mems_len == config.members().len(),
                    used_as_inner@.len() == nm,
                    1 <= mi <= mems_len,
                    forall|x: usize|
                        (x as int) < nm && used_as_inner@[x as int] ==> (used_at_start[x as int]
                            || config.members().contains(x)),
                decreases mems_len - mi,
            {
                let mem = config.get_modules()[mi];
                used_as_inner[mem] = true;
                proof {
                    assert(config.members().contains(config.members()[mi as int]));
                }
                mi = mi + 1;
            }
            let ghost configs_before = configs@;
            configs.push(config);
            proof {
                // marks and accounting survive the accepted configuration
                assert(forall|k: int|
                    0 <= k < configs_before.len() ==> configs@[k] == #[trigger] configs_before[k]);
                assert forall|x: usize|
                    (x as int) < used_as_inner@.len() && used_as_inner@[x as int]
                        implies member_of_some_config(configs@, x) by {
                    if used_at_start[x as int] {
                        lemma_member_monotone(configs_before, configs@, x);
                    } else {
                        assert(configs@[configs_before.len() as int].members().contains(x));
                    }
                }
                assert forall|w: int|
                    #![trigger relevant_modules@[w]]
                    0 <= w < ri + 1 implies (some_config_rooted_at(configs@, relevant_modules@[w])
                    || member_of_some_config(configs@, relevant_modules@[w]) || log_mentions_root(
                    log@,
                    relevant_modules@[w],
                ) || root_has_no_seeds(
                    g,
                    facts@[relevant_modules@[w] as int],
                    relevant_modules@[w],
                )) by {
                    if w < ri {
                        if some_config_rooted_at(configs_before, relevant_modules@[w]) {
                            lemma_rooted_monotone(configs_before, configs@, relevant_modules@[w]);
                        } else if member_of_some_config(configs_before, relevant_modules@[w]) {
                            lemma_member_monotone(configs_before, configs@, relevant_modules@[w]);
                        }
                    } else {
                        assert(configs@[configs_before.len() as int].root_module == current_root);
                        assert(some_config_rooted_at(configs@, relevant_modules@[w]));
                    }
                }
            }
            proof {
                assert(forall|k: int|
                    0 <= k < configs_before.len() ==> configs@[k] == configs_before[k]);
                assert(configs@[configs_before.len() as int].root_module == current_root);
                assert(config_accepted(
                    g,
                    cg,
                    possible_inners@,
                    configs@[configs_before.len() as int],
                ));
                assert forall|a: int, b: int|
                    0 <= a < b < configs@.len() implies (#[trigger] configs@[a]).root_module != (
                #[trigger] configs@[b]).root_module by {
                    if b == configs@.len() - 1 {
                        let w = choose|w: int|
                            0 <= w < ri && relevant_modules@[w] == (
                            #[trigger] configs_before[a]).root_module;
                        assert(relevant_modules@[ri as int] == current_root);
                        if configs_before[a].root_module == current_root {
                            assert(relevant_modules@[w] == relevant_modules@[ri as int]);
                            assert(false);
                        }
                    }
                }
                assert forall|k: int|
                    0 <= k < configs@.len() implies exists|w: int|
                    0 <= w < ri + 1 && relevant_modules@[w] == (
                #[trigger] configs@[k]).root_module by {
                    if k < configs_before.len() {
                        let w = choose|w: int|
                            0 <= w < ri && relevant_modules@[w] == configs_before[k].root_module;
                        assert(0 <= w < ri + 1 && relevant_modules@[w]
                            == configs@[k].root_module);
                    } else {
                        assert(relevant_modules@[ri as int] == configs@[k].root_module);
                    }
                }
            }
        } else {
            let warnings = config.get_warnings_sorted();
            let ghost log_at_start = log@;
            let mut wi: usize = 0;
            while wi < warnings.len()
                invariant
                    g.wf(),
                    nm == g.num_modules(),
                    current_root < nm,
                    0 <= wi <= warnings@.len(),
                    forall|k: int| 0 <= k < log@.len() ==> (#[trigger] log@[k]).0 < nm,
                    log@.len() >= log_at_start.len(),
                    wi == 0 ==> log@ == log_at_start,
                    forall|k: int|
                        0 <= k < log_at_start.len() ==> log@[k] == #[trigger] log_at_start[k],
                    wi > 0 ==> (log@.len() > log_at_start.len()
                        && log@[log_at_start.len() as int].0 == current_root),
                decreases warnings@.len() - wi,
            {
                let entry = &warnings[wi];
                let line = plugin.format_bailout_warning(g, entry.0, &entry.1);
                let ghost log_pre = log@;
                log.push((current_root, line));
                proof {
                    if wi == 0 {
                        assert(log@[log_at_start.len() as int].0 == current_root) by {
                            assert(log_pre == log_at_start);
                            assert(log@[log_pre.len() as int] == (current_root, line));
                        }
                    } else {
                        assert(log@[log_at_start.len() as int] == log_pre[log_at_start.len() as int]);
                    }
                }
                wi = wi + 1;
            }
            proof {
                if warnings@.len() == 0 {
                    // an empty configuration with no warnings means the
                    // worklist never held a candidate beyond the root
                    assert(config.warnings@.len() == 0);
                    if head > 0 {
                        assert(config.members().len() == 1);
                        if some_warning_recorded(config.warnings@) {
                            let mm = choose|mm: usize|
                                crate::config::spec_warning_lookup(config.warnings@, mm) is Some;
                            assert(false);
                        }
                        assert(queue@ == seed0 && only_root_visited(visited@, current_root));
                        assert forall|q: int| 0 <= q < seed0.len() implies seed0[q]
                            == current_root by {
                            assert(visited@[queue@[q] as int]);
                            assert(queue@[q] < nm);
                        }
                    } else {
                        assert(queue@.len() == 0);
                        assert(seed0.len() == 0);
                    }
                    assert(root_has_no_seeds(
                        g,
                        facts@[current_root as int],
                        current_root,
                    )) by {
                        assert(matches_active_runtime(
                            g,
                            facts@[current_root as int],
                            current_root,
                            rtv,
                        ));
                    }
                } else {
                    assert(log_mentions_root(log@, current_root)) by {
                        assert(log@[log_at_start.len() as int].0 == current_root);
                    }
                }
                assert forall|w: int|
                    #![trigger relevant_modules@[w]]
                    0 <= w < ri + 1 implies (some_config_rooted_at(configs@, relevant_modules@[w])
                    || member_of_some_config(configs@, relevant_modules@[w]) || log_mentions_root(
                    log@,
                    relevant_modules@[w],
                ) || root_has_no_seeds(
                    g,
                    facts@[relevant_modules@[w] as int],
                    relevant_modules@[w],
                )) by {
                    if w < ri {
                        if log_mentions_root(log_at_start, relevant_modules@[w]) {
                            lemma_log_monotone(log_at_start, log@, relevant_modules@[w]);
                        }
                    }
                }
            }
        }
        ri = ri + 1;
    }
    proof {
        assert forall|k: int| 0 <= k < configs@.len() implies root_from_relevant(
            relevant_modules@,
            #[trigger] configs@[k],
        ) by {
            let w = choose|w: int|
                0 <= w < ri && relevant_modules@[w] == configs@[k].root_module;
            assert(0 <= w < relevant_modules@.len() && relevant_modules@[w]
                == configs@[k].root_module);
        }
    }
    (configs, log)
}

/// A fresh table of one flag per module.
fn make_bool_table(n: usize, value: bool) -> (r: Vec<bool>)
    ensures
        r@.len() == n,
        forall|k: int| 0 <= k < n ==> (#[trigger] r@[k]) == value,
{
    let mut r: Vec<bool> = Vec::new();
    let mut i: usize = 0;
    while i < n
        invariant
            0 <= i <= n,
            r@.len() == i,
            forall|k: int| 0 <= k < i ==> (#[trigger] r@[k]) == value,
        decreases n - i,
    {
        r.push(value);
        i = i + 1;
    }
    r
}

/// A fresh, all-empty failure memo, one slot per module.
fn make_warning_table(n: usize) -> (r: Vec<Option<Warning>>)
    ensures
        r@.len() == n,
        forall|k: int| 0 <= k < n ==> (#[trigger] r@[k]) is None,
{
    let mut r: Vec<Option<Warning>> = Vec::new();
    let mut i: usize = 0;
    while i < n
        invariant
            0 <= i <= n,
            r@.len() == i,
            forall|k: int| 0 <= k < i ==> (#[trigger] r@[k]) is None,
        decreases n - i,
    {
        r.push(Option::None);
        i = i + 1;
    }
    r
}

} // verus!

verus! {

/// Does configuration `a` come no later than `b` in application order:
/// more members first, ties by root id?
pub open spec fn config_order_le(a: ConcatConfiguration, b: ConcatConfiguration) -> bool {
    ||| a.members().len() > b.members().len()
    ||| (a.members().len() == b.members().len() && a.root_module <= b.root_module)
}

/// Is `c` one of the configurations in `s`?
pub open spec fn config_elem_of(c: ConcatConfiguration, s: Seq<ConcatConfiguration>) -> bool {
    exists|j: int| 0 <= j < s.len() && #[trigger] s[j] == c
}

/// Insert a configuration into a list sorted by application order, keeping
/// the order and the distinctness of roots.
#[verifier::rlimit(100)]
#[verifier::spinoff_prover]
#[verifier::loop_isolation(false)]
fn insert_config_sorted(r: &mut Vec<ConcatConfiguration>, c: ConcatConfiguration)
    requires
        forall|a: int, b: int| 0 <= a < b < old(r)@.len() ==> config_order_le(old(r)@[a], old(r)@[b]),
        forall|a: int, b: int|
            0 <= a < b < old(r)@.len() ==> (#[trigger] old(r)@[a]).root_module != (
            #[trigger] old(r)@[b]).root_module,
        forall|a: int| 0 <= a < old(r)@.len() ==> (#[trigger] old(r)@[a]).root_module != c.root_module,
    ensures
        final(r)@.len() == old(r)@.len() + 1,
        forall|a: int, b: int| 0 <= a < b < final(r)@.len() ==> config_order_le(final(r)@[a], final(r)@[b]),
        forall|a: int, b: int|
            0 <= a < b < final(r)@.len() ==> (#[trigger] final(r)@[a]).root_module != (
            #[trigger] final(r)@[b]).root_module,
        forall|k: int|
            0 <= k < final(r)@.len() ==> (config_elem_of(#[trigger] final(r)@[k], old(r)@) || final(r)@[k] == c),
{
    let mut p: usize = 0;
    let rlen = r.len();
    while p < rlen && (r[p].len() > c.len() || (r[p].len() == c.len() && r[p].root_module
        < c.root_module))
        invariant
            r@ == old(r)@,
            0 <= p <= rlen,
            forall|k: int| 0 <= k < p ==> config_order_le(#[trigger] r@[k], c),
        decreases rlen - p,
    {
        proof {
            assert(config_order_le(r@[p as int], c));
        }
        p = p + 1;
    }
    proof {
        if p < rlen {
            assert(config_order_le(c, r@[p as int])) by {
                assert(r@[p as int].root_module != c.root_module);
            }
        }
    }
    let ghost r_before = r@;
    r.insert(p, c);
    proof {
        assert(forall|k: int| 0 <= k < p ==> r@[k] == r_before[k]);
        assert(r@[p as int] == c);
        assert(forall|k: int| p < k < r@.len() ==> r@[k] == r_before[k - 1]);
        assert forall|a: int, b: int| 0 <= a < b < r@.len() implies config_order_le(
            r@[a],
            r@[b],
        ) by {
            if a == p && b > p {
                assert(r@[b] == r_before[b - 1]);
                assert(config_order_le(c, r_before[p as int]));
                if b - 1 > p {
                    assert(config_order_le(r_before[p as int], r_before[b - 1]));
                }
            } else if a < p && b == p {
                assert(r@[a] == r_before[a]);
                assert(config_order_le(r_before[a], c));
            } else if a < p && b > p {
                assert(r@[a] == r_before[a] && r@[b] == r_before[b - 1]);
                assert(config_order_le(r_before[a], r_before[b - 1]));
            }
        }
        assert forall|a: int, b: int|
            0 <= a < b < r@.len() implies (#[trigger] r@[a]).root_module != (
        #[trigger] r@[b]).root_module by {
            if a != p && b != p {
                let a2: int = if a < p {
                    a
                } else {
                    a - 1
                };
                let b2: int = if b < p {
                    b
                } else {
                    b - 1
                };
                assert(r@[a] == r_before[a2] && r@[b] == r_before[b2]);
            }
        }
        assert forall|k: int|
            0 <= k < r@.len() implies (config_elem_of(#[trigger] r@[k], r_before) || r@[k]
            == c) by {
            if k < p {
                assert(r_before[k] == r@[k]);
            } else if k > p {
                assert(r_before[k - 1] == r@[k]);
            }
        }
    }
}

/// Sort accepted configurations by descending member count, ties broken by
/// root id, so bigger groups claim their modules first and application order
/// is deterministic.
pub fn sort_configurations(input: Vec<ConcatConfiguration>) -> (r: Vec<ConcatConfiguration>)
    requires
        forall|a: int, b: int|
            0 <= a < b < input@.len() ==> (#[trigger] input@[a]).root_module != (
            #[trigger] input@[b]).root_module,
    ensures
        r@.len() == input@.len(),
        forall|k: int| 0 <= k < r@.len() ==> config_elem_of(#[trigger] r@[k], input@),
        forall|a: int, b: int|
            0 <= a < b < r@.len() ==> (#[trigger] r@[a]).root_module != (
            #[trigger] r@[b]).root_module,
        forall|a: int, b: int| 0 <= a < b < r@.len() ==> config_order_le(r@[a], r@[b]),
{
    let ghost input0 = input@;
    let mut rest = input;
    let mut r: Vec<ConcatConfiguration> = Vec::new();
    proof {
        assert forall|k: int|
            0 <= k < rest@.len() implies config_elem_of(#[trigger] rest@[k], input0) by {
            assert(input0[k] == rest@[k]);
        }
    }
    while rest.len() > 0
        invariant
            r@.len() + rest@.len() == input0.len(),
            forall|k: int| 0 <= k < r@.len() ==> config_elem_of(#[trigger] r@[k], input0),
            forall|k: int| 0 <= k < rest@.len() ==> config_elem_of(#[trigger] rest@[k], input0),
            forall|a: int, b: int|
                0 <= a < b < r@.len() ==> (#[trigger] r@[a]).root_module != (
                #[trigger] r@[b]).root_module,
            forall|a: int, b: int|
                0 <= a < b < rest@.len() ==> (#[trigger] rest@[a]).root_module != (
                #[trigger] rest@[b]).root_module,
            forall|a: int, b: int|
                0 <= a < r@.len() && 0 <= b < rest@.len() ==> (#[trigger] r@[a]).root_module != (
                #[trigger] rest@[b]).root_module,
            forall|a: int, b: int| 0 <= a < b < r@.len() ==> config_order_le(r@[a], r@[b]),
        decreases rest@.len(),
    {
        let ghost rest_before = rest@;
        let ghost r_before = r@;
        let c = rest.remove(0);
        proof {
            assert(c == rest_before[0]);
            assert(rest@ =~= rest_before.skip(1));
            assert(forall|k: int| 0 <= k < rest@.len() ==> rest@[k] == rest_before[k + 1]);
            assert forall|k: int|
                0 <= k < rest@.len() implies config_elem_of(#[trigger] rest@[k], input0) by {
                assert(rest@[k] == rest_before[k + 1]);
                assert(config_elem_of(rest_before[k + 1], input0));
            }
        }
        insert_config_sorted(&mut r, c);
        proof {
            assert forall|k: int|
                0 <= k < r@.len() implies config_elem_of(#[trigger] r@[k], input0) by {
                if config_elem_of(r@[k], r_before) {
                    let j = choose|j: int| 0 <= j < r_before.len() && #[trigger] r_before[j] == r@[k];
                    assert(config_elem_of(r_before[j], input0));
                } else {
                    assert(r@[k] == c);
                    assert(config_elem_of(rest_before[0], input0));
                }
            }
            assert forall|a: int, b: int|
                0 <= a < r@.len() && 0 <= b < rest@.len() implies (#[trigger] r@[a]).root_module
                != (#[trigger] rest@[b]).root_module by {
                assert(rest@[b] == rest_before[b + 1]);
                if config_elem_of(r@[a], r_before) {
                    let j = choose|j: int| 0 <= j < r_before.len() && #[trigger] r_before[j] == r@[a];
                } else {
                    assert(r@[a] == c);
                    assert(rest_before[0].root_module != rest_before[b + 1].root_module);
                }
            }
        }
    }
    r
}

/// A structural invariant of the input graphs does not hold: an upstream bug
/// surfaced as an explicit internal error rather than silent corruption.
#[derive(Debug)]
pub enum GraphInvariantError {
    ModuleGraphInvariant,
    ChunkGraphInvariant,
}

impl GraphInvariantError {
    /// A diagnostic line naming the broken structure.
    pub fn message(&self) -> (r: String)
        ensures
            r@.len() > 0,
    {
        let r = match self {
            GraphInvariantError::ModuleGraphInvariant => crate::classify::string_lit(
                "module graph invariant violated: a connection names a module the graph does not hold",
            ),
            GraphInvariantError::ChunkGraphInvariant => crate::classify::string_lit(
                "chunk graph invariant violated: a chunk table does not match the module table",
            ),
        };
        proof {
            reveal_strlit(
                "module graph invariant violated: a connection names a module the graph does not hold",
            );
            reveal_strlit(
                "chunk graph invariant violated: a chunk table does not match the module table",
            );
        }
        r
    }
}

impl ModuleConcatenationPlugin {
    /// The whole optimization pass: classify, cache facts, search, resolve,
    /// integrate.  A malformed input graph is rejected up front as an
    /// internal error, and nothing is touched in that case.  On success the
    /// pass hands back the configurations it applied, in application order:
    /// each one accepted against the graphs as the pass found them, bigger
    /// groups first with ties broken by root id, each claiming a member group
    /// disjoint from every other, and each materialised as one merged module.
    #[verifier::rlimit(100)]
    #[verifier::spinoff_prover]
    pub fn optimize_chunk_modules_impl(
        &mut self,
        g: &mut ModuleGraph,
        cg: &mut ChunkGraph,
    ) -> (r: Result<Vec<AppliedConfiguration>, GraphInvariantError>)
        ensures
            r is Err <==> !(old(g).wf() && old(cg).wf(old(g).num_modules())),
            r is Err ==> (*final(g) == *old(g) && *final(cg) == *old(cg)),
            r is Ok ==> (final(g).wf() && final(cg).wf(final(g).num_modules())),
            // the pass only ever appends merged modules: every module the
            // graph held going in is still there, unchanged, under its id
            r is Ok ==> final(g).modules@.take(old(g).num_modules() as int) == old(g).modules@,
            r matches Ok(applied) ==> ({
                // one merged module per applied configuration
                &&& final(g).num_modules() == old(g).num_modules() + applied@.len()
                // each applied configuration was accepted against the graphs
                // as the pass found them
                &&& forall|k: int|
                    0 <= k < applied@.len() ==> config_accepted_pre(
                        old(g),
                        old(cg),
                        (#[trigger] applied@[k]).configuration,
                    )
                // applied in resolver order: bigger first, ties by root id
                &&& forall|a: int, b: int|
                    0 <= a < b < applied@.len() ==> config_order_le(
                        (#[trigger] applied@[a]).configuration,
                        (#[trigger] applied@[b]).configuration,
                    )
                &&& forall|a: int, b: int|
                    0 <= a < b < applied@.len() ==> (#[trigger] applied@[a]).configuration.root_module
                        != (#[trigger] applied@[b]).configuration.root_module
                // each claimed group: the root first, drawn from the
                // configuration's members, at least two strong
                &&& forall|k: int|
                    0 <= k < applied@.len() ==> ({
                        &&& crate::config::distinct_ids((#[trigger] applied@[k]).merged@)
                        &&& applied@[k].merged@.len() >= 2
                        &&& applied@[k].merged@[0] == applied@[k].configuration.root_module
                        &&& forall|m: usize|
                            applied@[k].merged@.contains(m)
                                ==> (applied@[k].configuration.members().contains(m) && m < old(g).num_modules())
                    })
                // no module is claimed by two applied configurations
                &&& forall|k1: int, k2: int, m: usize|
                    #![trigger applied@[k1].merged@.contains(m), applied@[k2].merged@.contains(m)]
                    0 <= k1 < k2 < applied@.len() ==> !(applied@[k1].merged@.contains(m)
                        && applied@[k2].merged@.contains(m))
                // a pass that applies nothing rewires nothing: only the
                // bailout logs may have grown
                &&& applied@.len() == 0 ==> (final(g).connections@ == old(g).connections@ && *final(cg) == *old(cg))
            }),
            // every schedulable root is accounted for: it roots or was
            // absorbed into an accepted configuration, its discarded search
            // left a warning on some bailout log, or its worklist never held
            // a candidate beyond the root itself
            r is Ok ==> (forall|m: usize|
                (m as int) < old(g).num_modules() && #[trigger] spec_can_be_root(
                    old(g),
                    old(cg),
                    m as int,
                ) ==> ({
                    ||| exists|c: ConcatConfiguration|
                        #[trigger] config_accepted_pre(old(g), old(cg), c) && (c.root_module == m
                            || c.members().contains(m))
                    ||| final(g).bailouts@[m as int].deep_view().len() > old(g).bailouts@[m as int].deep_view().len()
                        + spec_prefixed_reasons(old(g), old(cg), m as int).len()
                    ||| exists|f: NoRuntimeModuleCache|
                        #[trigger] crate::facts::facts_ok(old(g), old(cg), m, &f)
                            && root_has_no_seeds(old(g), f, m)
                })),
            // each module's bailout log starts with what it held going in,
            // followed by exactly its classifier reasons, prefixed, in check
            // order; the search may append its warnings after that layer
            r is Ok ==> (forall|m: int|
                0 <= m < old(g).num_modules() ==> ({
                    let base = old(g).bailouts@[m].deep_view() + spec_prefixed_reasons(
                        old(g),
                        old(cg),
                        m,
                    );
                    (#[trigger] final(g).bailouts@[m]).deep_view().len() >= base.len()
                        && final(g).bailouts@[m].deep_view().take(base.len() as int) == base
                })),
    {
        if !g.check_wf() {
            return Result::Err(GraphInvariantError::ModuleGraphInvariant);
        }
        if !cg.check_wf(g.len()) {
            return Result::Err(GraphInvariantError::ChunkGraphInvariant);
        }

        // Phase 1+2: eligibility classification and the per-module fact
        // cache, both read-only against the graph structure.
        let (relevant_modules, possible_inners) = select_relevant(self, g, cg);
        let facts = build_all_facts(g, cg);

        // Phase 3: grow one configuration per remaining root.
        let (configs, log) = find_configurations(
            self,
            g,
            cg,
            &facts,
            &relevant_modules,
            &possible_inners,
        );
        let ghost configs0 = configs@;
        let ghost g_sel = *g;
        let ghost nm0 = old(g).num_modules();
        proof {
            // every accepted configuration is accepted against the pre-pass
            // graphs: classification only appended bailout log lines, and the
            // search read the graphs without touching them
            assert forall|k: int| 0 <= k < configs0.len() implies config_accepted_pre(
                old(g),
                old(cg),
                #[trigger] configs0[k],
            ) by {
                let c = configs0[k];
                assert(config_accepted(g, cg, possible_inners@, c));
                assert(root_from_relevant(relevant_modules@, c));
                assert(members_valid_n(c.members(), nm0));
                lemma_linked_stable(g, old(g), c.members());
                let w = choose|w: int|
                    0 <= w < relevant_modules@.len() && relevant_modules@[w] == c.root_module;
                assert(spec_can_be_root(old(g), old(cg), c.root_module as int));
                assert forall|i: int|
                    1 <= i < c.members().len() implies (spec_can_be_inner(
                    old(g),
                    old(cg),
                    (#[trigger] c.members()[i]) as int,
                ) && crate::builder::in_all_root_chunks(
                    old(cg),
                    c.root_module,
                    c.members()[i],
                )) by {
                    assert(possible_inners@[c.members()[i] as int]
                        && crate::builder::in_all_root_chunks(cg, c.root_module, c.members()[i]));
                }
            }
        }
        proof {
            assert forall|m: int| 0 <= m < old(g).num_modules() implies ({
                let base = old(g).bailouts@[m].deep_view() + spec_prefixed_reasons(
                    old(g),
                    old(cg),
                    m,
                );
                (#[trigger] g.bailouts@[m]).deep_view().len() >= base.len()
                    && g.bailouts@[m].deep_view().take(base.len() as int) == base
            }) by {
                let base = old(g).bailouts@[m].deep_view() + spec_prefixed_reasons(
                    old(g),
                    old(cg),
                    m,
                );
                assert(g.bailouts@[m].deep_view() == base);
                assert(base.take(base.len() as int) =~= base);
            }
        }
        let mut li: usize = 0;
        while li < log.len()
            invariant
                g.wf(),
                cg.wf(g.num_modules()),
                g.modules@ == old(g).modules@,
                g.connections@ == old(g).connections@,
                0 <= li <= log@.len(),
                forall|k: int| 0 <= k < log@.len() ==> (#[trigger] log@[k]).0 < g.num_modules(),
                forall|m: int|
                    0 <= m < old(g).num_modules() ==> ({
                        let base = old(g).bailouts@[m].deep_view() + spec_prefixed_reasons(
                            old(g),
                            old(cg),
                            m,
                        );
                        (#[trigger] g.bailouts@[m]).deep_view().len() >= base.len()
                            && g.bailouts@[m].deep_view().take(base.len() as int) == base
                    }),
                forall|k: int|
                    0 <= k < li ==> (#[trigger] g.bailouts@[(log@[k].0) as int]).deep_view().len()
                        > old(g).bailouts@[log@[k].0 as int].deep_view().len()
                        + spec_prefixed_reasons(old(g), old(cg), log@[k].0 as int).len(),
            decreases log@.len() - li,
        {
            let entry = &log[li];
            let line = crate::config::clone_string(&entry.1);
            let ghost bail_prev = g.bailouts@;
            g.add_bailout(entry.0, line);
            proof {
                let e0 = entry.0 as int;
                assert(g.bailouts@[e0].deep_view() =~= bail_prev[e0].deep_view().push(line@));
                assert forall|m: int| 0 <= m < old(g).num_modules() implies ({
                    let base = old(g).bailouts@[m].deep_view() + spec_prefixed_reasons(
                        old(g),
                        old(cg),
                        m,
                    );
                    (#[trigger] g.bailouts@[m]).deep_view().len() >= base.len()
                        && g.bailouts@[m].deep_view().take(base.len() as int) == base
                }) by {
                    let base = old(g).bailouts@[m].deep_view() + spec_prefixed_reasons(
                        old(g),
                        old(cg),
                        m,
                    );
                    if m == e0 {
                        assert(bail_prev[m].deep_view().take(base.len() as int) == base);
                        assert(g.bailouts@[m].deep_view().take(base.len() as int)
                            =~= bail_prev[m].deep_view().take(base.len() as int));
                    } else {
                        assert(g.bailouts@[m] == bail_prev[m]);
                    }
                }
                assert forall|k: int| 0 <= k < li + 1 implies (
                #[trigger] g.bailouts@[(log@[k].0) as int]).deep_view().len() > old(g).bailouts@[
                log@[k].0 as int].deep_view().len() + spec_prefixed_reasons(
                    old(g),
                    old(cg),
                    log@[k].0 as int,
                ).len() by {
                    let x = log@[k].0 as int;
                    if k < li {
                        if x == e0 {
                            assert(g.bailouts@[x].deep_view().len() == bail_prev[x].deep_view().len()
                                + 1);
                        } else {
                            assert(g.bailouts@[x] == bail_prev[x]);
                        }
                    } else {
                        let base = old(g).bailouts@[x].deep_view() + spec_prefixed_reasons(
                            old(g),
                            old(cg),
                            x,
                        );
                        assert(bail_prev[x].deep_view().len() >= base.len());
                        assert(g.bailouts@[x].deep_view().len() == bail_prev[x].deep_view().len()
                            + 1);
                    }
                }
            }
            li = li + 1;
        }

        // Phase 4: order the accepted configurations, biggest first.
        let sorted = sort_configurations(configs);
        let ghost sorted0 = sorted@;
        proof {
            crate::seq_util::lemma_take_all(g.modules@);
            assert forall|k: int| 0 <= k < sorted0.len() implies config_accepted_pre(
                old(g),
                old(cg),
                #[trigger] sorted0[k],
            ) by {
                assert(config_elem_of(sorted0[k], configs0));
                let j = choose|j: int|
                    0 <= j < configs0.len() && #[trigger] configs0[j] == sorted0[k];
            }
        }

        // Phase 5: apply them in order against the live graphs.
        let ghost bail_ready = g.bailouts@;
        let mut used_modules = make_bool_table(g.len(), false);
        let mut rest = sorted;
        let total = rest.len();
        proof {
            assert(sorted0.len() <= usize::MAX) by {
                assert(rest@ == sorted0);
                assert(total == rest@.len());
            }
        }
        let mut applied: Vec<AppliedConfiguration> = Vec::new();
        let mut ci: usize = 0;
        while rest.len() > 0
            invariant
                g.wf(),
                cg.wf(g.num_modules()),
                used_modules@.len() == g.num_modules(),
                g.num_modules() == nm0 + applied@.len(),
                g.modules@.take(nm0 as int) == old(g).modules@,
                nm0 == old(g).num_modules(),
                g.bailouts@.len() == g.num_modules(),
                bail_ready.len() == nm0,
                forall|m: int| 0 <= m < nm0 ==> #[trigger] g.bailouts@[m] == bail_ready[m],
                forall|m: int|
                    0 <= m < nm0 ==> ({
                        let base = old(g).bailouts@[m].deep_view() + spec_prefixed_reasons(
                            old(g),
                            old(cg),
                            m,
                        );
                        (#[trigger] bail_ready[m]).deep_view().len() >= base.len()
                            && bail_ready[m].deep_view().take(base.len() as int) == base
                    }),
                0 <= ci <= sorted0.len(),
                sorted0.len() <= usize::MAX,
                ci + rest@.len() == sorted0.len(),
                forall|k: int| 0 <= k < rest@.len() ==> #[trigger] rest@[k] == sorted0[k + ci],
                forall|k: int|
                    0 <= k < sorted0.len() ==> config_accepted_pre(
                        old(g),
                        old(cg),
                        #[trigger] sorted0[k],
                    ),
                forall|a: int, b: int|
                    0 <= a < b < sorted0.len() ==> config_order_le(sorted0[a], sorted0[b]),
                forall|a: int, b: int|
                    0 <= a < b < sorted0.len() ==> (#[trigger] sorted0[a]).root_module != (
                    #[trigger] sorted0[b]).root_module,
                forall|k: int|
                    0 <= k < applied@.len() ==> exists|j: int|
                        0 <= j < ci && (#[trigger] applied@[k]).configuration == sorted0[j],
                forall|k1: int, k2: int|
                    0 <= k1 < k2 < applied@.len() ==> exists|j1: int, j2: int|
                        0 <= j1 < j2 < ci && (#[trigger] applied@[k1]).configuration == sorted0[j1]
                            && (#[trigger] applied@[k2]).configuration == sorted0[j2],
                forall|k: int|
                    0 <= k < applied@.len() ==> ({
                        &&& crate::config::distinct_ids((#[trigger] applied@[k]).merged@)
                        &&& applied@[k].merged@.len() >= 2
                        &&& applied@[k].merged@[0] == applied@[k].configuration.root_module
                        &&& forall|m: usize|
                            applied@[k].merged@.contains(m)
                                ==> (applied@[k].configuration.members().contains(m) && m < nm0)
                    }),
                forall|k: int, m: usize|
                    #![trigger applied@[k].merged@.contains(m)]
                    0 <= k < applied@.len() && applied@[k].merged@.contains(m) ==> ((m as int)
                        < used_modules@.len() && used_modules@[m as int]),
                forall|k1: int, k2: int, m: usize|
                    #![trigger applied@[k1].merged@.contains(m), applied@[k2].merged@.contains(m)]
                    0 <= k1 < k2 < applied@.len() ==> !(applied@[k1].merged@.contains(m)
                        && applied@[k2].merged@.contains(m)),
                applied@.len() == 0 ==> (g.connections@ == old(g).connections@ && *cg == *old(cg)),
            decreases rest@.len(),
        {
            let ghost rest_before = rest@;
            let config = rest.remove(0);
            proof {
                assert(config == sorted0[ci as int]);
                assert(forall|k: int| 0 <= k < rest@.len() ==> #[trigger] rest@[k] == rest_before[k
                    + 1]);
                assert(config_accepted_pre(old(g), old(cg), config));
                assert(crate::builder::members_valid(g, config.members())) by {
                    assert(members_valid_n(config.members(), nm0));
                }
            }
            let ghost used_before = used_modules@;
            let outcome = crate::integrate::apply_configuration(g, cg, &config, &mut used_modules);
            match outcome {
                Option::Some(ms) => {
                    let ghost applied_before = applied@;
                    applied.push(AppliedConfiguration { configuration: config, merged: ms });
                    proof {
                        let newk = applied_before.len() as int;
                        assert(forall|k: int|
                            0 <= k < applied_before.len() ==> applied@[k] == applied_before[k]);
                        assert(applied@[newk].configuration == sorted0[ci as int]);
                        assert forall|k: int|
                            0 <= k < applied@.len() implies exists|j: int|
                            0 <= j < ci + 1 && (#[trigger] applied@[k]).configuration
                                == sorted0[j] by {
                            if k < newk {
                                let j = choose|j: int|
                                    0 <= j < ci && applied_before[k].configuration == sorted0[j];
                                assert(0 <= j < ci + 1 && applied@[k].configuration == sorted0[j]);
                            } else {
                                assert(0 <= ci < ci + 1 && applied@[k].configuration
                                    == sorted0[ci as int]);
                            }
                        }
                        assert forall|k1: int, k2: int|
                            0 <= k1 < k2 < applied@.len() implies exists|j1: int, j2: int|
                            0 <= j1 < j2 < ci + 1 && (#[trigger] applied@[k1]).configuration
                                == sorted0[j1] && (#[trigger] applied@[k2]).configuration
                                == sorted0[j2] by {
                            if k2 < newk {
                                let (j1, j2) = choose|j1: int, j2: int|
                                    0 <= j1 < j2 < ci && applied_before[k1].configuration
                                        == sorted0[j1] && applied_before[k2].configuration
                                        == sorted0[j2];
                                assert(0 <= j1 < j2 < ci + 1 && applied@[k1].configuration
                                    == sorted0[j1] && applied@[k2].configuration == sorted0[j2]);
                            } else {
                                let j1 = choose|j1: int|
                                    0 <= j1 < ci && applied_before[k1].configuration == sorted0[j1];
                                assert(0 <= j1 < ci < ci + 1 && applied@[k1].configuration
                                    == sorted0[j1] && applied@[k2].configuration
                                    == sorted0[ci as int]);
                            }
                        }
                        // the fresh group was entirely unclaimed before, so it
                        // is disjoint from every earlier group
                        assert forall|k1: int, k2: int, m: usize|
                            #![trigger applied@[k1].merged@.contains(m), applied@[k2].merged@.contains(m)]
                            0 <= k1 < k2 < applied@.len() implies !(applied@[k1].merged@.contains(
                            m,
                        ) && applied@[k2].merged@.contains(m)) by {
                            if k2 == newk {
                                if applied@[k1].merged@.contains(m) && applied@[k2].merged@.contains(
                                    m,
                                ) {
                                    assert(used_before[m as int]);
                                    assert(!used_before[m as int]);
                                }
                            }
                        }
                        assert forall|k: int, m: usize|
                            #![trigger applied@[k].merged@.contains(m)]
                            0 <= k < applied@.len() && applied@[k].merged@.contains(
                            m,
                        ) implies ((m as int) < used_modules@.len() && used_modules@[m as int]) by {
                            if k < newk {
                                assert(used_before[m as int]);
                                assert((m as int) < used_before.len());
                            }
                        }
                    }
                },
                Option::None => {},
            }
            ci = ci + 1;
        }
        proof {
            assert forall|k: int| 0 <= k < applied@.len() implies config_accepted_pre(
                old(g),
                old(cg),
                (#[trigger] applied@[k]).configuration,
            ) by {
                let j = choose|j: int|
                    0 <= j < ci && applied@[k].configuration == sorted0[j];
            }
            assert forall|a: int, b: int| 0 <= a < b < applied@.len() implies (config_order_le(
                (#[trigger] applied@[a]).configuration,
                (#[trigger] applied@[b]).configuration,
            ) && applied@[a].configuration.root_module
                != applied@[b].configuration.root_module) by {
                let (j1, j2) = choose|j1: int, j2: int|
                    0 <= j1 < j2 < ci && applied@[a].configuration == sorted0[j1]
                        && applied@[b].configuration == sorted0[j2];
                assert(config_order_le(sorted0[j1], sorted0[j2]));
                assert(sorted0[j1].root_module != sorted0[j2].root_module);
            }
            assert forall|m: usize|
                (m as int) < nm0 && #[trigger] spec_can_be_root(old(g), old(cg), m as int) implies ({
                ||| exists|c: ConcatConfiguration|
                    #[trigger] config_accepted_pre(old(g), old(cg), c) && (c.root_module == m
                        || c.members().contains(m))
                ||| g.bailouts@[m as int].deep_view().len() > old(g).bailouts@[m as int].deep_view().len()
                    + spec_prefixed_reasons(old(g), old(cg), m as int).len()
                ||| exists|f: NoRuntimeModuleCache|
                    #[trigger] crate::facts::facts_ok(old(g), old(cg), m, &f)
                        && root_has_no_seeds(old(g), f, m)
            }) by {
                assert(relevant_modules@.contains(m));
                let w = choose|w: int|
                    0 <= w < relevant_modules@.len() && #[trigger] relevant_modules@[w] == m;
                if some_config_rooted_at(configs0, m) {
                    let k = choose|k: int|
                        0 <= k < configs0.len() && (#[trigger] configs0[k]).root_module == m;
                    let c = configs0[k];
                    assert(config_accepted_pre(old(g), old(cg), c) && (c.root_module == m
                        || c.members().contains(m)));
                } else if member_of_some_config(configs0, m) {
                    let k = choose|k: int|
                        0 <= k < configs0.len() && (#[trigger] configs0[k]).members().contains(m);
                    let c = configs0[k];
                    assert(config_accepted_pre(old(g), old(cg), c) && (c.root_module == m
                        || c.members().contains(m)));
                } else if log_mentions_root(log@, m) {
                    let k = choose|k: int|
                        0 <= k < log@.len() && (#[trigger] log@[k]).0 == m;
                    assert(bail_ready[m as int].deep_view().len() > old(g).bailouts@[m as int].deep_view().len()
                        + spec_prefixed_reasons(old(g), old(cg), m as int).len());
                    assert(g.bailouts@[m as int] == bail_ready[m as int]);
                } else {
                    assert(root_has_no_seeds(&g_sel, facts@[m as int], m));
                    assert(crate::facts::facts_ok(&g_sel, old(cg), m, &facts@[m as int]));
                    lemma_facts_stable(&g_sel, old(g), old(cg), m, &facts@[m as int]);
                    lemma_no_seeds_stable(&g_sel, old(g), facts@[m as int], m);
                    assert(crate::facts::facts_ok(old(g), old(cg), m, &facts@[m as int])
                        && root_has_no_seeds(old(g), facts@[m as int], m));
                }
            }
        }
        Result::Ok(applied)
    }
}

/// All ids below a bound.
pub open spec fn members_valid_n(s: Seq<usize>, n: nat) -> bool {
    forall|k: int| 0 <= k < s.len() ==> (#[trigger] s[k]) < n
}

/// One configuration the resolver applied: the accepted configuration, and
/// the members it actually claimed and merged (an earlier, larger
/// configuration may have claimed some of its members first).
pub struct AppliedConfiguration {
    pub configuration: ConcatConfiguration,
    pub merged: Vec<usize>,
}

/// A configuration accepted against the graphs as the pass found them:
/// well-formed and grown beyond its root, every member a valid module linked
/// to an earlier member, the root fit to host the merged scope, and every
/// absorbed member an eligible inner module sitting in every chunk of the
/// root.
pub open spec fn config_accepted_pre(
    g0: &ModuleGraph,
    cg0: &ChunkGraph,
    c: ConcatConfiguration,
) -> bool {
    &&& c.wf()
    &&& c.members().len() >= 2
    &&& members_valid_n(c.members(), g0.num_modules())
    &&& members_linked(g0, c.members())
    &&& spec_can_be_root(g0, cg0, c.root_module as int)
    &&& forall|i: int|
        1 <= i < c.members().len() ==> (spec_can_be_inner(
            g0,
            cg0,
            (#[trigger] c.members()[i]) as int,
        ) && crate::builder::in_all_root_chunks(cg0, c.root_module, c.members()[i]))
}

/// Member linkage depends only on the edge table.
proof fn lemma_esm_out_stable(g1: &ModuleGraph, g2: &ModuleGraph, m: usize, upto: int)
    requires
        g1.connections@ == g2.connections@,
    ensures
        crate::facts::spec_esm_out(g1, m, upto) == crate::facts::spec_esm_out(g2, m, upto),
    decreases upto,
{
    if upto > 0 {
        lemma_esm_out_stable(g1, g2, m, upto - 1);
    }
}

proof fn lemma_imports_upto_stable(
    g1: &ModuleGraph,
    g2: &ModuleGraph,
    cache_conns: Seq<usize>,
    provided: bool,
    rt: Option<Seq<u64>>,
    upto: int,
)
    requires
        g1.connections@ == g2.connections@,
    ensures
        crate::facts::spec_imports_upto(g1, cache_conns, provided, rt, upto)
            == crate::facts::spec_imports_upto(g2, cache_conns, provided, rt, upto),
    decreases upto,
{
    if upto > 0 {
        lemma_imports_upto_stable(g1, g2, cache_conns, provided, rt, upto - 1);
    }
}

/// The per-module fact cache does not depend on the bailout logs.
proof fn lemma_facts_stable(
    g1: &ModuleGraph,
    g2: &ModuleGraph,
    cg: &ChunkGraph,
    m: usize,
    f: &NoRuntimeModuleCache,
)
    requires
        g1.modules@ == g2.modules@,
        g1.connections@ == g2.connections@,
        crate::facts::facts_ok(g1, cg, m, f),
    ensures
        crate::facts::facts_ok(g2, cg, m, f),
{
    lemma_esm_out_stable(g1, g2, m, g1.connections@.len() as int);
    assert(crate::classify::spec_dynamic_export_names(g2, m as int)
        == crate::classify::spec_dynamic_export_names(g1, m as int)) by {
        assert(g2.modules@[m as int] == g1.modules@[m as int]);
    }
    assert(crate::facts::incomings_wf(g2, m, f.incomings@)) by {
        assert forall|j: int|
            0 <= j < g2.connections@.len() && (#[trigger] g2.connections@[j]).target == m implies exists|a: int|
            0 <= a < f.incomings@.len() && (#[trigger] f.incomings@[a]).0
                == g2.connections@[j].origin && f.incomings@[a].1@.contains(j as usize) by {
            assert(g1.connections@[j].target == m);
            let a = choose|a: int|
                0 <= a < f.incomings@.len() && (#[trigger] f.incomings@[a]).0
                    == g1.connections@[j].origin && f.incomings@[a].1@.contains(j as usize);
            assert(0 <= a < f.incomings@.len() && f.incomings@[a].0 == g2.connections@[j].origin
                && f.incomings@[a].1@.contains(j as usize));
        }
    }
}

/// Whether a root's worklist starts empty does not depend on the bailout
/// logs.
proof fn lemma_no_seeds_stable(
    g1: &ModuleGraph,
    g2: &ModuleGraph,
    f: NoRuntimeModuleCache,
    root: usize,
)
    requires
        g1.modules@ == g2.modules@,
        g1.connections@ == g2.connections@,
        root_has_no_seeds(g1, f, root),
    ensures
        root_has_no_seeds(g2, f, root),
{
    let n = f.connections@.len() as int;
    let rtv = choose|rtv: Option<Seq<u64>>|
        #[trigger] matches_active_runtime(g1, f, root, rtv) && (forall|q: int|
            0 <= q < crate::facts::spec_imports_upto(
                g1,
                f.connections@,
                f.provided_names,
                rtv,
                f.connections@.len() as int,
            ).len() ==> crate::facts::spec_imports_upto(
                g1,
                f.connections@,
                f.provided_names,
                rtv,
                f.connections@.len() as int,
            )[q] == root);
    assert(matches_active_runtime(g2, f, root, rtv)) by {
        assert(g2.modules@[root as int] == g1.modules@[root as int]);
    }
    lemma_imports_upto_stable(g1, g2, f.connections@, f.provided_names, rtv, n);
    assert(matches_active_runtime(g2, f, root, rtv) && (forall|q: int|
        0 <= q < crate::facts::spec_imports_upto(
            g2,
            f.connections@,
            f.provided_names,
            rtv,
            f.connections@.len() as int,
        ).len() ==> crate::facts::spec_imports_upto(
            g2,
            f.connections@,
            f.provided_names,
            rtv,
            f.connections@.len() as int,
        )[q] == root));
}

proof fn lemma_linked_stable(g1: &ModuleGraph, g2: &ModuleGraph, s: Seq<usize>)
    requires
        g1.connections@ == g2.connections@,
    ensures
        members_linked(g1, s) == members_linked(g2, s),
{
    assert forall|a: usize, b: usize|
        #[trigger] modules_linked(g1, a, b) == #[trigger] modules_linked(g2, a, b) by {
        if modules_linked(g1, a, b) {
            let j = choose|j: int|
                0 <= j < g1.connections@.len() && (((#[trigger] g1.connections@[j]).origin
                    == Option::Some(a) && g1.connections@[j].target == b) || (
                g1.connections@[j].origin == Option::Some(b) && g1.connections@[j].target == a));
            assert(g2.connections@[j] == g1.connections@[j]);
            assert(modules_linked(g2, a, b));
        }
        if modules_linked(g2, a, b) {
            let j = choose|j: int|
                0 <= j < g2.connections@.len() && (((#[trigger] g2.connections@[j]).origin
                    == Option::Some(a) && g2.connections@[j].target == b) || (
                g2.connections@[j].origin == Option::Some(b) && g2.connections@[j].target == a));
            assert(g1.connections@[j] == g2.connections@[j]);
            assert(modules_linked(g1, a, b));
        }
    }
    if members_linked(g1, s) {
        assert forall|i: int| 1 <= i < s.len() implies #[trigger] linked_to_earlier(g2, s, i) by {
            assert(linked_to_earlier(g1, s, i));
            let p = choose|p: int| 0 <= p < i && modules_linked(g1, s[p], s[i]);
            assert(modules_linked(g2, s[p], s[i]));
        }
        assert(members_linked(g2, s));
    }
    if members_linked(g2, s) {
        assert forall|i: int| 1 <= i < s.len() implies #[trigger] linked_to_earlier(g1, s, i) by {
            assert(linked_to_earlier(g2, s, i));
            let p = choose|p: int| 0 <= p < i && modules_linked(g2, s[p], s[i]);
            assert(modules_linked(g1, s[p], s[i]));
        }
        assert(members_linked(g1, s));
    }
}

} // verus!
