//! The configuration builder: the backtracking admission test that decides
//! whether a candidate module may be absorbed into a configuration, absorbing
//! its required co-members recursively, with an index-stamped rollback on
//! failure.

use vstd::prelude::*;

use crate::chunks::{contains_usize, ChunkGraph};
use crate::config::{distinct_ids, ConcatConfiguration, Problem, Warning};
use crate::facts::{get_imports_of, incomings_wf, NoRuntimeModuleCache};
use crate::graph::{runtime_opt_view, spec_connection_active, spec_is_esm_dep_like, ModuleGraph};
use crate::runtime::RuntimeSpec;

verus! {

/// Strictly ascending module ids.
pub open spec fn ascending_ids(s: Seq<usize>) -> bool {
    forall|i: int, j: int| 0 <= i < j < s.len() ==> s[i] < s[j]
}

/// Some dependency edge joins `a` and `b`, in either direction.
pub open spec fn modules_linked(g: &ModuleGraph, a: usize, b: usize) -> bool {
    exists|j: int|
        0 <= j < g.connections@.len() && (((#[trigger] g.connections@[j]).origin == Option::Some(a)
            && g.connections@[j].target == b) || (g.connections@[j].origin == Option::Some(b)
            && g.connections@[j].target == a))
}

/// The member at index `i` is joined by a dependency edge to some earlier
/// member.
pub open spec fn linked_to_earlier(g: &ModuleGraph, s: Seq<usize>, i: int) -> bool {
    exists|p: int| 0 <= p < i && modules_linked(g, s[p], s[i])
}

/// Every member after the first is joined by a dependency edge to an earlier
/// member, so the member set hangs together around its root.
pub open spec fn members_linked(g: &ModuleGraph, s: Seq<usize>) -> bool {
    forall|i: int| 1 <= i < s.len() ==> #[trigger] linked_to_earlier(g, s, i)
}

/// Module `m` sits in every chunk that `root` sits in.
pub open spec fn in_all_root_chunks(cg: &ChunkGraph, root: usize, m: usize) -> bool {
    forall|k: int|
        0 <= k < cg.module_chunks@[root as int]@.len() ==> cg.in_chunk(
            m as int,
            #[trigger] cg.module_chunks@[root as int]@[k],
        )
}

/// All members are valid module ids.
pub open spec fn members_valid(g: &ModuleGraph, s: Seq<usize>) -> bool {
    forall|k: int| 0 <= k < s.len() ==> (#[trigger] s[k]) < g.num_modules()
}

/// Every member but the root is an eligible inner module and sits in every
/// chunk of the root.
pub open spec fn members_admissible(
    g: &ModuleGraph,
    cg: &ChunkGraph,
    inners: Seq<bool>,
    root: usize,
    s: Seq<usize>,
) -> bool {
    forall|i: int|
        1 <= i < s.len() ==> (inners[(#[trigger] s[i]) as int] && in_all_root_chunks(cg, root, s[i]))
}

/// No admission rule blocks the candidate outright: it is an eligible inner
/// module sitting in every chunk of the root, and every live reference to it
/// comes from another module, through ESM syntax, from a module sitting in
/// every chunk of the root, live for the whole working runtime whenever more
/// than one runtime is at work.
pub open spec fn spec_freely_admissible(
    g: &ModuleGraph,
    cg: &ChunkGraph,
    rtv: Option<Seq<u64>>,
    root: usize,
    m: usize,
    inners: Seq<bool>,
) -> bool {
    &&& inners[m as int]
    &&& in_all_root_chunks(cg, root, m)
    &&& forall|j: int|
        #![trigger g.connections@[j]]
        0 <= j < g.connections@.len() && g.connections@[j].target == m && spec_connection_active(
            g.connections@[j],
            rtv,
        ) ==> (match g.connections@[j].origin {
            Option::Some(o) => spec_is_esm_dep_like(g.connections@[j].kind)
                && in_all_root_chunks(cg, root, o) && (match rtv {
                Option::Some(s) => s.len() <= 1 || (forall|x: u64|
                    s.contains(x) ==> g.connections@[j].active_in@.contains(x)),
                Option::None => true,
            }),
            Option::None => false,
        })
}

/// Module `o` reaches `m` through some live connection.
pub open spec fn spec_active_incoming(
    g: &ModuleGraph,
    m: usize,
    o: usize,
    rtv: Option<Seq<u64>>,
) -> bool {
    exists|j: int|
        0 <= j < g.connections@.len() && (#[trigger] g.connections@[j]).target == m
            && g.connections@[j].origin == Option::Some(o) && spec_connection_active(
            g.connections@[j],
            rtv,
        )
}

/// A live reference into `m` from outside the module graph.
pub open spec fn spec_externally_referenced(g: &ModuleGraph, m: usize, rtv: Option<Seq<u64>>) -> bool {
    exists|j: int|
        0 <= j < g.connections@.len() && (#[trigger] g.connections@[j]).target == m
            && g.connections@[j].origin is None && spec_connection_active(g.connections@[j], rtv)
}

/// `o` is a required co-member origin of `m`: it reaches `m` through a live
/// connection, sits in at least one chunk, and its own runtimes meet the
/// working runtime.
pub open spec fn spec_qualifying_origin(
    g: &ModuleGraph,
    cg: &ChunkGraph,
    rtv: Option<Seq<u64>>,
    o: usize,
    m: usize,
) -> bool {
    &&& spec_active_incoming(g, m, o, rtv)
    &&& cg.module_chunks@[o as int]@.len() > 0
    &&& match rtv {
        Option::Some(s) => exists|x: u64|
            s.contains(x) && #[trigger] cg.module_runtime_has(o as int, x),
        Option::None => false,
    }
}

/// Some required origin does not sit in every chunk of the root.
pub open spec fn spec_cross_chunk_blocked(
    g: &ModuleGraph,
    cg: &ChunkGraph,
    rtv: Option<Seq<u64>>,
    root: usize,
    m: usize,
) -> bool {
    exists|o: usize|
        #[trigger] spec_qualifying_origin(g, cg, rtv, o, m) && !in_all_root_chunks(cg, root, o)
}

/// Some required origin reaches `m` through live non-ESM syntax.
pub open spec fn spec_syntax_blocked(
    g: &ModuleGraph,
    cg: &ChunkGraph,
    rtv: Option<Seq<u64>>,
    m: usize,
) -> bool {
    exists|o: usize, j: int|
        #![trigger spec_qualifying_origin(g, cg, rtv, o, m), g.connections@[j]]
        spec_qualifying_origin(g, cg, rtv, o, m) && 0 <= j < g.connections@.len()
            && g.connections@[j].target == m && g.connections@[j].origin == Option::Some(o)
            && spec_connection_active(g.connections@[j], rtv) && !spec_is_esm_dep_like(
            g.connections@[j].kind,
        )
}

/// `o` reaches `m` through some connection live for the whole working runtime.
pub open spec fn spec_has_full_connection(g: &ModuleGraph, m: usize, o: usize, s: Seq<u64>) -> bool {
    exists|j: int|
        0 <= j < g.connections@.len() && (#[trigger] g.connections@[j]).target == m
            && g.connections@[j].origin == Option::Some(o) && (forall|x: u64|
            s.contains(x) ==> g.connections@[j].active_in@.contains(x))
}

/// Under several runtimes, some required origin reaches `m` only for part of
/// them: none of its connections is live for the whole working runtime.
pub open spec fn spec_runtime_blocked(
    g: &ModuleGraph,
    cg: &ChunkGraph,
    rtv: Option<Seq<u64>>,
    m: usize,
) -> bool {
    match rtv {
        Option::Some(s) => s.len() > 1 && (exists|o: usize|
            #[trigger] spec_qualifying_origin(g, cg, rtv, o, m) && !spec_has_full_connection(
                g,
                m,
                o,
                s,
            )),
        Option::None => false,
    }
}

/// The admission rules, in the order they are checked: the first one that
/// fails names the verdict.
pub enum AdmissionCheck {
    NotEligibleInner,
    MissingRootChunks,
    ExternalReference,
    CrossChunkImporter,
    UnsupportedSyntaxImporter,
    RuntimeConditionImporter,
    Admit,
}

pub open spec fn spec_admission_verdict(
    g: &ModuleGraph,
    cg: &ChunkGraph,
    rtv: Option<Seq<u64>>,
    root: usize,
    m: usize,
    inners: Seq<bool>,
) -> AdmissionCheck {
    if !inners[m as int] {
        AdmissionCheck::NotEligibleInner
    } else if !in_all_root_chunks(cg, root, m) {
        AdmissionCheck::MissingRootChunks
    } else if spec_externally_referenced(g, m, rtv) {
        AdmissionCheck::ExternalReference
    } else if spec_cross_chunk_blocked(g, cg, rtv, root, m) {
        AdmissionCheck::CrossChunkImporter
    } else if spec_syntax_blocked(g, cg, rtv, m) {
        AdmissionCheck::UnsupportedSyntaxImporter
    } else if spec_runtime_blocked(g, cg, rtv, m) {
        AdmissionCheck::RuntimeConditionImporter
    } else {
        AdmissionCheck::Admit
    }
}

/// Which warning each verdict produces: the transitive-reference warning
/// naming the candidate for an ineligible inner, otherwise the problem
/// variant of the failing rule, citing the candidate's readable identifier.
pub open spec fn spec_verdict_warning(
    g: &ModuleGraph,
    m: usize,
    v: AdmissionCheck,
    w: crate::config::WarningView,
) -> bool {
    match v {
        AdmissionCheck::NotEligibleInner => w == crate::config::WarningView::Id(m),
        AdmissionCheck::MissingRootChunks => match w {
            crate::config::WarningView::Problem(
                crate::config::ProblemView::NotInSameChunks { module, .. },
            ) => module == g.modules@[m as int].readable_identifier@,
            _ => false,
        },
        AdmissionCheck::ExternalReference => match w {
            crate::config::WarningView::Problem(
                crate::config::ProblemView::ReferencedExternally { module },
            ) => module == g.modules@[m as int].readable_identifier@,
            _ => false,
        },
        AdmissionCheck::CrossChunkImporter => match w {
            crate::config::WarningView::Problem(
                crate::config::ProblemView::ReferencedFromDifferentChunks { module, .. },
            ) => module == g.modules@[m as int].readable_identifier@,
            _ => false,
        },
        AdmissionCheck::UnsupportedSyntaxImporter => match w {
            crate::config::WarningView::Problem(
                crate::config::ProblemView::UnsupportedSyntax { module, .. },
            ) => module == g.modules@[m as int].readable_identifier@,
            _ => false,
        },
        AdmissionCheck::RuntimeConditionImporter => match w {
            crate::config::WarningView::Problem(
                crate::config::ProblemView::RuntimeCondition { module, .. },
            ) => module == g.modules@[m as int].readable_identifier@,
            _ => false,
        },
        AdmissionCheck::Admit => false,
    }
}

/// Every live reference into `m` comes from a module that is already a
/// member and carries no memoized failure.
pub open spec fn origins_settled(
    g: &ModuleGraph,
    m: usize,
    rtv: Option<Seq<u64>>,
    members: Seq<usize>,
    cache: Seq<Option<Warning>>,
) -> bool {
    forall|j: int|
        #![trigger g.connections@[j]]
        0 <= j < g.connections@.len() && g.connections@[j].target == m && spec_connection_active(
            g.connections@[j],
            rtv,
        ) ==> (match g.connections@[j].origin {
            Option::Some(o) => members.contains(o) && (o as int) < cache.len() && cache[o as int]
                is None,
            Option::None => true,
        })
}

/// Success is owed: the candidate is uncached and not yet a member, no
/// admission rule blocks it, and every origin it requires is already a
/// member with no memoized failure.
pub open spec fn spec_owed_success(
    g: &ModuleGraph,
    cg: &ChunkGraph,
    rtv: Option<Seq<u64>>,
    config0: ConcatConfiguration,
    m: usize,
    inners: Seq<bool>,
    cache0: Seq<Option<Warning>>,
) -> bool {
    &&& (m as int) < cache0.len() && cache0[m as int] is None
    &&& !config0.members().contains(m)
    &&& spec_freely_admissible(g, cg, rtv, config0.root_module, m, inners)
    &&& origins_settled(g, m, rtv, config0.members(), cache0)
}

/// The facts table covers every module of the graph.
pub open spec fn all_facts_ok(
    g: &ModuleGraph,
    cg: &ChunkGraph,
    facts: Seq<NoRuntimeModuleCache>,
) -> bool {
    &&& facts.len() == g.num_modules()
    &&& forall|m: int|
        0 <= m < facts.len() ==> crate::facts::facts_ok(g, cg, m as usize, &(#[trigger] facts[m]))
}

/// Each candidate is joined by a dependency edge to some member.
pub open spec fn all_linked_to_members(
    g: &ModuleGraph,
    members: Seq<usize>,
    cands: Seq<usize>,
) -> bool {
    forall|k: int|
        0 <= k < cands.len() ==> exists|p: int|
            0 <= p < members.len() && modules_linked(g, members[p], #[trigger] cands[k])
}

/// Insert into a strictly ascending id list.
fn insert_ascending(out: &mut Vec<usize>, x: usize)
    requires
        ascending_ids(old(out)@),
        !old(out)@.contains(x),
    ensures
        ascending_ids(final(out)@),
        final(out)@.len() == old(out)@.len() + 1,
        forall|y: usize| final(out)@.contains(y) <==> (old(out)@.contains(y) || y == x),
{
    let ghost orig = out@;
    let mut i: usize = 0;
    while i < out.len() && out[i] < x
        invariant
            out@ == orig,
            0 <= i <= orig.len(),
            forall|k: int| 0 <= k < i ==> orig[k] < x,
        decreases orig.len() - i,
    {
        i = i + 1;
    }
    proof {
        if i < orig.len() {
            assert(orig[i as int] != x) by {
                if orig[i as int] == x {
                    assert(orig.contains(x));
                }
            }
            assert forall|k: int| i <= k < orig.len() implies orig[k] > x by {
                assert(orig[i as int] > x);
                if k > i {
                    assert(orig[i as int] < orig[k]);
                }
            }
        }
    }
    out.insert(i, x);
    proof {
        assert(forall|p: int| 0 <= p < i ==> out@[p] == orig[p]);
        assert(out@[i as int] == x);
        assert(forall|q: int| i < q < out@.len() ==> out@[q] == orig[q - 1]);
        assert forall|y: usize| out@.contains(y) implies (orig.contains(y) || y == x) by {
            let k = choose|k: int| 0 <= k < out@.len() && #[trigger] out@[k] == y;
            if k < i {
                assert(orig[k] == y);
            } else if k > i {
                assert(orig[k - 1] == y);
            }
        }
        assert forall|y: usize| orig.contains(y) implies out@.contains(y) by {
            let k = choose|k: int| 0 <= k < orig.len() && #[trigger] orig[k] == y;
            if k < i {
                assert(out@[k] == y);
            } else {
                assert(out@[k + 1] == y);
            }
        }
        assert(out@.contains(x)) by {
            assert(out@[i as int] == x);
        }
    }
}

/// Sort a duplicate-free id list ascending.
fn sort_ids(v: &Vec<usize>) -> (r: Vec<usize>)
    requires
        distinct_ids(v@),
    ensures
        ascending_ids(r@),
        distinct_ids(r@),
        r@.len() == v@.len(),
        forall|y: usize| r@.contains(y) <==> v@.contains(y),
{
    let mut r: Vec<usize> = Vec::new();
    let mut i: usize = 0;
    while i < v.len()
        invariant
            distinct_ids(v@),
            0 <= i <= v@.len(),
            ascending_ids(r@),
            r@.len() == i,
            forall|y: usize| r@.contains(y) <==> v@.take(i as int).contains(y),
        decreases v@.len() - i,
    {
        let x = v[i];
        proof {
            assert(!r@.contains(x)) by {
                if v@.take(i as int).contains(x) {
                    let k = choose|k: int|
                        0 <= k < i && #[trigger] v@.take(i as int)[k] == x;
                    assert(v@[k] == x);
                    assert(v@[i as int] == x);
                    assert(false);
                }
            }
        }
        insert_ascending(&mut r, x);
        proof {
            crate::seq_util::lemma_take_succ_contains(v@, i as int);
            assert(forall|y: usize|
                r@.contains(y) <==> v@.take(i + 1).contains(y));
        }
        i = i + 1;
    }
    proof {
        crate::seq_util::lemma_take_all(v@);
        assert(distinct_ids(r@)) by {
            assert forall|p: int, q: int| 0 <= p < q < r@.len() implies r@[p] != r@[q] by {
                assert(r@[p] < r@[q]);
            }
        }
    }
    r
}

/// The chunks of the root that do not contain `m`, in the root list's order.
fn missing_chunks_of(cg: &ChunkGraph, root: usize, m: usize) -> (r: Vec<usize>)
    requires
        cg.wf(cg.module_chunks@.len() as nat),
        root < cg.module_chunks@.len(),
        m < cg.module_chunks@.len(),
    ensures
        forall|k: int|
            0 <= k < r@.len() ==> (cg.module_chunks@[root as int]@.contains(#[trigger] r@[k])
                && !cg.in_chunk(m as int, r@[k])),
        (r@.len() == 0) <==> in_all_root_chunks(cg, root, m),
        distinct_ids(r@),
        forall|k: int| 0 <= k < r@.len() ==> (#[trigger] r@[k]) < cg.num_chunks(),
{
    let rc = cg.module_chunks_list(root);
    let mut r: Vec<usize> = Vec::new();
    let mut k: usize = 0;
    while k < rc.len()
        invariant
            cg.wf(cg.module_chunks@.len() as nat),
            root < cg.module_chunks@.len(),
            m < cg.module_chunks@.len(),
            rc@ == cg.module_chunks@[root as int]@,
            0 <= k <= rc@.len(),
            forall|p: int|
                0 <= p < r@.len() ==> (rc@.contains(#[trigger] r@[p]) && !cg.in_chunk(
                    m as int,
                    r@[p],
                )),
            forall|p: int|
                0 <= p < r@.len() ==> exists|q: int| 0 <= q < k && rc@[q] == #[trigger] r@[p],
            distinct_ids(r@),
            (r@.len() == 0) <==> (forall|q: int| 0 <= q < k ==> cg.in_chunk(m as int, rc@[q])),
        decreases rc@.len() - k,
    {
        let c = rc[k];
        if !cg.is_module_in_chunk(m, c) {
            let ghost before = r@;
            r.push(c);
            proof {
                assert(rc@.contains(c)) by {
                    assert(rc@[k as int] == c);
                }
                assert(forall|p: int| 0 <= p < before.len() ==> r@[p] == before[p]);
                assert(r@[before.len() as int] == c);
                assert(distinct_ids(r@)) by {
                    assert forall|p: int, q: int| 0 <= p < q < r@.len() implies r@[p] != r@[q] by {
                        if q == r@.len() - 1 {
                            // an earlier entry equal to c would contradict
                            // distinctness of the root's chunk list
                            if r@[p] == c {
                                let q0 = choose|q0: int|
                                    0 <= q0 < k && rc@[q0] == #[trigger] before[p];
                                assert(rc@[k as int] == c);
                                assert(crate::chunks::distinct_seq(rc@));
                                assert(false);
                            }
                        }
                    }
                }
            }
        }
        k = k + 1;
    }
    proof {
        assert((r@.len() == 0) <==> in_all_root_chunks(cg, root, m)) by {
            if forall|q: int| 0 <= q < rc@.len() ==> cg.in_chunk(m as int, rc@[q]) {
                assert(in_all_root_chunks(cg, root, m));
            }
        }
    }
    r
}

/// Does `a` come no later than `b` in character order?  Diagnostic name
/// lists are ordered by their display text.
fn str_le(a: &String, b: &String) -> (r: bool)
{
    let sa = a.as_str();
    let sb = b.as_str();
    let la = sa.unicode_len();
    let lb = sb.unicode_len();
    let mut i: usize = 0;
    while i < la && i < lb
        invariant
            la == sa@.len(),
            lb == sb@.len(),
            0 <= i <= la,
            0 <= i <= lb,
        decreases la - i,
    {
        let ca = sa.get_char(i);
        let cb = sb.get_char(i);
        if ca != cb {
            return (ca as u32) < (cb as u32);
        }
        i = i + 1;
    }
    la <= lb
}

/// Sort a diagnostic name list by display text.
fn sort_names(v: Vec<String>) -> (r: Vec<String>)
{
    let mut rest = v;
    let mut r: Vec<String> = Vec::new();
    while rest.len() > 0
        decreases rest@.len(),
    {
        let x = rest.remove(0);
        let mut p: usize = 0;
        let rlen = r.len();
        while p < rlen && str_le(&r[p], &x)
            invariant
                rlen == r@.len(),
                0 <= p <= rlen,
            decreases rlen - p,
        {
            p = p + 1;
        }
        r.insert(p, x);
    }
    r
}

/// Drop adjacent repeats from a sorted diagnostic name list.
fn dedup_names(v: Vec<String>) -> (r: Vec<String>)
{
    let mut r: Vec<String> = Vec::new();
    let mut rest = v;
    while rest.len() > 0
        decreases rest@.len(),
    {
        let x = rest.remove(0);
        let is_repeat = if r.len() > 0 {
            string_eq(&r[r.len() - 1], &x)
        } else {
            false
        };
        if !is_repeat {
            r.push(x);
        }
    }
    r
}

/// Chunk names for diagnostics, sorted by name, repeats removed.
fn chunk_name_list(cg: &ChunkGraph, ids: &Vec<usize>) -> (r: Vec<String>)
    requires
        forall|k: int| 0 <= k < ids@.len() ==> (#[trigger] ids@[k]) < cg.num_chunks(),
{
    let mut names: Vec<String> = Vec::new();
    let mut k: usize = 0;
    while k < ids.len()
        invariant
            forall|p: int| 0 <= p < ids@.len() ==> (#[trigger] ids@[p]) < cg.num_chunks(),
            0 <= k <= ids@.len(),
        decreases ids@.len() - k,
    {
        let name = match &cg.chunk_names[ids[k]] {
            Option::Some(n) => crate::config::clone_string(n),
            Option::None => crate::classify::string_lit("unnamed chunk(s)"),
        };
        names.push(name);
        k = k + 1;
    }
    dedup_names(sort_names(names))
}

/// Are two strings the same text?
pub fn string_eq(a: &String, b: &String) -> (r: bool)
    ensures
        r == (a@ == b@),
{
    a.eq(b)
}

/// Readable identifiers of the given modules, sorted by name, for
/// diagnostics.
fn module_ident_list(g: &ModuleGraph, ids: &Vec<usize>) -> (r: Vec<String>)
    requires
        forall|k: int| 0 <= k < ids@.len() ==> (#[trigger] ids@[k]) < g.num_modules(),
{
    let mut names: Vec<String> = Vec::new();
    let mut k: usize = 0;
    while k < ids.len()
        invariant
            forall|p: int| 0 <= p < ids@.len() ==> (#[trigger] ids@[p]) < g.num_modules(),
            0 <= k <= ids@.len(),
        decreases ids@.len() - k,
    {
        names.push(crate::config::clone_string(&g.modules[ids[k]].readable_identifier));
        k = k + 1;
    }
    sort_names(names)
}

} // verus!

verus! {

/// Outcome of the per-candidate admission checks: the sorted origins that
/// must be absorbed alongside the candidate, or the blocking problem.
pub enum Admission {
    Origins(Vec<usize>),
    Blocked(Warning),
}

/// Run the admission checks for one candidate, without touching any state.
///
/// On `Origins`, the candidate is an eligible inner module sitting in every
/// chunk of the root, no live reference reaches it from outside the module
/// graph or through unsupported syntax or for only part of the runtimes, and
/// the returned origins are exactly the modules whose live references force
/// co-membership, in ascending id order.
#[verifier::rlimit(100)]
#[verifier::spinoff_prover]
#[verifier::loop_isolation(false)]
fn admission_origins(
    g: &ModuleGraph,
    cg: &ChunkGraph,
    mf: &NoRuntimeModuleCache,
    root: usize,
    module_id: usize,
    runtime: Option<&RuntimeSpec>,
    possible_inners: &Vec<bool>,
) -> (r: Admission)
    requires
        g.wf(),
        cg.wf(g.num_modules()),
        crate::facts::facts_ok(g, cg, module_id, mf),
        root < g.num_modules(),
        module_id < g.num_modules(),
        match runtime {
            Option::Some(rt) => rt.wf(),
            Option::None => true,
        },
        possible_inners@.len() == g.num_modules(),
    ensures
        match r {
            Admission::Origins(origins) => {
                &&& possible_inners@[module_id as int]
                &&& in_all_root_chunks(cg, root, module_id)
                &&& ascending_ids(origins@)
                &&& distinct_ids(origins@)
                &&& forall|k: int|
                    0 <= k < origins@.len() ==> ((#[trigger] origins@[k]) < g.num_modules()
                        && modules_linked(g, module_id, origins@[k]) && spec_active_incoming(
                        g,
                        module_id,
                        origins@[k],
                        runtime_opt_view(runtime),
                    ))
                &&& forall|o: usize|
                    #[trigger] spec_qualifying_origin(
                        g,
                        cg,
                        runtime_opt_view(runtime),
                        o,
                        module_id,
                    ) ==> origins@.contains(o)
            },
            Admission::Blocked(_) => true,
        },
        !possible_inners@[module_id as int] ==> r is Blocked,
        spec_freely_admissible(
            g,
            cg,
            runtime_opt_view(runtime),
            root,
            module_id,
            possible_inners@,
        ) ==> r is Origins,
        // the first failing admission rule decides the outcome and names the
        // warning
        r is Origins <==> spec_admission_verdict(
            g,
            cg,
            runtime_opt_view(runtime),
            root,
            module_id,
            possible_inners@,
        ) == AdmissionCheck::Admit,
        r matches Admission::Blocked(w) ==> spec_verdict_warning(
            g,
            module_id,
            spec_admission_verdict(
                g,
                cg,
                runtime_opt_view(runtime),
                root,
                module_id,
                possible_inners@,
            ),
            w.dview(),
        ),
{
    let nconn = g.connections.len();
    proof {
        assert(g.connections@.len() == nconn);
    }
    // The candidate must be an eligible inner module.
    if !possible_inners[module_id] {
        return Admission::Blocked(Warning::Id(module_id));
    }

    let ident = crate::config::clone_string(&g.modules[module_id].readable_identifier);

    // The candidate must sit in every chunk of the root.
    let missing = missing_chunks_of(cg, root, module_id);
    if missing.len() > 0 {
        let missing_sorted = sort_ids(&missing);
        proof {
            assert forall|k: int|
                0 <= k < missing_sorted@.len() implies (#[trigger] missing_sorted@[k])
                < cg.num_chunks() by {
                assert(missing_sorted@.contains(missing_sorted@[k]));
                assert(missing@.contains(missing_sorted@[k]));
                let w = choose|w: int|
                    0 <= w < missing@.len() && #[trigger] missing@[w] == missing_sorted@[k];
            }
        }
        let missing_names = chunk_name_list(cg, &missing_sorted);
        let own_row = cg.module_chunks_list(module_id);
        proof {
            assert(crate::config::distinct_ids(own_row@)) by {
                assert(crate::chunks::distinct_seq(cg.module_chunks@[module_id as int]@));
            }
        }
        let own_sorted = sort_ids(own_row);
        proof {
            assert forall|k: int|
                0 <= k < own_sorted@.len() implies (#[trigger] own_sorted@[k])
                < cg.num_chunks() by {
                assert(own_sorted@.contains(own_sorted@[k]));
                assert(own_row@.contains(own_sorted@[k]));
                let w = choose|w: int|
                    0 <= w < own_row@.len() && #[trigger] own_row@[w] == own_sorted@[k];
            }
        }
        let own_names = chunk_name_list(cg, &own_sorted);
        return Admission::Blocked(
            Warning::Problem(
                Problem::NotInSameChunks {
                    module: ident,
                    missing_chunks: missing_names,
                    module_chunks: own_names,
                },
            ),
        );
    }

    // A live reference from outside the module graph blocks absorption.
    let groups = mf.incomings.len();
    let mut a: usize = 0;
    while a < groups
        invariant
            0 <= a <= groups,
            forall|a2: int, k2: int|
                #![trigger mf.incomings@[a2].1@[k2]]
                0 <= a2 < a && mf.incomings@[a2].0 is None && 0 <= k2
                    < mf.incomings@[a2].1@.len() ==> !spec_connection_active(
                    g.connections@[mf.incomings@[a2].1@[k2] as int],
                    runtime_opt_view(runtime),
                ),
        decreases groups - a,
    {
        let group = &mf.incomings[a];
        let is_none_key = match group.0 {
            Option::None => true,
            Option::Some(_) => false,
        };
        if is_none_key {
            let conns = group.1.len();
            let mut k: usize = 0;
            while k < conns
                invariant
                    a < mf.incomings@.len(),
                    conns == mf.incomings@[a as int].1@.len(),
                    0 <= k <= conns,
                    forall|k2: int|
                        0 <= k2 < k ==> !spec_connection_active(
                            g.connections@[(#[trigger] mf.incomings@[a as int].1@[k2]) as int],
                            runtime_opt_view(runtime),
                        ),
                decreases conns - k,
            {
                let j = mf.incomings[a].1[k];
                let c = &g.connections[j];
                if c.is_active(runtime) {
                    proof {
                        // a live reference from outside the module graph
                        // contradicts free admissibility
                        assert(g.connections@[j as int].target == module_id);
                        assert(g.connections@[j as int].origin is None);
                        assert(spec_externally_referenced(
                            g,
                            module_id,
                            runtime_opt_view(runtime),
                        ));
                    }
                    return Admission::Blocked(
                        Warning::Problem(Problem::ReferencedExternally { module: ident }),
                    );
                }
                k = k + 1;
            }
        }
        a = a + 1;
    }
    proof {
        // every incoming edge of the candidate sits in its origin's group, so
        // a live edge from outside the graph would have been found
        assert(!spec_externally_referenced(g, module_id, runtime_opt_view(runtime))) by {
            if spec_externally_referenced(g, module_id, runtime_opt_view(runtime)) {
                let j = choose|j: int|
                    0 <= j < g.connections@.len() && (#[trigger] g.connections@[j]).target
                        == module_id && g.connections@[j].origin is None && spec_connection_active(
                        g.connections@[j],
                        runtime_opt_view(runtime),
                    );
                let a3 = choose|a3: int|
                    0 <= a3 < mf.incomings@.len() && (#[trigger] mf.incomings@[a3]).0
                        == g.connections@[j].origin && mf.incomings@[a3].1@.contains(j as usize);
                let k3 = choose|k3: int|
                    0 <= k3 < mf.incomings@[a3].1@.len() && #[trigger] mf.incomings@[a3].1@[k3]
                        == j as usize;
                assert(j <= usize::MAX);
                assert(mf.incomings@[a3].1@[k3] as int == j);
                assert(!spec_connection_active(
                    g.connections@[mf.incomings@[a3].1@[k3] as int],
                    runtime_opt_view(runtime),
                ));
                assert(false);
            }
        }
    }

    // Collect the origins that require co-membership: origins in at least one
    // chunk whose runtime meets the working runtime, with a live connection.
    let mut incoming: Vec<(usize, Vec<usize>)> = Vec::new();
    let mut a2: usize = 0;
    while a2 < groups
        invariant
            0 <= a2 <= groups,
            forall|p: int|
                0 <= p < incoming@.len() ==> ((#[trigger] incoming@[p]).0 < g.num_modules()
                    && modules_linked(g, module_id, incoming@[p].0)),
            forall|p: int|
                0 <= p < incoming@.len() ==> exists|w: int|
                    0 <= w < a2 && mf.incomings@[w].0 == Option::Some((#[trigger] incoming@[p]).0),
            forall|p1: int, p2: int|
                0 <= p1 < p2 < incoming@.len() ==> (#[trigger] incoming@[p1]).0 != (
                #[trigger] incoming@[p2]).0,
            forall|p: int| 0 <= p < incoming@.len() ==> (#[trigger] incoming@[p]).1@.len() > 0,
            forall|p: int|
                0 <= p < incoming@.len() ==> spec_qualifying_origin(
                    g,
                    cg,
                    runtime_opt_view(runtime),
                    (#[trigger] incoming@[p]).0,
                    module_id,
                ),
            forall|p: int, j2: int|
                #![trigger incoming@[p].0, g.connections@[j2]]
                0 <= p < incoming@.len() && 0 <= j2 < g.connections@.len()
                    && g.connections@[j2].target == module_id && g.connections@[j2].origin
                    == Option::Some(incoming@[p].0) && spec_connection_active(
                    g.connections@[j2],
                    runtime_opt_view(runtime),
                ) ==> incoming@[p].1@.contains(j2 as usize),
            forall|o: usize|
                #![trigger cg.module_chunks@[o as int]]
                o < g.num_modules() && spec_qualifying_origin(
                    g,
                    cg,
                    runtime_opt_view(runtime),
                    o,
                    module_id,
                ) && (exists|w: int|
                    0 <= w < a2 && #[trigger] mf.incomings@[w].0 == Option::Some(o)) ==> (exists|
                    p: int,
                |
                    0 <= p < incoming@.len() && (#[trigger] incoming@[p]).0 == o),
            forall|p: int, k: int|
                #![trigger incoming@[p].1@[k]]
                0 <= p < incoming@.len() && 0 <= k < incoming@[p].1@.len() ==> ((
                incoming@[p].1@[k] as int) < g.connections@.len()
                    && g.connections@[incoming@[p].1@[k] as int].target == module_id
                    && g.connections@[incoming@[p].1@[k] as int].origin == Option::Some(
                    incoming@[p].0,
                ) && spec_connection_active(
                    g.connections@[incoming@[p].1@[k] as int],
                    runtime_opt_view(runtime),
                )),
        decreases groups - a2,
    {
        let group = &mf.incomings[a2];
        let origin_opt = group.0;
        proof {
            // if this group's origin is disqualified or the group is handled,
            // the completeness account extends to it; the same derivation
            // serves every skip below
            assert forall|o: usize, j2: int|
                #![trigger g.connections@[j2], cg.module_chunks@[o as int]]
                mf.incomings@[a2 as int].0 == Option::Some(o) && 0 <= j2 < g.connections@.len()
                    && g.connections@[j2].target == module_id && g.connections@[j2].origin
                    == Option::Some(o) implies mf.incomings@[a2 as int].1@.contains(
                j2 as usize,
            ) by {
                let w = choose|w: int|
                    0 <= w < mf.incomings@.len() && (#[trigger] mf.incomings@[w]).0
                        == g.connections@[j2].origin && mf.incomings@[w].1@.contains(j2 as usize);
                if w != a2 {
                    assert(mf.incomings@[w].0 != mf.incomings@[a2 as int].0);
                    assert(false);
                }
            }
        }
        match origin_opt {
            Option::Some(origin) => {
                proof {
                    assert(mf.incomings@[a2 as int].1@.len() > 0 ==> origin < g.num_modules()) by {
                        if mf.incomings@[a2 as int].1@.len() > 0 {
                            let j0 = mf.incomings@[a2 as int].1@[0];
                            assert(g.connections@[j0 as int].origin == Option::Some(origin));
                            assert(g.connections@[j0 as int].wf(g.num_modules()));
                        }
                    }
                }
                if group.1.len() == 0 {
                    proof {
                        assert(!spec_qualifying_origin(
                            g,
                            cg,
                            runtime_opt_view(runtime),
                            origin,
                            module_id,
                        )) by {
                            if spec_qualifying_origin(
                                g,
                                cg,
                                runtime_opt_view(runtime),
                                origin,
                                module_id,
                            ) {
                                let j2 = choose|j2: int|
                                    0 <= j2 < g.connections@.len() && (
                                    #[trigger] g.connections@[j2]).target == module_id
                                        && g.connections@[j2].origin == Option::Some(origin)
                                        && spec_connection_active(
                                        g.connections@[j2],
                                        runtime_opt_view(runtime),
                                    );
                                assert(mf.incomings@[a2 as int].1@.contains(j2 as usize));
                                assert(false);
                            }
                        }
                    }
                    a2 = a2 + 1;
                    continue;
                }
                if cg.get_number_of_module_chunks(origin) == 0 {
                    proof {
                        assert(!spec_qualifying_origin(
                            g,
                            cg,
                            runtime_opt_view(runtime),
                            origin,
                            module_id,
                        ));
                    }
                    a2 = a2 + 1;
                    continue;
                }
                let origin_runtime = cg.module_runtime(origin);
                let is_intersect = match runtime {
                    Option::Some(rt) => rt.intersects(&origin_runtime),
                    Option::None => false,
                };
                if !is_intersect {
                    proof {
                        assert(!spec_qualifying_origin(
                            g,
                            cg,
                            runtime_opt_view(runtime),
                            origin,
                            module_id,
                        )) by {
                            if spec_qualifying_origin(
                                g,
                                cg,
                                runtime_opt_view(runtime),
                                origin,
                                module_id,
                            ) {
                                match runtime {
                                    Option::Some(rt) => {
                                        let x = choose|x: u64|
                                            rt@.contains(x) && #[trigger] cg.module_runtime_has(
                                                origin as int,
                                                x,
                                            );
                                        assert(origin_runtime@.contains(x));
                                        assert(crate::runtime::runtimes_meet(
                                            rt@,
                                            origin_runtime@,
                                        ));
                                        assert(false);
                                    },
                                    Option::None => {},
                                }
                            }
                        }
                    }
                    a2 = a2 + 1;
                    continue;
                }
                let conns = group.1.len();
                let mut active: Vec<usize> = Vec::new();
                let mut k: usize = 0;
                while k < conns
                    invariant
                        a2 < mf.incomings@.len(),
                        conns == mf.incomings@[a2 as int].1@.len(),
                        mf.incomings@[a2 as int].0 == Option::Some(origin),
                        0 <= k <= conns,
                        forall|p: int|
                            0 <= p < active@.len() ==> (((#[trigger] active@[p]) as int)
                                < g.connections@.len()
                                && g.connections@[active@[p] as int].target == module_id
                                && g.connections@[active@[p] as int].origin == Option::Some(origin)
                                && spec_connection_active(
                                g.connections@[active@[p] as int],
                                runtime_opt_view(runtime),
                            )),
                        forall|k2: int|
                            0 <= k2 < k && spec_connection_active(
                                g.connections@[(#[trigger] mf.incomings@[a2 as int].1@[k2]) as int],
                                runtime_opt_view(runtime),
                            ) ==> active@.contains(mf.incomings@[a2 as int].1@[k2]),
                    decreases conns - k,
                {
                    let j = mf.incomings[a2].1[k];
                    let c = &g.connections[j];
                    if c.is_active(runtime) {
                        let ghost before_active = active@;
                        active.push(j);
                        proof {
                            assert(forall|p: int|
                                0 <= p < before_active.len() ==> active@[p] == before_active[p]);
                            assert(active@[before_active.len() as int] == j);
                            crate::seq_util::lemma_push_contains(before_active, j);
                        }
                    }
                    k = k + 1;
                }
                if active.len() > 0 {
                    let ghost before_inc = incoming@;
                    incoming.push((origin, active));
                    proof {
                        assert(forall|p: int|
                            0 <= p < before_inc.len() ==> incoming@[p] == before_inc[p]);
                        assert(incoming@[before_inc.len() as int].0 == origin);
                        assert(modules_linked(g, module_id, origin)) by {
                            let j0 = incoming@[before_inc.len() as int].1@[0];
                            assert(g.connections@[j0 as int].origin == Option::Some(origin));
                            assert(g.connections@[j0 as int].target == module_id);
                        }
                        // the pushed origin is a required co-member
                        assert(spec_qualifying_origin(
                            g,
                            cg,
                            runtime_opt_view(runtime),
                            origin,
                            module_id,
                        )) by {
                            let j0 = incoming@[before_inc.len() as int].1@[0];
                            assert(g.connections@[j0 as int].origin == Option::Some(origin)
                                && g.connections@[j0 as int].target == module_id
                                && spec_connection_active(
                                g.connections@[j0 as int],
                                runtime_opt_view(runtime),
                            ));
                            assert(spec_active_incoming(
                                g,
                                module_id,
                                origin,
                                runtime_opt_view(runtime),
                            ));
                            match runtime {
                                Option::Some(rt) => {
                                    let x = choose|x: u64|
                                        rt@.contains(x) && origin_runtime@.contains(x);
                                    assert(cg.module_runtime_has(origin as int, x));
                                },
                                Option::None => {
                                    assert(false);
                                },
                            }
                        }
                        // and its list holds every live connection it has
                        assert forall|p: int, j2: int|
                            #![trigger incoming@[p].0, g.connections@[j2]]
                            0 <= p < incoming@.len() && 0 <= j2 < g.connections@.len()
                                && g.connections@[j2].target == module_id
                                && g.connections@[j2].origin == Option::Some(incoming@[p].0)
                                && spec_connection_active(
                                g.connections@[j2],
                                runtime_opt_view(runtime),
                            ) implies incoming@[p].1@.contains(j2 as usize) by {
                            if p < before_inc.len() {
                                assert(incoming@[p] == before_inc[p]);
                            } else {
                                assert(mf.incomings@[a2 as int].1@.contains(j2 as usize));
                                let k2 = choose|k2: int|
                                    0 <= k2 < mf.incomings@[a2 as int].1@.len()
                                        && #[trigger] mf.incomings@[a2 as int].1@[k2] == j2 as usize;
                                assert(j2 <= usize::MAX);
                                assert(mf.incomings@[a2 as int].1@[k2] as int == j2);
                                assert(spec_connection_active(
                                    g.connections@[mf.incomings@[a2 as int].1@[k2] as int],
                                    runtime_opt_view(runtime),
                                ));
                                assert(incoming@[p].1@.contains(mf.incomings@[a2 as int].1@[k2]));
                            }
                        }
                        // every qualifying origin seen so far is collected
                        assert forall|o: usize|
                            o < g.num_modules() && spec_qualifying_origin(
                                g,
                                cg,
                                runtime_opt_view(runtime),
                                o,
                                module_id,
                            ) && (exists|w: int|
                                0 <= w < a2 + 1 && #[trigger] mf.incomings@[w].0 == Option::Some(
                                    o,
                                )) implies (exists|p: int|
                            0 <= p < incoming@.len() && (#[trigger] incoming@[p]).0 == o) by {
                            let w = choose|w: int|
                                0 <= w < a2 + 1 && #[trigger] mf.incomings@[w].0 == Option::Some(o);
                            if w < a2 {
                                assert(cg.module_chunks@[o as int].len() >= 0);
                                let p0 = choose|p0: int|
                                    0 <= p0 < before_inc.len() && (#[trigger] before_inc[p0]).0
                                        == o;
                                assert(incoming@[p0].0 == o);
                            } else {
                                assert(o == origin);
                                assert(incoming@[before_inc.len() as int].0 == o);
                            }
                        }
                        assert forall|p1: int, p2: int|
                            0 <= p1 < p2 < incoming@.len() implies (#[trigger] incoming@[p1]).0 != (
                        #[trigger] incoming@[p2]).0 by {
                            if p2 == incoming@.len() - 1 {
                                let w = choose|w: int|
                                    0 <= w < a2 && mf.incomings@[w].0 == Option::Some(
                                        before_inc[p1].0,
                                    );
                                assert(mf.incomings@[a2 as int].0 == Option::Some(origin));
                                if before_inc[p1].0 == origin {
                                    assert(mf.incomings@[w].0 == mf.incomings@[a2 as int].0);
                                    assert(false);
                                }
                            }
                        }
                        assert forall|p: int|
                            0 <= p < incoming@.len() implies exists|w: int|
                            0 <= w < a2 + 1 && mf.incomings@[w].0 == Option::Some(
                                (#[trigger] incoming@[p]).0,
                            ) by {
                            if p < before_inc.len() {
                                let w = choose|w: int|
                                    0 <= w < a2 && mf.incomings@[w].0 == Option::Some(
                                        before_inc[p].0,
                                    );
                                assert(0 <= w < a2 + 1 && mf.incomings@[w].0 == Option::Some(
                                    incoming@[p].0,
                                ));
                            } else {
                                assert(mf.incomings@[a2 as int].0 == Option::Some(incoming@[p].0));
                            }
                        }
                    }
                }
            },
            Option::None => {},
        }
        a2 = a2 + 1;
    }

    // Every required origin must itself sit in every chunk of the root.
    let mut bad_chunk_origins: Vec<usize> = Vec::new();
    let mut p: usize = 0;
    while p < incoming.len()
        invariant
            0 <= p <= incoming@.len(),
            forall|q: int|
                0 <= q < bad_chunk_origins@.len() ==> (#[trigger] bad_chunk_origins@[q])
                    < g.num_modules(),
            distinct_ids(bad_chunk_origins@),
            forall|q: int|
                0 <= q < bad_chunk_origins@.len() ==> !in_all_root_chunks(
                    cg,
                    root,
                    #[trigger] bad_chunk_origins@[q],
                ),
            forall|q: int|
                0 <= q < bad_chunk_origins@.len() ==> exists|w: int|
                    0 <= w < p && incoming@[w].0 == #[trigger] bad_chunk_origins@[q],
            forall|w: int|
                0 <= w < p ==> (in_all_root_chunks(cg, root, (#[trigger] incoming@[w]).0)
                    || bad_chunk_origins@.contains(incoming@[w].0)),
        decreases incoming@.len() - p,
    {
        let origin = incoming[p].0;
        let missing_o = missing_chunks_of(cg, root, origin);
        if missing_o.len() > 0 {
            let ghost before_bad = bad_chunk_origins@;
            bad_chunk_origins.push(origin);
            proof {
                assert(forall|q: int|
                    0 <= q < before_bad.len() ==> bad_chunk_origins@[q] == before_bad[q]);
                assert(bad_chunk_origins@[before_bad.len() as int] == origin);
                assert forall|q1: int, q2: int|
                    0 <= q1 < q2 < bad_chunk_origins@.len() implies bad_chunk_origins@[q1]
                    != bad_chunk_origins@[q2] by {
                    if q2 == bad_chunk_origins@.len() - 1 {
                        let w = choose|w: int|
                            0 <= w < p && incoming@[w].0 == #[trigger] before_bad[q1];
                        if before_bad[q1] == origin {
                            assert(incoming@[w].0 == incoming@[p as int].0);
                            assert(false);
                        }
                    }
                }
                assert forall|q: int|
                    0 <= q < bad_chunk_origins@.len() implies exists|w: int|
                    0 <= w < p + 1 && incoming@[w].0 == #[trigger] bad_chunk_origins@[q] by {
                    if q < before_bad.len() {
                        let w = choose|w: int| 0 <= w < p && incoming@[w].0 == before_bad[q];
                        assert(0 <= w < p + 1 && incoming@[w].0 == bad_chunk_origins@[q]);
                    } else {
                        assert(incoming@[p as int].0 == bad_chunk_origins@[q]);
                    }
                }
            }
        }
        p = p + 1;
    }
    if bad_chunk_origins.len() > 0 {
        proof {
            // the blocking rule: a required origin outside the root's chunks
            assert(spec_cross_chunk_blocked(
                g,
                cg,
                runtime_opt_view(runtime),
                root,
                module_id,
            )) by {
                let bad = bad_chunk_origins@[0];
                let w = choose|w: int|
                    0 <= w < incoming@.len() && incoming@[w].0 == bad;
                assert(spec_qualifying_origin(
                    g,
                    cg,
                    runtime_opt_view(runtime),
                    bad,
                    module_id,
                ));
                assert(!in_all_root_chunks(cg, root, bad));
            }
            // a required origin outside a chunk of the root contradicts free
            // admissibility
            if spec_freely_admissible(
                g,
                cg,
                runtime_opt_view(runtime),
                root,
                module_id,
                possible_inners@,
            ) {
                let bad = bad_chunk_origins@[0];
                let w = choose|w: int|
                    0 <= w < incoming@.len() && incoming@[w].0 == bad;
                let j0 = incoming@[w].1@[0];
                assert(g.connections@[j0 as int].target == module_id);
                assert(in_all_root_chunks(cg, root, bad));
                assert(false);
            }
        }
        let sorted = sort_ids(&bad_chunk_origins);
        proof {
            assert forall|k: int|
                0 <= k < sorted@.len() implies (#[trigger] sorted@[k]) < g.num_modules() by {
                assert(sorted@.contains(sorted@[k]));
                assert(bad_chunk_origins@.contains(sorted@[k]));
                let w = choose|w: int|
                    0 <= w < bad_chunk_origins@.len() && #[trigger] bad_chunk_origins@[w]
                        == sorted@[k];
            }
        }
        let importers = module_ident_list(g, &sorted);
        return Admission::Blocked(
            Warning::Problem(Problem::ReferencedFromDifferentChunks { module: ident, importers }),
        );
    }
    proof {
        // every required origin sits in all of the root's chunks
        assert(!spec_cross_chunk_blocked(g, cg, runtime_opt_view(runtime), root, module_id)) by {
            if spec_cross_chunk_blocked(g, cg, runtime_opt_view(runtime), root, module_id) {
                let o = choose|o: usize|
                    #[trigger] spec_qualifying_origin(
                        g,
                        cg,
                        runtime_opt_view(runtime),
                        o,
                        module_id,
                    ) && !in_all_root_chunks(cg, root, o);
                assert(o < g.num_modules()) by {
                    let j2 = choose|j2: int|
                        0 <= j2 < g.connections@.len() && (#[trigger] g.connections@[j2]).target
                            == module_id && g.connections@[j2].origin == Option::Some(o)
                            && spec_connection_active(
                            g.connections@[j2],
                            runtime_opt_view(runtime),
                        );
                    assert(g.connections@[j2].wf(g.num_modules()));
                }
                let j2 = choose|j2: int|
                    0 <= j2 < g.connections@.len() && (#[trigger] g.connections@[j2]).target
                        == module_id && g.connections@[j2].origin == Option::Some(o)
                        && spec_connection_active(g.connections@[j2], runtime_opt_view(runtime));
                let w3 = choose|w3: int|
                    0 <= w3 < mf.incomings@.len() && (#[trigger] mf.incomings@[w3]).0
                        == g.connections@[j2].origin && mf.incomings@[w3].1@.contains(j2 as usize);
                let pq = choose|pq: int|
                    0 <= pq < incoming@.len() && (#[trigger] incoming@[pq]).0 == o;
                assert(in_all_root_chunks(cg, root, incoming@[pq].0)
                    || bad_chunk_origins@.contains(incoming@[pq].0));
                assert(false);
            }
        }
    }

    // Origins reaching the candidate through a non-ESM dependency block it.
    let mut bad_syntax: Vec<String> = Vec::new();
    let mut any_bad_syntax = false;
    let mut p2: usize = 0;
    while p2 < incoming.len()
        invariant
            0 <= p2 <= incoming@.len(),
            any_bad_syntax ==> spec_syntax_blocked(g, cg, runtime_opt_view(runtime), module_id),
            !any_bad_syntax ==> (forall|w: int, k2: int|
                #![trigger incoming@[w].1@[k2]]
                0 <= w < p2 && 0 <= k2 < incoming@[w].1@.len() ==> spec_is_esm_dep_like(
                    g.connections@[incoming@[w].1@[k2] as int].kind,
                )),
        decreases incoming@.len() - p2,
    {
        let origin = incoming[p2].0;
        let conns = incoming[p2].1.len();
        let mut labels: Vec<String> = Vec::new();
        let mut has_bad = false;
        let mut k: usize = 0;
        while k < conns
            invariant
                p2 < incoming@.len(),
                conns == incoming@[p2 as int].1@.len(),
                0 <= k <= conns,
                has_bad ==> spec_syntax_blocked(g, cg, runtime_opt_view(runtime), module_id),
                !has_bad ==> (forall|k2: int|
                    0 <= k2 < k ==> spec_is_esm_dep_like(
                        g.connections@[(#[trigger] incoming@[p2 as int].1@[k2]) as int].kind,
                    )),
            decreases conns - k,
        {
            let j = incoming[p2].1[k];
            let c = &g.connections[j];
            if !crate::graph::is_esm_dep_like(c.kind) {
                has_bad = true;
                labels.push(crate::classify::string_lit(c.kind.label()));
                proof {
                    assert(g.connections@[j as int].target == module_id);
                    assert(spec_qualifying_origin(
                        g,
                        cg,
                        runtime_opt_view(runtime),
                        incoming@[p2 as int].0,
                        module_id,
                    ));
                    assert(spec_syntax_blocked(g, cg, runtime_opt_view(runtime), module_id));
                }
            }
            k = k + 1;
        }
        if has_bad {
            any_bad_syntax = true;
            let sorted_labels = sort_names(labels);
            let joined = crate::text::join_comma(&sorted_labels);
            let entry = crate::text::str4(
                g.modules[origin].readable_identifier.as_str(),
                " (referenced with ",
                joined.as_str(),
                ")",
            );
            bad_syntax.push(entry);
        }
        p2 = p2 + 1;
    }
    if any_bad_syntax {
        proof {
            // a non-ESM live reference contradicts free admissibility
            if spec_freely_admissible(
                g,
                cg,
                runtime_opt_view(runtime),
                root,
                module_id,
                possible_inners@,
            ) {
                let (o, j) = choose|o: usize, j: int|
                    #![trigger spec_qualifying_origin(g, cg, runtime_opt_view(runtime), o, module_id), g.connections@[j]]
                    spec_qualifying_origin(g, cg, runtime_opt_view(runtime), o, module_id) && 0
                        <= j < g.connections@.len() && g.connections@[j].target == module_id
                        && g.connections@[j].origin == Option::Some(o) && spec_connection_active(
                        g.connections@[j],
                        runtime_opt_view(runtime),
                    ) && !spec_is_esm_dep_like(g.connections@[j].kind);
                assert(false);
            }
        }
        return Admission::Blocked(
            Warning::Problem(Problem::UnsupportedSyntax { module: ident, importers: bad_syntax }),
        );
    }
    proof {
        // every live reference from a required origin uses ESM syntax
        assert(!spec_syntax_blocked(g, cg, runtime_opt_view(runtime), module_id)) by {
            if spec_syntax_blocked(g, cg, runtime_opt_view(runtime), module_id) {
                let (o, j) = choose|o: usize, j: int|
                    #![trigger spec_qualifying_origin(g, cg, runtime_opt_view(runtime), o, module_id), g.connections@[j]]
                    spec_qualifying_origin(g, cg, runtime_opt_view(runtime), o, module_id) && 0
                        <= j < g.connections@.len() && g.connections@[j].target == module_id
                        && g.connections@[j].origin == Option::Some(o) && spec_connection_active(
                        g.connections@[j],
                        runtime_opt_view(runtime),
                    ) && !spec_is_esm_dep_like(g.connections@[j].kind);
                assert(o < g.num_modules()) by {
                    assert(g.connections@[j].wf(g.num_modules()));
                }
                let w3 = choose|w3: int|
                    0 <= w3 < mf.incomings@.len() && (#[trigger] mf.incomings@[w3]).0
                        == g.connections@[j].origin && mf.incomings@[w3].1@.contains(j as usize);
                let pq = choose|pq: int|
                    0 <= pq < incoming@.len() && (#[trigger] incoming@[pq]).0 == o;
                assert(incoming@[pq].1@.contains(j as usize));
                let kq = choose|kq: int|
                    0 <= kq < incoming@[pq].1@.len() && #[trigger] incoming@[pq].1@[kq]
                        == j as usize;
                assert(j <= usize::MAX);
                assert(spec_is_esm_dep_like(
                    g.connections@[incoming@[pq].1@[kq] as int].kind,
                ));
                assert(false);
            }
        }
    }

    // With several runtimes at work, an origin whose reference is live for
    // only a proper subset of them blocks absorption.
    let runtime_len = match runtime {
        Option::Some(rt) => rt.len(),
        Option::None => 0,
    };
    if runtime_len > 1 {
        let mut partial_importers: Vec<usize> = Vec::new();
        let mut p3: usize = 0;
        while p3 < incoming.len()
            invariant
                0 <= p3 <= incoming@.len(),
                forall|q: int|
                    0 <= q < partial_importers@.len() ==> (#[trigger] partial_importers@[q])
                        < g.num_modules(),
                distinct_ids(partial_importers@),
                forall|q: int|
                    0 <= q < partial_importers@.len() ==> exists|w: int|
                        0 <= w < p3 && incoming@[w].0 == #[trigger] partial_importers@[q],
                match runtime {
                    Option::Some(rt0) => forall|q: int|
                        0 <= q < partial_importers@.len() ==> (spec_qualifying_origin(
                            g,
                            cg,
                            runtime_opt_view(runtime),
                            #[trigger] partial_importers@[q],
                            module_id,
                        ) && !spec_has_full_connection(g, module_id, partial_importers@[q], rt0@)),
                    Option::None => true,
                },
                match runtime {
                    Option::Some(rt0) => forall|w: int|
                        0 <= w < p3 ==> (spec_has_full_connection(
                            g,
                            module_id,
                            (#[trigger] incoming@[w]).0,
                            rt0@,
                        ) || partial_importers@.contains(incoming@[w].0)),
                    Option::None => true,
                },
            decreases incoming@.len() - p3,
        {
            let origin = incoming[p3].0;
            let conns = incoming[p3].1.len();
            let mut fully_active = false;
            let mut partial: Option<RuntimeSpec> = Option::None;
            let mut k: usize = 0;
            while k < conns && !fully_active
                invariant
                    p3 < incoming@.len(),
                    conns == incoming@[p3 as int].1@.len(),
                    incoming@[p3 as int].0 == origin,
                    0 <= k <= conns,
                    match runtime {
                        Option::Some(rt0) => rt0.wf() && (fully_active
                            ==> spec_has_full_connection(g, module_id, origin, rt0@)) && (
                        !fully_active ==> (forall|k2: int|
                            0 <= k2 < k ==> !(forall|x: u64|
                                rt0@.contains(x)
                                    ==> g.connections@[(#[trigger] incoming@[p3 as int].1@[k2]) as int].active_in@.contains(
                                    x,
                                )))) && (k > 0 && !fully_active ==> partial is Some),
                        Option::None => true,
                    },
                    match partial {
                        Option::Some(s) => s.wf(),
                        Option::None => true,
                    },
                decreases conns - k + (if fully_active { 0int } else { 1int }),
            {
                let j = incoming[p3].1[k];
                let c = &g.connections[j];
                match runtime {
                    Option::Some(rt) => {
                        if rt.is_subset_of(&c.active_in) {
                            fully_active = true;
                            proof {
                                assert(g.connections@[j as int].target == module_id);
                                assert(g.connections@[j as int].origin == Option::Some(origin));
                                assert(spec_has_full_connection(g, module_id, origin, rt@));
                            }
                        } else {
                            // the connection is live, so the overlap with the
                            // working runtime is a non-empty proper subset
                            let inter = rt.intersection(&c.active_in);
                            proof {
                                assert(spec_connection_active(
                                    g.connections@[j as int],
                                    runtime_opt_view(runtime),
                                ));
                                let x0 = choose|x0: u64|
                                    rt@.contains(x0) && g.connections@[j as int].active_in@.contains(
                                        x0,
                                    );
                                assert(inter@.contains(x0));
                            }
                            partial = match partial {
                                Option::Some(s) => {
                                    let mut s2 = s;
                                    s2.extend(&inter);
                                    Option::Some(s2)
                                },
                                Option::None => Option::Some(inter),
                            };
                        }
                    },
                    Option::None => {},
                };
                k = k + 1;
            }
            let is_partial = match &partial {
                Option::Some(_) => true,
                Option::None => false,
            };
            proof {
                // a required origin is never silent: its list is non-empty,
                // so the scan either found a fully live connection or built
                // the partial overlap
                match runtime {
                    Option::Some(rt0) => {
                        if !fully_active {
                            assert(k == conns);
                            assert(incoming@[p3 as int].1@.len() > 0);
                            assert(partial is Some);
                            // and no connection of this origin is fully live
                            assert(!spec_has_full_connection(g, module_id, origin, rt0@)) by {
                                if spec_has_full_connection(g, module_id, origin, rt0@) {
                                    let j2 = choose|j2: int|
                                        0 <= j2 < g.connections@.len() && (
                                        #[trigger] g.connections@[j2]).target == module_id
                                            && g.connections@[j2].origin == Option::Some(origin)
                                            && (forall|x: u64|
                                            rt0@.contains(x)
                                                ==> g.connections@[j2].active_in@.contains(x));
                                    // a fully live connection is live, so it
                                    // sits in the origin's collected list
                                    assert(spec_connection_active(
                                        g.connections@[j2],
                                        runtime_opt_view(runtime),
                                    )) by {
                                        assert(rt0@.len() > 0);
                                        let x0 = rt0@[0];
                                        assert(rt0@.contains(x0));
                                        assert(g.connections@[j2].active_in@.contains(x0));
                                        assert(crate::runtime::runtimes_meet(
                                            rt0@,
                                            g.connections@[j2].active_in@,
                                        ));
                                    }
                                    assert(incoming@[p3 as int].1@.contains(j2 as usize));
                                    let kq = choose|kq: int|
                                        0 <= kq < incoming@[p3 as int].1@.len()
                                            && #[trigger] incoming@[p3 as int].1@[kq]
                                            == j2 as usize;
                                    assert(j2 <= usize::MAX);
                                    assert(false);
                                }
                            }
                        }
                    },
                    Option::None => {},
                }
            }
            if !fully_active && is_partial {
                let ghost before_pi = partial_importers@;
                partial_importers.push(origin);
                proof {
                    assert(forall|q: int|
                        0 <= q < before_pi.len() ==> partial_importers@[q] == before_pi[q]);
                    assert(partial_importers@[before_pi.len() as int] == origin);
                    assert forall|q1: int, q2: int|
                        0 <= q1 < q2 < partial_importers@.len() implies partial_importers@[q1]
                        != partial_importers@[q2] by {
                        if q2 == partial_importers@.len() - 1 {
                            let w = choose|w: int|
                                0 <= w < p3 && incoming@[w].0 == #[trigger] before_pi[q1];
                            if before_pi[q1] == origin {
                                assert(incoming@[w].0 == incoming@[p3 as int].0);
                                assert(false);
                            }
                        }
                    }
                    assert forall|q: int|
                        0 <= q < partial_importers@.len() implies exists|w: int|
                        0 <= w < p3 + 1 && incoming@[w].0 == #[trigger] partial_importers@[q] by {
                        if q < before_pi.len() {
                            let w = choose|w: int| 0 <= w < p3 && incoming@[w].0 == before_pi[q];
                            assert(0 <= w < p3 + 1 && incoming@[w].0 == partial_importers@[q]);
                        } else {
                            assert(incoming@[p3 as int].0 == partial_importers@[q]);
                        }
                    }
                    assert(spec_qualifying_origin(
                        g,
                        cg,
                        runtime_opt_view(runtime),
                        origin,
                        module_id,
                    )) by {
                        assert(spec_qualifying_origin(
                            g,
                            cg,
                            runtime_opt_view(runtime),
                            incoming@[p3 as int].0,
                            module_id,
                        ));
                    }
                }
            }
            p3 = p3 + 1;
        }
        if partial_importers.len() > 0 {
            proof {
                // the blocking rule: a required origin live for only part of
                // the runtimes
                match runtime {
                    Option::Some(rt0) => {
                        assert(spec_runtime_blocked(
                            g,
                            cg,
                            runtime_opt_view(runtime),
                            module_id,
                        )) by {
                            let bad = partial_importers@[0];
                            assert(spec_qualifying_origin(
                                g,
                                cg,
                                runtime_opt_view(runtime),
                                bad,
                                module_id,
                            ) && !spec_has_full_connection(g, module_id, bad, rt0@));
                        }
                        // which contradicts free admissibility: there every
                        // live reference is live for the whole runtime
                        if spec_freely_admissible(
                            g,
                            cg,
                            runtime_opt_view(runtime),
                            root,
                            module_id,
                            possible_inners@,
                        ) {
                            let bad = partial_importers@[0];
                            let j2 = choose|j2: int|
                                0 <= j2 < g.connections@.len() && (
                                #[trigger] g.connections@[j2]).target == module_id
                                    && g.connections@[j2].origin == Option::Some(bad)
                                    && spec_connection_active(
                                    g.connections@[j2],
                                    runtime_opt_view(runtime),
                                );
                            assert(rt0@.len() > 1);
                            assert(spec_has_full_connection(g, module_id, bad, rt0@));
                            assert(false);
                        }
                    },
                    Option::None => {},
                }
            }
            let sorted = sort_ids(&partial_importers);
            proof {
                assert forall|k: int|
                    0 <= k < sorted@.len() implies (#[trigger] sorted@[k]) < g.num_modules() by {
                    assert(sorted@.contains(sorted@[k]));
                    assert(partial_importers@.contains(sorted@[k]));
                    let w = choose|w: int|
                        0 <= w < partial_importers@.len() && #[trigger] partial_importers@[w]
                            == sorted@[k];
                }
            }
            let importers = module_ident_list(g, &sorted);
            return Admission::Blocked(
                Warning::Problem(Problem::RuntimeCondition { module: ident, importers }),
            );
        }
        proof {
            // no required origin is runtime-conditional
            assert(!spec_runtime_blocked(g, cg, runtime_opt_view(runtime), module_id)) by {
                if spec_runtime_blocked(g, cg, runtime_opt_view(runtime), module_id) {
                    match runtime {
                        Option::Some(rt0) => {
                            let o = choose|o: usize|
                                #[trigger] spec_qualifying_origin(
                                    g,
                                    cg,
                                    runtime_opt_view(runtime),
                                    o,
                                    module_id,
                                ) && !spec_has_full_connection(g, module_id, o, rt0@);
                            assert(o < g.num_modules()) by {
                                let j2 = choose|j2: int|
                                    0 <= j2 < g.connections@.len() && (
                                    #[trigger] g.connections@[j2]).target == module_id
                                        && g.connections@[j2].origin == Option::Some(o)
                                        && spec_connection_active(
                                        g.connections@[j2],
                                        runtime_opt_view(runtime),
                                    );
                                assert(g.connections@[j2].wf(g.num_modules()));
                            }
                            let j2 = choose|j2: int|
                                0 <= j2 < g.connections@.len() && (
                                #[trigger] g.connections@[j2]).target == module_id
                                    && g.connections@[j2].origin == Option::Some(o)
                                    && spec_connection_active(
                                    g.connections@[j2],
                                    runtime_opt_view(runtime),
                                );
                            let w3 = choose|w3: int|
                                0 <= w3 < mf.incomings@.len() && (#[trigger] mf.incomings@[w3]).0
                                    == g.connections@[j2].origin && mf.incomings@[w3].1@.contains(
                                    j2 as usize,
                                );
                            let pq = choose|pq: int|
                                0 <= pq < incoming@.len() && (#[trigger] incoming@[pq]).0 == o;
                            assert(spec_has_full_connection(g, module_id, o, rt0@)
                                || partial_importers@.contains(o));
                            assert(false);
                        },
                        Option::None => {},
                    }
                }
            }
        }
    } else {
        proof {
            // with at most one runtime at work the rule does not apply
            assert(!spec_runtime_blocked(g, cg, runtime_opt_view(runtime), module_id)) by {
                match runtime {
                    Option::Some(rt0) => {
                        assert(rt0@.len() <= 1);
                    },
                    Option::None => {},
                }
            }
        }
    }

    // Admissible: hand back the origins that must come along, sorted.
    let mut origin_ids: Vec<usize> = Vec::new();
    let mut p4: usize = 0;
    while p4 < incoming.len()
        invariant
            0 <= p4 <= incoming@.len(),
            origin_ids@.len() == p4,
            forall|q: int| 0 <= q < p4 ==> (#[trigger] origin_ids@[q]) == incoming@[q].0,
        decreases incoming@.len() - p4,
    {
        origin_ids.push(incoming[p4].0);
        p4 = p4 + 1;
    }
    proof {
        assert(distinct_ids(origin_ids@));
        assert(forall|q: int|
            0 <= q < origin_ids@.len() ==> (#[trigger] origin_ids@[q]) < g.num_modules());
    }
    let sorted_origins = sort_ids(&origin_ids);
    proof {
        // every required co-member origin is among the returned origins
        assert forall|o: usize|
            #[trigger] spec_qualifying_origin(
                g,
                cg,
                runtime_opt_view(runtime),
                o,
                module_id,
            ) implies sorted_origins@.contains(o) by {
            assert(o < g.num_modules()) by {
                let j2 = choose|j2: int|
                    0 <= j2 < g.connections@.len() && (#[trigger] g.connections@[j2]).target
                        == module_id && g.connections@[j2].origin == Option::Some(o)
                        && spec_connection_active(g.connections@[j2], runtime_opt_view(runtime));
                assert(g.connections@[j2].wf(g.num_modules()));
            }
            let j2 = choose|j2: int|
                0 <= j2 < g.connections@.len() && (#[trigger] g.connections@[j2]).target
                    == module_id && g.connections@[j2].origin == Option::Some(o)
                    && spec_connection_active(g.connections@[j2], runtime_opt_view(runtime));
            let w3 = choose|w3: int|
                0 <= w3 < mf.incomings@.len() && (#[trigger] mf.incomings@[w3]).0
                    == g.connections@[j2].origin && mf.incomings@[w3].1@.contains(j2 as usize);
            let pq = choose|pq: int|
                0 <= pq < incoming@.len() && (#[trigger] incoming@[pq]).0 == o;
            assert(origin_ids@[pq] == o);
            assert(origin_ids@.contains(o));
        }
        assert forall|k: int|
            0 <= k < sorted_origins@.len() implies ((#[trigger] sorted_origins@[k])
            < g.num_modules() && modules_linked(g, module_id, sorted_origins@[k])
            && spec_active_incoming(
            g,
            module_id,
            sorted_origins@[k],
            runtime_opt_view(runtime),
        )) by {
            assert(sorted_origins@.contains(sorted_origins@[k]));
            assert(origin_ids@.contains(sorted_origins@[k]));
            let w = choose|w: int|
                0 <= w < origin_ids@.len() && #[trigger] origin_ids@[w] == sorted_origins@[k];
            assert(incoming@[w].0 == sorted_origins@[k]);
            let j0 = incoming@[w].1@[0];
            assert(g.connections@[j0 as int].target == module_id);
            assert(g.connections@[j0 as int].origin == Option::Some(sorted_origins@[k]));
            assert(spec_connection_active(g.connections@[j0 as int], runtime_opt_view(runtime)));
        }
    }
    Admission::Origins(sorted_origins)
}

} // verus!

verus! {

/// The admission test: may `module_id` be absorbed into the configuration?
///
/// A memoized failure fails again with the same reason; a module already
/// absorbed succeeds trivially.  Otherwise the candidate is absorbed together
/// with every origin module that requires co-membership, recursively; if any
/// of them cannot be absorbed, the member list is rolled back to the snapshot
/// taken on entry (at the rollback boundary, where `avoid_mutate_on_failure`
/// is set) and the failure is memoized.
#[verifier::rlimit(100)]
#[verifier::spinoff_prover]
pub fn try_to_add(
    g: &ModuleGraph,
    cg: &ChunkGraph,
    facts: &Vec<NoRuntimeModuleCache>,
    config: &mut ConcatConfiguration,
    module_id: usize,
    runtime: Option<&RuntimeSpec>,
    possible_inners: &Vec<bool>,
    candidates: &mut Vec<usize>,
    failure_cache: &mut Vec<Option<Warning>>,
    avoid_mutate_on_failure: bool,
) -> (r: Option<Warning>)
    requires
        g.wf(),
        cg.wf(g.num_modules()),
        all_facts_ok(g, cg, facts@),
        old(config).wf(),
        members_valid(g, old(config).members()),
        members_linked(g, old(config).members()),
        members_admissible(
            g,
            cg,
            possible_inners@,
            old(config).root_module,
            old(config).members(),
        ),
        module_id < g.num_modules(),
        old(config).members().contains(module_id) || (exists|p: int|
            0 <= p < old(config).members().len() && modules_linked(
                g,
                old(config).members()[p],
                module_id,
            )),
        match runtime {
            Option::Some(rt) => rt.wf(),
            Option::None => true,
        },
        possible_inners@.len() == g.num_modules(),
        old(failure_cache)@.len() == g.num_modules(),
        forall|k: int|
            0 <= k < old(candidates)@.len() ==> (#[trigger] old(candidates)@[k]) < g.num_modules(),
    ensures
        final(config).wf(),
        final(config).root_module == old(config).root_module,
        final(config).runtime == old(config).runtime,
        final(config).warnings@ == old(config).warnings@,
        members_valid(g, final(config).members()),
        members_linked(g, final(config).members()),
        members_admissible(
            g,
            cg,
            possible_inners@,
            old(config).root_module,
            final(config).members(),
        ),
        old(config).members().len() <= final(config).members().len(),
        final(config).members().take(old(config).members().len() as int) == old(config).members(),
        final(failure_cache)@.len() == old(failure_cache)@.len(),
        old(candidates)@.len() <= final(candidates)@.len(),
        final(candidates)@.take(old(candidates)@.len() as int) == old(candidates)@,
        forall|k: int|
            0 <= k < final(candidates)@.len() ==> (#[trigger] final(candidates)@[k])
                < g.num_modules(),
        r is None ==> final(config).members().contains(module_id),
        r is None ==> all_linked_to_members(
            g,
            final(config).members(),
            final(candidates)@.skip(old(candidates)@.len() as int),
        ),
        (r is Some && avoid_mutate_on_failure) ==> final(config).members() == old(config).members(),
        old(failure_cache)@[module_id as int] is Some ==> (r is Some && final(config).members()
            == old(config).members() && final(candidates)@ == old(candidates)@ && final(failure_cache)@ == old(failure_cache)@ && crate::config::warning_opt_dview(r)
            == crate::config::warning_opt_dview(old(failure_cache)@[module_id as int])),
        (old(failure_cache)@[module_id as int] is None && old(config).members().contains(
            module_id,
        )) ==> (r is None && final(config).members() == old(config).members() && final(candidates)@
            == old(candidates)@ && final(failure_cache)@ == old(failure_cache)@),
        (old(failure_cache)@[module_id as int] is None && !old(config).members().contains(module_id)
            && !possible_inners@[module_id as int]) ==> r is Some,
        (r is None && !old(config).members().contains(module_id)) ==> (
        possible_inners@[module_id as int] && in_all_root_chunks(
            cg,
            old(config).root_module,
            module_id,
        )),
        r is Some ==> crate::config::warning_opt_dview(final(failure_cache)@[module_id as int])
            == crate::config::warning_opt_dview(r),
        spec_owed_success(
            g,
            cg,
            runtime_opt_view(runtime),
            *old(config),
            module_id,
            possible_inners@,
            old(failure_cache)@,
        ) ==> r is None,
        // on a fresh success, every required co-member origin was absorbed and
        // every import of the candidate was enqueued
        (r is None && old(failure_cache)@[module_id as int] is None && !old(
            config,
        ).members().contains(module_id)) ==> ((forall|o: usize|
            #[trigger] spec_qualifying_origin(
                g,
                cg,
                runtime_opt_view(runtime),
                o,
                module_id,
            ) ==> final(config).members().contains(o)) && (forall|t: usize|
            crate::facts::spec_imports_upto(
                g,
                facts@[module_id as int].connections@,
                facts@[module_id as int].provided_names,
                runtime_opt_view(runtime),
                facts@[module_id as int].connections@.len() as int,
            ).contains(t) ==> final(candidates)@.contains(t))),
        // a fresh candidate blocked by an admission rule fails with the rule's
        // own warning
        (old(failure_cache)@[module_id as int] is None && !old(config).members().contains(module_id)
            && spec_admission_verdict(
            g,
            cg,
            runtime_opt_view(runtime),
            old(config).root_module,
            module_id,
            possible_inners@,
        ) != AdmissionCheck::Admit) ==> (match r {
            Option::Some(w) => spec_verdict_warning(
                g,
                module_id,
                spec_admission_verdict(
                    g,
                    cg,
                    runtime_opt_view(runtime),
                    old(config).root_module,
                    module_id,
                    possible_inners@,
                ),
                w.dview(),
            ),
            Option::None => false,
        }),
    decreases g.num_modules() - old(config).members().len(),
{
    let ghost old_members = config.members();
    let ghost old_cands = candidates@;
    proof {
        crate::seq_util::lemma_distinct_bounded(old_members, g.num_modules());
    }

    // A memoized failure fails again with the same reason.
    match &failure_cache[module_id] {
        Option::Some(w) => {
            return Option::Some(w.duplicate());
        },
        Option::None => {},
    }

    // A module already absorbed is a trivial success.
    if config.has(module_id) {
        return Option::None;
    }

    let root = config.root_module;
    proof {
        assert(old_members[0] == root);
        assert(root < g.num_modules()) by {
            assert(old_members.contains(old_members[0]));
        }
    }

    let mf = &facts[module_id];
    let sorted_origins = match admission_origins(
        g,
        cg,
        mf,
        root,
        module_id,
        runtime,
        possible_inners,
    ) {
        Admission::Blocked(w) => {
            proof {
                if spec_owed_success(
                    g,
                    cg,
                    runtime_opt_view(runtime),
                    *old(config),
                    module_id,
                    possible_inners@,
                    old(failure_cache)@,
                ) {
                    assert(false);
                }
            }
            failure_cache[module_id] = Option::Some(w.duplicate());
            return Option::Some(w);
        },
        Admission::Origins(origins) => origins,
    };

    // Absorb the candidate, then every origin that requires co-membership,
    // in ascending id order, with an index-stamped rollback boundary.
    let snap = config.snapshot();
    let backup: Option<usize> = if avoid_mutate_on_failure {
        Option::Some(snap)
    } else {
        Option::None
    };
    proof {
        assert(old(config).members().len() <= usize::MAX) by {
            assert(snap == old(config).members().len());
        }
    }
    config.add(module_id);
    proof {
        assert(config.members() == old_members.push(module_id));
        assert(members_linked(g, config.members())) by {
            assert forall|i: int|
                1 <= i < config.members().len() implies #[trigger] linked_to_earlier(
                g,
                config.members(),
                i,
            ) by {
                if i < old_members.len() {
                    assert(old_members[i] == config.members()[i]);
                    assert(linked_to_earlier(g, old_members, i));
                    let p = choose|p: int|
                        0 <= p < i && modules_linked(g, old_members[p], old_members[i]);
                    assert(config.members()[p] == old_members[p]);
                    assert(modules_linked(g, config.members()[p], config.members()[i]));
                } else {
                    let p = choose|p: int|
                        0 <= p < old_members.len() && modules_linked(g, old_members[p], module_id);
                    assert(config.members()[p] == old_members[p]);
                    assert(modules_linked(g, config.members()[p], config.members()[i]));
                }
            }
        }
    }

    let mut idx: usize = 0;
    let n_origins = sorted_origins.len();
    while idx < n_origins
        invariant
            g.wf(),
            cg.wf(g.num_modules()),
            all_facts_ok(g, cg, facts@),
            module_id < g.num_modules(),
            possible_inners@.len() == g.num_modules(),
            match runtime {
                Option::Some(rt) => rt.wf(),
                Option::None => true,
            },
            old_members == old(config).members(),
            old_cands == old(candidates)@,
            old(config).wf(),
            members_valid(g, old(config).members()),
            members_linked(g, old(config).members()),
            members_admissible(
                g,
                cg,
                possible_inners@,
                old(config).root_module,
                old(config).members(),
            ),
            !old(config).members().contains(module_id),
            old(failure_cache)@[module_id as int] is None,
            possible_inners@[module_id as int],
            in_all_root_chunks(cg, old(config).root_module, module_id),
            n_origins == sorted_origins@.len(),
            spec_admission_verdict(
                g,
                cg,
                runtime_opt_view(runtime),
                old(config).root_module,
                module_id,
                possible_inners@,
            ) == AdmissionCheck::Admit,
            forall|k: int|
                0 <= k < sorted_origins@.len() ==> ((#[trigger] sorted_origins@[k])
                    < g.num_modules() && modules_linked(g, module_id, sorted_origins@[k])
                    && spec_active_incoming(
                    g,
                    module_id,
                    sorted_origins@[k],
                    runtime_opt_view(runtime),
                )),
            spec_owed_success(
                g,
                cg,
                runtime_opt_view(runtime),
                *old(config),
                module_id,
                possible_inners@,
                old(failure_cache)@,
            ) ==> (failure_cache@ == old(failure_cache)@ && config.members()
                == old_members.push(module_id)),
            old(config).members().len() <= usize::MAX,
            old(failure_cache)@.len() == g.num_modules(),
            avoid_mutate_on_failure ==> (backup is Some && backup->0 == old(
                config,
            ).members().len()),
            !avoid_mutate_on_failure ==> backup is None,
            0 <= idx <= n_origins,
            config.wf(),
            config.root_module == old(config).root_module,
            config.runtime == old(config).runtime,
            config.warnings@ == old(config).warnings@,
            members_valid(g, config.members()),
            members_linked(g, config.members()),
            members_admissible(g, cg, possible_inners@, old(config).root_module, config.members()),
            old_members.len() + 1 <= config.members().len(),
            config.members().take((old_members.len() + 1) as int) == old_members.push(module_id),
            failure_cache@.len() == g.num_modules(),
            old_cands.len() <= candidates@.len(),
            candidates@.take(old_cands.len() as int) == old_cands,
            forall|k: int|
                0 <= k < candidates@.len() ==> (#[trigger] candidates@[k]) < g.num_modules(),
            all_linked_to_members(g, config.members(), candidates@.skip(old_cands.len() as int)),
            forall|k: int|
                0 <= k < idx ==> config.members().contains(#[trigger] sorted_origins@[k]),
        decreases n_origins - idx,
    {
        let origin = sorted_origins[idx];
        proof {
            assert(config.members().contains(module_id)) by {
                assert(config.members().take((old_members.len() + 1) as int)[old_members.len() as int]
                    == module_id);
                assert(config.members()[old_members.len() as int] == module_id);
            }
            assert(exists|p: int|
                0 <= p < config.members().len() && modules_linked(
                    g,
                    config.members()[p],
                    origin,
                )) by {
                let p = choose|p: int|
                    0 <= p < config.members().len() && #[trigger] config.members()[p] == module_id;
                assert(modules_linked(g, config.members()[p], origin));
            }
            crate::seq_util::lemma_distinct_bounded(config.members(), g.num_modules());
        }
        let ghost members_before = config.members();
        let ghost cands_before = candidates@;
        let res = try_to_add(
            g,
            cg,
            facts,
            config,
            origin,
            runtime,
            possible_inners,
            candidates,
            failure_cache,
            false,
        );
        match res {
            Option::Some(problem) => {
                proof {
                    if spec_owed_success(
                        g,
                        cg,
                        runtime_opt_view(runtime),
                        *old(config),
                        module_id,
                        possible_inners@,
                        old(failure_cache)@,
                    ) {
                        // the origin was already a member with no memoized
                        // failure, so its admission cannot have failed
                        let j = choose|j: int|
                            0 <= j < g.connections@.len() && (#[trigger] g.connections@[j]).target
                                == module_id && g.connections@[j].origin == Option::Some(origin)
                                && spec_connection_active(
                                g.connections@[j],
                                runtime_opt_view(runtime),
                            );
                        assert(old_members.contains(origin));
                        assert(members_before.contains(origin)) by {
                            let q = choose|q: int|
                                0 <= q < old_members.len() && #[trigger] old_members[q] == origin;
                            assert(members_before[q] == old_members[q]);
                        }
                        assert(false);
                    }
                    assert(config.members().take(old_members.len() as int) == old_members) by {
                        assert(config.members().take((old_members.len() + 1) as int).take(
                            old_members.len() as int,
                        ) =~= config.members().take(old_members.len() as int));
                        assert(old_members.push(module_id).take(old_members.len() as int)
                            =~= old_members);
                    }
                }
                match backup {
                    Option::Some(b) => {
                        proof {
                            assert(b == old_members.len());
                        }
                        config.rollback(b);
                        proof {
                            crate::seq_util::lemma_take_all(old_members);
                            assert(config.members() == old_members);
                        }
                    },
                    Option::None => {},
                }
                failure_cache[module_id] = Option::Some(problem.duplicate());
                return Option::Some(problem);
            },
            Option::None => {
                proof {
                    if spec_owed_success(
                        g,
                        cg,
                        runtime_opt_view(runtime),
                        *old(config),
                        module_id,
                        possible_inners@,
                        old(failure_cache)@,
                    ) {
                        let j = choose|j: int|
                            0 <= j < g.connections@.len() && (#[trigger] g.connections@[j]).target
                                == module_id && g.connections@[j].origin == Option::Some(origin)
                                && spec_connection_active(
                                g.connections@[j],
                                runtime_opt_view(runtime),
                            );
                        assert(old_members.contains(origin));
                        assert(members_before.contains(origin)) by {
                            let q = choose|q: int|
                                0 <= q < old_members.len() && #[trigger] old_members[q] == origin;
                            assert(members_before[q] == old_members[q]);
                        }
                        assert(failure_cache@ == old(failure_cache)@ && config.members()
                            == old_members.push(module_id));
                    }
                    assert(config.members().take((old_members.len() + 1) as int)
                        == old_members.push(module_id)) by {
                        assert(config.members().take(members_before.len() as int)
                            == members_before);
                        assert(config.members().take((old_members.len() + 1) as int)
                            =~= config.members().take(members_before.len() as int).take(
                            (old_members.len() + 1) as int,
                        ));
                    }
                    assert(candidates@.take(old_cands.len() as int) == old_cands) by {
                        assert(candidates@.take(cands_before.len() as int) == cands_before);
                        assert(candidates@.take(old_cands.len() as int) =~= candidates@.take(
                            cands_before.len() as int,
                        ).take(old_cands.len() as int));
                    }
                    assert(all_linked_to_members(
                        g,
                        config.members(),
                        candidates@.skip(old_cands.len() as int),
                    )) by {
                        assert forall|k: int|
                            0 <= k < candidates@.skip(old_cands.len() as int).len() implies exists|
                            p: int,
                        |
                            0 <= p < config.members().len() && modules_linked(
                                g,
                                config.members()[p],
                                #[trigger] candidates@.skip(old_cands.len() as int)[k],
                            ) by {
                            let cand = candidates@.skip(old_cands.len() as int)[k];
                            let old_new_len = cands_before.len() - old_cands.len();
                            if k < old_new_len {
                                assert(cands_before.skip(old_cands.len() as int)[k] == cand) by {
                                    assert(candidates@.take(cands_before.len() as int)
                                        == cands_before);
                                }
                                let p = choose|p: int|
                                    0 <= p < members_before.len() && modules_linked(
                                        g,
                                        members_before[p],
                                        cands_before.skip(old_cands.len() as int)[k],
                                    );
                                assert(config.members().take(members_before.len() as int)[p]
                                    == members_before[p]);
                                assert(config.members()[p] == members_before[p]);
                            } else {
                                assert(candidates@.skip(cands_before.len() as int)[k - old_new_len]
                                    == cand);
                            }
                        }
                    }
                }
            },
        }
        idx = idx + 1;
    }

    // Enqueue what the absorbed module imports as further candidates.
    let imports = get_imports_of(g, cg, module_id, runtime, mf);
    let n_imports = imports.len();
    let mut q: usize = 0;
    while q < n_imports
        invariant
            g.wf(),
            module_id < g.num_modules(),
            old_cands == old(candidates)@,
            n_imports == imports@.len(),
            forall|k: int|
                0 <= k < imports@.len() ==> ((#[trigger] imports@[k]) < g.num_modules()
                    && crate::facts::has_active_esm_import(
                    g,
                    module_id,
                    imports@[k],
                    crate::graph::runtime_opt_view(runtime),
                )),
            0 <= q <= n_imports,
            config.members().contains(module_id),
            old_cands.len() <= candidates@.len(),
            candidates@.take(old_cands.len() as int) == old_cands,
            forall|k: int|
                0 <= k < candidates@.len() ==> (#[trigger] candidates@[k]) < g.num_modules(),
            all_linked_to_members(g, config.members(), candidates@.skip(old_cands.len() as int)),
            forall|q2: int| 0 <= q2 < q ==> candidates@.contains(#[trigger] imports@[q2]),
        decreases n_imports - q,
    {
        let imp = imports[q];
        if !contains_usize(candidates, imp) {
            let ghost cands_before = candidates@;
            candidates.push(imp);
            proof {
                assert(forall|k: int|
                    0 <= k < cands_before.len() ==> candidates@[k] == cands_before[k]);
                assert(candidates@[cands_before.len() as int] == imp);
                crate::seq_util::lemma_push_contains(cands_before, imp);
                assert(candidates@.take(old_cands.len() as int) =~= cands_before.take(
                    old_cands.len() as int,
                ));
                assert(modules_linked(g, module_id, imp)) by {
                    assert(crate::facts::has_active_esm_import(
                        g,
                        module_id,
                        imp,
                        crate::graph::runtime_opt_view(runtime),
                    ));
                }
                assert forall|k: int|
                    0 <= k < candidates@.skip(old_cands.len() as int).len() implies exists|p: int|
                    0 <= p < config.members().len() && modules_linked(
                        g,
                        config.members()[p],
                        #[trigger] candidates@.skip(old_cands.len() as int)[k],
                    ) by {
                    let cand = candidates@.skip(old_cands.len() as int)[k];
                    if k < cands_before.len() - old_cands.len() {
                        assert(cands_before.skip(old_cands.len() as int)[k] == cand);
                    } else {
                        assert(cand == imp);
                        let p = choose|p: int|
                            0 <= p < config.members().len() && #[trigger] config.members()[p]
                                == module_id;
                        assert(modules_linked(g, config.members()[p], imp));
                    }
                }
            }
        }
        q = q + 1;
    }

    proof {
        assert(config.members().take(old_members.len() as int) == old_members) by {
            assert(config.members().take((old_members.len() + 1) as int).take(
                old_members.len() as int,
            ) =~= config.members().take(old_members.len() as int));
            assert(old_members.push(module_id).take(old_members.len() as int) =~= old_members);
        }
        assert(config.members().contains(module_id)) by {
            assert(config.members()[old_members.len() as int] == module_id);
        }
        // every required co-member origin is a member now
        assert forall|o: usize|
            #[trigger] spec_qualifying_origin(
                g,
                cg,
                runtime_opt_view(runtime),
                o,
                module_id,
            ) implies config.members().contains(o) by {
            assert(sorted_origins@.contains(o));
            let k = choose|k: int|
                0 <= k < sorted_origins@.len() && #[trigger] sorted_origins@[k] == o;
        }
        // and every import of the candidate has been enqueued
        assert forall|t: usize|
            crate::facts::spec_imports_upto(
                g,
                facts@[module_id as int].connections@,
                facts@[module_id as int].provided_names,
                runtime_opt_view(runtime),
                facts@[module_id as int].connections@.len() as int,
            ).contains(t) implies candidates@.contains(t) by {
            assert(imports@ == crate::facts::spec_imports_upto(
                g,
                facts@[module_id as int].connections@,
                facts@[module_id as int].provided_names,
                runtime_opt_view(runtime),
                facts@[module_id as int].connections@.len() as int,
            ));
            let q2 = choose|q2: int| 0 <= q2 < imports@.len() && #[trigger] imports@[q2] == t;
        }
    }
    Option::None
}

} // verus!
