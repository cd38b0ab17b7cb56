//! The eligibility classifier: for every module, whether it may host a merged
//! scope (root) and whether it may be absorbed into one (inner), with the
//! bailout reasons recorded for disqualified modules.
//!
//! The disqualifying conditions are checked in a fixed order; the first of
//! the module-wide conditions stops the check for both flags.

use vstd::prelude::*;

use crate::chunks::ChunkGraph;
use crate::graph::{ExportFact, ModuleGraph};
use crate::text::{join_comma, spec_join_comma, str3};

verus! {

/// None of the four module-wide disqualifications applies: no intrinsic
/// bailout, not async, strict, and in at least one chunk.
pub open spec fn spec_base_ok(g: &ModuleGraph, cg: &ChunkGraph, m: int) -> bool {
    &&& g.modules@[m].intrinsic_bailout is None
    &&& !g.modules@[m].is_async
    &&& g.modules@[m].strict
    &&& cg.module_chunks@[m]@.len() > 0
}

/// Names of re-exports whose concrete target is not statically known.
pub open spec fn spec_unresolved_reexport_names(g: &ModuleGraph, m: int) -> Seq<Seq<char>> {
    g.modules@[m].exports@.filter(|e: ExportFact| e.is_reexport && !e.target_known).map_values(
        |e: ExportFact| e.name@,
    )
}

/// Names of exports that are not definitely provided.
pub open spec fn spec_dynamic_export_names(g: &ModuleGraph, m: int) -> Seq<Seq<char>> {
    g.modules@[m].exports@.filter(|e: ExportFact| !e.provided).map_values(
        |e: ExportFact| e.name@,
    )
}

/// May the module host the merged scope?
pub open spec fn spec_can_be_root(g: &ModuleGraph, cg: &ChunkGraph, m: int) -> bool {
    &&& spec_base_ok(g, cg, m)
    &&& spec_unresolved_reexport_names(g, m).len() == 0
    &&& spec_dynamic_export_names(g, m).len() == 0
}

/// May the module be absorbed into a merged scope?
pub open spec fn spec_can_be_inner(g: &ModuleGraph, cg: &ChunkGraph, m: int) -> bool {
    &&& spec_base_ok(g, cg, m)
    &&& spec_unresolved_reexport_names(g, m).len() == 0
    &&& !cg.spec_is_entry_module(m as usize)
}

/// The bailout reasons recorded for the module, in the order the conditions
/// are checked.
pub open spec fn spec_bailout_reasons(g: &ModuleGraph, cg: &ChunkGraph, m: int) -> Seq<Seq<char>> {
    let mi = g.modules@[m];
    if mi.intrinsic_bailout is Some {
        seq![mi.intrinsic_bailout->0@]
    } else if mi.is_async {
        seq!["Module is async"@]
    } else if !mi.strict {
        seq!["Module is not in strict mode"@]
    } else if cg.module_chunks@[m]@.len() == 0 {
        seq!["Module is not in any chunk"@]
    } else if spec_unresolved_reexport_names(g, m).len() > 0 {
        seq![
            "Reexports in this module do not have a static target ("@ + spec_join_comma(
                spec_unresolved_reexport_names(g, m),
            ) + ")"@,
        ]
    } else {
        (if spec_dynamic_export_names(g, m).len() > 0 {
            seq![
                "List of module exports is dynamic ("@ + spec_join_comma(
                    spec_dynamic_export_names(g, m),
                ) + ")"@,
            ]
        } else {
            Seq::<Seq<char>>::empty()
        }) + (if cg.spec_is_entry_module(m as usize) {
            seq!["Module is an entry point"@]
        } else {
            Seq::<Seq<char>>::empty()
        })
    }
}

/// Classify one module: may it be a root, may it be an inner member, and the
/// bailout reasons if not.
pub fn classify_module(g: &ModuleGraph, cg: &ChunkGraph, m: usize) -> (r: (
    bool,
    bool,
    Vec<String>,
))
    requires
        g.wf(),
        cg.wf(g.num_modules()),
        m < g.num_modules(),
    ensures
        r.0 == spec_can_be_root(g, cg, m as int),
        r.1 == spec_can_be_inner(g, cg, m as int),
        r.2.deep_view() == spec_bailout_reasons(g, cg, m as int),
{
    let mut reasons: Vec<String> = Vec::new();
    let module = &g.modules[m];
    match &module.intrinsic_bailout {
        Option::Some(reason) => {
            reasons.push(crate::config::clone_string(reason));
            proof {
                assert(reasons.deep_view() =~= spec_bailout_reasons(g, cg, m as int));
            }
            return (false, false, reasons);
        },
        Option::None => {},
    }
    if module.is_async {
        reasons.push(string_lit("Module is async"));
        proof {
            assert(reasons.deep_view() =~= spec_bailout_reasons(g, cg, m as int));
        }
        return (false, false, reasons);
    }
    if !module.strict {
        reasons.push(string_lit("Module is not in strict mode"));
        proof {
            assert(reasons.deep_view() =~= spec_bailout_reasons(g, cg, m as int));
        }
        return (false, false, reasons);
    }
    if cg.get_number_of_module_chunks(m) == 0 {
        reasons.push(string_lit("Module is not in any chunk"));
        proof {
            assert(reasons.deep_view() =~= spec_bailout_reasons(g, cg, m as int));
        }
        return (false, false, reasons);
    }

    let unresolved = unresolved_reexport_names(g, m);
    if unresolved.len() > 0 {
        let joined = join_comma(&unresolved);
        reasons.push(
            str3("Reexports in this module do not have a static target (", joined.as_str(), ")"),
        );
        proof {
            assert(reasons.deep_view() =~= spec_bailout_reasons(g, cg, m as int));
        }
        return (false, false, reasons);
    }

    let mut can_be_root = true;
    let mut can_be_inner = true;
    let dynamic = dynamic_export_names(g, m);
    if dynamic.len() > 0 {
        let joined = join_comma(&dynamic);
        reasons.push(str3("List of module exports is dynamic (", joined.as_str(), ")"));
        can_be_root = false;
    }
    if cg.is_entry_module(m) {
        can_be_inner = false;
        reasons.push(string_lit("Module is an entry point"));
    }
    proof {
        assert(reasons.deep_view() =~= spec_bailout_reasons(g, cg, m as int));
    }
    (can_be_root, can_be_inner, reasons)
}

/// A `String` holding exactly the given literal.
pub fn string_lit(s: &str) -> (r: String)
    ensures
        r@ == s@,
{
    let mut r = String::new();
    r.append(s);
    proof {
        assert(r@ =~= s@);
    }
    r
}

/// The names of unresolved re-exports, in export-list order.
fn unresolved_reexport_names(g: &ModuleGraph, m: usize) -> (r: Vec<String>)
    requires
        g.wf(),
        m < g.num_modules(),
    ensures
        r.deep_view() == spec_unresolved_reexport_names(g, m as int),
{
    let ghost pred = |e: ExportFact| e.is_reexport && !e.target_known;
    let ghost f = |e: ExportFact| e.name@;
    let exports = &g.modules[m].exports;
    let mut r: Vec<String> = Vec::new();
    let mut i: usize = 0;
    while i < exports.len()
        invariant
            m < g.modules@.len(),
            exports@ == g.modules@[m as int].exports@,
            0 <= i <= exports@.len(),
            pred == (|e: ExportFact| e.is_reexport && !e.target_known),
            f == (|e: ExportFact| e.name@),
            r.deep_view() == exports@.take(i as int).filter(pred).map_values(f),
        decreases exports@.len() - i,
    {
        let e = &exports[i];
        proof {
            reveal_with_fuel(Seq::<_>::filter, 2);
            assert(exports@.take(i + 1).drop_last() =~= exports@.take(i as int));
            assert(exports@.take(i + 1).last() == exports@[i as int]);
        }
        if e.is_reexport && !e.target_known {
            r.push(crate::config::clone_string(&e.name));
            proof {
                let prev = exports@.take(i as int).filter(pred);
                assert(exports@.take(i + 1).filter(pred) == prev.push(exports@[i as int]));
                assert(prev.push(exports@[i as int]).map_values(f) =~= prev.map_values(f).push(
                    f(exports@[i as int]),
                ));
                assert(r.deep_view() =~= exports@.take(i + 1).filter(pred).map_values(f));
            }
        } else {
            proof {
                assert(exports@.take(i + 1).filter(pred) == exports@.take(i as int).filter(pred));
            }
        }
        i = i + 1;
    }
    proof {
        crate::seq_util::lemma_take_all(exports@);
    }
    r
}

/// The names of exports that are not definitely provided.
pub fn dynamic_export_names(g: &ModuleGraph, m: usize) -> (r: Vec<String>)
    requires
        g.wf(),
        m < g.num_modules(),
    ensures
        r.deep_view() == spec_dynamic_export_names(g, m as int),
{
    let ghost pred = |e: ExportFact| !e.provided;
    let ghost f = |e: ExportFact| e.name@;
    let exports = &g.modules[m].exports;
    let mut r: Vec<String> = Vec::new();
    let mut i: usize = 0;
    while i < exports.len()
        invariant
            m < g.modules@.len(),
            exports@ == g.modules@[m as int].exports@,
            0 <= i <= exports@.len(),
            pred == (|e: ExportFact| !e.provided),
            f == (|e: ExportFact| e.name@),
            r.deep_view() == exports@.take(i as int).filter(pred).map_values(f),
        decreases exports@.len() - i,
    {
        let e = &exports[i];
        proof {
            reveal_with_fuel(Seq::<_>::filter, 2);
            assert(exports@.take(i + 1).drop_last() =~= exports@.take(i as int));
            assert(exports@.take(i + 1).last() == exports@[i as int]);
        }
        if !e.provided {
            r.push(crate::config::clone_string(&e.name));
            proof {
                let prev = exports@.take(i as int).filter(pred);
                assert(exports@.take(i + 1).filter(pred) == prev.push(exports@[i as int]));
                assert(prev.push(exports@[i as int]).map_values(f) =~= prev.map_values(f).push(
                    f(exports@[i as int]),
                ));
                assert(r.deep_view() =~= exports@.take(i + 1).filter(pred).map_values(f));
            }
        } else {
            proof {
                assert(exports@.take(i + 1).filter(pred) == exports@.take(i as int).filter(pred));
            }
        }
        i = i + 1;
    }
    proof {
        crate::seq_util::lemma_take_all(exports@);
    }
    r
}

} // verus!
