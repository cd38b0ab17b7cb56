//! Graph integration: execute an accepted configuration against the live
//! module and chunk graph, materialising one merged module per configuration
//! and rewiring edges and chunk membership.
//!
//! Integration is strictly sequential and ordered: later configurations must
//! observe the claim state left by earlier ones, so a module claimed by an
//! applied configuration is no longer available to the configurations after
//! it, and a configuration whose root was already claimed is skipped.

use vstd::prelude::*;

use std::collections::hash_map::DefaultHasher;
use std::hash::Hasher;

use crate::chunks::ChunkGraph;
use crate::config::ConcatConfiguration;
use crate::graph::{
    conn_equiv, spec_member_copy, spec_moved_conn, spec_should_copy, Connection, ModuleGraph,
    ModuleInfo, SourceType,
};

verus! {

/// The root's identity metadata carried onto the merged module.
pub struct RootModuleContext {
    pub id: usize,
    pub readable_identifier: String,
    pub layer: Option<String>,
}

/// What the merged module records about one absorbed member.
pub struct ConcatenatedInnerModule {
    pub id: usize,
    pub size: u64,
    pub original_source_hash: Option<u64>,
    pub shorten_id: String,
}

/// Content hash of a module's original source bytes.
pub fn hash_source(bytes: &Vec<u8>) -> (r: u64)
    ensures
        r == <DefaultHasher as vstd::std_specs::hash::DefaultHasherAdditionalSpecFns>::spec_finish(seq![bytes@]),
{
    let mut hasher = DefaultHasher::new();
    hasher.write(bytes.as_slice());
    let r = hasher.finish();
    proof {
        assert(hasher@ =~= seq![bytes@]);
    }
    r
}

/// Does the contribution hold an output type other than JavaScript?
pub open spec fn spec_has_non_js(types: Seq<SourceType>) -> bool {
    exists|t: SourceType| types.contains(t) && t != SourceType::JavaScript
}

/// After integration, an absorbed member's JavaScript contribution to a
/// chunk of the root is dropped whenever the member had any other output
/// type to keep it there.
pub open spec fn member_strip_outcome(
    cg_new: &ChunkGraph,
    cg_old: &ChunkGraph,
    g_old: &ModuleGraph,
    m: usize,
    c: usize,
) -> bool {
    cg_new.stripped(m as int, c) == (cg_old.stripped(m as int, c) || spec_has_non_js(
        cg_old.spec_chunk_module_source_types(g_old, c, m as int),
    ))
}

/// After integration, an absorbed member keeps its place in a chunk of the
/// root exactly when it still contributes a non-JavaScript output type there
/// (an emitted asset, say); then only the JavaScript contribution is dropped.
/// Otherwise it is disconnected from that chunk.
pub open spec fn member_chunk_outcome(
    cg_new: &ChunkGraph,
    cg_old: &ChunkGraph,
    g_old: &ModuleGraph,
    m: usize,
    c: usize,
) -> bool {
    cg_new.in_chunk(m as int, c) == (cg_old.in_chunk(m as int, c) && spec_has_non_js(
        cg_old.spec_chunk_module_source_types(g_old, c, m as int),
    ))
}

/// Scan a contribution for a non-JavaScript output type.
fn has_non_js(types: &Vec<SourceType>) -> (b: bool)
    ensures
        b == spec_has_non_js(types@),
{
    let mut i: usize = 0;
    while i < types.len()
        invariant
            0 <= i <= types@.len(),
            forall|k: int| 0 <= k < i ==> types@[k] == SourceType::JavaScript,
        decreases types@.len() - i,
    {
        if !matches!(types[i], SourceType::JavaScript) {
            proof {
                assert(types@.contains(types@[i as int]));
            }
            return true;
        }
        i = i + 1;
    }
    proof {
        if spec_has_non_js(types@) {
            let t = choose|t: SourceType| types@.contains(t) && t != SourceType::JavaScript;
            let k = choose|k: int| 0 <= k < types@.len() && #[trigger] types@[k] == t;
            assert(false);
        }
    }
    false
}

/// The members of a configuration that no earlier applied configuration has
/// claimed, in member order.
pub open spec fn spec_unclaimed(members: Seq<usize>, used: Seq<bool>) -> Seq<usize> {
    members.filter(|m: usize| !used[m as int])
}

/// The edge came onto the merged module as the copy of an outgoing edge of
/// one of the first `upto` absorbed members.
pub open spec fn member_copy_evidence(
    e: Connection,
    conns0: Seq<Connection>,
    members: Seq<usize>,
    upto: int,
    new_id: usize,
) -> bool {
    exists|p: int, i: int|
        #![trigger conns0[i], members[p]]
        1 <= p < upto && 0 <= i < conns0.len() && spec_should_copy(conns0[i], members[p], members)
            && conn_equiv(e, spec_member_copy(conns0[i], new_id))
}

/// The working part of `ModuleConcatenationPlugin::process_concatenated_configuration`.
#[verifier::rlimit(100)]
#[verifier::spinoff_prover]
pub(crate) fn apply_configuration(
    g: &mut ModuleGraph,
    cg: &mut ChunkGraph,
    config: &ConcatConfiguration,
    used_modules: &mut Vec<bool>,
) -> (applied: Option<Vec<usize>>)
    requires
        old(g).wf(),
        old(cg).wf(old(g).num_modules()),
        config.wf(),
        crate::builder::members_valid(old(g), config.members()),
        old(used_modules)@.len() == old(g).num_modules(),
    ensures
        final(g).wf(),
        final(cg).wf(final(g).num_modules()),
        final(used_modules)@.len() == final(g).num_modules(),
        applied is None ==> (*final(g) == *old(g) && *final(cg) == *old(cg) && final(used_modules)@ == old(used_modules)@),
        applied is Some <==> (!old(used_modules)@[config.root_module as int] && spec_unclaimed(
            config.members(),
            old(used_modules)@,
        ).len() >= 2),
        applied matches Some(ms) ==> (ms@ == spec_unclaimed(config.members(), old(used_modules)@)
            && crate::config::distinct_ids(ms@) && (forall|m: usize|
            ms@.contains(m) ==> config.members().contains(m))),
        applied is Some ==> ({
            let claimed = spec_unclaimed(config.members(), old(used_modules)@);
            // claimed members were free, and are now claimed; nothing else moved
            &&& claimed.len() >= 2
            &&& claimed[0] == config.root_module
            &&& forall|m: usize| #[trigger]
                claimed.contains(m) ==> !old(used_modules)@[m as int]
            &&& final(used_modules)@.len() == old(used_modules)@.len() + 1
            &&& forall|m: int|
                0 <= m < old(used_modules)@.len() ==> (#[trigger] final(used_modules)@[m] == (old(
                    used_modules,
                )@[m] || claimed.contains(m as usize)))
        }),
        applied is Some ==> ({
            // integration never writes a diagnostic: the bailout rows of the
            // existing modules are untouched, and the merged module starts
            // with an empty one
            &&& final(g).bailouts@.len() == old(g).bailouts@.len() + 1
            &&& forall|i: int|
                0 <= i < old(g).bailouts@.len() ==> #[trigger] final(g).bailouts@[i] == old(
                    g,
                ).bailouts@[i]
        }),
        applied is Some ==> ({
            // one merged module, carrying the root's identity, in exactly the
            // chunks the root sat in before integration; the module table is
            // only appended to
            &&& final(g).num_modules() == old(g).num_modules() + 1
            &&& final(g).modules@.take(old(g).num_modules() as int) == old(g).modules@
            &&& final(g).modules@[old(g).num_modules() as int].readable_identifier@ == old(g).modules@[config.root_module as int].readable_identifier@
            &&& final(cg).module_chunks@[old(g).num_modules() as int]@ == old(cg).module_chunks@[config.root_module as int]@
        }),
        applied is Some ==> (forall|i: int, k: int|
            #![trigger member_chunk_outcome(
                final(cg),
                old(cg),
                old(g),
                spec_unclaimed(config.members(), old(used_modules)@)[i],
                old(cg).module_chunks@[config.root_module as int]@[k],
            )]
            1 <= i < spec_unclaimed(config.members(), old(used_modules)@).len() && 0 <= k < old(cg).module_chunks@[config.root_module as int]@.len() ==> (member_chunk_outcome(
                final(cg),
                old(cg),
                old(g),
                spec_unclaimed(config.members(), old(used_modules)@)[i],
                old(cg).module_chunks@[config.root_module as int]@[k],
            ) && member_strip_outcome(
                final(cg),
                old(cg),
                old(g),
                spec_unclaimed(config.members(), old(used_modules)@)[i],
                old(cg).module_chunks@[config.root_module as int]@[k],
            ))),
        // the root keeps its chunk slots exactly when it emits an asset, with
        // only its JavaScript contribution dropped; otherwise it leaves its
        // chunks to the merged module
        applied is Some ==> ({
            let root_asset = old(g).modules@[config.root_module as int].source_types@.contains(
                SourceType::Asset,
            );
            &&& forall|c2: usize|
                final(cg).in_chunk(config.root_module as int, c2) <==> (root_asset && old(cg).module_chunks@[config.root_module as int]@.contains(c2))
            &&& root_asset ==> forall|k: int|
                0 <= k < old(cg).module_chunks@[config.root_module as int]@.len() ==> final(cg).stripped(
                    config.root_module as int,
                    #[trigger] old(cg).module_chunks@[config.root_module as int]@[k],
                )
        }),
        // the edge table: every original edge is rewired as the move rule
        // says, and every appended edge is the rewired copy of a qualifying
        // outgoing edge of some absorbed member, originating at the merged
        // module
        applied is Some ==> ({
            let claimed = spec_unclaimed(config.members(), old(used_modules)@);
            let merged = old(g).num_modules() as usize;
            &&& final(g).connections@.len() >= old(g).connections@.len()
            &&& forall|j: int|
                0 <= j < old(g).connections@.len() ==> conn_equiv(
                    #[trigger] final(g).connections@[j],
                    spec_moved_conn(old(g).connections@[j], config.root_module, merged, claimed),
                )
            &&& forall|j: int|
                old(g).connections@.len() <= j < final(g).connections@.len() ==> ((
                #[trigger] final(g).connections@[j]).origin == Option::Some(merged)
                    && exists|p: int, i: int|
                    #![trigger claimed[p], old(g).connections@[i]]
                    1 <= p < claimed.len() && 0 <= i < old(g).connections@.len()
                        && spec_should_copy(old(g).connections@[i], claimed[p], claimed)
                        && conn_equiv(
                        final(g).connections@[j],
                        spec_moved_conn(
                            spec_member_copy(old(g).connections@[i], merged),
                            config.root_module,
                            merged,
                            claimed,
                        ),
                    ))
        }),
{
    let nm = g.len();
    let root = config.root_module;
    proof {
        assert(config.members()[0] == root);
        assert(root < nm) by {
            assert(config.members().contains(config.members()[0]));
        }
    }

    if used_modules[root] {
        return Option::None;
    }

    // The members not yet claimed by an earlier configuration.
    let ghost used0 = used_modules@;
    let all_members = config.get_modules();
    let mut members: Vec<usize> = Vec::new();
    let ghost fpred = |m: usize| !used0[m as int];
    let mut i: usize = 0;
    while i < all_members.len()
        invariant
            all_members@ == config.members(),
            crate::builder::members_valid(g, config.members()),
            g.wf(),
            used_modules@ == used0,
            used0.len() == g.num_modules(),
            fpred == (|m: usize| !used0[m as int]),
            0 <= i <= all_members@.len(),
            members@ == all_members@.take(i as int).filter(fpred),
        decreases all_members@.len() - i,
    {
        let m = all_members[i];
        proof {
            reveal_with_fuel(Seq::<_>::filter, 2);
            assert(all_members@.take(i + 1).drop_last() =~= all_members@.take(i as int));
            assert(all_members@.take(i + 1).last() == all_members@[i as int]);
        }
        if !used_modules[m] {
            members.push(m);
            proof {
                assert(fpred(all_members@[i as int]));
                assert(all_members@.take(i + 1).filter(fpred) == all_members@.take(
                    i as int,
                ).filter(fpred).push(all_members@[i as int]));
            }
        } else {
            proof {
                assert(!fpred(all_members@[i as int]));
                assert(all_members@.take(i + 1).filter(fpred) == all_members@.take(
                    i as int,
                ).filter(fpred));
            }
        }
        i = i + 1;
    }
    proof {
        crate::seq_util::lemma_take_all(all_members@);
        assert(members@ == spec_unclaimed(config.members(), used0));
        lemma_filter_distinct(config.members(), fpred);
    }

    if members.len() < 2 {
        return Option::None;
    }

    proof {
        assert(members@[0] == root) by {
            reveal_with_fuel(Seq::<_>::filter, 2);
            let first = config.members().take(1);
            assert(first.drop_last() =~= config.members().take(0));
            assert(first.last() == root);
            assert(config.members().take(1).filter(fpred) =~= seq![root]);
            // the filtered prefix of length 1 is a prefix of the whole filter
            lemma_filter_prefix_prefix(config.members(), fpred, 1);
        }
        assert(forall|k: int|
            0 <= k < members@.len() ==> (#[trigger] members@[k]) < g.num_modules()) by {
            assert forall|k: int|
                0 <= k < members@.len() implies (#[trigger] members@[k]) < g.num_modules() by {
                assert(members@.contains(members@[k])) by {}
                lemma_filter_element_of(config.members(), fpred, members@[k]);
            }
        }
        assert forall|m: usize| #[trigger]
            spec_unclaimed(config.members(), used0).contains(m) implies !used0[m as int] by {
            lemma_filter_element_pred(config.members(), fpred, m);
        }
    }

    // Claim every member.
    let mut i2: usize = 0;
    while i2 < members.len()
        invariant
            0 <= i2 <= members@.len(),
            used_modules@.len() == used0.len(),
            forall|k: int|
                0 <= k < members@.len() ==> (#[trigger] members@[k]) < used_modules@.len(),
            forall|m2: usize|
                (m2 as int) < used_modules@.len() ==> (#[trigger] used_modules@[m2 as int] == (
                used0[m2 as int] || members@.take(i2 as int).contains(m2))),
        decreases members@.len() - i2,
    {
        let m = members[i2];
        let ghost used_before = used_modules@;
        used_modules[m] = true;
        proof {
            crate::seq_util::lemma_take_succ_contains(members@, i2 as int);
            assert forall|m2: usize|
                (m2 as int) < used_modules@.len() implies (#[trigger] used_modules@[m2 as int] == (
            used0[m2 as int] || members@.take(i2 + 1).contains(m2))) by {
                if m2 == m {
                    assert(used_modules@[m2 as int]);
                    assert(members@.take(i2 + 1).contains(m2)) by {
                        assert(members@[i2 as int] == m2);
                    }
                } else {
                    assert(used_modules@[m2 as int] == used_before[m2 as int]);
                    assert(members@.take(i2 + 1).contains(m2) <==> (members@.take(
                        i2 as int,
                    ).contains(m2) || m2 == members@[i2 as int]));
                }
            }
        }
        i2 = i2 + 1;
    }
    proof {
        crate::seq_util::lemma_take_all(members@);
    }

    // The merged-module descriptor: the root's identity, plus what the
    // merged module records of each member.
    let root_ident = crate::config::clone_string(&g.modules[root].readable_identifier);
    let root_layer = match &g.modules[root].layer {
        Option::Some(l) => Option::Some(crate::config::clone_string(l)),
        Option::None => Option::None,
    };
    let ctxt = RootModuleContext { id: root, readable_identifier: root_ident, layer: root_layer };
    let mut inner_modules: Vec<ConcatenatedInnerModule> = Vec::new();
    let mut i3: usize = 0;
    while i3 < members.len()
        invariant
            g.wf(),
            0 <= i3 <= members@.len(),
            forall|k: int|
                0 <= k < members@.len() ==> (#[trigger] members@[k]) < g.num_modules(),
        decreases members@.len() - i3,
    {
        let m = members[i3];
        let source_hash = match &g.modules[m].source {
            Option::Some(bytes) => Option::Some(hash_source(bytes)),
            Option::None => Option::None,
        };
        inner_modules.push(
            ConcatenatedInnerModule {
                id: m,
                size: g.modules[m].size_js,
                original_source_hash: source_hash,
                shorten_id: crate::config::clone_string(&g.modules[m].readable_identifier),
            },
        );
        i3 = i3 + 1;
    }

    // Construct and attach the merged module node, inheriting the root's
    // exports-info identity and metadata.
    let is_root_asset = has_asset_type(&g.modules[root].source_types);
    let mut total_size: u64 = 0;
    let mut i4: usize = 0;
    while i4 < inner_modules.len()
        invariant
            0 <= i4 <= inner_modules@.len(),
        decreases inner_modules@.len() - i4,
    {
        let s = inner_modules[i4].size;
        total_size = if total_size <= u64::MAX - s {
            total_size + s
        } else {
            u64::MAX
        };
        i4 = i4 + 1;
    }
    let new_exports = copy_exports(&g.modules[root].exports);
    let new_used_runtimes = g.modules[root].used_runtimes.clone_spec();
    let ghost root_depth = g.modules@[root as int].depth;
    let new_layer = match &ctxt.layer {
        Option::Some(l) => Option::Some(crate::config::clone_string(l)),
        Option::None => Option::None,
    };
    let mut new_types: Vec<SourceType> = Vec::new();
    new_types.push(SourceType::JavaScript);
    let new_info = ModuleInfo {
        readable_identifier: crate::config::clone_string(&ctxt.readable_identifier),
        intrinsic_bailout: Option::None,
        is_async: false,
        strict: true,
        exports: new_exports,
        used_runtimes: new_used_runtimes,
        size_js: total_size,
        source: Option::None,
        source_types: new_types,
        layer: new_layer,
        depth: g.modules[root].depth,
    };
    proof {
        assert(new_info.wf()) by {
            assert(g.modules@[root as int].wf());
        }
    }
    let new_id = g.add_module(new_info);
    cg.add_module();
    used_modules.push(false);
    proof {
        assert(cg.module_chunks@[root as int]@ == old(cg).module_chunks@[root as int]@);
    }

    // Rewire each absorbed member's edges and chunk membership.
    let root_chunks = crate::chunks::copy_usize_vec(cg.module_chunks_list(root));
    let ghost root_chunks0 = old(cg).module_chunks@[root as int]@;
    proof {
        assert(root_chunks@ == root_chunks0);
    }
    proof {
        assert(crate::chunks::distinct_seq(root_chunks0));
    }
    let mut i5: usize = 1;
    while i5 < members.len()
        invariant
            g.wf(),
            cg.wf(g.num_modules()),
            g.num_modules() == old(g).num_modules() + 1,
            g.modules@ == old(g).modules@.push(new_info),
            new_id == old(g).num_modules(),
            root < old(g).num_modules(),
            forall|k: int|
                0 <= k < members@.len() ==> (#[trigger] members@[k]) < old(g).num_modules(),
            members@[0] == root,
            crate::config::distinct_ids(members@),
            1 <= i5 <= members@.len(),
            root_chunks@ == root_chunks0,
            crate::chunks::distinct_seq(root_chunks0),
            forall|k: int|
                0 <= k < root_chunks0.len() ==> (#[trigger] root_chunks0[k]) < cg.num_chunks(),
            cg.module_chunks@[root as int]@ == root_chunks0,
            cg.module_chunks@[new_id as int]@ == Seq::<usize>::empty(),
            cg.module_chunks@.len() == g.num_modules(),
            cg.js_stripped@.len() == g.num_modules(),
            old(cg).module_chunks@.len() == old(g).num_modules(),
            forall|p: int, k: int|
                #![trigger members@[p], root_chunks0[k]]
                1 <= p < i5 && 0 <= k < root_chunks0.len() ==> (member_chunk_outcome(
                    cg,
                    old(cg),
                    old(g),
                    members@[p],
                    root_chunks0[k],
                ) && member_strip_outcome(cg, old(cg), old(g), members@[p], root_chunks0[k])),
            forall|p: int|
                i5 <= p < members@.len() ==> (cg.module_chunks@[(#[trigger] members@[p]) as int]
                    == old(cg).module_chunks@[members@[p] as int] && cg.js_stripped@[members@[p] as int]
                    == old(cg).js_stripped@[members@[p] as int]),
            g.bailouts@.len() == old(g).bailouts@.len() + 1,
            forall|i: int|
                0 <= i < old(g).bailouts@.len() ==> #[trigger] g.bailouts@[i] == old(
                    g,
                ).bailouts@[i],
            g.connections@.len() >= old(g).connections@.len(),
            g.connections@.take(old(g).connections@.len() as int) == old(g).connections@,
            forall|j: int|
                old(g).connections@.len() <= j < g.connections@.len() ==> (
                #[trigger] g.connections@[j]).origin == Option::Some(new_id),
            forall|j: int|
                old(g).connections@.len() <= j < g.connections@.len() ==> member_copy_evidence(
                    #[trigger] g.connections@[j],
                    old(g).connections@,
                    members@,
                    i5 as int,
                    new_id,
                ),
        decreases members@.len() - i5,
    {
        let m = members[i5];
        proof {
            assert(m != root) by {
                assert(members@[0] == root);
                assert(members@[i5 as int] != members@[0]);
            }
            assert(m != new_id);
        }
        let ghost conns_head = g.connections@;
        g.copy_outgoing_module_connections(m, new_id, &members);
        proof {
            let n0 = old(g).connections@.len() as int;
            let npre = conns_head.len() as int;
            assert(g.connections@.take(npre) == conns_head);
            assert forall|j: int| 0 <= j < npre implies g.connections@[j] == conns_head[j] by {
                assert(g.connections@.take(npre)[j] == g.connections@[j]);
            }
            assert(g.connections@.take(n0) =~= old(g).connections@) by {
                assert forall|j: int| 0 <= j < n0 implies g.connections@[j] == old(
                    g,
                ).connections@[j] by {
                    assert(conns_head.take(n0)[j] == conns_head[j]);
                }
            }
            assert forall|j: int| n0 <= j < g.connections@.len() implies ((
            #[trigger] g.connections@[j]).origin == Option::Some(new_id) && member_copy_evidence(
                g.connections@[j],
                old(g).connections@,
                members@,
                i5 + 1,
                new_id,
            )) by {
                if j < npre {
                    assert(g.connections@[j] == conns_head[j]);
                    assert(member_copy_evidence(
                        conns_head[j],
                        old(g).connections@,
                        members@,
                        i5 as int,
                        new_id,
                    ));
                    let (p, i) = choose|p: int, i: int|
                        #![trigger old(g).connections@[i], members@[p]]
                        1 <= p < i5 && 0 <= i < old(g).connections@.len() && spec_should_copy(
                            old(g).connections@[i],
                            members@[p],
                            members@,
                        ) && conn_equiv(conns_head[j], spec_member_copy(old(g).connections@[i], new_id));
                    assert(1 <= p < i5 + 1 && 0 <= i < old(g).connections@.len()
                        && spec_should_copy(old(g).connections@[i], members@[p], members@)
                        && conn_equiv(
                        g.connections@[j],
                        spec_member_copy(old(g).connections@[i], new_id),
                    ));
                } else {
                    let k = j - npre;
                    let copied = crate::graph::spec_copied_conns(
                        conns_head,
                        m,
                        new_id,
                        members@,
                        npre,
                    );
                    assert(conn_equiv(g.connections@.skip(npre)[k], copied[k]));
                    assert(g.connections@.skip(npre)[k] == g.connections@[j]);
                    crate::graph::lemma_copied_entry_source(
                        conns_head,
                        m,
                        new_id,
                        members@,
                        npre,
                        k,
                    );
                    let i = choose|i: int|
                        0 <= i < npre && spec_should_copy(#[trigger] conns_head[i], m, members@)
                            && copied[k] == spec_member_copy(conns_head[i], new_id);
                    assert(i < n0) by {
                        if i >= n0 {
                            assert(conns_head[i].origin == Option::Some(new_id));
                            assert(m < new_id) by {
                                assert(members@[i5 as int] < old(g).num_modules());
                            }
                        }
                    }
                    assert(conns_head[i] == old(g).connections@[i]) by {
                        assert(conns_head.take(n0)[i] == conns_head[i]);
                    }
                    assert(copied[k].origin == Option::Some(new_id));
                    assert(1 <= (i5 as int) && (i5 as int) < i5 + 1 && 0 <= i < old(g).connections@.len()
                        && spec_should_copy(old(g).connections@[i], members@[i5 as int], members@)
                        && conn_equiv(
                        g.connections@[j],
                        spec_member_copy(old(g).connections@[i], new_id),
                    ));
                }
            }
        }
        let ghost conns_mid = g.connections@;
        let ghost bail_mid = g.bailouts@;
        let ghost mc_outer = cg.module_chunks@;
        let ghost js_outer = cg.js_stripped@;
        let mut c: usize = 0;
        while c < root_chunks.len()
            invariant
                g.wf(),
                cg.wf(g.num_modules()),
                g.num_modules() == old(g).num_modules() + 1,
                g.modules@ == old(g).modules@.push(new_info),
                new_id == old(g).num_modules(),
                root < old(g).num_modules(),
                m < old(g).num_modules(),
                m == members@[i5 as int],
                i5 < members@.len(),
                m != root,
                m != new_id,
                0 <= c <= root_chunks@.len(),
                root_chunks@ == root_chunks0,
                crate::chunks::distinct_seq(root_chunks0),
                cg.module_chunks@[root as int]@ == root_chunks0,
                cg.module_chunks@[new_id as int]@ == Seq::<usize>::empty(),
                cg.module_chunks@.len() == g.num_modules(),
                cg.js_stripped@.len() == g.num_modules(),
                mc_outer.len() == g.num_modules(),
                js_outer.len() == g.num_modules(),
                old(cg).module_chunks@.len() == old(g).num_modules(),
                forall|m2: int|
                    0 <= m2 < mc_outer.len() && m2 != m ==> (#[trigger] cg.module_chunks@[m2])
                        == mc_outer[m2],
                forall|m2: int|
                    0 <= m2 < js_outer.len() && m2 != m ==> (#[trigger] cg.js_stripped@[m2])
                        == js_outer[m2],
                mc_outer[m as int] == old(cg).module_chunks@[m as int],
                js_outer[m as int] == old(cg).js_stripped@[m as int],
                forall|q: int|
                    c <= q < root_chunks0.len() ==> (cg.in_chunk(m as int, #[trigger] root_chunks0[q])
                        == old(cg).in_chunk(m as int, root_chunks0[q]) && cg.stripped(
                        m as int,
                        root_chunks0[q],
                    ) == old(cg).stripped(m as int, root_chunks0[q])),
                forall|q: int|
                    0 <= q < c ==> (member_chunk_outcome(
                        cg,
                        old(cg),
                        old(g),
                        m,
                        #[trigger] root_chunks0[q],
                    ) && member_strip_outcome(cg, old(cg), old(g), m, root_chunks0[q])),
                forall|k: int|
                    0 <= k < root_chunks0.len() ==> (#[trigger] root_chunks0[k]) < cg.num_chunks(),
                g.connections@ == conns_mid,
                g.bailouts@ == bail_mid,
            decreases root_chunks@.len() - c,
        {
            let chunk = root_chunks[c];
            let types = cg.get_chunk_module_source_types(g, chunk, m);
            proof {
                // the member's row and strip state for this chunk are still
                // as they were before integration, and the module table entry
                // is unchanged, so the contribution read here is the original
                assert(g.modules@[m as int] == old(g).modules@[m as int]);
                assert(cg.stripped(m as int, chunk) == old(cg).stripped(m as int, chunk));
                assert(types@ == old(cg).spec_chunk_module_source_types(old(g), chunk, m as int));
            }
            if !has_non_js(&types) {
                cg.disconnect_chunk_and_module(chunk, m);
            } else {
                cg.strip_javascript_in_chunk(chunk, m);
            }
            proof {
                assert forall|q: int|
                    c + 1 <= q < root_chunks0.len() implies (cg.in_chunk(
                    m as int,
                    #[trigger] root_chunks0[q],
                ) == old(cg).in_chunk(m as int, root_chunks0[q]) && cg.stripped(
                    m as int,
                    root_chunks0[q],
                ) == old(cg).stripped(m as int, root_chunks0[q])) by {
                    assert(root_chunks0[q] != chunk) by {
                        assert(root_chunks0[c as int] == chunk);
                    }
                }
                assert forall|q: int| 0 <= q < c + 1 implies (member_chunk_outcome(
                    cg,
                    old(cg),
                    old(g),
                    m,
                    #[trigger] root_chunks0[q],
                ) && member_strip_outcome(cg, old(cg), old(g), m, root_chunks0[q])) by {
                    if q < c {
                        assert(root_chunks0[q] != chunk) by {
                            assert(root_chunks0[c as int] == chunk);
                        }
                        assert(member_chunk_outcome(cg, old(cg), old(g), m, root_chunks0[q]));
                        assert(member_strip_outcome(cg, old(cg), old(g), m, root_chunks0[q]));
                    }
                }
            }
            c = c + 1;
        }
        proof {
            // members processed earlier kept their rows through this pass
            assert forall|p: int, k: int|
                #![trigger members@[p], root_chunks0[k]]
                1 <= p < i5 + 1 && 0 <= k < root_chunks0.len() implies (member_chunk_outcome(
                cg,
                old(cg),
                old(g),
                members@[p],
                root_chunks0[k],
            ) && member_strip_outcome(cg, old(cg), old(g), members@[p], root_chunks0[k])) by {
                if p < i5 {
                    assert(members@[p] != m) by {
                        assert(members@[p] != members@[i5 as int]);
                    }
                    assert(cg.module_chunks@[members@[p] as int] == mc_outer[members@[p] as int]);
                    assert(cg.js_stripped@[members@[p] as int] == js_outer[members@[p] as int]);
                }
            }
            assert forall|p: int|
                i5 + 1 <= p < members@.len() implies (cg.module_chunks@[(
            #[trigger] members@[p]) as int] == old(cg).module_chunks@[members@[p] as int]
                && cg.js_stripped@[members@[p] as int] == old(cg).js_stripped@[members@[p] as int]) by {
                assert(members@[p] != m) by {
                    assert(members@[p] != members@[i5 as int]);
                }
                assert(cg.module_chunks@[members@[p] as int] == mc_outer[members@[p] as int]);
                assert(cg.js_stripped@[members@[p] as int] == js_outer[members@[p] as int]);
            }
        }
        i5 = i5 + 1;
    }

    // The merged node takes the root's chunk-graph slot; an asset-emitting
    // root stays behind, stripped of its JavaScript contribution, so the
    // asset output is not lost.
    let ghost conns_premove = g.connections@;
    let ghost bail_premove = g.bailouts@;
    let ghost mc_before_replace = cg.module_chunks@;
    cg.replace_module(root, new_id);
    proof {
        assert(cg.module_chunks@[new_id as int]@ == root_chunks0);
        assert forall|p: int, k: int|
            #![trigger members@[p], root_chunks0[k]]
            1 <= p < members@.len() && 0 <= k < root_chunks0.len() implies (member_chunk_outcome(
            cg,
            old(cg),
            old(g),
            members@[p],
            root_chunks0[k],
        ) && member_strip_outcome(cg, old(cg), old(g), members@[p], root_chunks0[k])) by {
            assert(members@[p] != root && members@[p] != new_id) by {
                assert(members@[p] != members@[0]);
            }
            assert(cg.module_chunks@[members@[p] as int] == mc_before_replace[members@[p] as int]);
        }
    }
    let ghost root_row_after_replace = cg.module_chunks@[root as int]@;
    proof {
        assert(root_row_after_replace == Seq::<usize>::empty());
        assert(forall|x: usize| !cg.in_chunk(root as int, x));
    }
    if is_root_asset {
        let mut c2: usize = 0;
        while c2 < root_chunks.len()
            invariant
                g.wf(),
                cg.wf(g.num_modules()),
                g.num_modules() == old(g).num_modules() + 1,
                new_id == old(g).num_modules(),
                root < old(g).num_modules(),
                root != new_id,
                0 <= c2 <= root_chunks@.len(),
                root_chunks@ == root_chunks0,
                cg.module_chunks@[new_id as int]@ == root_chunks0,
                cg.module_chunks@.len() == g.num_modules(),
                cg.js_stripped@.len() == g.num_modules(),
                forall|k: int|
                    0 <= k < members@.len() ==> (#[trigger] members@[k]) < old(g).num_modules(),
                members@[0] == root,
                old(cg).module_chunks@.len() == old(g).num_modules(),
                forall|k: int|
                    0 <= k < root_chunks0.len() ==> (#[trigger] root_chunks0[k]) < cg.num_chunks(),
                crate::config::distinct_ids(members@),
                forall|p: int, k: int|
                    #![trigger members@[p], root_chunks0[k]]
                    1 <= p < members@.len() && 0 <= k < root_chunks0.len()
                        ==> (member_chunk_outcome(cg, old(cg), old(g), members@[p], root_chunks0[k])
                        && member_strip_outcome(cg, old(cg), old(g), members@[p], root_chunks0[k])),
                forall|x: usize|
                    #[trigger] cg.in_chunk(root as int, x) <==> root_chunks0.take(
                        c2 as int,
                    ).contains(x),
                forall|k: int| 0 <= k < c2 ==> cg.stripped(root as int, #[trigger] root_chunks0[k]),
                g.connections@ == conns_premove,
                g.bailouts@ == bail_premove,
            decreases root_chunks@.len() - c2,
        {
            let chunk = root_chunks[c2];
            let ghost cg_head = *cg;
            let ghost mc_step = cg.module_chunks@;
            let ghost js_step = cg.js_stripped@;
            let ghost stripped_before = |k: int| cg.stripped(root as int, root_chunks0[k]);
            cg.strip_javascript_in_chunk(chunk, root);
            cg.connect_chunk_and_module(chunk, root);
            proof {
                assert forall|p: int, k: int|
                    #![trigger members@[p], root_chunks0[k]]
                    1 <= p < members@.len() && 0 <= k < root_chunks0.len()
                        implies (member_chunk_outcome(
                    cg,
                    old(cg),
                    old(g),
                    members@[p],
                    root_chunks0[k],
                ) && member_strip_outcome(cg, old(cg), old(g), members@[p], root_chunks0[k])) by {
                    assert(members@[p] != root) by {
                        assert(members@[p] != members@[0]);
                    }
                    assert(cg.module_chunks@[members@[p] as int] == mc_step[members@[p] as int]);
                    assert(cg.js_stripped@[members@[p] as int] == js_step[members@[p] as int]);
                }
                crate::seq_util::lemma_take_succ_contains(root_chunks0, c2 as int);
                assert forall|x: usize|
                    cg.in_chunk(root as int, x) <==> root_chunks0.take(c2 + 1).contains(x) by {
                    assert(root_chunks0.take(c2 + 1).contains(x) <==> (root_chunks0.take(
                        c2 as int,
                    ).contains(x) || x == root_chunks0[c2 as int]));
                    assert(cg_head.in_chunk(root as int, x) <==> root_chunks0.take(
                        c2 as int,
                    ).contains(x));
                    assert(cg.in_chunk(root as int, x) <==> (cg_head.in_chunk(root as int, x) || x
                        == chunk));
                }
                assert forall|k: int| 0 <= k < c2 + 1 implies cg.stripped(
                    root as int,
                    #[trigger] root_chunks0[k],
                ) by {
                    if k < c2 {
                        assert(stripped_before(k));
                    } else {
                        assert(root_chunks0[k] == chunk);
                    }
                }
            }
            c2 = c2 + 1;
        }
        proof {
            crate::seq_util::lemma_take_all(root_chunks0);
        }
    }

    // Re-point the root's external edges at the merged module.
    g.move_module_connections(root, new_id, &members);
    proof {
        let n0 = old(g).connections@.len() as int;
        assert forall|j: int| 0 <= j < n0 implies conn_equiv(
            #[trigger] g.connections@[j],
            spec_moved_conn(old(g).connections@[j], root, new_id, members@),
        ) by {
            assert(conns_premove[j] == old(g).connections@[j]) by {
                assert(conns_premove.take(n0)[j] == conns_premove[j]);
            }
        }
        assert(!members@.contains(new_id)) by {
            if members@.contains(new_id) {
                let k = choose|k: int| 0 <= k < members@.len() && #[trigger] members@[k] == new_id;
                assert(members@[k] < old(g).num_modules());
            }
        }
        assert forall|j: int| n0 <= j < g.connections@.len() implies ((
        #[trigger] g.connections@[j]).origin == Option::Some(new_id) && exists|p: int, i: int|
            #![trigger members@[p], old(g).connections@[i]]
            1 <= p < members@.len() && 0 <= i < n0 && spec_should_copy(
                old(g).connections@[i],
                members@[p],
                members@,
            ) && conn_equiv(
                g.connections@[j],
                spec_moved_conn(
                    spec_member_copy(old(g).connections@[i], new_id),
                    root,
                    new_id,
                    members@,
                ),
            )) by {
            let e = conns_premove[j];
            assert(e.origin == Option::Some(new_id));
            assert(conn_equiv(g.connections@[j], spec_moved_conn(e, root, new_id, members@)));
            assert(spec_moved_conn(e, root, new_id, members@).origin == Option::Some(new_id)) by {
                assert(root != new_id);
            }
            assert(member_copy_evidence(e, old(g).connections@, members@, members@.len() as int, new_id));
            let (p, i) = choose|p: int, i: int|
                #![trigger old(g).connections@[i], members@[p]]
                1 <= p < members@.len() && 0 <= i < old(g).connections@.len() && spec_should_copy(
                    old(g).connections@[i],
                    members@[p],
                    members@,
                ) && conn_equiv(e, spec_member_copy(old(g).connections@[i], new_id));
            crate::graph::lemma_moved_conn_equiv(
                e,
                spec_member_copy(old(g).connections@[i], new_id),
                root,
                new_id,
                members@,
            );
            assert(1 <= p < members@.len() && 0 <= i < n0 && spec_should_copy(
                old(g).connections@[i],
                members@[p],
                members@,
            ) && conn_equiv(
                g.connections@[j],
                spec_moved_conn(
                    spec_member_copy(old(g).connections@[i], new_id),
                    root,
                    new_id,
                    members@,
                ),
            ));
        }
        assert(cg.module_chunks@[new_id as int]@ == root_chunks0);
        assert(g.modules@[new_id as int].readable_identifier@ == old(g).modules@[
            root as int].readable_identifier@);
        assert(g.modules@.take(old(g).num_modules() as int) =~= old(g).modules@);
        // the claimed members themselves come from the configuration
        assert forall|m: usize| members@.contains(m) implies config.members().contains(m) by {
            lemma_filter_element_of(config.members(), fpred, m);
        }
    }
    Option::Some(members)
}

/// Does the list name the asset output type?
fn has_asset_type(v: &Vec<SourceType>) -> (b: bool)
    ensures
        b == v@.contains(SourceType::Asset),
{
    let mut i: usize = 0;
    while i < v.len()
        invariant
            0 <= i <= v@.len(),
            forall|k: int| 0 <= k < i ==> v@[k] != SourceType::Asset,
        decreases v@.len() - i,
    {
        if matches!(v[i], SourceType::Asset) {
            assert(v@.contains(SourceType::Asset));
            return true;
        }
        i = i + 1;
    }
    assert(!v@.contains(SourceType::Asset));
    false
}

/// Element-wise copy of an export list.
fn copy_exports(v: &Vec<crate::graph::ExportFact>) -> (r: Vec<crate::graph::ExportFact>)
    ensures
        r@.len() == v@.len(),
{
    let mut r: Vec<crate::graph::ExportFact> = Vec::new();
    let mut i: usize = 0;
    while i < v.len()
        invariant
            0 <= i <= v@.len(),
            r@.len() == i,
        decreases v@.len() - i,
    {
        let e = &v[i];
        r.push(
            crate::graph::ExportFact {
                name: crate::config::clone_string(&e.name),
                is_reexport: e.is_reexport,
                target_known: e.target_known,
                provided: e.provided,
            },
        );
        i = i + 1;
    }
    r
}

/// Filtering a duplicate-free sequence keeps it duplicate-free.
proof fn lemma_filter_distinct(s: Seq<usize>, pred: spec_fn(usize) -> bool)
    requires
        crate::config::distinct_ids(s),
    ensures
        crate::config::distinct_ids(s.filter(pred)),
    decreases s.len(),
{
    reveal_with_fuel(Seq::<_>::filter, 2);
    if s.len() > 0 {
        let sub = s.drop_last();
        assert(crate::config::distinct_ids(sub)) by {
            assert(forall|i: int, j: int| 0 <= i < j < sub.len() ==> sub[i] == s[i] && sub[j] == s[j]);
        }
        lemma_filter_distinct(sub, pred);
        if pred(s.last()) {
            assert(s.filter(pred) == sub.filter(pred).push(s.last()));
            assert(!sub.filter(pred).contains(s.last())) by {
                if sub.filter(pred).contains(s.last()) {
                    lemma_filter_element_of(sub, pred, s.last());
                    let k = choose|k: int| 0 <= k < sub.len() && #[trigger] sub[k] == s.last();
                    assert(s[k] == s[s.len() - 1]);
                    assert(false);
                }
            }
            assert(crate::config::distinct_ids(s.filter(pred))) by {
                let f = s.filter(pred);
                let fs = sub.filter(pred);
                assert forall|i: int, j: int| 0 <= i < j < f.len() implies f[i] != f[j] by {
                    if j < f.len() - 1 {
                        assert(f[i] == fs[i] && f[j] == fs[j]);
                    } else {
                        assert(f[i] == fs[i]);
                        assert(f[j] == s.last());
                        assert(fs.contains(fs[i]));
                    }
                }
            }
        }
    }
}

/// Every element of a filtered sequence is an element of the original.
proof fn lemma_filter_element_of(s: Seq<usize>, pred: spec_fn(usize) -> bool, x: usize)
    requires
        s.filter(pred).contains(x),
    ensures
        s.contains(x),
    decreases s.len(),
{
    reveal_with_fuel(Seq::<_>::filter, 2);
    if s.len() > 0 {
        let sub = s.drop_last();
        if pred(s.last()) && x == s.last() {
            assert(s.contains(s.last()));
        } else {
            assert(sub.filter(pred).contains(x)) by {
                if pred(s.last()) {
                    let k = choose|k: int|
                        0 <= k < s.filter(pred).len() && #[trigger] s.filter(pred)[k] == x;
                    assert(s.filter(pred) == sub.filter(pred).push(s.last()));
                    assert(sub.filter(pred)[k] == x);
                }
            }
            lemma_filter_element_of(sub, pred, x);
            let k = choose|k: int| 0 <= k < sub.len() && #[trigger] sub[k] == x;
            assert(s[k] == x);
        }
    }
}

/// Every element of a filtered sequence satisfies the predicate.
proof fn lemma_filter_element_pred(s: Seq<usize>, pred: spec_fn(usize) -> bool, x: usize)
    ensures
        s.filter(pred).contains(x) ==> pred(x),
    decreases s.len(),
{
    reveal_with_fuel(Seq::<_>::filter, 2);
    if s.len() > 0 && s.filter(pred).contains(x) {
        let sub = s.drop_last();
        if pred(s.last()) && x == s.last() {
        } else {
            assert(sub.filter(pred).contains(x)) by {
                if pred(s.last()) {
                    let k = choose|k: int|
                        0 <= k < s.filter(pred).len() && #[trigger] s.filter(pred)[k] == x;
                    assert(s.filter(pred) == sub.filter(pred).push(s.last()));
                    assert(sub.filter(pred)[k] == x);
                }
            }
            lemma_filter_element_pred(sub, pred, x);
        }
    }
}

/// Filtering a prefix yields a prefix of the filtered sequence.
proof fn lemma_filter_prefix_prefix(s: Seq<usize>, pred: spec_fn(usize) -> bool, i: int)
    requires
        0 <= i <= s.len(),
    ensures
        s.take(i).filter(pred).len() <= s.filter(pred).len(),
        forall|k: int|
            0 <= k < s.take(i).filter(pred).len() ==> #[trigger] s.filter(pred)[k] == s.take(
                i,
            ).filter(pred)[k],
    decreases s.len() - i,
{
    reveal_with_fuel(Seq::<_>::filter, 2);
    if i == s.len() {
        crate::seq_util::lemma_take_all(s);
    } else {
        lemma_filter_prefix_prefix(s, pred, i + 1);
        assert(s.take(i + 1).drop_last() =~= s.take(i));
        assert(s.take(i + 1).last() == s[i]);
        if pred(s[i]) {
            assert(s.take(i + 1).filter(pred) == s.take(i).filter(pred).push(s[i]));
        } else {
            assert(s.take(i + 1).filter(pred) == s.take(i).filter(pred));
        }
    }
}

} // verus!

verus! {

impl crate::pass::ModuleConcatenationPlugin {
    /// Apply one accepted configuration to the graphs.
    ///
    /// A configuration whose root was already claimed is skipped, as is one whose
    /// unclaimed members no longer reach beyond the root.  Otherwise the merged
    /// module is created with the root's identity, every unclaimed member is
    /// claimed, the members' outgoing edges are copied onto the merged module
    /// (intra-group ESM edges becoming internal), each absorbed member leaves the
    /// root's chunks unless it still contributes a non-JavaScript output type
    /// (then only the JavaScript contribution is dropped), the merged module
    /// takes over exactly the root's chunks, and the root's external edges are
    /// re-pointed at the merged module (an asset-emitting root also stays in
    /// those chunks, stripped of its JavaScript contribution, so the asset is not
    /// lost).
    pub fn process_concatenated_configuration(
        g: &mut ModuleGraph,
        cg: &mut ChunkGraph,
        config: &ConcatConfiguration,
        used_modules: &mut Vec<bool>,
    ) -> (applied: bool)
        requires
            old(g).wf(),
            old(cg).wf(old(g).num_modules()),
            config.wf(),
            crate::builder::members_valid(old(g), config.members()),
            old(used_modules)@.len() == old(g).num_modules(),
        ensures
            final(g).wf(),
            final(cg).wf(final(g).num_modules()),
            final(used_modules)@.len() == final(g).num_modules(),
            !applied ==> (*final(g) == *old(g) && *final(cg) == *old(cg) && final(used_modules)@
                == old(used_modules)@),
            applied <==> (!old(used_modules)@[config.root_module as int] && spec_unclaimed(
                config.members(),
                old(used_modules)@,
            ).len() >= 2),
            applied ==> ({
                let claimed = spec_unclaimed(config.members(), old(used_modules)@);
                &&& claimed.len() >= 2
                &&& claimed[0] == config.root_module
                &&& forall|m: usize| #[trigger]
                    claimed.contains(m) ==> !old(used_modules)@[m as int]
                &&& final(used_modules)@.len() == old(used_modules)@.len() + 1
                &&& forall|m: int|
                    0 <= m < old(used_modules)@.len() ==> (#[trigger] final(used_modules)@[m] == (
                    old(used_modules)@[m] || claimed.contains(m as usize)))
            }),
            applied ==> ({
                &&& final(g).num_modules() == old(g).num_modules() + 1
                &&& final(g).modules@.take(old(g).num_modules() as int) == old(g).modules@
                &&& final(g).modules@[old(g).num_modules() as int].readable_identifier@ == old(g).modules@[config.root_module as int].readable_identifier@
                &&& final(cg).module_chunks@[old(g).num_modules() as int]@ == old(cg).module_chunks@[config.root_module as int]@
            }),
            applied ==> (forall|i: int, k: int|
                #![trigger spec_unclaimed(config.members(), old(used_modules)@)[i], old(cg).module_chunks@[config.root_module as int]@[k]]
                1 <= i < spec_unclaimed(config.members(), old(used_modules)@).len() && 0 <= k < old(cg).module_chunks@[config.root_module as int]@.len() ==> member_chunk_outcome(
                    final(cg),
                    old(cg),
                    old(g),
                    spec_unclaimed(config.members(), old(used_modules)@)[i],
                    old(cg).module_chunks@[config.root_module as int]@[k],
                ) && member_strip_outcome(
                    final(cg),
                    old(cg),
                    old(g),
                    spec_unclaimed(config.members(), old(used_modules)@)[i],
                    old(cg).module_chunks@[config.root_module as int]@[k],
                )),
            applied ==> ({
                let root_asset = old(g).modules@[config.root_module as int].source_types@.contains(
                    SourceType::Asset,
                );
                &&& forall|c2: usize|
                    final(cg).in_chunk(config.root_module as int, c2) <==> (root_asset && old(cg).module_chunks@[config.root_module as int]@.contains(c2))
                &&& root_asset ==> forall|k: int|
                    0 <= k < old(cg).module_chunks@[config.root_module as int]@.len() ==> final(cg).stripped(
                        config.root_module as int,
                        #[trigger] old(cg).module_chunks@[config.root_module as int]@[k],
                    )
            }),
            applied ==> ({
                &&& final(g).bailouts@.len() == old(g).bailouts@.len() + 1
                &&& forall|i: int|
                    0 <= i < old(g).bailouts@.len() ==> #[trigger] final(g).bailouts@[i] == old(
                        g,
                    ).bailouts@[i]
            }),
            applied ==> ({
                let claimed = spec_unclaimed(config.members(), old(used_modules)@);
                let merged = old(g).num_modules() as usize;
                &&& final(g).connections@.len() >= old(g).connections@.len()
                &&& forall|j: int|
                    0 <= j < old(g).connections@.len() ==> conn_equiv(
                        #[trigger] final(g).connections@[j],
                        spec_moved_conn(
                            old(g).connections@[j],
                            config.root_module,
                            merged,
                            claimed,
                        ),
                    )
                &&& forall|j: int|
                    old(g).connections@.len() <= j < final(g).connections@.len() ==> ((
                    #[trigger] final(g).connections@[j]).origin == Option::Some(merged)
                        && exists|p: int, i: int|
                        #![trigger claimed[p], old(g).connections@[i]]
                        1 <= p < claimed.len() && 0 <= i < old(g).connections@.len()
                            && spec_should_copy(old(g).connections@[i], claimed[p], claimed)
                            && conn_equiv(
                            final(g).connections@[j],
                            spec_moved_conn(
                                spec_member_copy(old(g).connections@[i], merged),
                                config.root_module,
                                merged,
                                claimed,
                            ),
                        ))
            }),
    {
        match apply_configuration(g, cg, config, used_modules) {
            Option::Some(_) => true,
            Option::None => false,
        }
    }
}

} // verus!
