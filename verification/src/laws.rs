//! Laws of the pass, stated and proved over the contracts of the search and
//! integration phases.

use vstd::prelude::*;

use crate::builder::{linked_to_earlier, members_linked, members_valid, modules_linked};
use crate::chunks::ChunkGraph;
use crate::config::ConcatConfiguration;
use crate::graph::ModuleGraph;
use crate::pass::config_accepted;

verus! {

/// The member at index `i` is reachable from the root (index 0) through a
/// chain of dependency edges between members, in at most `n` steps.
pub open spec fn reachable_within(g: &ModuleGraph, s: Seq<usize>, i: int, n: nat) -> bool
    decreases n,
{
    if i == 0 {
        true
    } else {
        n > 0 && exists|p: int|
            0 <= p < s.len() && modules_linked(g, s[p], #[trigger] s[i]) && reachable_within(
                g,
                s,
                p,
                (n - 1) as nat,
            )
    }
}

/// Reachability within a step bound holds for any larger bound.
proof fn lemma_reachable_mono(g: &ModuleGraph, s: Seq<usize>, i: int, n1: nat, n2: nat)
    requires
        reachable_within(g, s, i, n1),
        n1 <= n2,
    ensures
        reachable_within(g, s, i, n2),
    decreases n1,
{
    if i != 0 {
        let p = choose|p: int|
            0 <= p < s.len() && modules_linked(g, s[p], s[i]) && reachable_within(
                g,
                s,
                p,
                (n1 - 1) as nat,
            );
        lemma_reachable_mono(g, s, p, (n1 - 1) as nat, (n2 - 1) as nat);
        assert(0 <= p < s.len() && modules_linked(g, s[p], s[i]) && reachable_within(
            g,
            s,
            p,
            (n2 - 1) as nat,
        ));
    }
}

proof fn lemma_linked_reachable_one(g: &ModuleGraph, s: Seq<usize>, i: int)
    requires
        members_linked(g, s),
        0 <= i < s.len(),
    ensures
        reachable_within(g, s, i, i as nat),
    decreases i,
{
    if i > 0 {
        assert(linked_to_earlier(g, s, i));
        let p = choose|p: int| 0 <= p < i && modules_linked(g, s[p], s[i]);
        lemma_linked_reachable_one(g, s, p);
        lemma_reachable_mono(g, s, p, p as nat, (i - 1) as nat);
        assert(0 <= p < s.len() && modules_linked(g, s[p], s[i]) && reachable_within(
            g,
            s,
            p,
            (i - 1) as nat,
        ));
    }
}

/// Every member of an accepted configuration other than the root is
/// reachable from the root through a chain of dependency edges between
/// members — the chain of successful admissions that pulled it in — so no
/// member stands apart from the group.
pub proof fn lemma_accepted_members_reachable(
    g: &ModuleGraph,
    cg: &ChunkGraph,
    inners: Seq<bool>,
    c: ConcatConfiguration,
)
    requires
        config_accepted(g, cg, inners, c),
    ensures
        forall|i: int|
            0 <= i < c.members().len() ==> #[trigger] reachable_within(
                g,
                c.members(),
                i,
                i as nat,
            ),
{
    assert forall|i: int|
        0 <= i < c.members().len() implies #[trigger] reachable_within(
        g,
        c.members(),
        i,
        i as nat,
    ) by {
        lemma_linked_reachable_one(g, c.members(), i);
    }
}

/// Two applied configurations claim disjoint member sets: what the first
/// claimed stays claimed, and the second only claims what is still free.
pub proof fn lemma_applied_claims_disjoint(
    claimed1: Seq<usize>,
    used1: Seq<bool>,
    used_later: Seq<bool>,
    claimed2: Seq<usize>,
)
    requires
        // the first application left its claims marked
        forall|m: usize| #[trigger]
            claimed1.contains(m) ==> ((m as int) < used1.len() && used1[m as int]),
        // claims only ever accumulate between applications
        forall|m: int| 0 <= m < used1.len() ==> (used1[m] ==> m < used_later.len() && used_later[m]),
        // the second application claimed only modules that were still free
        forall|m: usize| #[trigger]
            claimed2.contains(m) ==> ((m as int) < used_later.len() && !used_later[m as int]),
    ensures
        forall|m: usize| !(claimed1.contains(m) && claimed2.contains(m)),
{
    assert forall|m: usize| !(claimed1.contains(m) && claimed2.contains(m)) by {
        if claimed1.contains(m) && claimed2.contains(m) {
            assert(used1[m as int]);
            assert(used_later[m as int]);
            assert(!used_later[m as int]);
        }
    }
}

/// A pass over a graph in which no module may be absorbed as an inner member
/// accepts no configuration at all: running the pass again over an already
/// fully concatenated graph yields zero new configurations.
pub proof fn lemma_no_eligible_inners_no_configs(
    g: &ModuleGraph,
    cg: &ChunkGraph,
    inners: Seq<bool>,
    configs: Seq<ConcatConfiguration>,
)
    requires
        inners.len() == g.num_modules(),
        forall|k: int| 0 <= k < configs.len() ==> config_accepted(g, cg, inners, #[trigger] configs[k]),
        forall|m: int| 0 <= m < inners.len() ==> !inners[m],
    ensures
        configs.len() == 0,
{
    if configs.len() > 0 {
        let c = configs[0];
        assert(config_accepted(g, cg, inners, c));
        assert(c.members().len() >= 2);
        assert(members_valid(g, c.members()));
        assert(c.members()[1] < g.num_modules()) by {
            assert(c.members()[1] == c.members()[1]);
        }
        assert(inners[c.members()[1] as int]);
        assert(false);
    }
}

} // verus!
