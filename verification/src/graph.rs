//! The module graph model: modules, dependency edges, and the facts about
//! them that the concatenation pass reads.
//!
//! Modules are identified by their index in the graph's module table, which
//! makes identifiers stable, ordered and cheap to compare.  A dependency edge
//! carries a closed dependency kind (the classification that decides whether
//! static import semantics are preserved), the set of runtimes for which the
//! edge is live, and whether the edge references named exports.

use vstd::prelude::*;

use crate::runtime::{RuntimeSpec, runtimes_meet};

verus! {

/// The output types a module can contribute to a chunk.
#[derive(Clone, Copy, Debug, PartialEq, Eq, Structural)]
pub enum SourceType {
    JavaScript,
    Css,
    Asset,
    WebAssembly,
}

/// The closed set of dependency kinds, replacing run-time type inspection of
/// dependency objects with an explicit tag.
#[derive(Clone, Copy, Debug, PartialEq, Eq, Structural)]
pub enum DependencyKind {
    EsmImport,
    EsmExportImported,
    CommonJsRequire,
    DynamicImport,
    ModuleDecorator,
    EsmAccept,
}

/// Does this dependency kind preserve static import semantics?
pub open spec fn spec_is_esm_dep_like(kind: DependencyKind) -> bool {
    kind == DependencyKind::EsmImport || kind == DependencyKind::EsmExportImported
}

pub fn is_esm_dep_like(kind: DependencyKind) -> (r: bool)
    ensures
        r == spec_is_esm_dep_like(kind),
{
    match kind {
        DependencyKind::EsmImport => true,
        DependencyKind::EsmExportImported => true,
        _ => false,
    }
}

/// The diagnostic label of a dependency kind.
pub open spec fn spec_kind_label(kind: DependencyKind) -> Seq<char> {
    match kind {
        DependencyKind::EsmImport => "esm import"@,
        DependencyKind::EsmExportImported => "esm export imported specifier"@,
        DependencyKind::CommonJsRequire => "cjs require"@,
        DependencyKind::DynamicImport => "import()"@,
        DependencyKind::ModuleDecorator => "module decorator"@,
        DependencyKind::EsmAccept => "accepted esm"@,
    }
}

impl DependencyKind {
    /// A stable label for diagnostics.
    pub fn label(&self) -> (r: &'static str)
        ensures
            r@ == spec_kind_label(*self),
    {
        match self {
            DependencyKind::EsmImport => "esm import",
            DependencyKind::EsmExportImported => "esm export imported specifier",
            DependencyKind::CommonJsRequire => "cjs require",
            DependencyKind::DynamicImport => "import()",
            DependencyKind::ModuleDecorator => "module decorator",
            DependencyKind::EsmAccept => "accepted esm",
        }
    }
}

/// A directed edge origin -> target.  `origin == None` stands for a reference
/// that does not come from another module (an entry reference).
///
/// Whether the edge is live is a derived predicate over the working runtime:
/// the edge is live for a runtime set iff the set meets `active_in`, and live
/// with no runtime given iff it is live anywhere.
pub struct Connection {
    pub origin: Option<usize>,
    pub target: usize,
    pub kind: DependencyKind,
    pub active_in: RuntimeSpec,
    pub has_named_imports: bool,
}

/// The runtimes named by an optional runtime spec, at the spec level.
pub open spec fn runtime_opt_view(rt: Option<&RuntimeSpec>) -> Option<Seq<u64>> {
    match rt {
        Option::Some(r) => Option::Some(r@),
        Option::None => Option::None,
    }
}

/// Is the connection live for the given working runtime?
pub open spec fn spec_connection_active(c: Connection, rt: Option<Seq<u64>>) -> bool {
    match rt {
        Option::Some(s) => runtimes_meet(s, c.active_in@),
        Option::None => c.active_in@.len() > 0,
    }
}

impl Connection {
    pub open spec fn wf(&self, num_modules: nat) -> bool {
        &&& self.target < num_modules
        &&& match self.origin {
            Option::Some(o) => o < num_modules,
            Option::None => true,
        }
        &&& self.active_in.wf()
    }

    pub fn is_active(&self, rt: Option<&RuntimeSpec>) -> (r: bool)
        ensures
            r == spec_connection_active(*self, runtime_opt_view(rt)),
    {
        match rt {
            Option::Some(s) => s.intersects(&self.active_in),
            Option::None => self.active_in.len() > 0,
        }
    }
}

/// An entry of a module's export list, as far as this pass reads it.
pub struct ExportFact {
    pub name: String,
    /// Is this export a re-export from another module?
    pub is_reexport: bool,
    /// Could the concrete target of the re-export be statically resolved?
    pub target_known: bool,
    /// Is the export definitely provided (as opposed to a dynamic export)?
    pub provided: bool,
}

/// Everything the pass reads about one module.
pub struct ModuleInfo {
    /// Human-readable identifier, used in diagnostics.
    pub readable_identifier: String,
    /// A module-kind-specific reason why concatenation is impossible.
    pub intrinsic_bailout: Option<String>,
    /// Has a top-level await or an async dependency chain.
    pub is_async: bool,
    /// Was built in strict mode.
    pub strict: bool,
    /// The module's export list.
    pub exports: Vec<ExportFact>,
    /// The runtimes for which the module's exports are used at all.
    pub used_runtimes: RuntimeSpec,
    /// Size of the JavaScript contribution.
    pub size_js: u64,
    /// Original source bytes, if the module still carries them.
    pub source: Option<Vec<u8>>,
    /// The output types the module contributes by itself.
    pub source_types: Vec<SourceType>,
    /// Optional layer name, part of the module's identity metadata.
    pub layer: Option<String>,
    /// Distance from the nearest entry in the graph.
    pub depth: u64,
}

impl ModuleInfo {
    pub open spec fn wf(&self) -> bool {
        self.used_runtimes.wf()
    }
}

/// The module graph: a module table, an edge table, and the per-module
/// optimization-bailout diagnostic log.
pub struct ModuleGraph {
    pub modules: Vec<ModuleInfo>,
    pub connections: Vec<Connection>,
    pub bailouts: Vec<Vec<String>>,
}

impl ModuleGraph {
    pub open spec fn num_modules(&self) -> nat {
        self.modules@.len()
    }

    pub open spec fn wf(&self) -> bool {
        &&& self.bailouts@.len() == self.modules@.len()
        &&& forall|i: int|
            0 <= i < self.connections@.len() ==> (#[trigger] self.connections@[i]).wf(
                self.num_modules(),
            )
        &&& forall|i: int|
            0 <= i < self.modules@.len() ==> (#[trigger] self.modules@[i]).wf()
    }

    pub fn new() -> (g: ModuleGraph)
        ensures
            g.wf(),
            g.num_modules() == 0,
            g.connections@.len() == 0,
    {
        ModuleGraph { modules: Vec::new(), connections: Vec::new(), bailouts: Vec::new() }
    }

    pub fn len(&self) -> (n: usize)
        ensures
            n == self.num_modules(),
    {
        self.modules.len()
    }

    /// Append a module; its identifier is the previous module count.
    pub fn add_module(&mut self, m: ModuleInfo) -> (id: usize)
        requires
            old(self).wf(),
            m.wf(),
        ensures
            final(self).wf(),
            id == old(self).num_modules(),
            final(self).modules@ == old(self).modules@.push(m),
            final(self).connections@ == old(self).connections@,
            final(self).bailouts@.len() == old(self).bailouts@.len() + 1,
            forall|i: int|
                0 <= i < old(self).bailouts@.len() ==> final(self).bailouts@[i] == old(
                    self,
                ).bailouts@[i],
            final(self).bailouts@[old(self).bailouts@.len() as int]@ == Seq::<String>::empty(),
    {
        let id = self.modules.len();
        self.modules.push(m);
        self.bailouts.push(Vec::new());
        proof {
            assert forall|i: int|
                0 <= i < self.connections@.len() implies (#[trigger] self.connections@[i]).wf(
                self.num_modules(),
            ) by {
                assert(self.connections@[i].wf(old(self).num_modules()));
            }
        }
        id
    }

    /// Append an edge.
    pub fn add_connection(&mut self, c: Connection)
        requires
            old(self).wf(),
            c.wf(old(self).num_modules()),
        ensures
            final(self).wf(),
            final(self).connections@ == old(self).connections@.push(c),
            final(self).modules@ == old(self).modules@,
            final(self).bailouts@ == old(self).bailouts@,
    {
        self.connections.push(c);
    }

    /// Record a bailout diagnostic against a module.
    pub fn add_bailout(&mut self, module: usize, reason: String)
        requires
            old(self).wf(),
            module < old(self).num_modules(),
        ensures
            final(self).wf(),
            final(self).modules@ == old(self).modules@,
            final(self).connections@ == old(self).connections@,
            final(self).bailouts@.len() == old(self).bailouts@.len(),
            forall|i: int|
                0 <= i < old(self).bailouts@.len() && i != module ==> final(self).bailouts@[i]
                    == old(self).bailouts@[i],
            final(self).bailouts@[module as int]@ == old(self).bailouts@[module as int]@.push(
                reason,
            ),
    {
        let slot = &mut self.bailouts[module];
        slot.push(reason);
    }
}

} // verus!

verus! {

/// Should this edge be copied onto the merged module when member `m` is
/// absorbed?  Outgoing edges of `m` are copied unless they are intra-group
/// ESM edges, which become internal to the merged module.
pub open spec fn spec_should_copy(c: Connection, m: usize, members: Seq<usize>) -> bool {
    c.origin == Option::Some(m) && !(spec_is_esm_dep_like(c.kind) && members.contains(c.target))
}

/// The copies appended when member `m`'s outgoing edges move to `new_id`.
pub open spec fn spec_copied_conns(
    conns: Seq<Connection>,
    m: usize,
    new_id: usize,
    members: Seq<usize>,
    upto: int,
) -> Seq<Connection>
    decreases upto,
{
    if upto <= 0 {
        Seq::<Connection>::empty()
    } else {
        let prev = spec_copied_conns(conns, m, new_id, members, upto - 1);
        let c = conns[upto - 1];
        if spec_should_copy(c, m, members) {
            prev.push(
                Connection {
                    origin: Option::Some(new_id),
                    target: c.target,
                    kind: c.kind,
                    active_in: c.active_in,
                    has_named_imports: c.has_named_imports,
                },
            )
        } else {
            prev
        }
    }
}

/// The copy of one outgoing edge as it lands on the merged module.
pub open spec fn spec_member_copy(c: Connection, new_id: usize) -> Connection {
    Connection {
        origin: Option::Some(new_id),
        target: c.target,
        kind: c.kind,
        active_in: c.active_in,
        has_named_imports: c.has_named_imports,
    }
}

/// Every copied edge is the merged-module copy of some edge of the source
/// table that qualified for copying.
pub proof fn lemma_copied_entry_source(
    conns: Seq<Connection>,
    m: usize,
    new_id: usize,
    members: Seq<usize>,
    upto: int,
    k: int,
)
    requires
        0 <= k < spec_copied_conns(conns, m, new_id, members, upto).len(),
    ensures
        exists|i: int|
            0 <= i < upto && spec_should_copy(#[trigger] conns[i], m, members)
                && spec_copied_conns(conns, m, new_id, members, upto)[k] == spec_member_copy(
                conns[i],
                new_id,
            ),
    decreases upto,
{
    let cur = spec_copied_conns(conns, m, new_id, members, upto);
    let prev = spec_copied_conns(conns, m, new_id, members, upto - 1);
    if spec_should_copy(conns[upto - 1], m, members) && k == prev.len() {
        assert(cur[k] == spec_member_copy(conns[upto - 1], new_id));
        assert(0 <= upto - 1 < upto && spec_should_copy(conns[upto - 1], m, members) && cur[k]
            == spec_member_copy(conns[upto - 1], new_id));
    } else {
        lemma_copied_entry_source(conns, m, new_id, members, upto - 1, k);
        let i = choose|i: int|
            0 <= i < upto - 1 && spec_should_copy(#[trigger] conns[i], m, members) && prev[k]
                == spec_member_copy(conns[i], new_id);
        assert(cur[k] == prev[k]);
        assert(0 <= i < upto && spec_should_copy(conns[i], m, members) && cur[k]
            == spec_member_copy(conns[i], new_id));
    }
}

/// Rewiring respects edge equivalence.
pub proof fn lemma_moved_conn_equiv(
    a: Connection,
    b: Connection,
    root: usize,
    new_id: usize,
    members: Seq<usize>,
)
    requires
        conn_equiv(a, b),
    ensures
        conn_equiv(
            spec_moved_conn(a, root, new_id, members),
            spec_moved_conn(b, root, new_id, members),
        ),
{
}

/// How one edge is rewired when the root's connections move to the merged
/// module: an edge between the root and another member through ESM syntax is
/// internal and stays put; any other edge touching the root is re-pointed.
pub open spec fn spec_moved_conn(
    c: Connection,
    root: usize,
    new_id: usize,
    members: Seq<usize>,
) -> Connection {
    if c.origin == Option::Some(root) || c.target == root {
        let other = if c.target == root {
            c.origin
        } else {
            Option::Some(c.target)
        };
        let inner = spec_is_esm_dep_like(c.kind) && (match other {
            Option::Some(o) => members.contains(o),
            Option::None => false,
        });
        if inner {
            c
        } else {
            Connection {
                origin: if c.origin == Option::Some(root) {
                    Option::Some(new_id)
                } else {
                    c.origin
                },
                target: if c.target == root {
                    new_id
                } else {
                    c.target
                },
                kind: c.kind,
                active_in: c.active_in,
                has_named_imports: c.has_named_imports,
            }
        }
    } else {
        c
    }
}

/// The same edge up to the representation of its runtime set.
pub open spec fn conn_equiv(a: Connection, b: Connection) -> bool {
    &&& a.origin == b.origin
    &&& a.target == b.target
    &&& a.kind == b.kind
    &&& a.active_in@ == b.active_in@
    &&& a.has_named_imports == b.has_named_imports
}

impl Connection {
    /// An exact copy.
    pub fn duplicate(&self) -> (r: Connection)
        ensures
            conn_equiv(r, *self),
    {
        Connection {
            origin: self.origin,
            target: self.target,
            kind: self.kind,
            active_in: self.active_in.clone_spec(),
            has_named_imports: self.has_named_imports,
        }
    }
}

impl ModuleGraph {
    /// Copy member `m`'s outgoing edges onto the merged module, leaving out
    /// the intra-group ESM edges.
    pub fn copy_outgoing_module_connections(&mut self, m: usize, new_id: usize, members: &Vec<usize>)
        requires
            old(self).wf(),
            new_id < old(self).num_modules(),
        ensures
            final(self).wf(),
            final(self).modules@ == old(self).modules@,
            final(self).bailouts@ == old(self).bailouts@,
            final(self).connections@.len() >= old(self).connections@.len(),
            final(self).connections@.take(old(self).connections@.len() as int) == old(
                self,
            ).connections@,
            final(self).connections@.skip(old(self).connections@.len() as int).len()
                == spec_copied_conns(
                old(self).connections@,
                m,
                new_id,
                members@,
                old(self).connections@.len() as int,
            ).len(),
            forall|k: int|
                0 <= k < final(self).connections@.skip(old(self).connections@.len() as int).len()
                    ==> conn_equiv(
                    #[trigger] final(self).connections@.skip(
                        old(self).connections@.len() as int,
                    )[k],
                    spec_copied_conns(
                        old(self).connections@,
                        m,
                        new_id,
                        members@,
                        old(self).connections@.len() as int,
                    )[k],
                ),
    {
        let n = self.connections.len();
        let ghost orig = self.connections@;
        let mut j: usize = 0;
        while j < n
            invariant
                self.wf(),
                new_id < self.num_modules(),
                n == orig.len(),
                self.modules@ == old(self).modules@,
                self.bailouts@ == old(self).bailouts@,
                self.connections@.len() >= n,
                self.connections@.take(n as int) == orig,
                orig == old(self).connections@,
                0 <= j <= n,
                self.connections@.skip(n as int).len() == spec_copied_conns(
                    orig,
                    m,
                    new_id,
                    members@,
                    j as int,
                ).len(),
                forall|k: int|
                    0 <= k < self.connections@.skip(n as int).len() ==> conn_equiv(
                        #[trigger] self.connections@.skip(n as int)[k],
                        spec_copied_conns(orig, m, new_id, members@, j as int)[k],
                    ),
            decreases n - j,
        {
            let c = &self.connections[j];
            proof {
                assert(self.connections@[j as int] == orig[j as int]) by {
                    assert(self.connections@.take(n as int)[j as int] == self.connections@[j as int]);
                }
            }
            let is_from_m = match c.origin {
                Option::Some(o) => o == m,
                Option::None => false,
            };
            let should = is_from_m && !(is_esm_dep_like(c.kind) && crate::chunks::contains_usize(
                members,
                c.target,
            ));
            if should {
                let copy = Connection {
                    origin: Option::Some(new_id),
                    target: c.target,
                    kind: c.kind,
                    active_in: c.active_in.clone_spec(),
                    has_named_imports: c.has_named_imports,
                };
                let ghost before = self.connections@;
                self.connections.push(copy);
                proof {
                    assert(self.connections@.take(n as int) =~= before.take(n as int));
                    assert(self.connections@.skip(n as int) =~= before.skip(n as int).push(copy));
                    assert(copy.active_in@ == orig[j as int].active_in@);
                    assert(copy.wf(self.num_modules())) by {
                        assert(orig[j as int].wf(self.num_modules()));
                    }
                    let prev = spec_copied_conns(orig, m, new_id, members@, j as int);
                    let specc = spec_copied_conns(orig, m, new_id, members@, j + 1);
                    assert(spec_should_copy(orig[j as int], m, members@));
                    assert(specc == prev.push(
                        Connection {
                            origin: Option::Some(new_id),
                            target: orig[j as int].target,
                            kind: orig[j as int].kind,
                            active_in: orig[j as int].active_in,
                            has_named_imports: orig[j as int].has_named_imports,
                        },
                    ));
                    assert forall|k: int|
                        0 <= k < self.connections@.skip(n as int).len() implies conn_equiv(
                        #[trigger] self.connections@.skip(n as int)[k],
                        specc[k],
                    ) by {
                        if k < prev.len() {
                            assert(self.connections@.skip(n as int)[k] == before.skip(n as int)[k]);
                            assert(specc[k] == prev[k]);
                        } else {
                            assert(self.connections@.skip(n as int)[k] == copy);
                        }
                    }
                }
            } else {
                proof {
                    assert(!spec_should_copy(orig[j as int], m, members@));
                    assert(spec_copied_conns(orig, m, new_id, members@, j + 1) == spec_copied_conns(
                        orig,
                        m,
                        new_id,
                        members@,
                        j as int,
                    ));
                }
            }
            j = j + 1;
        }
    }

    /// Re-point the root's external edges at the merged module; intra-group
    /// ESM edges stay internal.
    pub fn move_module_connections(&mut self, root: usize, new_id: usize, members: &Vec<usize>)
        requires
            old(self).wf(),
            new_id < old(self).num_modules(),
        ensures
            final(self).wf(),
            final(self).modules@ == old(self).modules@,
            final(self).bailouts@ == old(self).bailouts@,
            final(self).connections@.len() == old(self).connections@.len(),
            forall|j: int|
                0 <= j < old(self).connections@.len() ==> conn_equiv(
                    #[trigger] final(self).connections@[j],
                    spec_moved_conn(old(self).connections@[j], root, new_id, members@),
                ),
    {
        let n = self.connections.len();
        let ghost orig = self.connections@;
        let mut j: usize = 0;
        while j < n
            invariant
                self.wf(),
                new_id < self.num_modules(),
                n == orig.len(),
                self.modules@ == old(self).modules@,
                self.bailouts@ == old(self).bailouts@,
                orig == old(self).connections@,
                self.connections@.len() == n,
                0 <= j <= n,
                forall|p: int|
                    0 <= p < j ==> conn_equiv(
                        #[trigger] self.connections@[p],
                        spec_moved_conn(orig[p], root, new_id, members@),
                    ),
                forall|p: int| j <= p < n ==> self.connections@[p] == orig[p],
            decreases n - j,
        {
            let c = &self.connections[j];
            let touches_root = match c.origin {
                Option::Some(o) => o == root || c.target == root,
                Option::None => c.target == root,
            };
            if touches_root {
                let other: Option<usize> = if c.target == root {
                    c.origin
                } else {
                    Option::Some(c.target)
                };
                let inner = is_esm_dep_like(c.kind) && (match other {
                    Option::Some(o) => crate::chunks::contains_usize(members, o),
                    Option::None => false,
                });
                if !inner {
                    let new_origin = match c.origin {
                        Option::Some(o) => if o == root {
                            Option::Some(new_id)
                        } else {
                            Option::Some(o)
                        },
                        Option::None => Option::None,
                    };
                    let new_target = if c.target == root {
                        new_id
                    } else {
                        c.target
                    };
                    let moved = Connection {
                        origin: new_origin,
                        target: new_target,
                        kind: c.kind,
                        active_in: c.active_in.clone_spec(),
                        has_named_imports: c.has_named_imports,
                    };
                    proof {
                        assert(orig[j as int].wf(old(self).num_modules()));
                        assert(conn_equiv(
                            moved,
                            spec_moved_conn(orig[j as int], root, new_id, members@),
                        ));
                    }
                    self.connections[j] = moved;
                }
            }
            j = j + 1;
        }
    }
}

} // verus!

verus! {

impl ModuleGraph {
    /// Check the graph's structural invariants, surfacing upstream bugs
    /// before the pass reads anything.
    pub fn check_wf(&self) -> (b: bool)
        ensures
            b == self.wf(),
    {
        if self.bailouts.len() != self.modules.len() {
            return false;
        }
        let nm = self.modules.len();
        let mut j: usize = 0;
        while j < self.connections.len()
            invariant
                nm == self.modules@.len(),
                0 <= j <= self.connections@.len(),
                forall|k: int|
                    0 <= k < j ==> (#[trigger] self.connections@[k]).wf(self.num_modules()),
            decreases self.connections@.len() - j,
        {
            let c = &self.connections[j];
            if c.target >= nm {
                return false;
            }
            let origin_ok = match c.origin {
                Option::Some(o) => o < nm,
                Option::None => true,
            };
            if !origin_ok {
                return false;
            }
            if !c.active_in.check_wf() {
                return false;
            }
            j = j + 1;
        }
        let mut m: usize = 0;
        while m < nm
            invariant
                nm == self.modules@.len(),
                0 <= m <= nm,
                forall|k: int| 0 <= k < m ==> (#[trigger] self.modules@[k]).wf(),
            decreases nm - m,
        {
            if !self.modules[m].used_runtimes.check_wf() {
                return false;
            }
            m = m + 1;
        }
        true
    }
}

} // verus!
