//! Concatenation configurations: the insertion-ordered member set grown
//! around one root, with snapshot/rollback for the backtracking search, and
//! the warnings recorded against candidates that could not be absorbed.

use vstd::prelude::*;

use crate::runtime::RuntimeSpec;
use crate::seq_util::lemma_push_contains;

verus! {

/// No element occurs twice.
pub open spec fn distinct_ids(s: Seq<usize>) -> bool {
    forall|i: int, j: int| 0 <= i < j < s.len() ==> s[i] != s[j]
}

/// Why a candidate module could not be absorbed.
pub enum Problem {
    /// The candidate is missing from some chunks of the root.
    NotInSameChunks { module: String, missing_chunks: Vec<String>, module_chunks: Vec<String> },
    /// The candidate is referenced from outside the module graph.
    ReferencedExternally { module: String },
    /// Some referrer of the candidate does not sit in every chunk of the root.
    ReferencedFromDifferentChunks { module: String, importers: Vec<String> },
    /// Some referrer reaches the candidate through a non-ESM dependency.
    UnsupportedSyntax { module: String, importers: Vec<String> },
    /// Some referrer reaches the candidate only for part of the runtimes.
    RuntimeCondition { module: String, importers: Vec<String> },
}

/// A recorded bailout: either a problem in its own right, or a reference to
/// the module whose own bailout blocks this one transitively.
pub enum Warning {
    Id(usize),
    Problem(Problem),
}

/// The mathematical value of a `Problem`: its tag and the text it carries.
pub enum ProblemView {
    NotInSameChunks { module: Seq<char>, missing_chunks: Seq<Seq<char>>, module_chunks: Seq<Seq<char>> },
    ReferencedExternally { module: Seq<char> },
    ReferencedFromDifferentChunks { module: Seq<char>, importers: Seq<Seq<char>> },
    UnsupportedSyntax { module: Seq<char>, importers: Seq<Seq<char>> },
    RuntimeCondition { module: Seq<char>, importers: Seq<Seq<char>> },
}

/// The mathematical value of a `Warning`.
pub enum WarningView {
    Id(usize),
    Problem(ProblemView),
}

impl Problem {
    pub open spec fn dview(&self) -> ProblemView {
        match self {
            Problem::NotInSameChunks { module, missing_chunks, module_chunks } => {
                ProblemView::NotInSameChunks {
                    module: module@,
                    missing_chunks: missing_chunks.deep_view(),
                    module_chunks: module_chunks.deep_view(),
                }
            },
            Problem::ReferencedExternally { module } => {
                ProblemView::ReferencedExternally { module: module@ }
            },
            Problem::ReferencedFromDifferentChunks { module, importers } => {
                ProblemView::ReferencedFromDifferentChunks {
                    module: module@,
                    importers: importers.deep_view(),
                }
            },
            Problem::UnsupportedSyntax { module, importers } => {
                ProblemView::UnsupportedSyntax { module: module@, importers: importers.deep_view() }
            },
            Problem::RuntimeCondition { module, importers } => {
                ProblemView::RuntimeCondition { module: module@, importers: importers.deep_view() }
            },
        }
    }

    /// An exact copy.
    pub fn duplicate(&self) -> (r: Problem)
        ensures
            r.dview() == self.dview(),
    {
        match self {
            Problem::NotInSameChunks { module, missing_chunks, module_chunks } => {
                Problem::NotInSameChunks {
                    module: clone_string(module),
                    missing_chunks: clone_strings(missing_chunks),
                    module_chunks: clone_strings(module_chunks),
                }
            },
            Problem::ReferencedExternally { module } => {
                Problem::ReferencedExternally { module: clone_string(module) }
            },
            Problem::ReferencedFromDifferentChunks { module, importers } => {
                Problem::ReferencedFromDifferentChunks {
                    module: clone_string(module),
                    importers: clone_strings(importers),
                }
            },
            Problem::UnsupportedSyntax { module, importers } => {
                Problem::UnsupportedSyntax {
                    module: clone_string(module),
                    importers: clone_strings(importers),
                }
            },
            Problem::RuntimeCondition { module, importers } => {
                Problem::RuntimeCondition {
                    module: clone_string(module),
                    importers: clone_strings(importers),
                }
            },
        }
    }
}

impl Warning {
    pub open spec fn dview(&self) -> WarningView {
        match self {
            Warning::Id(id) => WarningView::Id(*id),
            Warning::Problem(p) => WarningView::Problem(p.dview()),
        }
    }

    /// An exact copy.
    pub fn duplicate(&self) -> (r: Warning)
        ensures
            r.dview() == self.dview(),
    {
        match self {
            Warning::Id(id) => Warning::Id(*id),
            Warning::Problem(p) => Warning::Problem(p.duplicate()),
        }
    }
}

/// The mathematical value of an optional warning.
pub open spec fn warning_opt_dview(o: Option<Warning>) -> Option<WarningView> {
    match o {
        Option::Some(w) => Option::Some(w.dview()),
        Option::None => Option::None,
    }
}

/// An exact copy of a string.
pub fn clone_string(s: &String) -> (r: String)
    ensures
        r == *s,
{
    let r = s.clone();
    proof {
        assert(r == *s);
    }
    r
}

/// An exact copy of a list of strings.
pub fn clone_strings(v: &Vec<String>) -> (r: Vec<String>)
    ensures
        r@ == v@,
{
    let mut r: Vec<String> = Vec::new();
    let mut i: usize = 0;
    while i < v.len()
        invariant
            0 <= i <= v@.len(),
            r@ == v@.take(i as int),
        decreases v@.len() - i,
    {
        r.push(clone_string(&v[i]));
        proof {
            assert(v@.take(i + 1) =~= v@.take(i as int) + seq![v@[i as int]]);
        }
        i = i + 1;
    }
    proof {
        crate::seq_util::lemma_take_all(v@);
    }
    r
}

/// The member set grown around one root.  Members are kept in insertion
/// order, the root always first; warnings are kept sorted by module id so
/// that reporting is deterministic.
pub struct ConcatConfiguration {
    pub root_module: usize,
    pub runtime: Option<RuntimeSpec>,
    pub modules: Vec<usize>,
    pub warnings: Vec<(usize, Warning)>,
}

impl ConcatConfiguration {
    pub open spec fn members(&self) -> Seq<usize> {
        self.modules@
    }

    pub open spec fn wf(&self) -> bool {
        &&& self.modules@.len() >= 1
        &&& self.modules@[0] == self.root_module
        &&& distinct_ids(self.modules@)
        &&& match self.runtime {
            Option::Some(r) => r.wf(),
            Option::None => true,
        }
        // warnings sorted strictly by module id, so each module has one entry
        &&& forall|i: int, j: int|
            0 <= i < j < self.warnings@.len() ==> (#[trigger] self.warnings@[i]).0 < (
            #[trigger] self.warnings@[j]).0
    }

    /// A fresh configuration holding only the root.
    pub fn new(root_module: usize, runtime: Option<RuntimeSpec>) -> (c: ConcatConfiguration)
        requires
            match runtime {
                Option::Some(r) => r.wf(),
                Option::None => true,
            },
        ensures
            c.wf(),
            c.root_module == root_module,
            c.runtime == runtime,
            c.members() =~= seq![root_module],
            c.warnings@.len() == 0,
    {
        let mut modules: Vec<usize> = Vec::new();
        modules.push(root_module);
        ConcatConfiguration { root_module, runtime, modules, warnings: Vec::new() }
    }

    /// Absorb a module (a no-op if it is already a member).
    pub fn add(&mut self, module: usize)
        requires
            old(self).wf(),
        ensures
            final(self).wf(),
            final(self).root_module == old(self).root_module,
            final(self).runtime == old(self).runtime,
            final(self).warnings@ == old(self).warnings@,
            old(self).members().contains(module) ==> final(self).members() == old(self).members(),
            !old(self).members().contains(module) ==> final(self).members() == old(
                self,
            ).members().push(module),
            final(self).members().contains(module),
    {
        let ghost orig = self.modules@;
        if !crate::chunks::contains_usize(&self.modules, module) {
            self.modules.push(module);
            proof {
                lemma_push_contains(orig, module);
                assert(distinct_ids(self.modules@)) by {
                    assert(forall|k: int|
                        0 <= k < orig.len() ==> self.modules@[k] == orig[k]);
                    assert(self.modules@[orig.len() as int] == module);
                }
            }
        }
    }

    /// Is the module already a member?
    pub fn has(&self, module: usize) -> (b: bool)
        ensures
            b == self.members().contains(module),
    {
        crate::chunks::contains_usize(&self.modules, module)
    }

    /// A configuration that never grew beyond its root is empty.
    pub fn is_empty(&self) -> (b: bool)
        ensures
            b == (self.members().len() == 1),
    {
        self.modules.len() == 1
    }

    pub fn len(&self) -> (n: usize)
        ensures
            n == self.members().len(),
    {
        self.modules.len()
    }

    /// The member list, root first, in insertion order.
    pub fn get_modules(&self) -> (r: &Vec<usize>)
        ensures
            r@ == self.members(),
    {
        &self.modules
    }

    /// The member count, to be handed back to `rollback`.
    pub fn snapshot(&self) -> (n: usize)
        ensures
            n == self.members().len(),
    {
        self.modules.len()
    }

    /// Truncate the member list back to a snapshot.
    pub fn rollback(&mut self, snapshot: usize)
        requires
            old(self).wf(),
            1 <= snapshot <= old(self).members().len(),
        ensures
            final(self).wf(),
            final(self).root_module == old(self).root_module,
            final(self).runtime == old(self).runtime,
            final(self).warnings@ == old(self).warnings@,
            final(self).members() == old(self).members().subrange(0, snapshot as int),
    {
        self.modules.truncate(snapshot);
    }

    /// Record the warning for a module, replacing an earlier one.
    pub fn add_warning(&mut self, module: usize, problem: Warning)
        requires
            old(self).wf(),
        ensures
            final(self).wf(),
            final(self).root_module == old(self).root_module,
            final(self).runtime == old(self).runtime,
            final(self).modules@ == old(self).modules@,
            spec_warning_lookup(final(self).warnings@, module) == Option::Some(problem),
            forall|m2: usize|
                m2 != module ==> spec_warning_lookup(final(self).warnings@, m2)
                    == spec_warning_lookup(old(self).warnings@, m2),
    {
        let ghost orig = self.warnings@;
        let mut i: usize = 0;
        while i < self.warnings.len() && self.warnings[i].0 < module
            invariant
                self.warnings@ == orig,
                0 <= i <= orig.len(),
                forall|k: int| 0 <= k < i ==> (#[trigger] orig[k]).0 < module,
            decreases orig.len() - i,
        {
            i = i + 1;
        }
        if i < self.warnings.len() && self.warnings[i].0 == module {
            self.warnings[i] = (module, problem);
            proof {
                lemma_warning_lookup_update(orig, i as int, module, problem);
            }
        } else {
            proof {
                assert forall|k: int| i <= k < orig.len() implies (#[trigger] orig[k]).0
                    > module by {
                    assert(orig[i as int].0 > module);
                    if k > i {
                        assert(orig[i as int].0 < orig[k].0);
                    }
                }
            }
            self.warnings.insert(i, (module, problem));
            proof {
                lemma_warning_lookup_insert(orig, i as int, module, problem);
            }
        }
    }

    /// The warnings, sorted by module id.
    pub fn get_warnings_sorted(&self) -> (r: Vec<(usize, Warning)>)
        requires
            self.wf(),
        ensures
            r@.len() == self.warnings@.len(),
            forall|k: int|
                0 <= k < r@.len() ==> (#[trigger] r@[k]).0 == self.warnings@[k].0 && r@[k].1.dview()
                    == self.warnings@[k].1.dview(),
    {
        let mut r: Vec<(usize, Warning)> = Vec::new();
        let mut i: usize = 0;
        while i < self.warnings.len()
            invariant
                0 <= i <= self.warnings@.len(),
                r@.len() == i,
                forall|k: int|
                    0 <= k < i ==> (#[trigger] r@[k]).0 == self.warnings@[k].0 && r@[k].1.dview()
                        == self.warnings@[k].1.dview(),
            decreases self.warnings@.len() - i,
        {
            let entry = &self.warnings[i];
            r.push((entry.0, entry.1.duplicate()));
            i = i + 1;
        }
        r
    }
}

/// What warning is recorded for a module in a sorted warning list?
pub open spec fn spec_warning_lookup(s: Seq<(usize, Warning)>, module: usize) -> Option<Warning>
    decreases s.len(),
{
    if s.len() == 0 {
        Option::None
    } else if s[0].0 == module {
        Option::Some(s[0].1)
    } else {
        spec_warning_lookup(s.skip(1), module)
    }
}

proof fn lemma_warning_lookup_indexed(s: Seq<(usize, Warning)>, module: usize)
    requires
        forall|i: int, j: int| 0 <= i < j < s.len() ==> (#[trigger] s[i]).0 < (#[trigger] s[j]).0,
    ensures
        forall|k: int|
            0 <= k < s.len() && (#[trigger] s[k]).0 == module ==> spec_warning_lookup(s, module)
                == Option::Some(s[k].1),
        (forall|k: int| 0 <= k < s.len() ==> (#[trigger] s[k]).0 != module) ==> spec_warning_lookup(
            s,
            module,
        ) == Option::<Warning>::None,
    decreases s.len(),
{
    if s.len() > 0 {
        if s[0].0 != module {
            lemma_warning_lookup_indexed(s.skip(1), module);
            assert forall|k: int|
                0 <= k < s.len() && (#[trigger] s[k]).0 == module implies spec_warning_lookup(
                s,
                module,
            ) == Option::Some(s[k].1) by {
                assert(s.skip(1)[k - 1] == s[k]);
            }
            if forall|k: int| 0 <= k < s.len() ==> (#[trigger] s[k]).0 != module {
                assert(forall|k: int|
                    0 <= k < s.skip(1).len() ==> (#[trigger] s.skip(1)[k]).0 != module);
            }
        }
    }
}

proof fn lemma_warning_lookup_update(
    orig: Seq<(usize, Warning)>,
    i: int,
    module: usize,
    problem: Warning,
)
    requires
        forall|p: int, q: int|
            0 <= p < q < orig.len() ==> (#[trigger] orig[p]).0 < (#[trigger] orig[q]).0,
        0 <= i < orig.len(),
        orig[i].0 == module,
    ensures
        spec_warning_lookup(orig.update(i, (module, problem)), module) == Option::Some(problem),
        forall|m2: usize|
            m2 != module ==> spec_warning_lookup(orig.update(i, (module, problem)), m2)
                == spec_warning_lookup(orig, m2),
        forall|p: int, q: int|
            0 <= p < q < orig.update(i, (module, problem)).len() ==> (#[trigger] orig.update(
                i,
                (module, problem),
            )[p]).0 < (#[trigger] orig.update(i, (module, problem))[q]).0,
{
    let s2 = orig.update(i, (module, problem));
    assert(forall|p: int| 0 <= p < orig.len() && p != i ==> s2[p] == orig[p]);
    assert(s2[i] == (module, problem));
    assert forall|p: int, q: int| 0 <= p < q < s2.len() implies (#[trigger] s2[p]).0 < (
    #[trigger] s2[q]).0 by {
        assert(orig[p].0 < orig[q].0);
        assert(s2[p].0 == orig[p].0);
        assert(s2[q].0 == orig[q].0);
    }
    lemma_warning_lookup_indexed(s2, module);
    assert(s2[i].0 == module);
    assert forall|m2: usize| m2 != module implies spec_warning_lookup(s2, m2)
        == spec_warning_lookup(orig, m2) by {
        lemma_warning_lookup_indexed(orig, m2);
        lemma_warning_lookup_indexed(s2, m2);
        if exists|k: int| 0 <= k < orig.len() && (#[trigger] orig[k]).0 == m2 {
            let k = choose|k: int| 0 <= k < orig.len() && (#[trigger] orig[k]).0 == m2;
            assert(k != i);
            assert(s2[k] == orig[k]);
        } else {
            assert(forall|k: int| 0 <= k < s2.len() ==> (#[trigger] s2[k]).0 != m2) by {
                assert(forall|k: int|
                    0 <= k < orig.len() && k != i ==> s2[k] == orig[k]);
            }
        }
    }
}

proof fn lemma_warning_lookup_insert(
    orig: Seq<(usize, Warning)>,
    i: int,
    module: usize,
    problem: Warning,
)
    requires
        forall|p: int, q: int|
            0 <= p < q < orig.len() ==> (#[trigger] orig[p]).0 < (#[trigger] orig[q]).0,
        0 <= i <= orig.len(),
        forall|k: int| 0 <= k < i ==> (#[trigger] orig[k]).0 < module,
        forall|k: int| i <= k < orig.len() ==> (#[trigger] orig[k]).0 > module,
    ensures
        spec_warning_lookup(orig.insert(i, (module, problem)), module) == Option::Some(problem),
        forall|m2: usize|
            m2 != module ==> spec_warning_lookup(orig.insert(i, (module, problem)), m2)
                == spec_warning_lookup(orig, m2),
        forall|p: int, q: int|
            0 <= p < q < orig.insert(i, (module, problem)).len() ==> (#[trigger] orig.insert(
                i,
                (module, problem),
            )[p]).0 < (#[trigger] orig.insert(i, (module, problem))[q]).0,
{
    let s2 = orig.insert(i, (module, problem));
    assert(forall|p: int| 0 <= p < i ==> s2[p] == orig[p]);
    assert(s2[i] == (module, problem));
    assert(forall|p: int| i < p < s2.len() ==> s2[p] == orig[p - 1]);
    assert forall|p: int, q: int| 0 <= p < q < s2.len() implies (#[trigger] s2[p]).0 < (
    #[trigger] s2[q]).0 by {
        if p < i && q > i {
            assert(s2[p] == orig[p]);
            assert(s2[q] == orig[q - 1]);
            assert(orig[p].0 < module);
            assert(orig[q - 1].0 > module);
        }
    }
    lemma_warning_lookup_indexed(s2, module);
    assert(s2[i].0 == module);
    assert forall|m2: usize| m2 != module implies spec_warning_lookup(s2, m2)
        == spec_warning_lookup(orig, m2) by {
        lemma_warning_lookup_indexed(orig, m2);
        lemma_warning_lookup_indexed(s2, m2);
        if exists|k: int| 0 <= k < orig.len() && (#[trigger] orig[k]).0 == m2 {
            let k = choose|k: int| 0 <= k < orig.len() && (#[trigger] orig[k]).0 == m2;
            if k < i {
                assert(s2[k] == orig[k]);
            } else {
                assert(s2[k + 1] == orig[k]);
            }
        } else {
            assert(forall|k: int| 0 <= k < s2.len() ==> (#[trigger] s2[k]).0 != m2) by {
                assert(forall|k: int| 0 <= k < i ==> s2[k] == orig[k]);
                assert(forall|k: int| i < k < s2.len() ==> s2[k] == orig[k - 1]);
            }
        }
    }
}

} // verus!
