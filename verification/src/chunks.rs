//! The chunk graph model: which chunks contain which modules, per-chunk
//! runtimes and entry modules, and the per-chunk output types a module still
//! contributes.
//!
//! The one mutation of output types this pass ever performs is dropping a
//! module's JavaScript contribution from one chunk while keeping its other
//! output types (an emitted asset, say) attached, so that contribution is
//! kept as an explicit "JavaScript stripped here" relation.

use vstd::prelude::*;

use crate::graph::{ModuleGraph, SourceType};
use crate::runtime::{members_union, RuntimeSpec};

verus! {

/// How a chunk is loaded at run time.
#[derive(Clone, Copy, Debug, PartialEq, Eq, Structural)]
pub enum ChunkLoading {
    Jsonp,
    ImportScripts,
    Require,
    AsyncNode,
    Import,
    Disabled,
}

/// The chunk graph.  Chunk membership is kept module-major: for each module,
/// the list of chunks that contain it, without duplicates.
pub struct ChunkGraph {
    pub module_chunks: Vec<Vec<usize>>,
    pub chunk_names: Vec<Option<String>>,
    pub chunk_runtimes: Vec<RuntimeSpec>,
    pub entry_modules: Vec<Vec<usize>>,
    pub chunk_entry_options: Vec<Option<ChunkLoading>>,
    pub default_chunk_loading: ChunkLoading,
    /// Chunks in which a module's JavaScript contribution was dropped.
    pub js_stripped: Vec<Vec<usize>>,
}

pub open spec fn distinct_seq(s: Seq<usize>) -> bool {
    forall|i: int, j: int| 0 <= i < j < s.len() ==> s[i] != s[j]
}

impl ChunkGraph {
    pub open spec fn num_chunks(&self) -> nat {
        self.chunk_names@.len()
    }

    pub open spec fn wf(&self, num_modules: nat) -> bool {
        &&& self.module_chunks@.len() == num_modules
        &&& self.js_stripped@.len() == num_modules
        &&& self.chunk_runtimes@.len() == self.num_chunks()
        &&& self.entry_modules@.len() == self.num_chunks()
        &&& self.chunk_entry_options@.len() == self.num_chunks()
        &&& forall|m: int|
            0 <= m < self.module_chunks@.len() ==> distinct_seq(
                (#[trigger] self.module_chunks@[m])@,
            )
        &&& forall|m: int, k: int|
            0 <= m < self.module_chunks@.len() && 0 <= k < self.module_chunks@[m]@.len()
                ==> (#[trigger] self.module_chunks@[m]@[k]) < self.num_chunks()
        &&& forall|c: int, k: int|
            0 <= c < self.entry_modules@.len() && 0 <= k < self.entry_modules@[c]@.len()
                ==> (#[trigger] self.entry_modules@[c]@[k]) < num_modules
        &&& forall|c: int|
            0 <= c < self.chunk_runtimes@.len() ==> (#[trigger] self.chunk_runtimes@[c]).wf()
    }

    /// Is module `m` in chunk `c`?
    pub open spec fn in_chunk(&self, m: int, c: usize) -> bool {
        self.module_chunks@[m]@.contains(c)
    }

    /// Was module `m`'s JavaScript contribution dropped from chunk `c`?
    pub open spec fn stripped(&self, m: int, c: usize) -> bool {
        self.js_stripped@[m]@.contains(c)
    }

    /// Is module `m` an entry module of some chunk?
    pub open spec fn spec_is_entry_module(&self, m: usize) -> bool {
        exists|c: int| 0 <= c < self.entry_modules@.len() && (#[trigger] self.entry_modules@[c])@.contains(m)
    }

    /// Runtime `x` belongs to the union of the runtimes of `m`'s chunks.
    pub open spec fn module_runtime_has(&self, m: int, x: u64) -> bool {
        exists|k: int|
            0 <= k < self.module_chunks@[m]@.len()
                && (#[trigger] self.chunk_runtimes@[self.module_chunks@[m]@[k] as int])@.contains(x)
    }

    /// The output types module `m` still contributes to chunk `c`.
    pub open spec fn spec_chunk_module_source_types(
        &self,
        g: &ModuleGraph,
        c: usize,
        m: int,
    ) -> Seq<SourceType> {
        if self.stripped(m, c) {
            g.modules@[m].source_types@.filter(|t: SourceType| t != SourceType::JavaScript)
        } else {
            g.modules@[m].source_types@
        }
    }

    pub fn new() -> (cg: ChunkGraph)
        ensures
            cg.wf(0),
            cg.num_chunks() == 0,
    {
        ChunkGraph {
            module_chunks: Vec::new(),
            chunk_names: Vec::new(),
            chunk_runtimes: Vec::new(),
            entry_modules: Vec::new(),
            chunk_entry_options: Vec::new(),
            default_chunk_loading: ChunkLoading::Jsonp,
            js_stripped: Vec::new(),
        }
    }

    pub fn num_chunks_exec(&self) -> (n: usize)
        ensures
            n == self.num_chunks(),
    {
        self.chunk_names.len()
    }

    pub fn is_module_in_chunk(&self, m: usize, c: usize) -> (b: bool)
        requires
            m < self.module_chunks@.len(),
        ensures
            b == self.in_chunk(m as int, c),
    {
        contains_usize(&self.module_chunks[m], c)
    }

    pub fn get_number_of_module_chunks(&self, m: usize) -> (n: usize)
        requires
            m < self.module_chunks@.len(),
        ensures
            n == self.module_chunks@[m as int]@.len(),
    {
        self.module_chunks[m].len()
    }

    pub fn module_chunks_list(&self, m: usize) -> (r: &Vec<usize>)
        requires
            m < self.module_chunks@.len(),
        ensures
            r@ == self.module_chunks@[m as int]@,
    {
        &self.module_chunks[m]
    }

    pub fn is_entry_module(&self, m: usize) -> (b: bool)
        ensures
            b == self.spec_is_entry_module(m),
    {
        let mut c: usize = 0;
        while c < self.entry_modules.len()
            invariant
                0 <= c <= self.entry_modules@.len(),
                forall|k: int| 0 <= k < c ==> !(#[trigger] self.entry_modules@[k])@.contains(m),
            decreases self.entry_modules@.len() - c,
        {
            if contains_usize(&self.entry_modules[c], m) {
                return true;
            }
            c = c + 1;
        }
        false
    }

    pub fn get_number_of_entry_modules(&self, c: usize) -> (n: usize)
        requires
            c < self.entry_modules@.len(),
        ensures
            n == self.entry_modules@[c as int]@.len(),
    {
        self.entry_modules[c].len()
    }

    /// The union of the runtimes of every chunk containing `m`.
    pub fn module_runtime(&self, m: usize) -> (r: RuntimeSpec)
        requires
            self.wf(self.module_chunks@.len() as nat),
            m < self.module_chunks@.len(),
        ensures
            r.wf(),
            forall|x: u64| r@.contains(x) <==> self.module_runtime_has(m as int, x),
    {
        let mut r = RuntimeSpec::new();
        let row = &self.module_chunks[m];
        let mut k: usize = 0;
        while k < row.len()
            invariant
                self.wf(self.module_chunks@.len() as nat),
                m < self.module_chunks@.len(),
                row@ == self.module_chunks@[m as int]@,
                0 <= k <= row@.len(),
                r.wf(),
                forall|x: u64| #![trigger r@.contains(x)]
                    r@.contains(x) <==> exists|j: int|
                        0 <= j < k && (#[trigger] self.chunk_runtimes@[row@[j] as int])@.contains(
                            x,
                        ),
            decreases row@.len() - k,
        {
            let c = row[k];
            let ghost before = r@;
            let rt = &self.chunk_runtimes[c];
            proof {
                assert(rt@ == self.chunk_runtimes@[c as int]@);
                assert(row@[k as int] == c);
            }
            r.extend(rt);
            proof {
                assert forall|x: u64| #![trigger r@.contains(x)]
                    r@.contains(x) <==> exists|j: int|
                        0 <= j < k + 1 && (#[trigger] self.chunk_runtimes@[row@[j] as int])@.contains(
                            x,
                        ) by {
                    assert(members_union(r@, before, rt@));
                    assert(r@.contains(x) <==> (before.contains(x) || rt@.contains(x)));
                    assert(r@.contains(x) <==> (before.contains(x)
                        || self.chunk_runtimes@[row@[k as int] as int]@.contains(x)));
                    if r@.contains(x) {
                        if before.contains(x) {
                            let j = choose|j: int|
                                0 <= j < k && (#[trigger] self.chunk_runtimes@[row@[j] as int])@.contains(x);
                            assert(0 <= j < k + 1);
                        } else {
                            assert(self.chunk_runtimes@[row@[k as int] as int]@.contains(x));
                        }
                    }
                }
            }
            k = k + 1;
        }
        r
    }
}

/// Linear membership scan.
pub fn contains_usize(v: &Vec<usize>, x: usize) -> (b: bool)
    ensures
        b == v@.contains(x),
{
    let mut i: usize = 0;
    while i < v.len()
        invariant
            0 <= i <= v@.len(),
            forall|k: int| 0 <= k < i ==> v@[k] != x,
        decreases v@.len() - i,
    {
        if v[i] == x {
            assert(v@.contains(x));
            return true;
        }
        i = i + 1;
    }
    assert(!v@.contains(x));
    false
}

} // verus!

verus! {

impl ChunkGraph {
    /// Append a chunk; its id is the previous chunk count.
    pub fn add_chunk(
        &mut self,
        name: Option<String>,
        rt: RuntimeSpec,
        entry_options: Option<ChunkLoading>,
    ) -> (id: usize)
        requires
            old(self).wf(old(self).module_chunks@.len() as nat),
            rt.wf(),
        ensures
            final(self).wf(final(self).module_chunks@.len() as nat),
            final(self).module_chunks@ == old(self).module_chunks@,
            final(self).js_stripped@ == old(self).js_stripped@,
            id == old(self).num_chunks(),
            final(self).num_chunks() == old(self).num_chunks() + 1,
            final(self).chunk_runtimes@ == old(self).chunk_runtimes@.push(rt),
            final(self).entry_modules@.len() == old(self).entry_modules@.len() + 1,
            forall|c: int|
                0 <= c < old(self).entry_modules@.len() ==> final(self).entry_modules@[c] == old(self).entry_modules@[c],
            final(self).entry_modules@[old(self).num_chunks() as int]@ == Seq::<usize>::empty(),
            final(self).default_chunk_loading == old(self).default_chunk_loading,
            final(self).chunk_entry_options@ == old(self).chunk_entry_options@.push(entry_options),
    {
        let id = self.chunk_names.len();
        self.chunk_names.push(name);
        self.chunk_runtimes.push(rt);
        self.entry_modules.push(Vec::new());
        self.chunk_entry_options.push(entry_options);
        id
    }

    /// Make room for one more module (no chunk holds it yet).
    pub fn add_module(&mut self)
        requires
            old(self).wf(old(self).module_chunks@.len() as nat),
        ensures
            final(self).wf(final(self).module_chunks@.len() as nat),
            final(self).module_chunks@.len() == old(self).module_chunks@.len() + 1,
            forall|m: int|
                0 <= m < old(self).module_chunks@.len() ==> final(self).module_chunks@[m] == old(self).module_chunks@[m],
            final(self).module_chunks@[old(self).module_chunks@.len() as int]@ == Seq::<
                usize,
            >::empty(),
            final(self).js_stripped@.len() == old(self).js_stripped@.len() + 1,
            forall|m: int|
                0 <= m < old(self).js_stripped@.len() ==> final(self).js_stripped@[m] == old(self).js_stripped@[m],
            final(self).js_stripped@[old(self).js_stripped@.len() as int]@ == Seq::<usize>::empty(),
            final(self).chunk_names@ == old(self).chunk_names@,
            final(self).chunk_runtimes@ == old(self).chunk_runtimes@,
            final(self).entry_modules@ == old(self).entry_modules@,
            final(self).chunk_entry_options@ == old(self).chunk_entry_options@,
            final(self).default_chunk_loading == old(self).default_chunk_loading,
    {
        self.module_chunks.push(Vec::new());
        self.js_stripped.push(Vec::new());
    }

    /// Put module `m` into chunk `c` (a no-op if it is already there).
    pub fn connect_chunk_and_module(&mut self, c: usize, m: usize)
        requires
            old(self).wf(old(self).module_chunks@.len() as nat),
            m < old(self).module_chunks@.len(),
            c < old(self).num_chunks(),
        ensures
            final(self).wf(final(self).module_chunks@.len() as nat),
            final(self).module_chunks@.len() == old(self).module_chunks@.len(),
            forall|m2: int|
                0 <= m2 < old(self).module_chunks@.len() && m2 != m ==> final(self).module_chunks@[m2] == old(self).module_chunks@[m2],
            forall|c2: usize|
                final(self).in_chunk(m as int, c2) <==> (old(self).in_chunk(m as int, c2) || c2
                    == c),
            final(self).js_stripped@ == old(self).js_stripped@,
            final(self).chunk_names@ == old(self).chunk_names@,
            final(self).chunk_runtimes@ == old(self).chunk_runtimes@,
            final(self).entry_modules@ == old(self).entry_modules@,
            final(self).chunk_entry_options@ == old(self).chunk_entry_options@,
            final(self).default_chunk_loading == old(self).default_chunk_loading,
    {
        let ghost orig = self.module_chunks@[m as int]@;
        if !contains_usize(&self.module_chunks[m], c) {
            let row = &mut self.module_chunks[m];
            row.push(c);
            proof {
                crate::seq_util::lemma_push_contains(orig, c);
                assert(distinct_seq(self.module_chunks@[m as int]@)) by {
                    assert(forall|k: int|
                        0 <= k < orig.len() ==> self.module_chunks@[m as int]@[k] == orig[k]);
                    assert(self.module_chunks@[m as int]@[orig.len() as int] == c);
                }
            }
        }
    }

    /// Record module `m` as an entry module of chunk `c`.
    pub fn add_entry_module(&mut self, c: usize, m: usize)
        requires
            old(self).wf(old(self).module_chunks@.len() as nat),
            m < old(self).module_chunks@.len(),
            c < old(self).num_chunks(),
        ensures
            final(self).wf(final(self).module_chunks@.len() as nat),
            final(self).module_chunks@ == old(self).module_chunks@,
            final(self).js_stripped@ == old(self).js_stripped@,
            final(self).chunk_names@ == old(self).chunk_names@,
            final(self).chunk_runtimes@ == old(self).chunk_runtimes@,
            final(self).chunk_entry_options@ == old(self).chunk_entry_options@,
            final(self).default_chunk_loading == old(self).default_chunk_loading,
            final(self).entry_modules@.len() == old(self).entry_modules@.len(),
            forall|c2: int|
                0 <= c2 < old(self).entry_modules@.len() && c2 != c ==> final(self).entry_modules@[c2] == old(self).entry_modules@[c2],
            final(self).entry_modules@[c as int]@ == old(self).entry_modules@[c as int]@.push(m),
            final(self).spec_is_entry_module(m),
    {
        let row = &mut self.entry_modules[c];
        row.push(m);
        proof {
            assert(self.entry_modules@[c as int]@.contains(m)) by {
                assert(self.entry_modules@[c as int]@[old(self).entry_modules@[c as int]@.len() as int]
                    == m);
            }
        }
    }

    /// Take module `m` out of chunk `c` (a no-op if it is not there).
    pub fn disconnect_chunk_and_module(&mut self, c: usize, m: usize)
        requires
            old(self).wf(old(self).module_chunks@.len() as nat),
            m < old(self).module_chunks@.len(),
        ensures
            final(self).wf(final(self).module_chunks@.len() as nat),
            final(self).module_chunks@.len() == old(self).module_chunks@.len(),
            forall|m2: int|
                0 <= m2 < old(self).module_chunks@.len() && m2 != m ==> final(self).module_chunks@[m2] == old(self).module_chunks@[m2],
            forall|c2: usize|
                final(self).in_chunk(m as int, c2) <==> (old(self).in_chunk(m as int, c2) && c2
                    != c),
            final(self).js_stripped@ == old(self).js_stripped@,
            final(self).chunk_names@ == old(self).chunk_names@,
            final(self).chunk_runtimes@ == old(self).chunk_runtimes@,
            final(self).entry_modules@ == old(self).entry_modules@,
            final(self).chunk_entry_options@ == old(self).chunk_entry_options@,
            final(self).default_chunk_loading == old(self).default_chunk_loading,
    {
        let ghost orig = self.module_chunks@[m as int]@;
        let row_len = self.module_chunks[m].len();
        let mut i: usize = 0;
        while i < row_len
            invariant
                self == old(self),
                old(self).wf(old(self).module_chunks@.len() as nat),
                m < self.module_chunks@.len(),
                orig == self.module_chunks@[m as int]@,
                row_len == orig.len(),
                0 <= i <= row_len,
                forall|k: int| 0 <= k < i ==> self.module_chunks@[m as int]@[k] != c,
            decreases row_len - i,
        {
            if self.module_chunks[m][i] == c {
                let row = &mut self.module_chunks[m];
                let _ = row.remove(i);
                proof {
                    let now = self.module_chunks@[m as int]@;
                    assert(now == orig.remove(i as int));
                    // Membership: the removed position held the only copy of c.
                    assert forall|c2: usize|
                        now.contains(c2) <==> (orig.contains(c2) && c2 != c) by {
                        assert forall|k: int| 0 <= k < now.len() implies now[k] == orig[if k < i as int {
                            k
                        } else {
                            k + 1
                        }] by {}
                        if now.contains(c2) {
                            let k = choose|k: int| 0 <= k < now.len() && #[trigger] now[k] == c2;
                            if k < i as int {
                                assert(orig[k] == c2);
                            } else {
                                assert(orig[k + 1] == c2);
                            }
                            assert(orig.contains(c2));
                            if c2 == c {
                                // distinctness: c occurs only at position i
                                if k < i as int {
                                    assert(orig[k] == orig[i as int]);
                                    assert(false);
                                } else {
                                    assert(orig[k + 1] == orig[i as int]);
                                    assert(false);
                                }
                            }
                        }
                        if orig.contains(c2) && c2 != c {
                            let k = choose|k: int| 0 <= k < orig.len() && #[trigger] orig[k] == c2;
                            if k < i as int {
                                assert(now[k] == c2);
                            } else {
                                assert(k != i as int);
                                assert(now[k - 1] == c2);
                            }
                            assert(now.contains(c2));
                        }
                    }
                    assert(distinct_seq(now)) by {
                        assert forall|p: int, q: int| 0 <= p < q < now.len() implies now[p]
                            != now[q] by {
                            let p2: int = if p < i as int { p } else { p + 1 };
                            let q2: int = if q < i as int { q } else { q + 1 };
                            assert(now[p] == orig[p2]);
                            assert(now[q] == orig[q2]);
                        }
                    }
                }
                return;
            }
            i = i + 1;
        }
        proof {
            assert(!orig.contains(c));
        }
    }

    /// Drop module `m`'s JavaScript contribution from chunk `c`.
    pub fn strip_javascript_in_chunk(&mut self, c: usize, m: usize)
        requires
            old(self).wf(old(self).module_chunks@.len() as nat),
            m < old(self).module_chunks@.len(),
        ensures
            final(self).wf(final(self).module_chunks@.len() as nat),
            final(self).module_chunks@ == old(self).module_chunks@,
            final(self).chunk_names@ == old(self).chunk_names@,
            final(self).chunk_runtimes@ == old(self).chunk_runtimes@,
            final(self).entry_modules@ == old(self).entry_modules@,
            final(self).chunk_entry_options@ == old(self).chunk_entry_options@,
            final(self).default_chunk_loading == old(self).default_chunk_loading,
            final(self).js_stripped@.len() == old(self).js_stripped@.len(),
            forall|m2: int|
                0 <= m2 < old(self).js_stripped@.len() && m2 != m ==> final(self).js_stripped@[m2]
                    == old(self).js_stripped@[m2],
            forall|c2: usize|
                final(self).stripped(m as int, c2) <==> (old(self).stripped(m as int, c2) || c2
                    == c),
    {
        let ghost orig = self.js_stripped@[m as int]@;
        if !contains_usize(&self.js_stripped[m], c) {
            let row = &mut self.js_stripped[m];
            row.push(c);
            proof {
                crate::seq_util::lemma_push_contains(orig, c);
            }
        }
    }

    /// Move module `a`'s chunk-graph slot to module `b`: afterwards `b` sits
    /// in exactly the chunks `a` sat in and stands as entry module wherever
    /// `a` did, and `a` sits in none and is no chunk's entry.
    pub fn replace_module(&mut self, a: usize, b: usize)
        requires
            old(self).wf(old(self).module_chunks@.len() as nat),
            a < old(self).module_chunks@.len(),
            b < old(self).module_chunks@.len(),
            a != b,
        ensures
            final(self).wf(final(self).module_chunks@.len() as nat),
            final(self).module_chunks@.len() == old(self).module_chunks@.len(),
            forall|m2: int|
                0 <= m2 < old(self).module_chunks@.len() && m2 != a && m2 != b ==> final(self).module_chunks@[m2] == old(self).module_chunks@[m2],
            final(self).module_chunks@[b as int]@ == old(self).module_chunks@[a as int]@,
            final(self).module_chunks@[a as int]@ == Seq::<usize>::empty(),
            final(self).js_stripped@ == old(self).js_stripped@,
            final(self).chunk_names@ == old(self).chunk_names@,
            final(self).chunk_runtimes@ == old(self).chunk_runtimes@,
            final(self).entry_modules@.len() == old(self).entry_modules@.len(),
            forall|c: int, k: int|
                #![trigger final(self).entry_modules@[c]@[k]]
                0 <= c < old(self).entry_modules@.len() && 0 <= k < old(self).entry_modules@[c]@.len()
                    ==> final(self).entry_modules@[c]@[k] == (if old(self).entry_modules@[c]@[k]
                    == a {
                    b
                } else {
                    old(self).entry_modules@[c]@[k]
                }),
            forall|c: int|
                0 <= c < old(self).entry_modules@.len() ==> (#[trigger] final(self).entry_modules@[c])@.len() == old(self).entry_modules@[c]@.len(),
            final(self).chunk_entry_options@ == old(self).chunk_entry_options@,
            final(self).default_chunk_loading == old(self).default_chunk_loading,
    {
        let row = copy_usize_vec(&self.module_chunks[a]);
        self.module_chunks[b] = row;
        self.module_chunks[a] = Vec::new();
        let nc = self.entry_modules.len();
        let mut c: usize = 0;
        while c < nc
            invariant
                nc == self.entry_modules@.len(),
                self.entry_modules@.len() == old(self).entry_modules@.len(),
                b < self.module_chunks@.len(),
                self.module_chunks@.len() == old(self).module_chunks@.len(),
                self.module_chunks@[b as int]@ == old(self).module_chunks@[a as int]@,
                self.module_chunks@[a as int]@ == Seq::<usize>::empty(),
                forall|m2: int|
                    0 <= m2 < old(self).module_chunks@.len() && m2 != a && m2 != b
                        ==> #[trigger] self.module_chunks@[m2] == old(self).module_chunks@[m2],
                self.js_stripped@ == old(self).js_stripped@,
                self.chunk_names@ == old(self).chunk_names@,
                self.chunk_runtimes@ == old(self).chunk_runtimes@,
                self.chunk_entry_options@ == old(self).chunk_entry_options@,
                self.default_chunk_loading == old(self).default_chunk_loading,
                old(self).wf(old(self).module_chunks@.len() as nat),
                a < old(self).module_chunks@.len(),
                a != b,
                0 <= c <= nc,
                forall|c2: int|
                    0 <= c2 < nc ==> (#[trigger] self.entry_modules@[c2])@.len() == old(self).entry_modules@[c2]@.len(),
                forall|c2: int, k: int|
                    #![trigger self.entry_modules@[c2]@[k]]
                    0 <= c2 < c && 0 <= k < self.entry_modules@[c2]@.len()
                        ==> self.entry_modules@[c2]@[k] == (if old(self).entry_modules@[c2]@[k]
                        == a {
                        b
                    } else {
                        old(self).entry_modules@[c2]@[k]
                    }),
                forall|c2: int|
                    c <= c2 < nc ==> (#[trigger] self.entry_modules@[c2]) == old(self).entry_modules@[c2],
            decreases nc - c,
        {
            let row_len = self.entry_modules[c].len();
            let mut k: usize = 0;
            while k < row_len
                invariant
                    nc == self.entry_modules@.len(),
                    self.entry_modules@.len() == old(self).entry_modules@.len(),
                    b < self.module_chunks@.len(),
                    self.module_chunks@.len() == old(self).module_chunks@.len(),
                    self.module_chunks@[b as int]@ == old(self).module_chunks@[a as int]@,
                    self.module_chunks@[a as int]@ == Seq::<usize>::empty(),
                    forall|m2: int|
                        0 <= m2 < old(self).module_chunks@.len() && m2 != a && m2 != b
                            ==> #[trigger] self.module_chunks@[m2] == old(self).module_chunks@[m2],
                    self.js_stripped@ == old(self).js_stripped@,
                    self.chunk_names@ == old(self).chunk_names@,
                    self.chunk_runtimes@ == old(self).chunk_runtimes@,
                    self.chunk_entry_options@ == old(self).chunk_entry_options@,
                    self.default_chunk_loading == old(self).default_chunk_loading,
                    old(self).wf(old(self).module_chunks@.len() as nat),
                    a < old(self).module_chunks@.len(),
                    a != b,
                    c < nc,
                    row_len == self.entry_modules@[c as int]@.len(),
                    row_len == old(self).entry_modules@[c as int]@.len(),
                    0 <= k <= row_len,
                    forall|c2: int|
                        0 <= c2 < nc ==> (#[trigger] self.entry_modules@[c2])@.len() == old(self).entry_modules@[c2]@.len(),
                    forall|c2: int, k2: int|
                        #![trigger self.entry_modules@[c2]@[k2]]
                        0 <= c2 < c && 0 <= k2 < self.entry_modules@[c2]@.len()
                            ==> self.entry_modules@[c2]@[k2] == (if old(self).entry_modules@[c2]@[k2] == a {
                            b
                        } else {
                            old(self).entry_modules@[c2]@[k2]
                        }),
                    forall|c2: int|
                        c < c2 < nc ==> (#[trigger] self.entry_modules@[c2]) == old(self).entry_modules@[c2],
                    forall|k2: int|
                        0 <= k2 < k ==> #[trigger] self.entry_modules@[c as int]@[k2] == (if old(self).entry_modules@[c as int]@[k2] == a {
                            b
                        } else {
                            old(self).entry_modules@[c as int]@[k2]
                        }),
                    forall|k2: int|
                        k <= k2 < row_len ==> #[trigger] self.entry_modules@[c as int]@[k2] == old(self).entry_modules@[c as int]@[k2],
                decreases row_len - k,
            {
                if self.entry_modules[c][k] == a {
                    let entry_row = &mut self.entry_modules[c];
                    entry_row[k] = b;
                }
                k = k + 1;
            }
            c = c + 1;
        }
    }

    /// The output types module `m` still contributes to chunk `c`.
    pub fn get_chunk_module_source_types(
        &self,
        g: &ModuleGraph,
        c: usize,
        m: usize,
    ) -> (r: Vec<SourceType>)
        requires
            m < self.js_stripped@.len(),
            m < g.modules@.len(),
        ensures
            r@ == self.spec_chunk_module_source_types(g, c, m as int),
    {
        let base = &g.modules[m].source_types;
        if contains_source_chunk(&self.js_stripped[m], c) {
            let ghost gpred = |t: SourceType| t != SourceType::JavaScript;
            let mut out: Vec<SourceType> = Vec::new();
            let mut i: usize = 0;
            while i < base.len()
                invariant
                    m < g.modules@.len(),
                    base@ == g.modules@[m as int].source_types@,
                    0 <= i <= base@.len(),
                    gpred == (|t: SourceType| t != SourceType::JavaScript),
                    out@ == base@.take(i as int).filter(gpred),
                decreases base@.len() - i,
            {
                let t = base[i];
                proof {
                    reveal_with_fuel(Seq::<_>::filter, 2);
                    assert(base@.take(i + 1).drop_last() =~= base@.take(i as int));
                    assert(base@.take(i + 1).last() == base@[i as int]);
                }
                if !matches!(t, SourceType::JavaScript) {
                    out.push(t);
                    proof {
                        assert(gpred(base@[i as int]));
                        assert(base@.take(i + 1).filter(gpred) == base@.take(i as int).filter(
                            gpred,
                        ).push(base@[i as int]));
                    }
                } else {
                    proof {
                        assert(!gpred(base@[i as int]));
                        assert(base@.take(i + 1).filter(gpred) == base@.take(i as int).filter(
                            gpred,
                        ));
                    }
                }
                i = i + 1;
            }
            proof {
                crate::seq_util::lemma_take_all(base@);
            }
            out
        } else {
            copy_source_types(base)
        }
    }
}

/// Linear membership scan (source-type rows).
fn contains_source_chunk(v: &Vec<usize>, x: usize) -> (b: bool)
    ensures
        b == v@.contains(x),
{
    contains_usize(v, x)
}

/// Element-wise copy of a chunk list.
pub fn copy_usize_vec(v: &Vec<usize>) -> (r: Vec<usize>)
    ensures
        r@ == v@,
{
    let mut r: Vec<usize> = Vec::new();
    let mut i: usize = 0;
    while i < v.len()
        invariant
            0 <= i <= v@.len(),
            r@ == v@.take(i as int),
        decreases v@.len() - i,
    {
        r.push(v[i]);
        proof {
            assert(v@.take(i + 1) =~= v@.take(i as int) + seq![v@[i as int]]);
        }
        i = i + 1;
    }
    proof {
        crate::seq_util::lemma_take_all(v@);
    }
    r
}

/// Element-wise copy of a source-type list.
pub fn copy_source_types(v: &Vec<SourceType>) -> (r: Vec<SourceType>)
    ensures
        r@ == v@,
{
    let mut r: Vec<SourceType> = Vec::new();
    let mut i: usize = 0;
    while i < v.len()
        invariant
            0 <= i <= v@.len(),
            r@ == v@.take(i as int),
        decreases v@.len() - i,
    {
        r.push(v[i]);
        proof {
            assert(v@.take(i + 1) =~= v@.take(i as int) + seq![v@[i as int]]);
        }
        i = i + 1;
    }
    proof {
        crate::seq_util::lemma_take_all(v@);
    }
    r
}

/// Does chunk `c` hold a module that contributes the given output type?
pub open spec fn spec_chunk_has_source_type(
    g: &ModuleGraph,
    cg: &ChunkGraph,
    c: usize,
    t: SourceType,
) -> bool {
    exists|m: int|
        0 <= m < cg.module_chunks@.len() && #[trigger] cg.in_chunk(m, c)
            && cg.spec_chunk_module_source_types(g, c, m).contains(t)
}

/// Does chunk `c` emit any JavaScript: an entry module, or any member module
/// still contributing a JavaScript output type?
pub fn chunk_has_js(chunk_ukey: usize, g: &ModuleGraph, cg: &ChunkGraph) -> (b: bool)
    requires
        g.wf(),
        cg.wf(g.num_modules()),
        chunk_ukey < cg.num_chunks(),
    ensures
        b == (cg.entry_modules@[chunk_ukey as int]@.len() > 0 || spec_chunk_has_source_type(
            g,
            cg,
            chunk_ukey,
            SourceType::JavaScript,
        )),
{
    if self_entry_count(cg, chunk_ukey) > 0 {
        return true;
    }
    chunk_has_source_type(chunk_ukey, g, cg, SourceType::JavaScript)
}

/// Does chunk `c` hold a module still contributing a CSS output type?
pub fn chunk_has_css(chunk: usize, g: &ModuleGraph, cg: &ChunkGraph) -> (b: bool)
    requires
        g.wf(),
        cg.wf(g.num_modules()),
        chunk < cg.num_chunks(),
    ensures
        b == spec_chunk_has_source_type(g, cg, chunk, SourceType::Css),
{
    chunk_has_source_type(chunk, g, cg, SourceType::Css)
}

fn self_entry_count(cg: &ChunkGraph, c: usize) -> (n: usize)
    requires
        c < cg.entry_modules@.len(),
    ensures
        n == cg.entry_modules@[c as int]@.len(),
{
    cg.entry_modules[c].len()
}

fn chunk_has_source_type(c: usize, g: &ModuleGraph, cg: &ChunkGraph, t: SourceType) -> (b: bool)
    requires
        g.wf(),
        cg.wf(g.num_modules()),
    ensures
        b == spec_chunk_has_source_type(g, cg, c, t),
{
    let n = cg.module_chunks.len();
    let mut m: usize = 0;
    while m < n
        invariant
            g.wf(),
            cg.wf(g.num_modules()),
            n == cg.module_chunks@.len(),
            cg.module_chunks@.len() == g.modules@.len(),
            0 <= m <= n,
            forall|k: int|
                0 <= k < m ==> !(#[trigger] cg.in_chunk(k, c)
                    && cg.spec_chunk_module_source_types(g, c, k).contains(t)),
        decreases n - m,
    {
        if cg.is_module_in_chunk(m, c) {
            let types = cg.get_chunk_module_source_types(g, c, m);
            if contains_source_type(&types, t) {
                return true;
            }
        }
        m = m + 1;
    }
    false
}

fn contains_source_type(v: &Vec<SourceType>, t: SourceType) -> (b: bool)
    ensures
        b == v@.contains(t),
{
    let mut i: usize = 0;
    while i < v.len()
        invariant
            0 <= i <= v@.len(),
            forall|k: int| 0 <= k < i ==> v@[k] != t,
        decreases v@.len() - i,
    {
        if v[i] == t {
            assert(v@.contains(t));
            return true;
        }
        i = i + 1;
    }
    assert(!v@.contains(t));
    false
}

/// Is the chunk loaded with the expected chunk-loading mechanism?  The
/// chunk's own entry option wins over the build's default.
pub fn is_enabled_for_chunk(
    chunk_ukey: usize,
    expected: &ChunkLoading,
    cg: &ChunkGraph,
) -> (b: bool)
    requires
        chunk_ukey < cg.chunk_entry_options@.len(),
    ensures
        b == (match cg.chunk_entry_options@[chunk_ukey as int] {
            Option::Some(l) => l,
            Option::None => cg.default_chunk_loading,
        } == *expected),
{
    let loading = match &cg.chunk_entry_options[chunk_ukey] {
        Option::Some(l) => *l,
        Option::None => cg.default_chunk_loading,
    };
    loading == *expected
}

} // verus!

verus! {

impl ChunkGraph {
    /// Check the chunk graph's structural invariants against a module count.
    #[verifier::loop_isolation(false)]
    pub fn check_wf(&self, num_modules: usize) -> (b: bool)
        ensures
            b == self.wf(num_modules as nat),
    {
        if self.module_chunks.len() != num_modules {
            return false;
        }
        if self.js_stripped.len() != num_modules {
            return false;
        }
        let nc = self.chunk_names.len();
        if self.chunk_runtimes.len() != nc || self.entry_modules.len() != nc
            || self.chunk_entry_options.len() != nc {
            return false;
        }
        let mut m: usize = 0;
        while m < num_modules
            invariant
                self.module_chunks@.len() == num_modules,
                nc == self.num_chunks(),
                0 <= m <= num_modules,
                forall|k: int|
                    0 <= k < m ==> distinct_seq((#[trigger] self.module_chunks@[k])@),
                forall|k: int, p: int|
                    0 <= k < m && 0 <= p < self.module_chunks@[k]@.len() ==> (
                    #[trigger] self.module_chunks@[k]@[p]) < self.num_chunks(),
            decreases num_modules - m,
        {
            let row = &self.module_chunks[m];
            let mut p: usize = 0;
            while p < row.len()
                invariant
                    row@ == self.module_chunks@[m as int]@,
                    nc == self.num_chunks(),
                    0 <= p <= row@.len(),
                    forall|a: int, b: int| 0 <= a < b < p ==> row@[a] != row@[b],
                    forall|a: int| 0 <= a < p ==> (#[trigger] row@[a]) < self.num_chunks(),
                decreases row@.len() - p,
            {
                if row[p] >= nc {
                    return false;
                }
                let mut q: usize = 0;
                while q < p
                    invariant
                        row@ == self.module_chunks@[m as int]@,
                        0 <= q <= p < row@.len(),
                        forall|a: int| 0 <= a < q ==> row@[a] != row@[p as int],
                    decreases p - q,
                {
                    if row[q] == row[p] {
                        return false;
                    }
                    q = q + 1;
                }
                p = p + 1;
            }
            m = m + 1;
        }
        let mut c: usize = 0;
        while c < nc
            invariant
                nc == self.num_chunks(),
                self.entry_modules@.len() == nc,
                self.chunk_runtimes@.len() == nc,
                0 <= c <= nc,
                forall|k: int, p: int|
                    0 <= k < c && 0 <= p < self.entry_modules@[k]@.len() ==> (
                    #[trigger] self.entry_modules@[k]@[p]) < num_modules,
                forall|k: int| 0 <= k < c ==> (#[trigger] self.chunk_runtimes@[k]).wf(),
            decreases nc - c,
        {
            let entries = &self.entry_modules[c];
            let mut p: usize = 0;
            while p < entries.len()
                invariant
                    entries@ == self.entry_modules@[c as int]@,
                    0 <= p <= entries@.len(),
                    forall|a: int| 0 <= a < p ==> (#[trigger] entries@[a]) < num_modules,
                decreases entries@.len() - p,
            {
                if entries[p] >= num_modules {
                    return false;
                }
                p = p + 1;
            }
            if !self.chunk_runtimes[c].check_wf() {
                return false;
            }
            c = c + 1;
        }
        true
    }
}

} // verus!
