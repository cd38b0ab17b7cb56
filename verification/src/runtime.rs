//! Runtime specs: the set of target runtimes a chunk or edge is valid for.
//!
//! A `RuntimeSpec` is kept as a strictly sorted vector of runtime ids, so two
//! specs with the same elements are identical values and iteration order is
//! deterministic.

use vstd::prelude::*;

verus! {

/// `r` holds exactly the members of `a` plus `x0`.
pub open spec fn members_plus(r: Seq<u64>, a: Seq<u64>, x0: u64) -> bool {
    forall|x: u64| #![trigger r.contains(x)] r.contains(x) <==> (a.contains(x) || x == x0)
}

/// `r` holds exactly the members of `a` and of `b`.
pub open spec fn members_union(r: Seq<u64>, a: Seq<u64>, b: Seq<u64>) -> bool {
    forall|x: u64| #![trigger r.contains(x)] r.contains(x) <==> (a.contains(x) || b.contains(x))
}

/// Do two runtime sets share an element?
pub open spec fn runtimes_meet(a: Seq<u64>, b: Seq<u64>) -> bool {
    exists|x: u64| a.contains(x) && b.contains(x)
}

/// Strictly increasing, hence duplicate-free.
pub open spec fn strictly_sorted(s: Seq<u64>) -> bool {
    forall|i: int, j: int| 0 <= i < j < s.len() ==> s[i] < s[j]
}

/// A set of runtime names (interned as ids), kept in canonical sorted order.
pub struct RuntimeSpec {
    names: Vec<u64>,
}

impl View for RuntimeSpec {
    type V = Seq<u64>;

    closed spec fn view(&self) -> Seq<u64> {
        self.names@
    }
}

impl RuntimeSpec {
    pub open spec fn wf(&self) -> bool {
        strictly_sorted(self@)
    }

    /// The set of runtimes this spec stands for.
    pub open spec fn set_view(&self) -> Set<u64> {
        self@.to_set()
    }

    pub fn new() -> (r: RuntimeSpec)
        ensures
            r.wf(),
            r@ == Seq::<u64>::empty(),
    {
        RuntimeSpec { names: Vec::new() }
    }

    pub fn len(&self) -> (n: usize)
        ensures
            n == self@.len(),
    {
        self.names.len()
    }

    pub fn is_empty(&self) -> (b: bool)
        ensures
            b == (self@.len() == 0),
    {
        self.names.len() == 0
    }

    pub fn get(&self, i: usize) -> (name: u64)
        requires
            i < self@.len(),
        ensures
            name == self@[i as int],
    {
        self.names[i]
    }

    pub fn contains(&self, name: u64) -> (b: bool)
        ensures
            b == self@.contains(name),
    {
        let mut i: usize = 0;
        while i < self.names.len()
            invariant
                0 <= i <= self@.len(),
                forall|k: int| 0 <= k < i ==> self@[k] != name,
            decreases self@.len() - i,
        {
            if self.names[i] == name {
                assert(self@.contains(name));
                return true;
            }
            i = i + 1;
        }
        assert(!self@.contains(name));
        false
    }

    /// Insert a name, keeping the canonical order; a no-op if present.
    pub fn insert(&mut self, name: u64)
        requires
            old(self).wf(),
        ensures
            final(self).wf(),
            members_plus(final(self)@, old(self)@, name),
            old(self)@.len() <= final(self)@.len() <= old(self)@.len() + 1,
            old(self)@.contains(name) ==> final(self)@ == old(self)@,
    {
        let ghost orig = self@;
        let mut i: usize = 0;
        while i < self.names.len() && self.names[i] < name
            invariant
                self@ == orig,
                0 <= i <= self@.len(),
                forall|k: int| 0 <= k < i ==> self@[k] < name,
            decreases self@.len() - i,
        {
            i = i + 1;
        }
        if i < self.names.len() && self.names[i] == name {
            proof {
                assert(self@.contains(name));
                assert(members_plus(self@, orig, name));
            }
            return;
        }
        // name is absent: everything before position i is smaller, everything
        // at or after it is larger.
        proof {
            assert forall|k: int| i <= k < orig.len() implies orig[k] > name by {
                assert(orig[i as int] > name);
                if k > i {
                    assert(orig[i as int] < orig[k]);
                }
            }
        }
        self.names.insert(i, name);
        proof {
            assert(self@ =~= orig.take(i as int) + seq![name] + orig.skip(i as int));
            assert(self.wf()) by {
                assert(forall|p: int, q: int| 0 <= p < q < self@.len() ==> self@[p] < self@[q]) by {
                    assert(forall|p: int| 0 <= p < i ==> self@[p] == orig[p]);
                    assert(self@[i as int] == name);
                    assert(forall|q: int| i < q < self@.len() ==> self@[q] == orig[q - 1]);
                }
            }
            assert(members_plus(self@, orig, name)) by {
                {
                    assert(forall|x: u64| orig.contains(x) ==> self@.contains(x)) by {
                        assert(forall|k: int|
                            0 <= k < orig.len() ==> self@[if k < i as int {
                                k
                            } else {
                                k + 1
                            }] == orig[k]);
                    }
                    assert(self@[i as int] == name);
                    assert(forall|x: u64| self@.contains(x) && x != name ==> orig.contains(x)) by {
                        assert(forall|k: int|
                            0 <= k < self@.len() && k != i as int ==> orig[if k < i as int {
                                k
                            } else {
                                k - 1
                            }] == self@[k]);
                    }
                }
            }
        }
    }

    /// Union `other` into `self`.
    pub fn extend(&mut self, other: &RuntimeSpec)
        requires
            old(self).wf(),
        ensures
            final(self).wf(),
            members_union(final(self)@, old(self)@, other@),
    {
        let ghost orig = self@;
        let mut j: usize = 0;
        while j < other.names.len()
            invariant
                self.wf(),
                0 <= j <= other@.len(),
                forall|x: u64| #![trigger self@.contains(x)]
                    self@.contains(x) <==> (orig.contains(x) || other@.take(j as int).contains(x)),
            decreases other@.len() - j,
        {
            let ghost before = self@;
            self.insert(other.names[j]);
            proof {
                crate::seq_util::lemma_take_succ_contains(other@, j as int);
                assert forall|x: u64| #![trigger self@.contains(x)]
                    self@.contains(x) <==> (orig.contains(x) || other@.take(j + 1).contains(
                        x,
                    )) by {
                    assert(self@.contains(x) <==> (before.contains(x) || x == other@[j as int]));
                    assert(before.contains(x) <==> (orig.contains(x) || other@.take(
                        j as int,
                    ).contains(x)));
                }
            }
            j = j + 1;
        }
        proof {
            crate::seq_util::lemma_take_all(other@);
            assert(members_union(self@, orig, other@));
        }
    }

    /// Does any runtime belong to both specs?
    pub fn intersects(&self, other: &RuntimeSpec) -> (b: bool)
        ensures
            b == runtimes_meet(self@, other@),
    {
        let mut i: usize = 0;
        while i < self.names.len()
            invariant
                0 <= i <= self@.len(),
                forall|k: int| 0 <= k < i ==> !other@.contains(self@[k]),
            decreases self@.len() - i,
        {
            if other.contains(self.names[i]) {
                proof {
                    assert(self@.contains(self@[i as int]));
                    assert(runtimes_meet(self@, other@));
                }
                return true;
            }
            i = i + 1;
        }
        proof {
            if runtimes_meet(self@, other@) {
                let x = choose|x: u64| self@.contains(x) && other@.contains(x);
                let k = choose|k: int| 0 <= k < self@.len() && #[trigger] self@[k] == x;
                assert(false);
            }
        }
        false
    }

    /// The runtimes common to both specs, in canonical order.
    pub fn intersection(&self, other: &RuntimeSpec) -> (r: RuntimeSpec)
        requires
            self.wf(),
        ensures
            r.wf(),
            forall|x: u64| r@.contains(x) <==> (self@.contains(x) && other@.contains(x)),
            r@.len() <= self@.len(),
    {
        let mut out: Vec<u64> = Vec::new();
        let mut i: usize = 0;
        while i < self.names.len()
            invariant
                self.wf(),
                0 <= i <= self@.len(),
                strictly_sorted(out@),
                out@.len() <= i,
                forall|x: u64| #![trigger out@.contains(x)]
                    out@.contains(x) <==> (self@.take(i as int).contains(x) && other@.contains(x)),
            decreases self@.len() - i,
        {
            let name = self.names[i];
            let ghost out_before = out@;
            if other.contains(name) {
                proof {
                    // Every element already in `out` occurs among the first i
                    // positions of the sorted `self`, so it is smaller.
                    assert forall|k: int| 0 <= k < out@.len() implies out@[k] < name by {
                        assert(out@.contains(out@[k]));
                        assert(self@.take(i as int).contains(out@[k]));
                        let m = choose|m: int|
                            0 <= m < i && self@.take(i as int)[m] == out@[k];
                        assert(self@[m] == out@[k]);
                        assert(self@[m] < self@[i as int]);
                    }
                }
                out.push(name);
            }
            proof {
                crate::seq_util::lemma_take_succ_contains(self@, i as int);
                crate::seq_util::lemma_push_contains(out_before, name);
                assert forall|x: u64|
                    out@.contains(x) <==> (self@.take(i + 1).contains(x) && other@.contains(
                        x,
                    )) by {
                    assert(out_before.contains(x) <==> (self@.take(i as int).contains(x)
                        && other@.contains(x)));
                    assert(self@.take(i + 1).contains(x) <==> (self@.take(i as int).contains(x)
                        || x == self@[i as int]));
                }
            }
            i = i + 1;
        }
        proof {
            crate::seq_util::lemma_take_all(self@);
            lemma_strictly_sorted_len_le(out@, self@);
        }
        RuntimeSpec { names: out }
    }

    /// Value equality on the canonical form.
    pub fn same_as(&self, other: &RuntimeSpec) -> (b: bool)
        ensures
            b == (self@ == other@),
    {
        if self.names.len() != other.names.len() {
            return false;
        }
        let mut i: usize = 0;
        while i < self.names.len()
            invariant
                self@.len() == other@.len(),
                0 <= i <= self@.len(),
                forall|k: int| 0 <= k < i ==> self@[k] == other@[k],
            decreases self@.len() - i,
        {
            if self.names[i] != other.names[i] {
                return false;
            }
            i = i + 1;
        }
        proof {
            assert(self@ =~= other@);
        }
        true
    }

    pub fn clone_spec(&self) -> (r: RuntimeSpec)
        ensures
            r@ == self@,
    {
        let mut names: Vec<u64> = Vec::new();
        let mut i: usize = 0;
        while i < self.names.len()
            invariant
                0 <= i <= self@.len(),
                names@ == self@.take(i as int),
            decreases self@.len() - i,
        {
            names.push(self.names[i]);
            proof {
                assert(self@.take(i + 1) =~= self@.take(i as int) + seq![self@[i as int]]);
            }
            i = i + 1;
        }
        proof {
            assert(self@.take(self@.len() as int) =~= self@);
        }
        RuntimeSpec { names }
    }
}

/// A strictly sorted sequence whose elements all occur in another strictly
/// sorted sequence is no longer than it.
pub proof fn lemma_strictly_sorted_len_le(a: Seq<u64>, b: Seq<u64>)
    requires
        strictly_sorted(a),
        strictly_sorted(b),
        forall|x: u64| a.contains(x) ==> b.contains(x),
    ensures
        a.len() <= b.len(),
    decreases a.len(), b.len(),
{
    if a.len() > 0 {
        assert(b.len() > 0) by {
            assert(a.contains(a[0]));
        }
        // The largest elements of each side: a.last() occurs in b, and every
        // element of b is at most b.last().
        let a1 = a.drop_last();
        let b1 = b.drop_last();
        assert(forall|x: u64| a1.contains(x) ==> b1.contains(x)) by {
            assert forall|x: u64| a1.contains(x) implies b1.contains(x) by {
                let i = choose|i: int| 0 <= i < a1.len() && a1[i] == x;
                assert(a[i] == x);
                assert(x < a.last());
                assert(a.contains(a.last()));
                assert(b.contains(x));
                let j = choose|j: int| 0 <= j < b.len() && b[j] == x;
                let jl = choose|jl: int| 0 <= jl < b.len() && b[jl] == a.last();
                assert(j != b.len() - 1 || jl != b.len() - 1 || x == a.last());
                if j == b.len() - 1 {
                    // x is b's last element, yet a.last() > x is also in b:
                    // contradiction with sortedness unless jl > j.
                    assert(b[jl] > b[j]);
                    assert(jl > j);
                    assert(false);
                }
                assert(b1[j] == x);
                assert(b1.contains(x));
            }
        }
        lemma_strictly_sorted_len_le(a1, b1);
    }
}

} // verus!

verus! {

impl RuntimeSpec {
    /// Check canonical (strictly sorted) form.
    pub fn check_wf(&self) -> (b: bool)
        ensures
            b == self.wf(),
    {
        let mut i: usize = 0;
        if self.names.len() == 0 {
            return true;
        }
        while i < self.names.len() - 1
            invariant
                self@.len() > 0,
                0 <= i <= self@.len() - 1,
                forall|k: int| 0 <= k < i ==> #[trigger] self@[k] < self@[k + 1],
            decreases self@.len() - i,
        {
            if self.names[i] >= self.names[i + 1] {
                assert(!self.wf());
                return false;
            }
            i = i + 1;
        }
        proof {
            assert forall|p: int, q: int| 0 <= p < q < self@.len() implies self@[p] < self@[q] by {
                lemma_adjacent_sorted(self@, p, q);
            }
        }
        true
    }
}

/// Adjacent order extends to all pairs.
proof fn lemma_adjacent_sorted(s: Seq<u64>, p: int, q: int)
    requires
        forall|k: int| 0 <= k < s.len() - 1 ==> #[trigger] s[k] < s[k + 1],
        0 <= p < q < s.len(),
    ensures
        s[p] < s[q],
    decreases q - p,
{
    if q == p + 1 {
    } else {
        lemma_adjacent_sorted(s, p, q - 1);
    }
}

} // verus!

verus! {

impl RuntimeSpec {
    /// Is every runtime of `self` also in `other`?
    pub fn is_subset_of(&self, other: &RuntimeSpec) -> (b: bool)
        ensures
            b == (forall|x: u64| self@.contains(x) ==> other@.contains(x)),
    {
        let mut i: usize = 0;
        while i < self.names.len()
            invariant
                0 <= i <= self@.len(),
                forall|k: int| 0 <= k < i ==> other@.contains(#[trigger] self@[k]),
            decreases self@.len() - i,
        {
            if !other.contains(self.names[i]) {
                proof {
                    assert(self@.contains(self@[i as int]));
                }
                return false;
            }
            i = i + 1;
        }
        proof {
            assert forall|x: u64| self@.contains(x) implies other@.contains(x) by {
                let k = choose|k: int| 0 <= k < self@.len() && #[trigger] self@[k] == x;
            }
        }
        true
    }
}

} // verus!
