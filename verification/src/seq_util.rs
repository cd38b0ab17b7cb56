//! Small shared lemmas about sequences.

use vstd::prelude::*;

verus! {

/// Taking one more element extends the members by exactly that element.
pub proof fn lemma_take_succ_contains<A>(s: Seq<A>, j: int)
    requires
        0 <= j < s.len(),
    ensures
        forall|x: A| s.take(j + 1).contains(x) <==> (s.take(j).contains(x) || x == s[j]),
{
    assert forall|x: A| s.take(j + 1).contains(x) implies (s.take(j).contains(x) || x == s[j]) by {
        let k = choose|k: int| 0 <= k < s.take(j + 1).len() && #[trigger] s.take(j + 1)[k] == x;
        if k < j {
            assert(s.take(j)[k] == x);
        }
    }
    assert forall|x: A| s.take(j).contains(x) implies s.take(j + 1).contains(x) by {
        let k = choose|k: int| 0 <= k < s.take(j).len() && #[trigger] s.take(j)[k] == x;
        assert(s.take(j + 1)[k] == x);
    }
    assert(s.take(j + 1)[j] == s[j]);
    assert(s.take(j + 1).contains(s[j]));
}

/// Pushing extends the members by exactly the pushed element.
pub proof fn lemma_push_contains<A>(s: Seq<A>, a: A)
    ensures
        forall|x: A| s.push(a).contains(x) <==> (s.contains(x) || x == a),
{
    assert forall|x: A| s.push(a).contains(x) implies (s.contains(x) || x == a) by {
        let k = choose|k: int| 0 <= k < s.push(a).len() && #[trigger] s.push(a)[k] == x;
        if k < s.len() {
            assert(s[k] == x);
        }
    }
    assert forall|x: A| s.contains(x) implies s.push(a).contains(x) by {
        let k = choose|k: int| 0 <= k < s.len() && #[trigger] s[k] == x;
        assert(s.push(a)[k] == x);
    }
    assert(s.push(a)[s.len() as int] == a);
    assert(s.push(a).contains(a));
}

/// A whole sequence is its own full take.
pub proof fn lemma_take_all<A>(s: Seq<A>)
    ensures
        s.take(s.len() as int) == s,
{
    assert(s.take(s.len() as int) =~= s);
}

} // verus!

verus! {

/// A duplicate-free sequence of ids below `n` has at most `n` elements.
pub proof fn lemma_distinct_bounded(s: Seq<usize>, n: nat)
    requires
        forall|i: int, j: int| 0 <= i < j < s.len() ==> s[i] != s[j],
        forall|k: int| 0 <= k < s.len() ==> (#[trigger] s[k]) < n,
    ensures
        s.len() <= n,
{
    let si = s.map_values(|x: usize| x as int);
    assert(si.no_duplicates()) by {
        assert forall|i: int, j: int|
            0 <= i < si.len() && 0 <= j < si.len() && i != j implies si[i] != si[j] by {
            assert(si[i] == s[i] as int);
            assert(si[j] == s[j] as int);
        }
    }
    si.unique_seq_to_set();
    let range = vstd::set_lib::set_int_range(0, n as int);
    vstd::set_lib::lemma_int_range(0, n as int);
    assert(si.to_set().subset_of(range)) by {
        assert forall|x: int| si.to_set().contains(x) implies range.contains(x) by {
            let k = choose|k: int| 0 <= k < si.len() && #[trigger] si[k] == x;
            assert(s[k] < n);
        }
    }
    vstd::set_lib::lemma_len_subset(si.to_set(), range);
}

} // verus!

verus! {

/// How many entries are still unmarked.
pub open spec fn count_false(s: Seq<bool>) -> nat
    decreases s.len(),
{
    if s.len() == 0 {
        0
    } else {
        (if !s[0] {
            1nat
        } else {
            0nat
        }) + count_false(s.skip(1))
    }
}

/// Marking an unmarked entry lowers the unmarked count by one.
pub proof fn lemma_count_false_update(s: Seq<bool>, i: int)
    requires
        0 <= i < s.len(),
        !s[i],
    ensures
        count_false(s.update(i, true)) + 1 == count_false(s),
    decreases s.len(),
{
    let s2 = s.update(i, true);
    if i == 0 {
        assert(s2.skip(1) =~= s.skip(1));
    } else {
        assert(s2.skip(1) =~= s.skip(1).update(i - 1, true));
        lemma_count_false_update(s.skip(1), i - 1);
        assert(s2[0] == s[0]);
    }
}

} // verus!
