//! Verified string building for diagnostics.

use vstd::prelude::*;

verus! {

/// The pieces joined with ", ".
pub open spec fn spec_join_comma(s: Seq<Seq<char>>) -> Seq<char>
    decreases s.len(),
{
    if s.len() == 0 {
        Seq::<char>::empty()
    } else if s.len() == 1 {
        s[0]
    } else {
        spec_join_comma(s.drop_last()) + ", "@ + s.last()
    }
}

/// Join the items with ", ".
pub fn join_comma(items: &Vec<String>) -> (r: String)
    ensures
        r@ == spec_join_comma(items.deep_view()),
{
    let mut r = String::new();
    let mut i: usize = 0;
    while i < items.len()
        invariant
            0 <= i <= items@.len(),
            r@ == spec_join_comma(items.deep_view().take(i as int)),
        decreases items@.len() - i,
    {
        if i > 0 {
            r.append(", ");
        }
        r.append(items[i].as_str());
        proof {
            let dv = items.deep_view();
            assert(dv.len() == items@.len());
            assert(dv[i as int] == items@[i as int]@);
            if i == 0 {
                assert(dv.take(1) =~= seq![dv[0]]);
                assert(spec_join_comma(dv.take(0)) =~= Seq::<char>::empty());
                assert(r@ =~= spec_join_comma(dv.take(1)));
            } else {
                assert(dv.take(i + 1).drop_last() =~= dv.take(i as int));
                assert(dv.take(i + 1).last() == dv[i as int]);
                assert(dv.take(i + 1).len() >= 2);
                assert(r@ == spec_join_comma(dv.take(i + 1)));
            }
        }
        i = i + 1;
    }
    proof {
        crate::seq_util::lemma_take_all(items.deep_view());
    }
    r
}

/// The concatenation of two pieces.
pub fn str2(a: &str, b: &str) -> (r: String)
    ensures
        r@ == a@ + b@,
{
    let mut r = String::new();
    r.append(a);
    r.append(b);
    proof {
        assert(r@ =~= a@ + b@);
    }
    r
}

/// The concatenation of three pieces.
pub fn str3(a: &str, b: &str, c: &str) -> (r: String)
    ensures
        r@ == a@ + b@ + c@,
{
    let mut r = String::new();
    r.append(a);
    r.append(b);
    r.append(c);
    proof {
        assert(r@ =~= a@ + b@ + c@);
    }
    r
}

/// The concatenation of four pieces.
pub fn str4(a: &str, b: &str, c: &str, d: &str) -> (r: String)
    ensures
        r@ == a@ + b@ + c@ + d@,
{
    let mut r = String::new();
    r.append(a);
    r.append(b);
    r.append(c);
    r.append(d);
    proof {
        assert(r@ =~= a@ + b@ + c@ + d@);
    }
    r
}

/// The concatenation of five pieces.
pub fn str5(a: &str, b: &str, c: &str, d: &str, e: &str) -> (r: String)
    ensures
        r@ == a@ + b@ + c@ + d@ + e@,
{
    let mut r = String::new();
    r.append(a);
    r.append(b);
    r.append(c);
    r.append(d);
    r.append(e);
    proof {
        assert(r@ =~= a@ + b@ + c@ + d@ + e@);
    }
    r
}

} // verus!
