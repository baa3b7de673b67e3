//! Sorting by an order.

use vstd::prelude::*;
use vstd::seq_lib::{to_multiset_build, to_multiset_insert};

verus! {

/// What can be sorted.
pub trait Sortable: Sized + DeepView {
    /// Whether `a` comes before `b`.
    spec fn before(a: Self::V, b: Self::V) -> bool;

    /// Nothing comes before itself.
    proof fn lemma_irreflexive(a: Self::V)
        ensures
            !Self::before(a, a),
    ;

    /// What comes before something comes before all that follows that.
    proof fn lemma_transitive(a: Self::V, b: Self::V, c: Self::V)
        requires
            Self::before(a, b),
            Self::before(b, c),
        ensures
            Self::before(a, c),
    ;

    /// Whether `self` comes before `other`.
    fn is_before(&self, other: &Self) -> (r: bool)
        ensures
            r == Self::before(self.deep_view(), other.deep_view()),
    ;
}

/// Nothing comes before what stands earlier.
pub open spec fn in_order<T: Sortable>(s: Seq<T::V>) -> bool {
    forall|i: int, j: int|
        0 <= i < j < s.len() ==> !T::before(#[trigger] s[j], #[trigger] s[i])
}

proof fn lemma_insert_keeps_order<T: Sortable>(s: Seq<T::V>, k: int, x: T::V)
    requires
        in_order::<T>(s),
        0 <= k <= s.len(),
        forall|j: int| 0 <= j < k ==> !T::before(x, #[trigger] s[j]),
        k < s.len() ==> T::before(x, s[k]),
    ensures
        in_order::<T>(s.insert(k, x)),
{
    let t = s.insert(k, x);
    assert forall|i: int, j: int| 0 <= i < j < t.len() implies !T::before(
        #[trigger] t[j],
        #[trigger] t[i],
    ) by {
        if j < k {
            assert(t[i] == s[i] && t[j] == s[j]);
        } else if j == k {
            assert(t[i] == s[i]);
        } else {
            assert(t[j] == s[j - 1]);
            if i < k {
                assert(t[i] == s[i]);
            } else if i > k {
                assert(t[i] == s[i - 1]);
            } else if T::before(s[j - 1], x) {
                T::lemma_transitive(s[j - 1], x, s[k]);
                if j - 1 == k {
                    T::lemma_irreflexive(s[k]);
                }
            }
        }
    }
}

/// The same things in order.
pub fn sorted<T: Sortable>(things: Vec<T>) -> (r: Vec<T>)
    ensures
        in_order::<T>(r.deep_view()),
        r.deep_view().to_multiset() == things.deep_view().to_multiset(),
{
    let mut rest = things;
    let ghost all = rest.deep_view().to_multiset();
    let mut out: Vec<T> = Vec::new();
    proof {
        assert(out.deep_view() =~= Seq::empty());
        out.deep_view().to_multiset_ensures();
        assert(out.deep_view().to_multiset().add(rest.deep_view().to_multiset()) =~= all);
    }
    while rest.len() > 0
        invariant
            in_order::<T>(out.deep_view()),
            out.deep_view().to_multiset().add(rest.deep_view().to_multiset()) == all,
        decreases rest.len(),
    {
        let ghost rest0 = rest.deep_view();
        let ghost out0 = out.deep_view();
        let x = match rest.pop() {
            Some(x) => x,
            None => {
                return out;
            },
        };
        let ghost seen = x.deep_view();
        let mut k: usize = 0;
        while k < out.len() && !x.is_before(&out[k])
            invariant
                k <= out.len(),
                out.deep_view() == out0,
                x.deep_view() == seen,
                forall|j: int| 0 <= j < k ==> !T::before(seen, #[trigger] out0[j]),
            decreases out.len() - k,
        {
            assert(out0[k as int] == out@[k as int].deep_view());
            k = k + 1;
        }
        proof {
            if k < out.len() {
                assert(out0[k as int] == out@[k as int].deep_view());
            }
            lemma_insert_keeps_order::<T>(out0, k as int, seen);
        }
        out.insert(k, x);
        proof {
            assert(out.deep_view() =~= out0.insert(k as int, seen));
            to_multiset_insert(out0, k as int, seen);
            assert(rest0 =~= rest.deep_view().push(seen));
            to_multiset_build(rest.deep_view(), seen);
            assert(out.deep_view().to_multiset().add(rest.deep_view().to_multiset()) =~= all);
        }
    }
    proof {
        assert(rest.deep_view() =~= Seq::empty());
        rest.deep_view().to_multiset_ensures();
        assert(out.deep_view().to_multiset() =~= all);
    }
    out
}

} // verus!
