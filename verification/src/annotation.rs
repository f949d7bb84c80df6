//! The annotation algebra.
//!
//! An annotation summarizes a subtree.  It forms a monoid: an identity
//! element, an associative binary combination, and a map from a single
//! leaf to its summary.  Combination order is child-enumeration order;
//! commutativity is not required.

use vstd::prelude::*;

verus! {

/// A monoidal summary of a subtree over leaves of type `L`.
///
/// The three spec functions fix the algebra; the executable methods are
/// held to them exactly, and the two lemmas oblige every implementation
/// to the monoid laws.
pub trait Annotation<L>: Sized {
    /// The neutral element of `combine_spec`.
    spec fn identity_spec() -> Self;

    /// The summary of a single leaf.
    spec fn from_leaf_spec(leaf: L) -> Self;

    /// The combination of two summaries, left argument first.
    spec fn combine_spec(a: Self, b: Self) -> Self;

    /// The identity is neutral on both sides.
    proof fn lemma_identity(a: Self)
        ensures
            Self::combine_spec(Self::identity_spec(), a) == a,
            Self::combine_spec(a, Self::identity_spec()) == a,
    ;

    /// Combination is associative.
    proof fn lemma_associative(a: Self, b: Self, c: Self)
        ensures
            Self::combine_spec(Self::combine_spec(a, b), c) == Self::combine_spec(
                a,
                Self::combine_spec(b, c),
            ),
    ;

    /// The empty annotation.
    fn identity() -> (r: Self)
        ensures
            r == Self::identity_spec(),
    ;

    /// Summarize a single leaf.
    fn from_leaf(leaf: &L) -> (r: Self)
        ensures
            r == Self::from_leaf_spec(*leaf),
    ;

    /// Combine two summaries, `self` first.
    fn combine(&self, other: &Self) -> (r: Self)
        ensures
            r == Self::combine_spec(*self, *other),
    ;

    /// Decide equality of two summaries.
    fn equal(&self, other: &Self) -> (r: bool)
        ensures
            r == (*self == *other),
    ;
}

/// The fold of a sequence of annotations, identity first, in order.
pub open spec fn combine_fold<L, A: Annotation<L>>(xs: Seq<A>) -> A
    decreases xs.len(),
{
    if xs.len() == 0 {
        A::identity_spec()
    } else {
        A::combine_spec(combine_fold::<L, A>(xs.drop_last()), xs.last())
    }
}

/// Fold a slice of annotations with `combine`, in order.  On an empty
/// slice this is the identity; on a single annotation it is that
/// annotation.
pub fn combine_all<L, A: Annotation<L>>(xs: &[A]) -> (r: A)
    ensures
        r == combine_fold::<L, A>(xs@),
{
    let mut acc: A = A::identity();
    let mut i: usize = 0;
    proof {
        assert(xs@.take(0) =~= Seq::<A>::empty());
    }
    while i < xs.len()
        invariant
            i <= xs@.len(),
            acc == combine_fold::<L, A>(xs@.take(i as int)),
        decreases xs@.len() - i,
    {
        acc = acc.combine(&xs[i]);
        proof {
            assert(xs@.take(i + 1).drop_last() =~= xs@.take(i as int));
            assert(xs@.take(i + 1).last() == xs@[i as int]);
        }
        i = i + 1;
    }
    proof {
        assert(xs@.take(xs@.len() as int) =~= xs@);
    }
    acc
}

/// The fold of a single annotation is that annotation.
pub proof fn lemma_combine_fold_single<L, A: Annotation<L>>(a: A)
    ensures
        combine_fold::<L, A>(seq![a]) == a,
{
    assert(seq![a].drop_last() =~= Seq::<A>::empty());
    assert(seq![a].last() == a);
    assert(combine_fold::<L, A>(seq![a].drop_last()) == A::identity_spec());
    A::lemma_identity(a);
}

/// An owned copy of an annotation, obtained by combining it with the
/// identity.
pub fn duplicate<L, A: Annotation<L>>(a: &A) -> (r: A)
    ensures
        r == *a,
{
    let r = a.combine(&A::identity());
    proof {
        A::lemma_identity(*a);
    }
    r
}

} // verus!
