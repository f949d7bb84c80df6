//! The cardinality annotation: the number of leaves of a subtree.
//!
//! `Cardinality` counts one per leaf and sums across children with
//! wrapping addition.  Any annotation that exposes a cardinality view
//! implements [`AsCardinality`], whose laws tie the exposed count to
//! the algebra; on trees whose leaf count fits the counter, the count
//! at a node equals the number of leaves below it.

use vstd::prelude::*;

use crate::annotation::Annotation;
use crate::canon::{u64_le, Canon};
use crate::Error;
use crate::compound::{
    child_contrib, child_leaves, child_loaded, children_ann, children_leaves, children_loaded,
    wf_child, wf_children, ChildView,
};

verus! {

/// One past the largest value a cardinality counter can hold.
pub open spec fn card_modulus() -> nat {
    0x10000000000000000
}

/// The number of leaves of a subtree, as a wrapping 64-bit counter.
#[derive(Clone, Copy, Debug, PartialEq, Eq, Structural)]
pub struct Cardinality(pub u64);

impl<L> Annotation<L> for Cardinality {
    open spec fn identity_spec() -> Cardinality {
        Cardinality(0)
    }

    open spec fn from_leaf_spec(leaf: L) -> Cardinality {
        Cardinality(1)
    }

    open spec fn combine_spec(a: Cardinality, b: Cardinality) -> Cardinality {
        Cardinality(vstd::wrapping::u64_specs::wrapping_add(a.0, b.0))
    }

    proof fn lemma_identity(a: Cardinality) {
    }

    proof fn lemma_associative(a: Cardinality, b: Cardinality, c: Cardinality) {
    }

    fn identity() -> (r: Cardinality) {
        Cardinality(0)
    }

    fn from_leaf(leaf: &L) -> (r: Cardinality) {
        Cardinality(1)
    }

    fn combine(&self, other: &Cardinality) -> (r: Cardinality) {
        Cardinality(self.0.wrapping_add(other.0))
    }

    fn equal(&self, other: &Cardinality) -> (r: bool) {
        self.0 == other.0
    }
}

impl Canon for Cardinality {
    open spec fn encoding(&self) -> Seq<u8> {
        u64_le(self.0)
    }

    fn encode(&self, sink: &mut Vec<u8>) {
        self.0.encode(sink);
    }

    fn decode(bytes: &Vec<u8>, pos: &mut usize) -> (r: Result<Self, Error>) {
        let ghost p0 = *pos;
        match u64::decode(bytes, pos) {
            Ok(v) => Ok(Cardinality(v)),
            Err(e) => {
                proof {
                    assert forall|v: Cardinality| !(#[trigger] v.encoding()).is_prefix_of(
                        bytes@.skip(p0 as int),
                    ) by {
                        assert(v.encoding() == v.0.encoding());
                    }
                }
                Err(e)
            },
        }
    }

    fn encoded_len(&self) -> (r: usize) {
        8
    }

    proof fn lemma_prefix_free(a: Self, b: Self) {
        <u64 as Canon>::lemma_prefix_free(a.0, b.0);
    }
}

/// An annotation that exposes a cardinality view: a count that is zero
/// on the identity, one on a leaf, and sums (wrapping) across
/// combination.  Walkers that locate the `n`th leaf are polymorphic
/// over it.
pub trait AsCardinality<L>: Annotation<L> {
    /// The exposed leaf count.
    spec fn cardinality_spec(self) -> u64;

    /// The identity exposes count zero.
    proof fn lemma_cardinality_identity()
        ensures
            Self::identity_spec().cardinality_spec() == 0,
    ;

    /// A single leaf exposes count one.
    proof fn lemma_cardinality_leaf(leaf: L)
        ensures
            Self::from_leaf_spec(leaf).cardinality_spec() == 1,
    ;

    /// Combination sums the exposed counts, wrapping.
    proof fn lemma_cardinality_combine(a: Self, b: Self)
        ensures
            Self::combine_spec(a, b).cardinality_spec() == vstd::wrapping::u64_specs::wrapping_add(
                a.cardinality_spec(),
                b.cardinality_spec(),
            ),
    ;

    /// Read the exposed count.
    fn cardinality(&self) -> (r: u64)
        ensures
            r == self.cardinality_spec(),
    ;
}

impl<L> AsCardinality<L> for Cardinality {
    open spec fn cardinality_spec(self) -> u64 {
        self.0
    }

    proof fn lemma_cardinality_identity() {
    }

    proof fn lemma_cardinality_leaf(leaf: L) {
    }

    proof fn lemma_cardinality_combine(a: Cardinality, b: Cardinality) {
    }

    fn cardinality(&self) -> (r: u64) {
        self.0
    }
}

/// On a loaded, well-formed node, the cardinality exposed by the
/// annotation is the number of leaves below, modulo the counter width.
pub proof fn lemma_cardinality_children<L, A: AsCardinality<L>>(cs: Seq<ChildView<L, A>>)
    requires
        wf_children(cs),
        children_loaded(cs),
    ensures
        children_ann(cs).cardinality_spec() as nat == children_leaves(cs).len() % card_modulus(),
    decreases cs,
{
    if cs.len() == 0 {
        A::lemma_cardinality_identity();
    } else {
        assert(forall|i: int|
            0 <= i < cs.drop_last().len() ==> cs.drop_last()[i] == #[trigger] cs[i]);
        lemma_cardinality_children(cs.drop_last());
        lemma_cardinality_child(cs.last());
        A::lemma_cardinality_combine(children_ann(cs.drop_last()), child_contrib(cs.last()));
        vstd::arithmetic::div_mod::lemma_add_mod_noop(
            children_leaves(cs.drop_last()).len() as int,
            child_leaves(cs.last()).len() as int,
            card_modulus() as int,
        );
    }
}

/// On a loaded, well-formed child, its contribution's cardinality is
/// its number of leaves, modulo the counter width.
pub proof fn lemma_cardinality_child<L, A: AsCardinality<L>>(c: ChildView<L, A>)
    requires
        wf_child(c),
        child_loaded(c),
    ensures
        child_contrib(c).cardinality_spec() as nat == child_leaves(c).len() % card_modulus(),
    decreases c,
{
    match c {
        ChildView::Empty => {
            A::lemma_cardinality_identity();
        },
        ChildView::Leaf(l) => {
            A::lemma_cardinality_leaf(l);
        },
        ChildView::Node(lv) => {
            lemma_cardinality_children(lv.tree->Some_0);
        },
    }
}

/// A child's leaves are at most its node's leaves.
pub proof fn lemma_child_leaves_le<L, A>(cs: Seq<ChildView<L, A>>, i: int)
    requires
        0 <= i < cs.len(),
    ensures
        child_leaves(cs[i]).len() <= children_leaves(cs).len(),
    decreases cs.len(),
{
    if i < cs.len() - 1 {
        lemma_child_leaves_le(cs.drop_last(), i);
        assert(cs.drop_last()[i] == cs[i]);
    }
}

} // verus!
