//! The maximum-key annotation: the largest leaf key of a subtree.
//!
//! Leaves expose a key through [`Keyed`]; keys carry a total order
//! through [`Ordered`].  `Max` is the annotation tracking the largest
//! key below a node, with `NegativeInfinity` — smaller than every
//! key — as the identity.

use vstd::prelude::*;

use crate::annotation::Annotation;
use crate::compound::{
    child_leaves, child_loaded, children_ann, children_height, children_leaves, children_loaded,
    lemma_child_height_le, wf_child, wf_children, child_contrib, ChildView, Compound,
};
use crate::compound::Child;
use crate::link::{child_view, lemma_children_view};
use crate::canon::Canon;
use crate::Error;

verus! {

/// A key type with a decidable total order.
pub trait Ordered: Sized {
    /// The order itself.
    spec fn le_spec(a: Self, b: Self) -> bool;

    /// Any two keys are comparable.
    proof fn lemma_total(a: Self, b: Self)
        ensures
            Self::le_spec(a, b) || Self::le_spec(b, a),
    ;

    /// The order is transitive.
    proof fn lemma_transitive(a: Self, b: Self, c: Self)
        requires
            Self::le_spec(a, b),
            Self::le_spec(b, c),
        ensures
            Self::le_spec(a, c),
    ;

    /// Keys below each other are equal.
    proof fn lemma_antisymmetric(a: Self, b: Self)
        requires
            Self::le_spec(a, b),
            Self::le_spec(b, a),
        ensures
            a == b,
    ;

    /// Decide the order.
    fn le(&self, other: &Self) -> (r: bool)
        ensures
            r == Self::le_spec(*self, *other),
    ;

    /// An owned copy of a key.
    fn duplicate(&self) -> (r: Self)
        ensures
            r == *self,
    ;
}

impl Ordered for u64 {
    open spec fn le_spec(a: u64, b: u64) -> bool {
        a <= b
    }

    proof fn lemma_total(a: u64, b: u64) {
    }

    proof fn lemma_transitive(a: u64, b: u64, c: u64) {
    }

    proof fn lemma_antisymmetric(a: u64, b: u64) {
    }

    fn le(&self, other: &u64) -> (r: bool) {
        *self <= *other
    }

    fn duplicate(&self) -> (r: u64) {
        *self
    }
}

/// A leaf that exposes a key of type `K`.
pub trait Keyed<K>: Sized {
    /// The exposed key.
    spec fn key_spec(self) -> K;

    /// Read the key.
    fn key(&self) -> (r: K)
        ensures
            r == self.key_spec(),
    ;
}

impl Keyed<u64> for u64 {
    open spec fn key_spec(self) -> u64 {
        self
    }

    fn key(&self) -> (r: u64) {
        *self
    }
}

/// The largest key below a node, or `NegativeInfinity` where no leaf
/// is below it.
#[derive(Clone, Debug, PartialEq, Eq)]
pub enum Max<K> {
    /// The identity: smaller than every key.
    NegativeInfinity,
    /// The largest key seen.
    Maximum(K),
}

/// The order on `Max`: `NegativeInfinity` is below everything;
/// maxima compare by their keys.
pub open spec fn max_le<K: Ordered>(a: Max<K>, b: Max<K>) -> bool {
    match (a, b) {
        (Max::NegativeInfinity, _) => true,
        (Max::Maximum(_), Max::NegativeInfinity) => false,
        (Max::Maximum(x), Max::Maximum(y)) => K::le_spec(x, y),
    }
}

impl<L, K> Annotation<L> for Max<K> where L: Keyed<K>, K: Ordered {
    open spec fn identity_spec() -> Max<K> {
        Max::NegativeInfinity
    }

    open spec fn from_leaf_spec(leaf: L) -> Max<K> {
        Max::Maximum(leaf.key_spec())
    }

    open spec fn combine_spec(a: Max<K>, b: Max<K>) -> Max<K> {
        if max_le(a, b) {
            b
        } else {
            a
        }
    }

    proof fn lemma_identity(a: Max<K>) {
        match a {
            Max::NegativeInfinity => {},
            Max::Maximum(_) => {},
        }
    }

    proof fn lemma_associative(a: Max<K>, b: Max<K>, c: Max<K>) {
        match (a, b, c) {
            (Max::Maximum(x), Max::Maximum(y), Max::Maximum(z)) => {
                K::lemma_total(x, y);
                K::lemma_total(y, z);
                K::lemma_total(x, z);
                if K::le_spec(x, y) && K::le_spec(y, z) {
                    K::lemma_transitive(x, y, z);
                }
                if K::le_spec(z, y) && K::le_spec(y, x) {
                    K::lemma_transitive(z, y, x);
                }
                if K::le_spec(x, y) && K::le_spec(y, x) {
                    K::lemma_antisymmetric(x, y);
                }
                if K::le_spec(y, z) && K::le_spec(z, y) {
                    K::lemma_antisymmetric(y, z);
                }
                if K::le_spec(x, z) && K::le_spec(z, x) {
                    K::lemma_antisymmetric(x, z);
                }
                if K::le_spec(y, x) && K::le_spec(x, z) {
                    K::lemma_transitive(y, x, z);
                }
                if K::le_spec(z, x) && K::le_spec(x, y) {
                    K::lemma_transitive(z, x, y);
                }
                if K::le_spec(y, z) && K::le_spec(z, x) {
                    K::lemma_transitive(y, z, x);
                }
                if K::le_spec(x, z) && K::le_spec(z, y) {
                    K::lemma_transitive(x, z, y);
                }
                if K::le_spec(z, y) && K::le_spec(y, x) {
                    K::lemma_transitive(z, y, x);
                }
            },
            _ => {},
        }
    }

    fn identity() -> (r: Max<K>) {
        Max::NegativeInfinity
    }

    fn from_leaf(leaf: &L) -> (r: Max<K>) {
        Max::Maximum(leaf.key())
    }

    fn combine(&self, other: &Max<K>) -> (r: Max<K>) {
        match (self, other) {
            (Max::NegativeInfinity, Max::NegativeInfinity) => Max::NegativeInfinity,
            (Max::NegativeInfinity, Max::Maximum(y)) => Max::Maximum(y.duplicate()),
            (Max::Maximum(x), Max::NegativeInfinity) => Max::Maximum(x.duplicate()),
            (Max::Maximum(x), Max::Maximum(y)) => {
                if x.le(y) {
                    Max::Maximum(y.duplicate())
                } else {
                    Max::Maximum(x.duplicate())
                }
            },
        }
    }

    fn equal(&self, other: &Max<K>) -> (r: bool) {
        match (self, other) {
            (Max::NegativeInfinity, Max::NegativeInfinity) => true,
            (Max::Maximum(x), Max::Maximum(y)) => {
                proof {
                    K::lemma_total(*x, *y);
                    if K::le_spec(*x, *y) && K::le_spec(*y, *x) {
                        K::lemma_antisymmetric(*x, *y);
                    }
                }
                x.le(y) && y.le(x)
            },
            _ => false,
        }
    }
}

/// What it means for a `Max` value to describe a leaf sequence: it is
/// `NegativeInfinity` exactly on no leaves, and otherwise carries a key
/// that some leaf exposes and that no leaf exceeds.
pub open spec fn is_max_of<L: Keyed<K>, K: Ordered>(a: Max<K>, ls: Seq<L>) -> bool {
    match a {
        Max::NegativeInfinity => ls.len() == 0,
        Max::Maximum(k) => {
            &&& ls.len() > 0
            &&& exists|i: int| 0 <= i < ls.len() && (#[trigger] ls[i]).key_spec() == k
            &&& forall|i: int| 0 <= i < ls.len() ==> K::le_spec((#[trigger] ls[i]).key_spec(), k)
        },
    }
}

/// On a loaded, well-formed node, the `Max` annotation describes the
/// leaves below it.
pub proof fn lemma_max_children<L: Keyed<K>, K: Ordered>(cs: Seq<ChildView<L, Max<K>>>)
    requires
        wf_children(cs),
        children_loaded(cs),
    ensures
        is_max_of(children_ann(cs), children_leaves(cs)),
    decreases cs,
{
    if cs.len() == 0 {
    } else {
        assert(forall|i: int|
            0 <= i < cs.drop_last().len() ==> cs.drop_last()[i] == #[trigger] cs[i]);
        lemma_max_children(cs.drop_last());
        lemma_max_child(cs.last());
        let a1 = children_ann(cs.drop_last());
        let a2 = child_contrib(cs.last());
        let l1 = children_leaves(cs.drop_last());
        let l2 = child_leaves(cs.last());
        match (a1, a2) {
            (Max::NegativeInfinity, _) => {
                assert(children_leaves(cs) =~= l2);
            },
            (Max::Maximum(_), Max::NegativeInfinity) => {
                assert(children_leaves(cs) =~= l1);
            },
            (Max::Maximum(k1), Max::Maximum(k2)) => {
                K::lemma_total(k1, k2);
                let k = if K::le_spec(k1, k2) {
                    k2
                } else {
                    k1
                };
                assert forall|i: int| 0 <= i < children_leaves(cs).len() implies K::le_spec(
                    (#[trigger] children_leaves(cs)[i]).key_spec(),
                    k,
                ) by {
                    if i < l1.len() {
                        assert(children_leaves(cs)[i] == l1[i]);
                        if K::le_spec(k1, k2) {
                            K::lemma_transitive(l1[i].key_spec(), k1, k2);
                        }
                    } else {
                        assert(children_leaves(cs)[i] == l2[i - l1.len()]);
                        if !K::le_spec(k1, k2) {
                            K::lemma_transitive(l2[i - l1.len()].key_spec(), k2, k1);
                        }
                    }
                }
                if K::le_spec(k1, k2) {
                    let i2 = choose|i: int| 0 <= i < l2.len() && (#[trigger] l2[i]).key_spec()
                        == k2;
                    assert(children_leaves(cs)[l1.len() + i2].key_spec() == k);
                } else {
                    let i1 = choose|i: int| 0 <= i < l1.len() && (#[trigger] l1[i]).key_spec()
                        == k1;
                    assert(children_leaves(cs)[i1].key_spec() == k);
                }
            },
        }
    }
}

/// On a loaded, well-formed child, its contribution describes its
/// leaves.
pub proof fn lemma_max_child<L: Keyed<K>, K: Ordered>(c: ChildView<L, Max<K>>)
    requires
        wf_child(c),
        child_loaded(c),
    ensures
        is_max_of(child_contrib(c), child_leaves(c)),
    decreases c,
{
    match c {
        ChildView::Empty => {},
        ChildView::Leaf(l) => {
            K::lemma_total(l.key_spec(), l.key_spec());
            assert(child_leaves::<L, Max<K>>(c)[0] == l);
        },
        ChildView::Node(lv) => {
            lemma_max_children(lv.tree->Some_0);
        },
    }
}

impl<L: Keyed<K>, K: Ordered> Compound<L, Max<K>> {
    /// Locate a leaf whose key is at least every other leaf's key;
    /// `None` exactly when the node has no leaves.
    pub fn max_key(&self) -> (r: Option<&L>)
        requires
            wf_children(self@),
            children_loaded(self@),
        ensures
            match r {
                Some(l) => {
                    &&& exists|i: int|
                        0 <= i < children_leaves(self@).len() && #[trigger] children_leaves(
                            self@,
                        )[i] == *l
                    &&& forall|i: int|
                        0 <= i < children_leaves(self@).len() ==> K::le_spec(
                            (#[trigger] children_leaves(self@)[i]).key_spec(),
                            l.key_spec(),
                        )
                },
                None => children_leaves(self@).len() == 0,
            },
        decreases children_height(self@), 1int,
    {
        let ghost cs = self@;
        proof {
            lemma_children_view(self.children@);
            assert(cs.take(0) =~= Seq::<ChildView<L, Max<K>>>::empty());
        }
        let mut best: Option<&L> = None;
        let mut i: usize = 0;
        while i < self.children.len()
            invariant
                wf_children(cs),
                children_loaded(cs),
                cs == self@,
                i <= self.children@.len(),
                cs.len() == self.children@.len(),
                forall|j: int|
                    0 <= j < self.children@.len() ==> child_view(#[trigger] self.children@[j])
                        == cs[j],
                match best {
                    None => children_leaves(cs.take(i as int)).len() == 0,
                    Some(l) => {
                        &&& exists|j: int|
                            0 <= j < children_leaves(cs.take(i as int)).len()
                                && #[trigger] children_leaves(cs.take(i as int))[j] == *l
                        &&& forall|j: int|
                            0 <= j < children_leaves(cs.take(i as int)).len() ==> K::le_spec(
                                (#[trigger] children_leaves(cs.take(i as int))[j]).key_spec(),
                                l.key_spec(),
                            )
                    },
                },
            decreases self.children@.len() - i,
        {
            proof {
                assert(wf_child(cs[i as int]));
                assert(child_loaded(cs[i as int]));
                assert(cs.take(i + 1).drop_last() =~= cs.take(i as int));
                assert(cs.take(i + 1).last() == cs[i as int]);
                assert(children_leaves(cs.take(i + 1)) == children_leaves(cs.take(i as int))
                    + child_leaves(cs[i as int]));
            }
            let ghost lt = children_leaves(cs.take(i as int));
            let ghost lc = child_leaves(cs[i as int]);
            let ghost prev = best;
            match &self.children[i] {
                Child::Empty => {
                    proof {
                        assert(children_leaves(cs.take(i + 1)) =~= lt);
                    }
                },
                Child::Leaf(l2) => {
                    proof {
                        assert(lc =~= seq![*l2]);
                    }
                    let r = pick_better(best, l2);
                    best = Some(r);
                    proof {
                        assert(lc[0] == *l2);
                        K::lemma_total((*l2).key_spec(), (*l2).key_spec());
                        lemma_step_invariant(lt, lc, prev, *r, *l2, *l2);
                        assert(children_leaves(cs.take(i + 1)) == lt + lc);
                    }
                },
                Child::Node(link) => {
                    let a = link.subtree_annotation();
                    proof {
                        lemma_max_child(cs[i as int]);
                    }
                    match a {
                        Max::NegativeInfinity => {
                            proof {
                                assert(children_leaves(cs.take(i + 1)) =~= lt);
                            }
                        },
                        Max::Maximum(k) => {
                            let skip_subtree = match best {
                                None => false,
                                Some(b) => {
                                    let bk = b.key();
                                    proof {
                                        K::lemma_total(k, bk);
                                    }
                                    k.le(&bk)
                                },
                            };
                            if skip_subtree {
                                proof {
                                    let b = prev->Some_0;
                                    assert forall|j: int| 0 <= j < (lt + lc).len() implies
                                        K::le_spec(
                                        (#[trigger] (lt + lc)[j]).key_spec(),
                                        b.key_spec(),
                                    ) by {
                                        if j >= lt.len() {
                                            assert((lt + lc)[j] == lc[j - lt.len()]);
                                            K::lemma_transitive(
                                                lc[j - lt.len()].key_spec(),
                                                k,
                                                b.key_spec(),
                                            );
                                        } else {
                                            assert((lt + lc)[j] == lt[j]);
                                        }
                                    }
                                    let j0 = choose|j: int|
                                        0 <= j < lt.len() && #[trigger] lt[j] == b;
                                    assert((lt + lc)[j0] == b);
                                    assert(children_leaves(cs.take(i + 1)) == lt + lc);
                                }
                            } else {
                                proof {
                                    lemma_child_height_le(cs, i as int);
                                }
                                let sub = link.compound_ref();
                                let sb = sub.max_key();
                                match sb {
                                    None => {
                                        proof {
                                            assert(false);
                                        }
                                    },
                                    Some(l2) => {
                                        let r = pick_better(best, l2);
                                        best = Some(r);
                                        proof {
                                            let ghost i2 = choose|j: int|
                                                0 <= j < lc.len() && #[trigger] lc[j] == *l2;
                                            assert forall|j: int| 0 <= j < lc.len() implies
                                                K::le_spec(
                                                (#[trigger] lc[j]).key_spec(),
                                                l2.key_spec(),
                                            ) by {}
                                            lemma_step_invariant(lt, lc, prev, *r, *l2, lc[i2]);
                                            assert(children_leaves(cs.take(i + 1)) == lt + lc);
                                        }
                                    },
                                }
                            }
                        },
                    }
                },
            }
            i = i + 1;
        }
        proof {
            assert(cs.take(cs.len() as int) =~= cs);
        }
        best
    }
}

/// The better of the running best and a candidate leaf, under the key
/// order: the result dominates both and is one of them.
fn pick_better<'a, L: Keyed<K>, K: Ordered>(best: Option<&'a L>, cand: &'a L) -> (r: &'a L)
    ensures
        K::le_spec(cand.key_spec(), r.key_spec()),
        match best {
            None => *r == *cand,
            Some(b) => (*r == *cand || *r == *b) && K::le_spec(b.key_spec(), r.key_spec()),
        },
{
    match best {
        None => {
            proof {
                K::lemma_total(cand.key_spec(), cand.key_spec());
            }
            cand
        },
        Some(b) => {
            let bk = b.key();
            let ck = cand.key();
            proof {
                K::lemma_total(bk, ck);
                K::lemma_total(ck, ck);
                K::lemma_total(bk, bk);
            }
            if bk.le(&ck) {
                cand
            } else {
                b
            }
        },
    }
}

/// Stepping the walk's invariant: if the old best dominates the prefix
/// leaves, the candidate is among this child's leaves and dominates
/// them, and the new best is the better of the two, then the new best
/// lies among and dominates the extended prefix.
proof fn lemma_step_invariant<L: Keyed<K>, K: Ordered>(
    lt: Seq<L>,
    lc: Seq<L>,
    prev: Option<&L>,
    r: L,
    cand: L,
    witness: L,
)
    requires
        match prev {
            None => lt.len() == 0,
            Some(b) => {
                &&& exists|j: int| 0 <= j < lt.len() && #[trigger] lt[j] == *b
                &&& forall|j: int|
                    0 <= j < lt.len() ==> K::le_spec((#[trigger] lt[j]).key_spec(), b.key_spec())
            },
        },
        exists|j: int| 0 <= j < lc.len() && #[trigger] lc[j] == cand,
        forall|j: int| 0 <= j < lc.len() ==> K::le_spec((#[trigger] lc[j]).key_spec(), cand.key_spec()),
        K::le_spec(cand.key_spec(), r.key_spec()),
        match prev {
            None => r == cand,
            Some(b) => (r == cand || r == *b) && K::le_spec(b.key_spec(), r.key_spec()),
        },
        witness == cand,
    ensures
        exists|j: int| 0 <= j < (lt + lc).len() && #[trigger] (lt + lc)[j] == r,
        forall|j: int|
            0 <= j < (lt + lc).len() ==> K::le_spec((#[trigger] (lt + lc)[j]).key_spec(), r.key_spec()),
{
    assert forall|j: int| 0 <= j < (lt + lc).len() implies K::le_spec(
        (#[trigger] (lt + lc)[j]).key_spec(),
        r.key_spec(),
    ) by {
        if j < lt.len() {
            assert((lt + lc)[j] == lt[j]);
            let b = prev->Some_0;
            K::lemma_transitive(lt[j].key_spec(), b.key_spec(), r.key_spec());
        } else {
            assert((lt + lc)[j] == lc[j - lt.len()]);
            K::lemma_transitive(lc[j - lt.len()].key_spec(), cand.key_spec(), r.key_spec());
        }
    }
    if r == cand {
        let j0 = choose|j: int| 0 <= j < lc.len() && #[trigger] lc[j] == cand;
        assert((lt + lc)[lt.len() + j0] == r);
    } else {
        let b = prev->Some_0;
        let j0 = choose|j: int| 0 <= j < lt.len() && #[trigger] lt[j] == *b;
        assert((lt + lc)[j0] == r);
    }
}

impl<K: Canon> Canon for Max<K> {
    open spec fn encoding(&self) -> Seq<u8> {
        match *self {
            Max::NegativeInfinity => seq![0u8],
            Max::Maximum(k) => seq![1u8] + k.encoding(),
        }
    }

    fn encode(&self, sink: &mut Vec<u8>) {
        let ghost s0 = sink@;
        match self {
            Max::NegativeInfinity => {
                sink.push(0u8);
            },
            Max::Maximum(k) => {
                sink.push(1u8);
                k.encode(sink);
            },
        }
        proof {
            assert(sink@ =~= s0 + self.encoding());
        }
    }

    fn decode(bytes: &Vec<u8>, pos: &mut usize) -> (r: Result<Self, Error>) {
        let p0: usize = *pos;
        let ghost s = bytes@.skip(p0 as int);
        let tag = match u8::decode(bytes, pos) {
            Ok(t) => t,
            Err(e) => {
                proof {
                    if s.len() >= 1 {
                        let b = s[0];
                        assert(b.encoding() =~= seq![b]);
                        assert(b.encoding().is_prefix_of(s));
                    }
                    assert forall|v: Max<K>| !(#[trigger] v.encoding()).is_prefix_of(s) by {
                        assert(v.encoding().len() >= 1);
                    }
                }
                return Err(e);
            },
        };
        let p1: usize = *pos;
        proof {
            assert(bytes@.subrange(p0 as int, p1 as int) == tag.encoding());
            assert(tag.encoding()[0] == tag);
            assert(p1 == p0 + 1);
            assert(s[0] == bytes@[p0 as int]);
            assert(s[0] == tag);
            assert(bytes@.skip(p1 as int) =~= s.skip(1));
        }
        if tag == 0 {
            proof {
                assert(bytes@.subrange(p0 as int, p1 as int) =~= Max::<K>::NegativeInfinity.encoding());
            }
            Ok(Max::NegativeInfinity)
        } else if tag == 1 {
            match K::decode(bytes, pos) {
                Ok(k) => {
                    proof {
                        assert(bytes@.subrange(p0 as int, *pos as int) =~= Max::Maximum(
                            k,
                        ).encoding());
                    }
                    Ok(Max::Maximum(k))
                },
                Err(e) => {
                    *pos = p0;
                    proof {
                        assert forall|v: Max<K>| !(#[trigger] v.encoding()).is_prefix_of(s) by {
                            if v.encoding().is_prefix_of(s) {
                                match v {
                                    Max::NegativeInfinity => {
                                        assert(v.encoding()[0] == 0);
                                    },
                                    Max::Maximum(k) => {
                                        crate::canon::lemma_concat_prefix(
                                            seq![1u8],
                                            k.encoding(),
                                            s,
                                        );
                                        assert(k.encoding().is_prefix_of(bytes@.skip(p1 as int)));
                                    },
                                }
                            }
                        }
                    }
                    Err(e)
                },
            }
        } else {
            *pos = p0;
            proof {
                assert forall|v: Max<K>| !(#[trigger] v.encoding()).is_prefix_of(s) by {
                    if v.encoding().is_prefix_of(s) {
                        match v {
                            Max::NegativeInfinity => {
                                assert(v.encoding()[0] == 0);
                            },
                            Max::Maximum(_) => {
                                assert(v.encoding()[0] == 1);
                            },
                        }
                    }
                }
            }
            Err(Error::MalformedData)
        }
    }

    fn encoded_len(&self) -> (r: usize)
    {
        match self {
            Max::NegativeInfinity => 1,
            Max::Maximum(k) => 1 + k.encoded_len(),
        }
    }

    proof fn lemma_prefix_free(a: Self, b: Self) {
        assert(a.encoding()[0] == b.encoding()[0]);
        match (a, b) {
            (Max::Maximum(x), Max::Maximum(y)) => {
                crate::canon::lemma_concat_prefix(seq![1u8], x.encoding(), b.encoding());
                assert(x.encoding().is_prefix_of(y.encoding())) by {
                    assert(b.encoding().skip(1) =~= y.encoding());
                }
                K::lemma_prefix_free(x, y);
            },
            (Max::NegativeInfinity, Max::NegativeInfinity) => {},
            _ => {
                assert(false);
            },
        }
    }
}

} // verus!
