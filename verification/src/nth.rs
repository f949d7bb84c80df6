//! Locating the `n`th leaf.
//!
//! Descent is guided by the cardinality view of the annotations: at a
//! subtree link whose count is at most the remaining index, the whole
//! subtree is skipped and the index reduced by the count; otherwise the
//! walk steps into the subtree.  Leaves are numbered in
//! child-enumeration order.

use vstd::prelude::*;

use crate::cardinality::{
    card_modulus, lemma_cardinality_child, lemma_child_leaves_le, AsCardinality,
};
use crate::compound::{
    child_leaves, child_loaded, children_height, children_leaves, children_loaded,
    lemma_child_height_le, wf_child, wf_children, ChildView, Compound,
};
use crate::compound::Child;
use crate::link::{child_view, lemma_children_view};

verus! {

/// The leaves of a node split at any point into the leaves of the
/// prefix and the leaves of the rest.
pub proof fn lemma_children_leaves_split<L, A>(cs: Seq<ChildView<L, A>>, k: int)
    requires
        0 <= k <= cs.len(),
    ensures
        children_leaves(cs) == children_leaves(cs.take(k)) + children_leaves(cs.skip(k)),
    decreases cs.len(),
{
    if k == cs.len() {
        assert(cs.take(k) =~= cs);
        assert(cs.skip(k) =~= Seq::<ChildView<L, A>>::empty());
        assert(children_leaves(cs) =~= children_leaves(cs.take(k)) + children_leaves(cs.skip(k)));
    } else if cs.len() > 0 {
        lemma_children_leaves_split(cs.drop_last(), k);
        assert(cs.drop_last().take(k) =~= cs.take(k));
        assert(cs.skip(k).drop_last() =~= cs.drop_last().skip(k));
        assert(cs.skip(k).last() == cs.last());
        assert(cs.skip(k).len() > 0);
        assert(children_leaves(cs.skip(k)) == children_leaves(cs.drop_last().skip(k))
            + child_leaves(cs.last()));
        assert(children_leaves(cs) =~= children_leaves(cs.take(k)) + children_leaves(cs.skip(k)));
    }
}

/// The leaves of a node split around any one child.
pub proof fn lemma_children_leaves_decompose<L, A>(cs: Seq<ChildView<L, A>>, i: int)
    requires
        0 <= i < cs.len(),
    ensures
        children_leaves(cs) == children_leaves(cs.take(i)) + child_leaves(cs[i])
            + children_leaves(cs.skip(i + 1)),
{
    lemma_children_leaves_split(cs, i + 1);
    assert(cs.take(i + 1).drop_last() =~= cs.take(i));
    assert(cs.take(i + 1).last() == cs[i]);
    assert(children_leaves(cs.take(i + 1)) == children_leaves(cs.take(i)) + child_leaves(cs[i]));
}

impl<L, A: AsCardinality<L>> Compound<L, A> {
    /// Locate the `n`th leaf, in child-enumeration order; `None`
    /// exactly when fewer than `n + 1` leaves are below the node.
    pub fn nth(&self, n: u64) -> (r: Option<&L>)
        requires
            wf_children(self@),
            children_loaded(self@),
            children_leaves(self@).len() < card_modulus(),
        ensures
            match r {
                Some(l) => n < children_leaves(self@).len() && *l == children_leaves(
                    self@,
                )[n as int],
                None => n >= children_leaves(self@).len(),
            },
        decreases children_height(self@), 1int,
    {
        let ghost cs = self@;
        proof {
            lemma_children_view(self.children@);
            assert(cs.take(0) =~= Seq::<ChildView<L, A>>::empty());
        }
        let mut i: usize = 0;
        let mut remaining: u64 = n;
        while i < self.children.len()
            invariant
                wf_children(cs),
                children_loaded(cs),
                children_leaves(cs).len() < card_modulus(),
                cs == self@,
                i <= self.children@.len(),
                cs.len() == self.children@.len(),
                forall|j: int|
                    0 <= j < self.children@.len() ==> child_view(#[trigger] self.children@[j])
                        == cs[j],
                remaining <= n,
                n - remaining == children_leaves(cs.take(i as int)).len(),
            decreases self.children@.len() - i,
        {
            proof {
                assert(wf_child(cs[i as int]));
                assert(child_loaded(cs[i as int]));
                lemma_children_leaves_decompose(cs, i as int);
                assert(cs.take(i + 1).drop_last() =~= cs.take(i as int));
                assert(cs.take(i + 1).last() == cs[i as int]);
                assert(children_leaves(cs.take(i + 1)) == children_leaves(cs.take(i as int))
                    + child_leaves(cs[i as int]));
            }
            match &self.children[i] {
                Child::Empty => {},
                Child::Leaf(l) => {
                    if remaining == 0 {
                        proof {
                            assert(children_leaves(cs)[n as int] == *l);
                        }
                        return Some(l);
                    } else {
                        remaining = remaining - 1;
                    }
                },
                Child::Node(link) => {
                    let a = link.subtree_annotation();
                    let card = a.cardinality();
                    proof {
                        lemma_cardinality_child(cs[i as int]);
                        lemma_child_leaves_le(cs, i as int);
                        assert(card == child_leaves(cs[i as int]).len());
                    }
                    if card <= remaining {
                        remaining = remaining - card;
                    } else {
                        proof {
                            lemma_child_height_le(cs, i as int);
                        }
                        let sub = link.compound_ref();
                        let r = sub.nth(remaining);
                        proof {
                            if r is Some {
                                assert(children_leaves(cs)[n as int] == child_leaves(
                                    cs[i as int],
                                )[remaining as int]);
                            }
                        }
                        return r;
                    }
                },
            }
            i = i + 1;
        }
        proof {
            assert(cs.take(cs.len() as int) =~= cs);
        }
        None
    }

    /// Replace the `n`th leaf, in child-enumeration order, invalidating
    /// and re-aggregating the caches on the path to it.  Without a hit
    /// the node is untouched.
    pub fn nth_mut(&mut self, n: u64, leaf: L) -> (found: bool)
        requires
            wf_children(old(self)@),
            children_loaded(old(self)@),
            children_leaves(old(self)@).len() < card_modulus(),
        ensures
            wf_children(final(self)@),
            children_loaded(final(self)@),
            final(self)@.len() == old(self)@.len(),
            found == (n < children_leaves(old(self)@).len()),
            found ==> children_leaves(final(self)@) == children_leaves(old(self)@).update(
                n as int,
                leaf,
            ),
            !found ==> final(self)@ == old(self)@,
        decreases children_height(old(self)@), 1int,
    {
        let ghost cs = old(self)@;
        proof {
            lemma_children_view(self.children@);
            assert(cs.take(0) =~= Seq::<ChildView<L, A>>::empty());
        }
        let mut i: usize = 0;
        let mut remaining: u64 = n;
        while i < self.children.len()
            invariant
                wf_children(cs),
                children_loaded(cs),
                children_leaves(cs).len() < card_modulus(),
                cs == self@,
                self@ == old(self)@,
                i <= self.children@.len(),
                cs.len() == self.children@.len(),
                forall|j: int|
                    0 <= j < self.children@.len() ==> child_view(#[trigger] self.children@[j])
                        == cs[j],
                remaining <= n,
                n - remaining == children_leaves(cs.take(i as int)).len(),
            decreases self.children@.len() - i,
        {
            proof {
                assert(wf_child(cs[i as int]));
                assert(child_loaded(cs[i as int]));
                lemma_children_leaves_decompose(cs, i as int);
                assert(cs.take(i + 1).drop_last() =~= cs.take(i as int));
                assert(cs.take(i + 1).last() == cs[i as int]);
                assert(children_leaves(cs.take(i + 1)) == children_leaves(cs.take(i as int))
                    + child_leaves(cs[i as int]));
            }
            let kind: u8 = match &self.children[i] {
                Child::Empty => 0,
                Child::Leaf(_) => 1,
                Child::Node(_) => 2,
            };
            if kind == 1 {
                if remaining == 0 {
                    let ghost ch0 = self.children@;
                    let mut tmp = Child::Leaf(leaf);
                    core::mem::swap(&mut self.children[i], &mut tmp);
                    proof {
                        assert(self.children@ == ch0.update(i as int, Child::Leaf(leaf)));
                        lemma_children_view(self.children@);
                        assert forall|j: int| 0 <= j < cs.len() implies self@[j] == cs.update(
                            i as int,
                            ChildView::<L, A>::Leaf(leaf),
                        )[j] by {
                            if j == i {
                            } else {
                                assert(self.children@[j] == ch0[j]);
                            }
                        }
                        assert(self@ =~= cs.update(i as int, ChildView::Leaf(leaf)));
                        lemma_children_leaves_decompose(self@, i as int);
                        assert(self@.take(i as int) =~= cs.take(i as int));
                        assert(self@.skip(i + 1) =~= cs.skip(i + 1));
                        assert(child_leaves(self@[i as int]) =~= seq![leaf]);
                        assert(child_leaves(cs[i as int]) =~= seq![
                            children_leaves(cs)[n as int],
                        ]);
                        assert(children_leaves(self@) =~= children_leaves(cs).update(
                            n as int,
                            leaf,
                        ));
                        assert forall|j: int| 0 <= j < self@.len() implies wf_child(
                            #[trigger] self@[j],
                        ) && child_loaded(self@[j]) by {
                            if j != i {
                                assert(self@[j] == cs[j]);
                            }
                        }
                    }
                    return true;
                } else {
                    remaining = remaining - 1;
                }
            } else if kind == 2 {
                let card: u64 = match &self.children[i] {
                    Child::Node(link) => {
                        let a = link.subtree_annotation();
                        a.cardinality()
                    },
                    _ => vstd::pervasive::unreached(),
                };
                proof {
                    lemma_cardinality_child(cs[i as int]);
                    lemma_child_leaves_le(cs, i as int);
                    assert(card == child_leaves(cs[i as int]).len());
                }
                if card <= remaining {
                    remaining = remaining - card;
                } else {
                    proof {
                        lemma_child_height_le(cs, i as int);
                    }
                    let ghost ch0 = self.children@;
                    let mut tmp = Child::Empty;
                    core::mem::swap(&mut self.children[i], &mut tmp);
                    let found: bool = match tmp {
                        Child::Node(mut link) => {
                            let f = link.nth_mut(remaining, leaf);
                            let mut back = Child::Node(link);
                            core::mem::swap(&mut self.children[i], &mut back);
                            f
                        },
                        _ => vstd::pervasive::unreached(),
                    };
                    proof {
                        assert(found);
                        lemma_children_view(self.children@);
                        assert(self.children@ =~= ch0.update(
                            i as int,
                            self.children@[i as int],
                        ));
                        assert(wf_child(self@[i as int]) && child_loaded(self@[i as int]));
                        assert forall|j: int| 0 <= j < cs.len() implies self@[j] == cs.update(
                            i as int,
                            self@[i as int],
                        )[j] by {
                            if j == i {
                            } else {
                                assert(self.children@[j] == ch0[j]);
                            }
                        }
                        assert(self@ =~= cs.update(i as int, self@[i as int]));
                        lemma_children_leaves_decompose(self@, i as int);
                        assert(self@.take(i as int) =~= cs.take(i as int));
                        assert(self@.skip(i + 1) =~= cs.skip(i + 1));
                        assert(child_leaves(self@[i as int]) == child_leaves(
                            cs[i as int],
                        ).update(remaining as int, leaf));
                        assert(children_leaves(self@) =~= children_leaves(cs).update(
                            n as int,
                            leaf,
                        ));
                        assert forall|j: int| 0 <= j < self@.len() implies wf_child(
                            #[trigger] self@[j],
                        ) && child_loaded(self@[j]) by {
                            if j != i {
                                assert(self@[j] == cs[j]);
                            }
                        }
                    }
                    return true;
                }
            }
            i = i + 1;
        }
        proof {
            assert(cs.take(cs.len() as int) =~= cs);
        }
        false
    }
}

} // verus!
