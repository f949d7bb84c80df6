//! Guided descent over an annotated tree.
//!
//! A walk shows the caller's decision function each child in offset
//! order: a leaf, or a subtree link whose cached annotation the
//! function may inspect.  The function steers with a [`Step`]: stop at
//! the current leaf, skip to the next offset, descend into the
//! subtree, or abort the whole walk.  Descent into a child happens
//! before any further sibling is visited, and a subtree walked to its
//! end resumes its parent at the next offset.

use vstd::prelude::*;

use crate::annotation::Annotation;
use crate::compound::{
    child_leaves, child_loaded, children_height, children_leaves, children_loaded,
    lemma_child_height_le, wf_child, wf_children, Child, ChildView, Compound, LinkView,
};
use crate::link::{child_view, lemma_children_view, Link};
use crate::nth::lemma_children_leaves_decompose;

verus! {

/// The decision returned by a walker at each visited child.
pub enum Step {
    /// Stop: the leaf at the current position is the result.
    Found,
    /// Skip this child; try the next offset.
    Next,
    /// Descend into this subtree.
    Into,
    /// Terminate the walk with no result.
    Abort,
}

/// What a walker is shown while descending.
pub enum Walk<'a, L, A> {
    /// A leaf at the current offset.
    Leaf(&'a L),
    /// An annotated subtree at the current offset.
    Node(&'a Link<L, A>),
}

/// How a walk over one node ended.
pub enum WalkResult<'a, L> {
    /// The decision function selected this leaf.
    Found(&'a L),
    /// Every child was visited without a hit.
    Exhausted,
    /// The decision function aborted the walk.
    Aborted,
}

/// A subtree link sitting in one child slot, at the slot itself or
/// anywhere below its materialized subtree.
pub open spec fn shown_in_child<L, A>(c: ChildView<L, A>, lv: LinkView<L, A>) -> bool
    decreases c,
{
    match c {
        ChildView::Node(lv2) => lv2 == lv || (match lv2.tree {
            Some(cs) => shown_in_children(cs, lv),
            None => false,
        }),
        _ => false,
    }
}

/// A subtree link sitting in some child slot of the node, at any depth.
pub open spec fn shown_in_children<L, A>(cs: Seq<ChildView<L, A>>, lv: LinkView<L, A>) -> bool
    decreases cs,
{
    exists|i: int| 0 <= i < cs.len() && shown_in_child(#[trigger] cs[i], lv)
}

/// A walk input that a descent over these children can show the
/// decision function: a leaf below the node, or a subtree link at or
/// below one of its slots.
pub open spec fn shown<L, A>(cs: Seq<ChildView<L, A>>, w: Walk<L, A>) -> bool {
    match w {
        Walk::Leaf(l) => children_leaves(cs).contains(*l),
        Walk::Node(n) => shown_in_children(cs, n@),
    }
}

/// A walk input shown within a slot's materialized subtree is shown at
/// the node.
proof fn lemma_shown_lift<L, A>(
    cs: Seq<ChildView<L, A>>,
    i: int,
    sub: Seq<ChildView<L, A>>,
    w: Walk<L, A>,
)
    requires
        0 <= i < cs.len(),
        cs[i] matches ChildView::Node(lv) && lv.tree == Some(sub),
        shown(sub, w),
    ensures
        shown(cs, w),
{
    match w {
        Walk::Leaf(l) => {
            let j = choose|j: int|
                0 <= j < children_leaves(sub).len() && #[trigger] children_leaves(sub)[j] == *l;
            lemma_children_leaves_decompose(cs, i);
            assert(child_leaves(cs[i]) == children_leaves(sub));
            assert(children_leaves(cs)[children_leaves(cs.take(i)).len() + j] == *l);
            assert(children_leaves(cs).contains(*l));
        },
        Walk::Node(n) => {
            assert(shown_in_child(cs[i], n@));
        },
    }
}

impl<L, A: Annotation<L>> Compound<L, A> {
    /// Descend guided by `f`, visiting children in offset order.  A
    /// selected leaf is a leaf of this subtree that `f` answered
    /// `Found` on; an aborted walk was answered `Abort` on something
    /// the descent showed; a node without children is only ever
    /// exhausted; and a decision function that can only answer `Found`
    /// selects a leaf from any node that has one.  `Found` on a
    /// subtree selects within it, and `Into` on a leaf skips it, as a
    /// deterministic reading of mixed-up steps.
    pub fn walk<'a, F: Fn(Walk<'a, L, A>) -> Step>(&'a self, f: &F) -> (r: WalkResult<'a, L>)
        requires
            wf_children(self@),
            children_loaded(self@),
            forall|w: Walk<'a, L, A>| #[trigger] f.requires((w,)),
        ensures
            r matches WalkResult::Found(l) ==> {
                &&& exists|i: int|
                    0 <= i < children_leaves(self@).len() && #[trigger] children_leaves(self@)[i]
                        == *l
                &&& f.ensures((Walk::Leaf(l),), Step::Found)
            },
            r is Aborted ==> exists|w: Walk<'a, L, A>|
                #[trigger] f.ensures((w,), Step::Abort) && shown(self@, w),
            self@.len() == 0 ==> r is Exhausted,
            (children_leaves(self@).len() > 0 && (forall|w: Walk<'a, L, A>, s: Step|
                #[trigger] f.ensures((w,), s) ==> s is Found)) ==> r is Found,
        decreases children_height(self@), 1int,
    {
        let ghost cs = self@;
        let ghost only_found = forall|w: Walk<'a, L, A>, s: Step|
            #[trigger] f.ensures((w,), s) ==> s is Found;
        proof {
            lemma_children_view(self.children@);
            assert(cs.take(0) =~= Seq::<ChildView<L, A>>::empty());
        }
        let mut i: usize = 0;
        while i < self.children.len()
            invariant
                wf_children(cs),
                children_loaded(cs),
                cs == self@,
                i <= self.children@.len(),
                cs.len() == self.children@.len(),
                forall|j: int|
                    0 <= j < self.children@.len() ==> child_view(#[trigger] self.children@[j])
                        == cs[j],
                forall|w: Walk<'a, L, A>| #[trigger] f.requires((w,)),
                only_found == (forall|w: Walk<'a, L, A>, s: Step|
                    #[trigger] f.ensures((w,), s) ==> s is Found),
                only_found ==> children_leaves(cs.take(i as int)).len() == 0,
            decreases self.children@.len() - i,
        {
            proof {
                assert(wf_child(cs[i as int]));
                assert(child_loaded(cs[i as int]));
                lemma_children_leaves_decompose(cs, i as int);
                assert(cs.take(i + 1).drop_last() =~= cs.take(i as int));
                assert(cs.take(i + 1).last() == cs[i as int]);
                assert(children_leaves(cs.take(i + 1)) == children_leaves(cs.take(i as int))
                    + child_leaves(cs[i as int]));
            }
            match &self.children[i] {
                Child::Empty => {
                    proof {
                        assert(children_leaves(cs.take(i + 1)) =~= children_leaves(
                            cs.take(i as int),
                        ));
                    }
                },
                Child::Leaf(l) => {
                    let step = f(Walk::Leaf(l));
                    match step {
                        Step::Found => {
                            proof {
                                assert(child_leaves(cs[i as int]) =~= seq![*l]);
                                assert(children_leaves(cs)[children_leaves(
                                    cs.take(i as int),
                                ).len() as int] == *l);
                            }
                            return WalkResult::Found(l);
                        },
                        Step::Abort => {
                            proof {
                                assert(child_leaves(cs[i as int]) =~= seq![*l]);
                                assert(children_leaves(cs)[children_leaves(
                                    cs.take(i as int),
                                ).len() as int] == *l);
                                assert(children_leaves(cs).contains(*l));
                                assert(shown(cs, Walk::Leaf(l)));
                            }
                            return WalkResult::Aborted;
                        },
                        _ => {
                            proof {
                                if only_found {
                                    assert(f.ensures((Walk::Leaf(l),), step));
                                    assert(false);
                                }
                            }
                        },
                    }
                },
                Child::Node(link) => {
                    let step = f(Walk::Node(link));
                    match step {
                        Step::Next => {
                            proof {
                                if only_found {
                                    assert(f.ensures((Walk::Node(link),), step));
                                    assert(false);
                                }
                            }
                        },
                        Step::Abort => {
                            proof {
                                assert(shown_in_child(cs[i as int], link@));
                                assert(shown(cs, Walk::Node(link)));
                            }
                            return WalkResult::Aborted;
                        },
                        _ => {
                            proof {
                                lemma_child_height_le(cs, i as int);
                            }
                            let sub = link.compound_ref();
                            match sub.walk(f) {
                                WalkResult::Found(l) => {
                                    proof {
                                        let j = choose|j: int|
                                            0 <= j < children_leaves(sub@).len()
                                                && #[trigger] children_leaves(sub@)[j] == *l;
                                        assert(children_leaves(cs)[children_leaves(
                                            cs.take(i as int),
                                        ).len() + j] == *l);
                                    }
                                    return WalkResult::Found(l);
                                },
                                WalkResult::Aborted => {
                                    proof {
                                        let w = choose|w: Walk<'a, L, A>|
                                            #[trigger] f.ensures((w,), Step::Abort) && shown(
                                                sub@,
                                                w,
                                            );
                                        lemma_shown_lift(cs, i as int, sub@, w);
                                    }
                                    return WalkResult::Aborted;
                                },
                                WalkResult::Exhausted => {
                                    proof {
                                        if only_found {
                                            assert(children_leaves(sub@).len() == 0);
                                            assert(child_leaves(cs[i as int]) == children_leaves(
                                                sub@,
                                            ));
                                        }
                                    }
                                },
                            }
                        },
                    }
                },
            }
            i = i + 1;
        }
        proof {
            assert(cs.take(cs.len() as int) =~= cs);
        }
        WalkResult::Exhausted
    }
}

} // verus!
