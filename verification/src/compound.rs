//! Compound nodes and their mathematical model.
//!
//! A compound node is an ordered sequence of child slots: empty slots,
//! leaves, or links to annotated subtrees.  The spec-level mirror of a
//! node is a sequence of [`ChildView`]s; a link mirrors to a
//! [`LinkView`] carrying the (possibly absent) materialized subtree, the
//! (possibly absent) cached annotation, and the (possibly absent)
//! content address.
//!
//! The annotation of a node is the left-to-right fold of its children's
//! contributions: the identity for an empty slot, `from_leaf` for a
//! leaf, and — without descending — a subtree link's own annotation.

use vstd::prelude::*;

use crate::annotation::Annotation;
use crate::link::{children_view, Link};
use crate::store::Id;

verus! {

/// One child slot of a compound node.
pub enum Child<L, A> {
    /// A hole in a fixed-arity node.
    Empty,
    /// A leaf value.
    Leaf(L),
    /// An annotated subtree.
    Node(Link<L, A>),
}

/// A compound node: an ordered sequence of child slots.
pub struct Compound<L, A> {
    /// The ordered child slots.
    pub children: Vec<Child<L, A>>,
}

/// The spec-level mirror of one child slot.
pub enum ChildView<L, A> {
    /// A hole.
    Empty,
    /// A leaf value.
    Leaf(L),
    /// A subtree link.
    Node(LinkView<L, A>),
}

/// The spec-level mirror of a link: which of subtree, cached annotation
/// and content address are present, and their values.
pub struct LinkView<L, A> {
    /// The materialized subtree, if held in memory.
    pub tree: Option<Seq<ChildView<L, A>>>,
    /// The cached annotation, if computed or read back.
    pub ann: Option<A>,
    /// The content address, if computed or read back.
    pub id: Option<Id>,
}

/// The contribution of one child slot to its node's annotation.
pub open spec fn child_contrib<L, A: Annotation<L>>(c: ChildView<L, A>) -> A
    decreases c,
{
    match c {
        ChildView::Empty => A::identity_spec(),
        ChildView::Leaf(l) => A::from_leaf_spec(l),
        ChildView::Node(lv) => link_ann(lv),
    }
}

/// The annotation of a link: its cache if present, else the fold over
/// its materialized subtree.
pub open spec fn link_ann<L, A: Annotation<L>>(lv: LinkView<L, A>) -> A
    decreases lv,
{
    if lv.ann is Some {
        lv.ann->Some_0
    } else {
        match lv.tree {
            Some(cs) => children_ann(cs),
            None => A::identity_spec(),
        }
    }
}

/// The annotation of a node: the left-to-right fold of its children's
/// contributions, starting from the identity.
pub open spec fn children_ann<L, A: Annotation<L>>(cs: Seq<ChildView<L, A>>) -> A
    decreases cs,
{
    if cs.len() == 0 {
        A::identity_spec()
    } else {
        A::combine_spec(children_ann(cs.drop_last()), child_contrib(cs.last()))
    }
}

/// Well-formedness of a child slot: its link, if any, is well-formed.
pub open spec fn wf_child<L, A: Annotation<L>>(c: ChildView<L, A>) -> bool
    decreases c,
{
    match c {
        ChildView::Empty => true,
        ChildView::Leaf(_) => true,
        ChildView::Node(lv) => wf_link(lv),
    }
}

/// Well-formedness of a link: it holds a subtree or a cached
/// annotation; a held subtree is well-formed; and a cached annotation
/// agrees with the held subtree.
pub open spec fn wf_link<L, A: Annotation<L>>(lv: LinkView<L, A>) -> bool
    decreases lv,
{
    &&& (lv.tree is Some || lv.ann is Some)
    &&& (lv.tree is Some ==> wf_children(lv.tree->Some_0))
    &&& ((lv.tree is Some && lv.ann is Some) ==> lv.ann->Some_0 == children_ann(lv.tree->Some_0))
}

/// Well-formedness of a node's children.
pub open spec fn wf_children<L, A: Annotation<L>>(cs: Seq<ChildView<L, A>>) -> bool
    decreases cs,
{
    forall|i: int| 0 <= i < cs.len() ==> wf_child(#[trigger] cs[i])
}

/// A child slot with every subtree on its path held in memory.
pub open spec fn child_loaded<L, A>(c: ChildView<L, A>) -> bool
    decreases c,
{
    match c {
        ChildView::Node(lv) => lv.tree is Some && children_loaded(lv.tree->Some_0),
        _ => true,
    }
}

/// A node whose every reachable subtree is held in memory.
pub open spec fn children_loaded<L, A>(cs: Seq<ChildView<L, A>>) -> bool
    decreases cs,
{
    forall|i: int| 0 <= i < cs.len() ==> child_loaded(#[trigger] cs[i])
}

/// The contribution of a child computed by full descent, consulting no
/// caches.  Meaningful on loaded children.
pub open spec fn child_deep_ann<L, A: Annotation<L>>(c: ChildView<L, A>) -> A
    decreases c,
{
    match c {
        ChildView::Empty => A::identity_spec(),
        ChildView::Leaf(l) => A::from_leaf_spec(l),
        ChildView::Node(lv) => match lv.tree {
            Some(cs) => children_deep_ann(cs),
            None => A::identity_spec(),
        },
    }
}

/// The annotation of a node computed by full descent.
pub open spec fn children_deep_ann<L, A: Annotation<L>>(cs: Seq<ChildView<L, A>>) -> A
    decreases cs,
{
    if cs.len() == 0 {
        A::identity_spec()
    } else {
        A::combine_spec(children_deep_ann(cs.drop_last()), child_deep_ann(cs.last()))
    }
}

/// The leaves under a child slot, in child-enumeration order.
pub open spec fn child_leaves<L, A>(c: ChildView<L, A>) -> Seq<L>
    decreases c,
{
    match c {
        ChildView::Empty => Seq::empty(),
        ChildView::Leaf(l) => seq![l],
        ChildView::Node(lv) => match lv.tree {
            Some(cs) => children_leaves(cs),
            None => Seq::empty(),
        },
    }
}

/// The leaves under a node, in child-enumeration order.
pub open spec fn children_leaves<L, A>(cs: Seq<ChildView<L, A>>) -> Seq<L>
    decreases cs,
{
    if cs.len() == 0 {
        Seq::empty()
    } else {
        children_leaves(cs.drop_last()) + child_leaves(cs.last())
    }
}

/// The height of a child slot: leaves and holes are ground; a link adds
/// a level above its subtree.
pub open spec fn child_height<L, A>(c: ChildView<L, A>) -> nat
    decreases c,
{
    match c {
        ChildView::Node(lv) => 1 + match lv.tree {
            Some(cs) => children_height(cs),
            None => 0,
        },
        _ => 0,
    }
}

/// The height of a node: the largest height among its children.
pub open spec fn children_height<L, A>(cs: Seq<ChildView<L, A>>) -> nat
    decreases cs,
{
    if cs.len() == 0 {
        0
    } else if children_height(cs.drop_last()) >= child_height(cs.last())  {
        children_height(cs.drop_last())
    } else {
        child_height(cs.last())
    }
}

/// What cloning one child slot yields: leaves and cached annotations
/// are related by what their own `clone` implementations ensure;
/// structure and addresses are preserved exactly.
pub open spec fn cloned_child<L: Clone, A: Clone>(c1: ChildView<L, A>, c2: ChildView<L, A>) -> bool
    decreases c1,
{
    match (c1, c2) {
        (ChildView::Empty, ChildView::Empty) => true,
        (ChildView::Leaf(l1), ChildView::Leaf(l2)) => vstd::pervasive::cloned::<L>(l1, l2),
        (ChildView::Node(lv1), ChildView::Node(lv2)) => {
            &&& lv1.id == lv2.id
            &&& (match (lv1.ann, lv2.ann) {
                (Some(a1), Some(a2)) => vstd::pervasive::cloned::<A>(a1, a2),
                (None, None) => true,
                _ => false,
            })
            &&& (match (lv1.tree, lv2.tree) {
                (Some(t1), Some(t2)) => cloned_children(t1, t2),
                (None, None) => true,
                _ => false,
            })
        },
        _ => false,
    }
}

/// What cloning a node's children yields, slot by slot.
pub open spec fn cloned_children<L: Clone, A: Clone>(cs1: Seq<ChildView<L, A>>, cs2: Seq<ChildView<L, A>>) -> bool
    decreases cs1,
{
    &&& cs1.len() == cs2.len()
    &&& forall|i: int| 0 <= i < cs1.len() ==> cloned_child(#[trigger] cs1[i], cs2[i])
}

/// A child's height is bounded by its node's height.
pub proof fn lemma_child_height_le<L, A>(cs: Seq<ChildView<L, A>>, i: int)
    requires
        0 <= i < cs.len(),
    ensures
        child_height(cs[i]) <= children_height(cs),
    decreases cs.len(),
{
    if i < cs.len() - 1 {
        lemma_child_height_le(cs.drop_last(), i);
        assert(cs.drop_last()[i] == cs[i]);
    }
}

/// Folding one more child onto a prefix extends the annotation fold.
pub proof fn lemma_children_ann_take<L, A: Annotation<L>>(cs: Seq<ChildView<L, A>>, i: int)
    requires
        0 <= i < cs.len(),
    ensures
        children_ann(cs.take(i + 1)) == A::combine_spec(
            children_ann(cs.take(i)),
            child_contrib(cs[i]),
        ),
{
    assert(cs.take(i + 1).drop_last() =~= cs.take(i));
    assert(cs.take(i + 1).last() == cs[i]);
}

/// On a fully materialized, well-formed node, the annotation computed
/// through the links' caches equals the annotation computed by full
/// descent.
pub proof fn lemma_children_ann_deep<L, A: Annotation<L>>(cs: Seq<ChildView<L, A>>)
    requires
        wf_children(cs),
        children_loaded(cs),
    ensures
        children_ann(cs) == children_deep_ann(cs),
    decreases cs,
{
    if cs.len() > 0 {
        assert(forall|i: int|
            0 <= i < cs.drop_last().len() ==> cs.drop_last()[i] == #[trigger] cs[i]);
        lemma_children_ann_deep(cs.drop_last());
        lemma_child_ann_deep(cs.last());
    }
}

/// On a fully materialized, well-formed child, the cached contribution
/// equals the contribution computed by full descent.
pub proof fn lemma_child_ann_deep<L, A: Annotation<L>>(c: ChildView<L, A>)
    requires
        wf_child(c),
        child_loaded(c),
    ensures
        child_contrib(c) == child_deep_ann(c),
    decreases c,
{
    match c {
        ChildView::Node(lv) => {
            lemma_children_ann_deep(lv.tree->Some_0);
        },
        _ => {},
    }
}

/// However a well-formed link was read, a cached annotation present
/// beside a held subtree equals the annotation derived from that
/// subtree.
pub proof fn lemma_cached_annotation_correct<L, A: Annotation<L>>(lv: LinkView<L, A>)
    requires
        wf_link(lv),
        lv.ann is Some,
        lv.tree is Some,
    ensures
        lv.ann->Some_0 == children_ann(lv.tree->Some_0),
{
}

/// Nodes whose children contribute equally have equal annotations.
pub proof fn lemma_children_ann_congruence<L, A: Annotation<L>>(
    cs1: Seq<ChildView<L, A>>,
    cs2: Seq<ChildView<L, A>>,
)
    requires
        cs1.len() == cs2.len(),
        forall|i: int|
            0 <= i < cs1.len() ==> child_contrib(#[trigger] cs1[i]) == child_contrib(cs2[i]),
    ensures
        children_ann(cs1) == children_ann(cs2),
    decreases cs1.len(),
{
    if cs1.len() > 0 {
        assert(forall|i: int|
            0 <= i < cs1.drop_last().len() ==> #[trigger] cs1.drop_last()[i] == cs1[i]
                && cs2.drop_last()[i] == cs2[i]);
        lemma_children_ann_congruence(cs1.drop_last(), cs2.drop_last());
        assert(child_contrib(cs1.last()) == child_contrib(cs2[cs1.len() - 1]));
    }
}

/// Nodes whose children carry equal leaves have equal leaves.
pub proof fn lemma_children_leaves_congruence<L, A>(
    cs1: Seq<ChildView<L, A>>,
    cs2: Seq<ChildView<L, A>>,
)
    requires
        cs1.len() == cs2.len(),
        forall|i: int|
            0 <= i < cs1.len() ==> child_leaves(#[trigger] cs1[i]) == child_leaves(cs2[i]),
    ensures
        children_leaves(cs1) == children_leaves(cs2),
    decreases cs1.len(),
{
    if cs1.len() > 0 {
        assert(forall|i: int|
            0 <= i < cs1.drop_last().len() ==> #[trigger] cs1.drop_last()[i] == cs1[i]
                && cs2.drop_last()[i] == cs2[i]);
        lemma_children_leaves_congruence(cs1.drop_last(), cs2.drop_last());
        assert(child_leaves(cs1.last()) == child_leaves(cs2[cs1.len() - 1]));
    }
}

impl<L, A> Compound<L, A> {
    /// Create a node with no children.
    pub fn new() -> (r: Compound<L, A>)
        ensures
            r@ == Seq::<ChildView<L, A>>::empty(),
    {
        let r = Compound { children: Vec::new() };
        proof {
            assert(r@ =~= Seq::<ChildView<L, A>>::empty());
        }
        r
    }

    /// The number of child slots.
    pub fn len(&self) -> (r: usize)
        ensures
            r == self@.len(),
    {
        proof {
            crate::link::lemma_children_view(self.children@);
        }
        self.children.len()
    }

    /// A reference to the child slot at `ofs`.
    pub fn child(&self, ofs: usize) -> (c: &Child<L, A>)
        requires
            ofs < self@.len(),
        ensures
            crate::link::child_view(*c) == self@[ofs as int],
    {
        proof {
            crate::link::lemma_children_view(self.children@);
        }
        &self.children[ofs]
    }

    /// Append a child slot.
    pub fn push(&mut self, c: Child<L, A>)
        ensures
            final(self)@ == old(self)@.push(crate::link::child_view(c)),
    {
        let ghost cs0 = self.children@;
        let ghost cv = crate::link::child_view(c);
        self.children.push(c);
        proof {
            assert(self.children@.drop_last() =~= cs0);
            assert(children_view(self.children@) =~= children_view(cs0).push(cv));
        }
    }
}

impl<L, A: Annotation<L>> Compound<L, A> {
    /// Recompute the node's annotation by full descent, consulting no
    /// caches.  On a well-formed tree it returns exactly what the
    /// cache-consulting derivation returns.
    pub fn deep_annotation(&self) -> (r: A)
        requires
            children_loaded(self@),
        ensures
            r == children_deep_ann(self@),
        decreases children_height(self@), 1int,
    {
        proof {
            crate::link::lemma_children_view(self.children@);
        }
        let mut acc: A = A::identity();
        let mut i: usize = 0;
        proof {
            assert(self@.take(0) =~= Seq::<ChildView<L, A>>::empty());
        }
        while i < self.children.len()
            invariant
                children_loaded(self@),
                i <= self@.len(),
                self@.len() == self.children@.len(),
                forall|j: int|
                    0 <= j < self.children@.len() ==> crate::link::child_view(
                        #[trigger] self.children@[j],
                    ) == self@[j],
                acc == children_deep_ann(self@.take(i as int)),
            decreases self@.len() - i,
        {
            proof {
                assert(child_loaded(self@[i as int]));
            }
            let part: A = match &self.children[i] {
                Child::Empty => A::identity(),
                Child::Leaf(l) => A::from_leaf(l),
                Child::Node(link) => {
                    proof {
                        lemma_child_height_le(self@, i as int);
                    }
                    link.compound_ref().deep_annotation()
                },
            };
            acc = acc.combine(&part);
            proof {
                assert(part == child_deep_ann(self@[i as int]));
                assert(self@.take(i + 1).drop_last() =~= self@.take(i as int));
                assert(self@.take(i + 1).last() == self@[i as int]);
                assert(children_deep_ann(self@.take(i + 1)) == A::combine_spec(
                    children_deep_ann(self@.take(i as int)),
                    child_deep_ann(self@[i as int]),
                ));
            }
            i = i + 1;
        }
        proof {
            assert(self@.take(self@.len() as int) =~= self@);
        }
        acc
    }

    /// Derive the node's annotation: fold the children's contributions
    /// in order, consulting subtree links' caches where present and
    /// descending only through uncached links.
    pub fn annotation(&self) -> (r: A)
        requires
            wf_children(self@),
        ensures
            r == children_ann(self@),
        decreases children_height(self@), 1int,
    {
        proof {
            crate::link::lemma_children_view(self.children@);
        }
        let mut acc: A = A::identity();
        let mut i: usize = 0;
        proof {
            assert(self@.take(0) =~= Seq::<ChildView<L, A>>::empty());
        }
        while i < self.children.len()
            invariant
                wf_children(self@),
                i <= self@.len(),
                self@.len() == self.children@.len(),
                forall|j: int|
                    0 <= j < self.children@.len() ==> crate::link::child_view(
                        #[trigger] self.children@[j],
                    ) == self@[j],
                acc == children_ann(self@.take(i as int)),
            decreases self@.len() - i,
        {
            let part: A = match &self.children[i] {
                Child::Empty => A::identity(),
                Child::Leaf(l) => A::from_leaf(l),
                Child::Node(link) => {
                    proof {
                        lemma_child_height_le(self@, i as int);
                    }
                    link.subtree_annotation()
                },
            };
            acc = acc.combine(&part);
            proof {
                lemma_children_ann_take(self@, i as int);
            }
            i = i + 1;
        }
        proof {
            assert(self@.take(self@.len() as int) =~= self@);
        }
        acc
    }
}

} // verus!
