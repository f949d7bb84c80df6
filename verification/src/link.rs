//! The Link: a handle to a subtree.
//!
//! A link holds a subtree in one of several states: only the
//! materialized compound (dirty), the compound with its cached
//! annotation, only a content address with the cached annotation (the
//! subtree lives in the store), or all three.  Reading the annotation
//! caches it; mutating the compound drops the cached annotation and
//! address.

use vstd::prelude::*;

use crate::annotation::Annotation;
use crate::compound::{
    children_ann, child_height, link_ann, wf_children, wf_link, Child, ChildView, Compound,
    LinkView,
};
use crate::canon::Canon;
use crate::store::Id;
use crate::Error;

verus! {

/// The internal state of a link.  `Placeholder` exists only transiently
/// during state swaps and is never observable through the public
/// operations.
pub(crate) enum LinkInner<L, A> {
    /// Transient state during an atomic swap.
    Placeholder,
    /// Only a materialized compound: the dirty state.
    C(Compound<L, A>),
    /// A materialized compound with its cached annotation.
    Ca(Compound<L, A>, A),
    /// Only a content address with the cached annotation.
    Ia(Id, A),
    /// Content address, materialized compound and cached annotation.
    Ica(Id, Compound<L, A>, A),
}

/// A handle to a subtree with lazily cached annotation and content
/// address.
pub struct Link<L, A> {
    pub(crate) inner: LinkInner<L, A>,
}

/// The spec-level mirror of a link.
pub closed spec fn link_view<L, A>(l: Link<L, A>) -> LinkView<L, A>
    decreases l,
{
    match l.inner {
        LinkInner::Placeholder => LinkView { tree: None, ann: None, id: None },
        LinkInner::C(c) => LinkView {
            tree: Some(children_view(c.children@)),
            ann: None,
            id: None,
        },
        LinkInner::Ca(c, a) => LinkView {
            tree: Some(children_view(c.children@)),
            ann: Some(a),
            id: None,
        },
        LinkInner::Ia(id, a) => LinkView { tree: None, ann: Some(a), id: Some(id) },
        LinkInner::Ica(id, c, a) => LinkView {
            tree: Some(children_view(c.children@)),
            ann: Some(a),
            id: Some(id),
        },
    }
}

/// The spec-level mirror of a child slot.
pub open spec fn child_view<L, A>(c: Child<L, A>) -> ChildView<L, A>
    decreases c,
{
    match c {
        Child::Empty => ChildView::Empty,
        Child::Leaf(l) => ChildView::Leaf(l),
        Child::Node(link) => ChildView::Node(link_view(link)),
    }
}

/// The spec-level mirror of a sequence of child slots.
pub open spec fn children_view<L, A>(cs: Seq<Child<L, A>>) -> Seq<ChildView<L, A>>
    decreases cs,
{
    if cs.len() == 0 {
        Seq::empty()
    } else {
        children_view(cs.drop_last()).push(child_view(cs.last()))
    }
}

/// The mirror of a child sequence is its pointwise mirror.
pub broadcast proof fn lemma_children_view<L, A>(cs: Seq<Child<L, A>>)
    ensures
        (#[trigger] children_view(cs)).len() == cs.len(),
        forall|i: int| 0 <= i < cs.len() ==> children_view(cs)[i] == child_view(#[trigger] cs[i]),
    decreases cs,
{
    if cs.len() > 0 {
        lemma_children_view(cs.drop_last());
        assert forall|i: int| 0 <= i < cs.len() implies children_view(cs)[i] == child_view(
            cs[i],
        ) by {
            if i < cs.len() - 1 {
                assert(cs.drop_last()[i] == cs[i]);
                assert(children_view(cs)[i] == children_view(cs.drop_last())[i]);
            } else {
                assert(children_view(cs)[i] == child_view(cs.last()));
            }
        }
    }
}

impl<L, A> View for Link<L, A> {
    type V = LinkView<L, A>;

    open spec fn view(&self) -> LinkView<L, A> {
        link_view(*self)
    }
}

impl<L, A> View for Child<L, A> {
    type V = ChildView<L, A>;

    open spec fn view(&self) -> ChildView<L, A> {
        child_view(*self)
    }
}

impl<L, A> View for Compound<L, A> {
    type V = Seq<ChildView<L, A>>;

    open spec fn view(&self) -> Seq<ChildView<L, A>> {
        children_view(self.children@)
    }
}

impl<L: Clone, A: Clone> Clone for Compound<L, A> {
    /// Duplicate the node: the copy's slots are related to the
    /// original's by what cloning a leaf and an annotation ensure;
    /// structure and addresses carry over exactly.
    fn clone(&self) -> (res: Self)
        ensures
            crate::compound::cloned_children(self@, res@),
        decreases crate::compound::children_height(self@), 2int,
    {
        proof {
            lemma_children_view(self.children@);
        }
        let ghost cs = self@;
        let mut children: Vec<Child<L, A>> = Vec::new();
        let mut i: usize = 0;
        while i < self.children.len()
            invariant
                cs == self@,
                i <= self.children@.len(),
                cs.len() == self.children@.len(),
                forall|j: int|
                    0 <= j < self.children@.len() ==> child_view(#[trigger] self.children@[j])
                        == cs[j],
                children@.len() == i,
                forall|j: int|
                    0 <= j < i ==> crate::compound::cloned_child(
                        cs[j],
                        child_view(#[trigger] children@[j]),
                    ),
            decreases self.children@.len() - i,
        {
            proof {
                crate::compound::lemma_child_height_le(cs, i as int);
            }
            let c = self.children[i].clone();
            children.push(c);
            i = i + 1;
        }
        let res = Compound { children };
        proof {
            lemma_children_view(res.children@);
            assert forall|j: int| 0 <= j < cs.len() implies crate::compound::cloned_child(
                cs[j],
                #[trigger] res@[j],
            ) by {
                assert(res@[j] == child_view(res.children@[j]));
            }
        }
        res
    }
}

impl<L: Clone, A: Clone> Clone for Child<L, A> {
    /// Duplicate one child slot.
    fn clone(&self) -> (res: Self)
        ensures
            crate::compound::cloned_child(self@, res@),
        decreases crate::compound::child_height(self@), 1int,
    {
        match self {
            Child::Empty => Child::Empty,
            Child::Leaf(l) => Child::Leaf(l.clone()),
            Child::Node(link) => Child::Node(link.clone()),
        }
    }
}

impl<L: Clone, A: Clone> Clone for Link<L, A> {
    /// Duplicate the link and the subtree it holds.  The copy is
    /// independent: mutating one side leaves the other unchanged.
    fn clone(&self) -> (res: Self)
        ensures
            crate::compound::cloned_child(
                ChildView::Node(self@),
                ChildView::Node(res@),
            ),
        decreases crate::compound::child_height(ChildView::Node(self@)), 0int,
    {
        match &self.inner {
            LinkInner::Placeholder => Link { inner: LinkInner::Placeholder },
            LinkInner::C(c) => Link { inner: LinkInner::C(c.clone()) },
            LinkInner::Ca(c, a) => Link { inner: LinkInner::Ca(c.clone(), a.clone()) },
            LinkInner::Ia(id, a) => Link { inner: LinkInner::Ia(*id, a.clone()) },
            LinkInner::Ica(id, c, a) => Link { inner: LinkInner::Ica(*id, c.clone(), a.clone()) },
        }
    }
}

impl<L, A> Link<L, A> {
    /// Wrap a fresh compound; the link starts dirty, with no cached
    /// annotation and no content address.
    pub fn new(compound: Compound<L, A>) -> (r: Link<L, A>)
        ensures
            r@ == (LinkView::<L, A> { tree: Some(compound@), ann: None, id: None }),
    {
        Link { inner: LinkInner::C(compound) }
    }

    /// A link to a subtree that lives in the store: only the content
    /// address and the cached annotation are held.
    pub fn stored(id: Id, ann: A) -> (r: Link<L, A>)
        ensures
            r@ == (LinkView::<L, A> { tree: None, ann: Some(ann), id: Some(id) }),
    {
        Link { inner: LinkInner::Ia(id, ann) }
    }

    /// The cached annotation, if one is present.
    pub fn cached_annotation(&self) -> (r: Option<&A>)
        ensures
            match r {
                Some(a) => self@.ann == Some(*a),
                None => self@.ann is None,
            },
    {
        match &self.inner {
            LinkInner::Ca(_, a) => Some(a),
            LinkInner::Ia(_, a) => Some(a),
            LinkInner::Ica(_, _, a) => Some(a),
            LinkInner::C(_) => None,
            LinkInner::Placeholder => None,
        }
    }

    /// The cached content address, if one is present.
    pub fn cached_id(&self) -> (r: Option<Id>)
        ensures
            r == self@.id,
    {
        match &self.inner {
            LinkInner::Ia(id, _) => Some(*id),
            LinkInner::Ica(id, _, _) => Some(*id),
            _ => None,
        }
    }

    /// A reference to the held compound; the subtree must be in memory.
    pub fn compound_ref(&self) -> (r: &Compound<L, A>)
        requires
            self@.tree is Some,
        ensures
            r@ == self@.tree->Some_0,
    {
        match &self.inner {
            LinkInner::C(c) => c,
            LinkInner::Ca(c, _) => c,
            LinkInner::Ica(_, c, _) => c,
            _ => vstd::pervasive::unreached(),
        }
    }
}

impl<L, A: Annotation<L>> Link<L, A> {
    /// The annotation of the held subtree, computed afresh where the
    /// link carries no cache.  Read-only; caches nothing.
    pub fn subtree_annotation(&self) -> (r: A)
        requires
            wf_link(self@),
        ensures
            r == link_ann(self@),
        decreases child_height(ChildView::Node(self@)), 0int,
    {
        match &self.inner {
            LinkInner::Ca(_, a) => crate::annotation::duplicate(a),
            LinkInner::Ia(_, a) => crate::annotation::duplicate(a),
            LinkInner::Ica(_, _, a) => crate::annotation::duplicate(a),
            LinkInner::C(c) => c.annotation(),
            LinkInner::Placeholder => vstd::pervasive::unreached(),
        }
    }

    /// Read the link's annotation, caching it on the link if it was not
    /// cached yet.  The held subtree and content address are untouched.
    pub fn annotation(&mut self) -> (r: &A)
        requires
            wf_link(old(self)@),
        ensures
            wf_link(final(self)@),
            final(self)@.tree == old(self)@.tree,
            final(self)@.id == old(self)@.id,
            final(self)@.ann == Some(link_ann(old(self)@)),
            *r == link_ann(old(self)@),
    {
        let dirty = match &self.inner {
            LinkInner::C(_) => true,
            _ => false,
        };
        if dirty {
            let a = match &self.inner {
                LinkInner::C(c) => c.annotation(),
                _ => vstd::pervasive::unreached(),
            };
            let mut taken = LinkInner::Placeholder;
            core::mem::swap(&mut self.inner, &mut taken);
            match taken {
                LinkInner::C(c) => {
                    self.inner = LinkInner::Ca(c, a);
                },
                _ => {
                    proof {
                        assert(false);
                    }
                },
            }
        }
        match &self.inner {
            LinkInner::Ca(_, a) => a,
            LinkInner::Ia(_, a) => a,
            LinkInner::Ica(_, _, a) => a,
            _ => vstd::pervasive::unreached(),
        }
    }

    /// A mutable reference to the held compound.  The cached annotation
    /// and content address are dropped: the link returns to the dirty
    /// state, holding whatever compound the caller leaves behind.
    ///
    /// On a link whose subtree lives only in the store, first
    /// materialize it with `compound`, then take the mutable reference:
    /// the stored state resolves, and this call then makes it dirty.
    /// Store errors surface from the materializing call unchanged.
    pub fn compound_mut(&mut self) -> (r: &mut Compound<L, A>)
        requires
            old(self)@.tree is Some,
        ensures
            (*r)@ == old(self)@.tree->Some_0,
            final(self)@ == (LinkView { tree: Some((*final(r))@), ann: None, id: None }),
    {
        let mut taken = LinkInner::Placeholder;
        core::mem::swap(&mut self.inner, &mut taken);
        match taken {
            LinkInner::C(c) => {
                self.inner = LinkInner::C(c);
            },
            LinkInner::Ca(c, _) => {
                self.inner = LinkInner::C(c);
            },
            LinkInner::Ica(_, c, _) => {
                self.inner = LinkInner::C(c);
            },
            LinkInner::Ia(id, a) => {
                proof {
                    assert(false);
                }
                self.inner = LinkInner::Ia(id, a);
            },
            LinkInner::Placeholder => {
                proof {
                    assert(false);
                }
            },
        }
        match &mut self.inner {
            LinkInner::C(c) => c,
            _ => vstd::pervasive::unreached(),
        }
    }
}

impl<L, A: crate::cardinality::AsCardinality<L>> Link<L, A> {
    /// Replace the `n`th leaf below this link.  On success the spine is
    /// re-aggregated: the link ends with a fresh cached annotation and
    /// no content address.  Without a hit the link is untouched.
    pub fn nth_mut(&mut self, n: u64, leaf: L) -> (found: bool)
        requires
            wf_link(old(self)@),
            crate::compound::child_loaded(ChildView::Node(old(self)@)),
            crate::compound::children_leaves(old(self)@.tree->Some_0).len()
                < crate::cardinality::card_modulus(),
        ensures
            wf_link(final(self)@),
            crate::compound::child_loaded(ChildView::Node(final(self)@)),
            found == (n < crate::compound::children_leaves(old(self)@.tree->Some_0).len()),
            found ==> {
                &&& final(self)@.tree is Some
                &&& final(self)@.tree->Some_0.len() == old(self)@.tree->Some_0.len()
                &&& crate::compound::children_leaves(final(self)@.tree->Some_0)
                    == crate::compound::children_leaves(old(self)@.tree->Some_0).update(
                    n as int,
                    leaf,
                )
                &&& final(self)@.ann == Some(
                    children_ann::<L, A>(final(self)@.tree->Some_0),
                )
                &&& final(self)@.id is None
            },
            !found ==> final(self)@ == old(self)@,
        decreases child_height(ChildView::Node(old(self)@)), 0int,
    {
        let mut taken = LinkInner::Placeholder;
        core::mem::swap(&mut self.inner, &mut taken);
        match taken {
            LinkInner::C(mut c) => {
                let found = c.nth_mut(n, leaf);
                if found {
                    let a = c.annotation();
                    self.inner = LinkInner::Ca(c, a);
                } else {
                    self.inner = LinkInner::C(c);
                }
                found
            },
            LinkInner::Ca(mut c, a) => {
                let found = c.nth_mut(n, leaf);
                if found {
                    let a2 = c.annotation();
                    self.inner = LinkInner::Ca(c, a2);
                } else {
                    self.inner = LinkInner::Ca(c, a);
                }
                found
            },
            LinkInner::Ica(id, mut c, a) => {
                let found = c.nth_mut(n, leaf);
                if found {
                    let a2 = c.annotation();
                    self.inner = LinkInner::Ca(c, a2);
                } else {
                    self.inner = LinkInner::Ica(id, c, a);
                }
                found
            },
            LinkInner::Ia(id, a) => {
                proof {
                    assert(false);
                }
                self.inner = LinkInner::Ia(id, a);
                false
            },
            LinkInner::Placeholder => {
                proof {
                    assert(false);
                }
                false
            },
        }
    }
}

/// The wire image of a link: its content address followed by its
/// annotation.  The subtree itself is not written; it is reachable
/// through the store by the address.
pub open spec fn link_encoding<L, A: Canon>(lv: LinkView<L, A>) -> Seq<u8> {
    lv.id->Some_0.encoding() + lv.ann->Some_0.encoding()
}

/// The wire image of a link pins its address and its annotation: two
/// links whose images start the same stream carry the same pair.
pub proof fn lemma_link_wire_unique<L, A: Canon>(
    lv1: LinkView<L, A>,
    lv2: LinkView<L, A>,
    s: Seq<u8>,
)
    requires
        lv1.id is Some,
        lv1.ann is Some,
        lv2.id is Some,
        lv2.ann is Some,
        link_encoding(lv1).is_prefix_of(s),
        link_encoding(lv2).is_prefix_of(s),
    ensures
        lv1.id == lv2.id,
        lv1.ann == lv2.ann,
{
    crate::canon::lemma_concat_prefix(lv1.id->Some_0.encoding(), lv1.ann->Some_0.encoding(), s);
    crate::canon::lemma_concat_prefix(lv2.id->Some_0.encoding(), lv2.ann->Some_0.encoding(), s);
    crate::canon::lemma_unique_prefix::<Id>(lv1.id->Some_0, lv2.id->Some_0, s);
    assert(lv1.id->Some_0.encoding().len() == lv2.id->Some_0.encoding().len());
    crate::canon::lemma_unique_prefix::<A>(
        lv1.ann->Some_0,
        lv2.ann->Some_0,
        s.skip(lv1.id->Some_0.encoding().len() as int),
    );
}

impl<L, A: Canon> Link<L, A> {
    /// Append the link's wire image: its address, then its annotation.
    /// Both must be present; persisting puts them there.
    pub fn serialize(&self, sink: &mut Vec<u8>)
        requires
            self@.id is Some,
            self@.ann is Some,
        ensures
            final(sink)@ == old(sink)@ + link_encoding(self@),
    {
        let ghost s0 = sink@;
        match &self.inner {
            LinkInner::Ia(id, a) => {
                id.encode(sink);
                a.encode(sink);
            },
            LinkInner::Ica(id, _, a) => {
                id.encode(sink);
                a.encode(sink);
            },
            _ => {
                proof {
                    assert(false);
                }
            },
        }
        proof {
            assert(sink@ =~= s0 + link_encoding(self@));
        }
    }

    /// The number of bytes `serialize` appends.
    pub fn encoded_len(&self) -> (r: usize)
        requires
            self@.id is Some,
            self@.ann is Some,
            link_encoding(self@).len() <= usize::MAX,
        ensures
            r == link_encoding(self@).len(),
    {
        let a = match self.cached_annotation() {
            Some(a) => a,
            None => vstd::pervasive::unreached(),
        };
        proof {
            assert(link_encoding(self@).len() == 16 + a.encoding().len());
        }
        16 + a.encoded_len()
    }

    /// Parse a link's wire image starting at `*pos`: the link comes
    /// back holding only the address and the cached annotation; the
    /// subtree stays in the store until first use.  Fails without
    /// moving exactly when no link image starts there.
    pub fn deserialize(bytes: &Vec<u8>, pos: &mut usize) -> (r: Result<Link<L, A>, Error>)
        requires
            *old(pos) <= bytes@.len(),
        ensures
            match r {
                Ok(l) => {
                    &&& *old(pos) <= *final(pos) <= bytes@.len()
                    &&& bytes@.subrange(*old(pos) as int, *final(pos) as int) == link_encoding(l@)
                    &&& l@.tree is None
                    &&& l@.ann is Some
                    &&& l@.id is Some
                },
                Err(e) => {
                    &&& e == Error::MalformedData
                    &&& *final(pos) == *old(pos)
                    &&& forall|lv: LinkView<L, A>|
                        lv.id is Some && lv.ann is Some ==> !(#[trigger] link_encoding(
                            lv,
                        )).is_prefix_of(bytes@.skip(*old(pos) as int))
                },
            },
    {
        let p0: usize = *pos;
        let id = match Id::decode(bytes, pos) {
            Ok(id) => id,
            Err(e) => {
                proof {
                    assert forall|lv: LinkView<L, A>|
                        lv.id is Some && lv.ann is Some implies !(#[trigger] link_encoding(
                        lv,
                    )).is_prefix_of(bytes@.skip(p0 as int)) by {
                        if link_encoding(lv).is_prefix_of(bytes@.skip(p0 as int)) {
                            crate::canon::lemma_concat_prefix(
                                lv.id->Some_0.encoding(),
                                lv.ann->Some_0.encoding(),
                                bytes@.skip(p0 as int),
                            );
                        }
                    }
                }
                return Err(e);
            },
        };
        let p1: usize = *pos;
        proof {
            assert(bytes@.subrange(p0 as int, p1 as int) == id.encoding());
            assert(id.encoding().len() == 16);
            assert(p1 == p0 + 16);
        }
        let ann = match A::decode(bytes, pos) {
            Ok(a) => a,
            Err(e) => {
                *pos = p0;
                proof {
                    assert forall|lv: LinkView<L, A>|
                        lv.id is Some && lv.ann is Some implies !(#[trigger] link_encoding(
                        lv,
                    )).is_prefix_of(bytes@.skip(p0 as int)) by {
                        if link_encoding(lv).is_prefix_of(bytes@.skip(p0 as int)) {
                            crate::canon::lemma_concat_prefix(
                                lv.id->Some_0.encoding(),
                                lv.ann->Some_0.encoding(),
                                bytes@.skip(p0 as int),
                            );
                            crate::canon::lemma_unique_prefix::<Id>(
                                lv.id->Some_0,
                                id,
                                bytes@.skip(p0 as int),
                            );
                            assert(bytes@.skip(p0 as int).skip(16) =~= bytes@.skip(p1 as int));
                        }
                    }
                }
                return Err(e);
            },
        };
        let link = Link::<L, A>::stored(id, ann);
        proof {
            assert(bytes@.subrange(p0 as int, *pos as int) =~= link_encoding(link@));
        }
        Ok(link)
    }
}

impl<L: Canon, A: Annotation<L> + Canon> Link<L, A> {
    /// Persist the subtree behind this link: children first, then this
    /// node's image, whose content address the link caches and returns.
    /// A link that already carries an address is left as it is.
    pub fn persist(&mut self, store: &mut crate::store::Store) -> (id: Id)
        requires
            wf_link(old(self)@),
            crate::codec::child_persistable(ChildView::Node(old(self)@)),
            old(store).wf(),
        ensures
            final(store).wf(),
            forall|k: Id| old(store)@.contains_key(k) ==> final(store)@.contains_key(k),
            wf_link(final(self)@),
            final(self)@.id == Some(id),
            final(self)@.ann == Some(link_ann(old(self)@)),
            final(self)@.tree is Some <==> old(self)@.tree is Some,
            old(self)@.tree is Some ==> crate::compound::children_leaves(
                final(self)@.tree->Some_0,
            ) == crate::compound::children_leaves(old(self)@.tree->Some_0),
            crate::compound::child_loaded(ChildView::Node(old(self)@))
                ==> crate::compound::child_loaded(ChildView::Node(final(self)@)),
            old(self)@.id is Some ==> id == old(self)@.id->Some_0 && final(self)@ == old(self)@
                && final(store)@ == old(store)@,
            old(self)@.id is None ==> {
                &&& final(self)@.tree is Some
                &&& final(store)@.contains_key(id)
                &&& final(store)@[id] == crate::codec::compound_encoding(
                    final(self)@.tree->Some_0,
                )
                &&& id.hash == crate::store::hash_of(
                    crate::codec::compound_encoding(final(self)@.tree->Some_0),
                )
                &&& id.len == crate::codec::compound_encoding(final(self)@.tree->Some_0).len()
                &&& crate::codec::good_blob::<L, A>(final(store)@[id], link_ann(old(self)@))
            },
        decreases child_height(ChildView::Node(old(self)@)), 0int,
    {
        let mut taken = LinkInner::Placeholder;
        core::mem::swap(&mut self.inner, &mut taken);
        match taken {
            LinkInner::Ia(id, a) => {
                self.inner = LinkInner::Ia(id, a);
                id
            },
            LinkInner::Ica(id, c, a) => {
                self.inner = LinkInner::Ica(id, c, a);
                id
            },
            LinkInner::C(mut c) => {
                c.persist_children(store);
                let a = c.annotation();
                let mut bytes: Vec<u8> = Vec::new();
                c.encode(&mut bytes);
                proof {
                    assert(bytes@ =~= crate::codec::compound_encoding(c@));
                }
                let id = store.put(&bytes);
                proof {
                    crate::codec::lemma_stored_form::<L, A>(c@);
                }
                self.inner = LinkInner::Ica(id, c, a);
                proof {
                    crate::compound::lemma_children_leaves_congruence::<L, A>(
                        final(self)@.tree->Some_0,
                        old(self)@.tree->Some_0,
                    );
                }
                id
            },
            LinkInner::Ca(mut c, a) => {
                c.persist_children(store);
                let mut bytes: Vec<u8> = Vec::new();
                c.encode(&mut bytes);
                proof {
                    assert(bytes@ =~= crate::codec::compound_encoding(c@));
                }
                let id = store.put(&bytes);
                proof {
                    crate::codec::lemma_stored_form::<L, A>(c@);
                }
                self.inner = LinkInner::Ica(id, c, a);
                proof {
                    crate::compound::lemma_children_leaves_congruence::<L, A>(
                        final(self)@.tree->Some_0,
                        old(self)@.tree->Some_0,
                    );
                }
                id
            },
            LinkInner::Placeholder => {
                proof {
                    assert(false);
                }
                vstd::pervasive::unreached()
            },
        }
    }

    /// The held compound, materializing it from the store on first use:
    /// the stored image is fetched by address, parsed, and checked
    /// against the cached annotation.  Fails with `NotFound` exactly
    /// when the store lacks the address, and with `MalformedData`
    /// exactly when what it holds is not a node image that the cached
    /// annotation describes.
    pub fn compound(&mut self, store: &crate::store::Store) -> (r: Result<&Compound<L, A>, Error>)
        requires
            wf_link(old(self)@),
            store.wf(),
        ensures
            match r {
                Ok(c) => {
                    &&& final(self)@.tree is Some
                    &&& (*c)@ == final(self)@.tree->Some_0
                    &&& final(self)@.ann == old(self)@.ann
                    &&& final(self)@.id == old(self)@.id
                    &&& wf_link(final(self)@)
                    &&& (old(self)@.tree is Some ==> final(self)@ == old(self)@)
                    &&& (old(self)@.tree is None ==> {
                        &&& store@.contains_key(old(self)@.id->Some_0)
                        &&& crate::codec::compound_encoding(final(self)@.tree->Some_0)
                            == store@[old(self)@.id->Some_0]
                        &&& crate::codec::children_stored(final(self)@.tree->Some_0)
                    })
                },
                Err(e) => {
                    &&& final(self)@ == old(self)@
                    &&& old(self)@.tree is None
                    &&& (e == Error::NotFound || e == Error::MalformedData)
                    &&& (e == Error::NotFound <==> !store@.contains_key(old(self)@.id->Some_0))
                    &&& (e == Error::MalformedData <==> store@.contains_key(old(self)@.id->Some_0)
                        && !crate::codec::good_blob::<L, A>(
                        store@[old(self)@.id->Some_0],
                        old(self)@.ann->Some_0,
                    ))
                },
            },
    {
        let loaded = match &self.inner {
            LinkInner::C(_) => true,
            LinkInner::Ca(_, _) => true,
            LinkInner::Ica(_, _, _) => true,
            _ => false,
        };
        if !loaded {
            let id = match &self.inner {
                LinkInner::Ia(id, _) => *id,
                _ => vstd::pervasive::unreached(),
            };
            let bytes = match store.get(&id) {
                Ok(b) => b,
                Err(e) => {
                    return Err(e);
                },
            };
            let mut p: usize = 0;
            let c = match Compound::<L, A>::decode(&bytes, &mut p) {
                Ok(c) => c,
                Err(_) => {
                    proof {
                        assert forall|cs: Seq<ChildView<L, A>>|
                            !(crate::codec::children_stored(cs)
                                && crate::codec::children_encodable(cs)
                                && #[trigger] crate::codec::compound_encoding(cs) == bytes@
                                && children_ann(cs) == old(self)@.ann->Some_0) by {
                            if crate::codec::compound_encoding(cs) == bytes@
                                && crate::codec::children_stored(cs)
                                && crate::codec::children_encodable(cs) {
                                assert(bytes@.skip(0) =~= bytes@);
                                assert(crate::codec::compound_encoding(cs).is_prefix_of(
                                    bytes@.skip(0),
                                ));
                            }
                        }
                    }
                    return Err(Error::MalformedData);
                },
            };
            if p != bytes.len() {
                proof {
                    assert forall|cs: Seq<ChildView<L, A>>|
                        !(crate::codec::children_stored(cs) && crate::codec::children_encodable(cs)
                            && #[trigger] crate::codec::compound_encoding(cs) == bytes@
                            && children_ann(cs) == old(self)@.ann->Some_0) by {
                        if crate::codec::compound_encoding(cs) == bytes@
                            && crate::codec::children_stored(cs)
                            && crate::codec::children_encodable(cs) {
                            assert(crate::codec::compound_encoding(cs).is_prefix_of(bytes@));
                            assert(crate::codec::compound_encoding(c@).is_prefix_of(bytes@)) by {
                                assert(crate::codec::compound_encoding(c@) == bytes@.subrange(
                                    0,
                                    p as int,
                                ));
                                assert(bytes@.subrange(0, p as int).is_prefix_of(bytes@));
                            }
                            crate::codec::lemma_compound_encoding_unique(cs, c@, bytes@);
                        }
                    }
                }
                return Err(Error::MalformedData);
            }
            proof {
                crate::codec::lemma_stored_wf::<L, A>(c@);
            }
            let derived = c.annotation();
            let matches_cache = match &self.inner {
                LinkInner::Ia(_, a) => a.equal(&derived),
                _ => vstd::pervasive::unreached(),
            };
            if !matches_cache {
                proof {
                    assert(bytes@.subrange(0, p as int) =~= bytes@);
                    assert forall|cs: Seq<ChildView<L, A>>|
                        !(crate::codec::children_stored(cs) && crate::codec::children_encodable(cs)
                            && #[trigger] crate::codec::compound_encoding(cs) == bytes@
                            && children_ann(cs) == old(self)@.ann->Some_0) by {
                        if crate::codec::compound_encoding(cs) == bytes@
                            && crate::codec::children_stored(cs)
                            && crate::codec::children_encodable(cs) {
                            assert(crate::codec::compound_encoding(cs).is_prefix_of(bytes@));
                            assert(crate::codec::compound_encoding(c@).is_prefix_of(bytes@));
                            crate::codec::lemma_compound_encoding_unique(cs, c@, bytes@);
                        }
                    }
                }
                return Err(Error::MalformedData);
            }
            proof {
                assert(bytes@.subrange(0, p as int) =~= bytes@);
            }
            let mut taken = LinkInner::Placeholder;
            core::mem::swap(&mut self.inner, &mut taken);
            match taken {
                LinkInner::Ia(id2, a) => {
                    self.inner = LinkInner::Ica(id2, c, a);
                },
                _ => {
                    proof {
                        assert(false);
                    }
                },
            }
        }
        let r = match &self.inner {
            LinkInner::C(c) => c,
            LinkInner::Ca(c, _) => c,
            LinkInner::Ica(_, c, _) => c,
            _ => vstd::pervasive::unreached(),
        };
        Ok(r)
    }
}


impl<L: Canon, A: Annotation<L> + Canon> Compound<L, A> {
    /// Materialize every subtree reachable from this node, descending
    /// at most `depth` link levels below each child slot.  `Ok(true)`
    /// means everything reachable is now in memory; `Ok(false)` means
    /// the depth ran out first.  Contributions, and so the node's
    /// annotation, are untouched; a store error surfaces unchanged
    /// from the fetch that raised it.
    pub fn deep_materialize_children(&mut self, store: &crate::store::Store, depth: u64) -> (r:
        Result<bool, Error>)
        requires
            wf_children(old(self)@),
            store.wf(),
        ensures
            wf_children(final(self)@),
            final(self)@.len() == old(self)@.len(),
            forall|i: int|
                0 <= i < old(self)@.len() ==> crate::compound::child_contrib(
                    #[trigger] final(self)@[i],
                ) == crate::compound::child_contrib(old(self)@[i]),
            children_ann(final(self)@) == children_ann(old(self)@),
            r == Ok::<bool, Error>(true) ==> crate::compound::children_loaded(final(self)@),
            r matches Err(e) ==> e == Error::NotFound || e == Error::MalformedData,
        decreases depth, 1int,
    {
        let ghost cs = old(self)@;
        proof {
            lemma_children_view(self.children@);
        }
        let mut complete = true;
        let mut i: usize = 0;
        while i < self.children.len()
            invariant
                store.wf(),
                wf_children(cs),
                cs == old(self)@,
                i <= self.children@.len(),
                cs.len() == self.children@.len(),
                self@.len() == cs.len(),
                forall|j: int|
                    0 <= j < self.children@.len() ==> child_view(#[trigger] self.children@[j])
                        == self@[j],
                forall|j: int| i <= j < cs.len() ==> #[trigger] self@[j] == cs[j],
                forall|j: int|
                    0 <= j < i ==> crate::compound::child_contrib(#[trigger] self@[j])
                        == crate::compound::child_contrib(cs[j]),
                forall|j: int| 0 <= j < i ==> crate::compound::wf_child(#[trigger] self@[j]),
                complete ==> forall|j: int|
                    0 <= j < i ==> crate::compound::child_loaded(#[trigger] self@[j]),
            decreases self.children@.len() - i,
        {
            let ghost pre = self@;
            proof {
                assert(crate::compound::wf_child(cs[i as int]));
            }
            let kind: u8 = match &self.children[i] {
                Child::Empty => 0,
                Child::Leaf(_) => 1,
                Child::Node(_) => 2,
            };
            if kind == 2 {
                let ghost ch0 = self.children@;
                let mut tmp = Child::Empty;
                core::mem::swap(&mut self.children[i], &mut tmp);
                match tmp {
                    Child::Node(mut link) => {
                        let sub = link.deep_materialize(store, depth);
                        let mut back = Child::Node(link);
                        core::mem::swap(&mut self.children[i], &mut back);
                        proof {
                            lemma_children_view(self.children@);
                            assert(self.children@ =~= ch0.update(
                                i as int,
                                self.children@[i as int],
                            ));
                            assert forall|j: int| 0 <= j < cs.len() && j != i implies
                                #[trigger] self@[j] == pre[j] by {
                                assert(self.children@[j] == ch0[j]);
                            }
                        }
                        match sub {
                            Ok(full) => {
                                if !full {
                                    complete = false;
                                }
                            },
                            Err(e) => {
                                proof {
                                    crate::compound::lemma_children_ann_congruence::<L, A>(
                                        self@,
                                        cs,
                                    );
                                }
                                return Err(e);
                            },
                        }
                    },
                    _ => {
                        proof {
                            assert(false);
                        }
                    },
                }
            }
            i = i + 1;
        }
        proof {
            crate::compound::lemma_children_ann_congruence::<L, A>(self@, cs);
        }
        Ok(complete)
    }
}

impl<L: Canon, A: Annotation<L> + Canon> Link<L, A> {
    /// Materialize the whole subtree behind this link, fetching from
    /// the store level by level, at most `depth` levels deep.
    /// `Ok(true)` means every reachable subtree is now in memory — the
    /// materialization preconditions of the traversals hold below this
    /// link; `Ok(false)` means the depth ran out first.  The cached
    /// annotation and address are untouched, and each fetched node is
    /// checked against its link's cached annotation as in `compound`;
    /// store errors surface unchanged from the fetch that raised them.
    pub fn deep_materialize(&mut self, store: &crate::store::Store, depth: u64) -> (r: Result<
        bool,
        Error,
    >)
        requires
            wf_link(old(self)@),
            store.wf(),
        ensures
            wf_link(final(self)@),
            final(self)@.ann == old(self)@.ann,
            final(self)@.id == old(self)@.id,
            old(self)@.tree is Some ==> final(self)@.tree is Some,
            crate::compound::child_contrib(ChildView::Node(final(self)@))
                == crate::compound::child_contrib(ChildView::Node(old(self)@)),
            r == Ok::<bool, Error>(true) ==> crate::compound::child_loaded(
                ChildView::Node(final(self)@),
            ),
            r matches Err(e) ==> e == Error::NotFound || e == Error::MalformedData,
        decreases depth, 0int,
    {
        if depth == 0 {
            return Ok(false);
        }
        match self.compound(store) {
            Ok(_) => {},
            Err(e) => {
                return Err(e);
            },
        }
        let mut taken = LinkInner::Placeholder;
        core::mem::swap(&mut self.inner, &mut taken);
        match taken {
            LinkInner::C(mut c) => {
                let r = c.deep_materialize_children(store, depth - 1);
                self.inner = LinkInner::C(c);
                r
            },
            LinkInner::Ca(mut c, a) => {
                let r = c.deep_materialize_children(store, depth - 1);
                self.inner = LinkInner::Ca(c, a);
                r
            },
            LinkInner::Ica(id, mut c, a) => {
                let r = c.deep_materialize_children(store, depth - 1);
                self.inner = LinkInner::Ica(id, c, a);
                r
            },
            LinkInner::Ia(id, a) => {
                proof {
                    assert(false);
                }
                self.inner = LinkInner::Ia(id, a);
                Ok(false)
            },
            LinkInner::Placeholder => {
                proof {
                    assert(false);
                }
                Ok(false)
            },
        }
    }
}

} // verus!
