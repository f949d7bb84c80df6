//! The wire format of compound nodes.
//!
//! A node is written as its child count followed by one record per
//! child: a tag byte, then — for a leaf — a two-byte little-endian
//! payload length and the leaf's bytes, or — for a subtree link — the
//! link's content address and its annotation.  A link's subtree is
//! never written inline: it is reachable through the store by its
//! address.  Readers reject unknown tags, truncated records and length
//! mismatches.

use vstd::prelude::*;

use crate::annotation::Annotation;
use crate::canon::{lemma_concat_prefix, lemma_unique_prefix, u16_le, u64_le, Canon};
use crate::compound::{children_ann, lemma_children_ann_congruence, wf_child, wf_children, Child,
    ChildView, Compound, LinkView};
use crate::link::{child_view, children_view, lemma_children_view, Link};
use crate::store::Id;
use crate::Error;

verus! {

/// The byte image of one child slot.  A leaf is its tag, its encoded
/// length and its bytes; a link is its tag, its address and its
/// annotation.
pub open spec fn child_encoding<L: Canon, A: Canon>(c: ChildView<L, A>) -> Seq<u8> {
    match c {
        ChildView::Empty => seq![0u8],
        ChildView::Leaf(l) => seq![1u8] + u16_le(l.encoding().len() as u16) + l.encoding(),
        ChildView::Node(lv) => seq![2u8] + lv.id->Some_0.encoding() + lv.ann->Some_0.encoding(),
    }
}

/// A child slot that can be written: a leaf fits the length field; a
/// link carries its address and annotation.
pub open spec fn child_encodable<L: Canon, A: Canon>(c: ChildView<L, A>) -> bool {
    match c {
        ChildView::Empty => true,
        ChildView::Leaf(l) => l.encoding().len() <= u16::MAX,
        ChildView::Node(lv) => lv.id is Some && lv.ann is Some,
    }
}

/// The concatenated records of a node's children, first child first.
pub open spec fn items_encoding<L: Canon, A: Canon>(cs: Seq<ChildView<L, A>>) -> Seq<u8>
    decreases cs.len(),
{
    if cs.len() == 0 {
        Seq::empty()
    } else {
        child_encoding(cs[0]) + items_encoding(cs.skip(1))
    }
}

/// A node whose every child can be written, with a count that fits the
/// count field.
pub open spec fn children_encodable<L: Canon, A: Canon>(cs: Seq<ChildView<L, A>>) -> bool {
    &&& cs.len() <= u64::MAX
    &&& forall|i: int| 0 <= i < cs.len() ==> child_encodable(#[trigger] cs[i])
}

/// The byte image of a whole node: the child count, then the records.
pub open spec fn compound_encoding<L: Canon, A: Canon>(cs: Seq<ChildView<L, A>>) -> Seq<u8> {
    u64_le(cs.len() as u64) + items_encoding(cs)
}

/// The shape a decoded node has: every subtree link holds only its
/// address and cached annotation, not yet materialized.
pub open spec fn child_stored<L, A>(c: ChildView<L, A>) -> bool {
    match c {
        ChildView::Node(lv) => lv.tree is None && lv.ann is Some && lv.id is Some,
        _ => true,
    }
}

/// Every child of the node is in stored shape.
pub open spec fn children_stored<L, A>(cs: Seq<ChildView<L, A>>) -> bool {
    forall|i: int| 0 <= i < cs.len() ==> child_stored(#[trigger] cs[i])
}

/// Stored-shape children are well-formed and writable.
pub proof fn lemma_stored_wf<L: Canon, A: Annotation<L> + Canon>(cs: Seq<ChildView<L, A>>)
    requires
        children_stored(cs),
        cs.len() <= u64::MAX,
        forall|i: int|
            0 <= i < cs.len() ==> ((#[trigger] cs[i]) matches ChildView::Leaf(l) ==> l.encoding().len()
                <= u16::MAX),
    ensures
        wf_children(cs),
        children_encodable(cs),
{
    assert forall|i: int| 0 <= i < cs.len() implies wf_child(#[trigger] cs[i]) && child_encodable(
        cs[i],
    ) by {
        assert(child_stored(cs[i]));
    }
}

/// Appending a child appends its record.
pub proof fn lemma_items_push<L: Canon, A: Canon>(cs: Seq<ChildView<L, A>>, c: ChildView<L, A>)
    ensures
        items_encoding(cs.push(c)) == items_encoding(cs) + child_encoding(c),
    decreases cs.len(),
{
    if cs.len() == 0 {
        assert(cs.push(c).len() == 1);
        assert(cs.push(c)[0] == c);
        assert(cs.push(c).skip(1) =~= Seq::<ChildView<L, A>>::empty());
        assert(items_encoding(cs.push(c)) == child_encoding(c) + items_encoding(
            cs.push(c).skip(1),
        ));
        assert(items_encoding(cs.push(c)) =~= items_encoding(cs) + child_encoding(c));
    } else {
        assert(cs.push(c)[0] == cs[0]);
        assert(cs.push(c).skip(1) =~= cs.skip(1).push(c));
        lemma_items_push(cs.skip(1), c);
        assert(items_encoding(cs.push(c)) == child_encoding(cs[0]) + items_encoding(
            cs.skip(1).push(c),
        ));
        assert(items_encoding(cs.push(c)) =~= items_encoding(cs) + child_encoding(c));
    }
}

/// A prefix of the records is at most all of them.
pub proof fn lemma_items_take_le<L: Canon, A: Canon>(cs: Seq<ChildView<L, A>>, i: int)
    requires
        0 <= i <= cs.len(),
    ensures
        items_encoding(cs.take(i)).len() <= items_encoding(cs).len(),
    decreases cs.len() - i,
{
    if i == cs.len() {
        assert(cs.take(i) =~= cs);
    } else {
        assert(cs.take(i + 1) =~= cs.take(i).push(cs[i]));
        lemma_items_push(cs.take(i), cs[i]);
        lemma_items_take_le(cs, i + 1);
    }
}

/// Two stored, writable child slots whose records start the same
/// stream are the same slot.
pub proof fn lemma_child_encoding_unique<L: Canon, A: Canon>(
    c1: ChildView<L, A>,
    c2: ChildView<L, A>,
    s: Seq<u8>,
)
    requires
        child_encodable(c1),
        child_encodable(c2),
        child_stored(c1),
        child_stored(c2),
        child_encoding(c1).is_prefix_of(s),
        child_encoding(c2).is_prefix_of(s),
    ensures
        c1 == c2,
{
    assert(child_encoding(c1)[0] == s[0]);
    assert(child_encoding(c2)[0] == s[0]);
    match (c1, c2) {
        (ChildView::Empty, ChildView::Empty) => {},
        (ChildView::Leaf(l1), ChildView::Leaf(l2)) => {
            lemma_concat_prefix(
                seq![1u8],
                u16_le(l1.encoding().len() as u16) + l1.encoding(),
                s,
            );
            lemma_concat_prefix(
                seq![1u8],
                u16_le(l2.encoding().len() as u16) + l2.encoding(),
                s,
            );
            let s1 = s.skip(1);
            lemma_concat_prefix(u16_le(l1.encoding().len() as u16), l1.encoding(), s1);
            lemma_concat_prefix(u16_le(l2.encoding().len() as u16), l2.encoding(), s1);
            lemma_unique_prefix::<L>(l1, l2, s1.skip(2));
        },
        (ChildView::Node(lv1), ChildView::Node(lv2)) => {
            lemma_concat_prefix(seq![2u8], lv1.id->Some_0.encoding() + lv1.ann->Some_0.encoding(), s);
            lemma_concat_prefix(seq![2u8], lv2.id->Some_0.encoding() + lv2.ann->Some_0.encoding(), s);
            let s1 = s.skip(1);
            lemma_concat_prefix(lv1.id->Some_0.encoding(), lv1.ann->Some_0.encoding(), s1);
            lemma_concat_prefix(lv2.id->Some_0.encoding(), lv2.ann->Some_0.encoding(), s1);
            lemma_unique_prefix::<Id>(lv1.id->Some_0, lv2.id->Some_0, s1);
            assert(lv1.id->Some_0.encoding().len() == lv2.id->Some_0.encoding().len());
            lemma_unique_prefix::<A>(
                lv1.ann->Some_0,
                lv2.ann->Some_0,
                s1.skip(lv1.id->Some_0.encoding().len() as int),
            );
        },
        _ => {
            assert(false);
        },
    }
}

/// Two equally long runs of stored, writable records that start the
/// same stream are the same children.
pub proof fn lemma_items_unique<L: Canon, A: Canon>(
    cs1: Seq<ChildView<L, A>>,
    cs2: Seq<ChildView<L, A>>,
    s: Seq<u8>,
)
    requires
        cs1.len() == cs2.len(),
        children_encodable(cs1),
        children_encodable(cs2),
        children_stored(cs1),
        children_stored(cs2),
        items_encoding(cs1).is_prefix_of(s),
        items_encoding(cs2).is_prefix_of(s),
    ensures
        cs1 == cs2,
    decreases cs1.len(),
{
    if cs1.len() == 0 {
        assert(cs1 =~= cs2);
    } else {
        lemma_concat_prefix(child_encoding(cs1[0]), items_encoding(cs1.skip(1)), s);
        lemma_concat_prefix(child_encoding(cs2[0]), items_encoding(cs2.skip(1)), s);
        lemma_child_encoding_unique(cs1[0], cs2[0], s);
        assert(forall|i: int| 0 <= i < cs1.skip(1).len() ==> cs1.skip(1)[i] == #[trigger] cs1[i + 1]);
        assert(forall|i: int| 0 <= i < cs2.skip(1).len() ==> cs2.skip(1)[i] == #[trigger] cs2[i + 1]);
        lemma_items_unique(cs1.skip(1), cs2.skip(1), s.skip(child_encoding(cs1[0]).len() as int));
        assert forall|i: int| 0 <= i < cs1.len() implies cs1[i] == cs2[i] by {
            if i > 0 {
                assert(cs1.skip(1)[i - 1] == cs1[i]);
                assert(cs2.skip(1)[i - 1] == cs2[i]);
            }
        }
        assert(cs1 =~= cs2);
    }
}

/// Two stored, writable nodes whose images start the same stream are
/// the same node.
pub proof fn lemma_compound_encoding_unique<L: Canon, A: Canon>(
    cs1: Seq<ChildView<L, A>>,
    cs2: Seq<ChildView<L, A>>,
    s: Seq<u8>,
)
    requires
        children_encodable(cs1),
        children_encodable(cs2),
        children_stored(cs1),
        children_stored(cs2),
        compound_encoding(cs1).is_prefix_of(s),
        compound_encoding(cs2).is_prefix_of(s),
    ensures
        cs1 == cs2,
{
    lemma_concat_prefix(u64_le(cs1.len() as u64), items_encoding(cs1), s);
    lemma_concat_prefix(u64_le(cs2.len() as u64), items_encoding(cs2), s);
    lemma_unique_prefix::<u64>(cs1.len() as u64, cs2.len() as u64, s);
    lemma_items_unique(cs1, cs2, s.skip(8));
}

impl<L: Canon, A: Canon> Compound<L, A> {
    /// Append the node's byte image: every subtree link must already
    /// carry its address and annotation.
    pub fn encode(&self, sink: &mut Vec<u8>)
        requires
            children_encodable(self@),
        ensures
            final(sink)@ == old(sink)@ + compound_encoding(self@),
    {
        let ghost cs = self@;
        let ghost s0 = sink@;
        proof {
            lemma_children_view(self.children@);
        }
        let n = self.children.len() as u64;
        n.encode(sink);
        let mut i: usize = 0;
        proof {
            assert(cs.take(0) =~= Seq::<ChildView<L, A>>::empty());
        }
        while i < self.children.len()
            invariant
                children_encodable(cs),
                cs == self@,
                i <= self.children@.len(),
                cs.len() == self.children@.len(),
                forall|j: int|
                    0 <= j < self.children@.len() ==> child_view(#[trigger] self.children@[j])
                        == cs[j],
                sink@ == s0 + u64_le(cs.len() as u64) + items_encoding(cs.take(i as int)),
            decreases self.children@.len() - i,
        {
            proof {
                assert(child_encodable(cs[i as int]));
                assert(cs.take(i + 1) =~= cs.take(i as int).push(cs[i as int]));
                lemma_items_push(cs.take(i as int), cs[i as int]);
            }
            match &self.children[i] {
                Child::Empty => {
                    sink.push(0u8);
                    proof {
                        assert(child_encoding(cs[i as int]) =~= seq![0u8]);
                        assert(sink@ =~= s0 + u64_le(cs.len() as u64) + items_encoding(
                            cs.take(i + 1),
                        ));
                    }
                },
                Child::Leaf(l) => {
                    sink.push(1u8);
                    let m = l.encoded_len();
                    (m as u16).encode(sink);
                    l.encode(sink);
                    proof {
                        assert(sink@ =~= s0 + u64_le(cs.len() as u64) + items_encoding(
                            cs.take(i + 1),
                        ));
                    }
                },
                Child::Node(link) => {
                    sink.push(2u8);
                    let id = match link.cached_id() {
                        Some(id) => id,
                        None => vstd::pervasive::unreached(),
                    };
                    id.encode(sink);
                    match link.cached_annotation() {
                        Some(a) => {
                            a.encode(sink);
                        },
                        None => {
                            proof {
                                assert(false);
                            }
                        },
                    }
                    proof {
                        assert(sink@ =~= s0 + u64_le(cs.len() as u64) + items_encoding(
                            cs.take(i + 1),
                        ));
                    }
                },
            }
            i = i + 1;
        }
        proof {
            assert(cs.take(cs.len() as int) =~= cs);
        }
    }

    /// The number of bytes `encode` appends.
    pub fn encoded_len(&self) -> (r: usize)
        requires
            children_encodable(self@),
            compound_encoding(self@).len() <= usize::MAX,
        ensures
            r == compound_encoding(self@).len(),
    {
        let ghost cs = self@;
        proof {
            lemma_children_view(self.children@);
            assert(cs.take(0) =~= Seq::<ChildView<L, A>>::empty());
        }
        let mut total: usize = 8;
        let mut i: usize = 0;
        while i < self.children.len()
            invariant
                children_encodable(cs),
                compound_encoding(cs).len() <= usize::MAX,
                cs == self@,
                i <= self.children@.len(),
                cs.len() == self.children@.len(),
                forall|j: int|
                    0 <= j < self.children@.len() ==> child_view(#[trigger] self.children@[j])
                        == cs[j],
                total == 8 + items_encoding(cs.take(i as int)).len(),
            decreases self.children@.len() - i,
        {
            proof {
                assert(child_encodable(cs[i as int]));
                assert(cs.take(i + 1) =~= cs.take(i as int).push(cs[i as int]));
                lemma_items_push(cs.take(i as int), cs[i as int]);
                lemma_items_take_le(cs, i + 1);
            }
            let step: usize = match &self.children[i] {
                Child::Empty => 1,
                Child::Leaf(l) => {
                    let m = l.encoded_len();
                    3 + m
                },
                Child::Node(link) => {
                    let a = match link.cached_annotation() {
                        Some(a) => a,
                        None => vstd::pervasive::unreached(),
                    };
                    proof {
                        assert(child_encoding(cs[i as int]).len() == 17 + a.encoding().len());
                    }
                    17 + a.encoded_len()
                },
            };
            total = total + step;
            i = i + 1;
        }
        proof {
            assert(cs.take(cs.len() as int) =~= cs);
        }
        total
    }

    /// Parse one child record starting at `*pos`; fail without moving
    /// exactly when no stored-shape record starts there.
    fn decode_child(bytes: &Vec<u8>, pos: &mut usize) -> (r: Result<Child<L, A>, Error>)
        requires
            *old(pos) <= bytes@.len(),
        ensures
            match r {
                Ok(c) => {
                    &&& *old(pos) <= *final(pos) <= bytes@.len()
                    &&& bytes@.subrange(*old(pos) as int, *final(pos) as int) == child_encoding(
                        c@,
                    )
                    &&& child_stored(c@)
                    &&& child_encodable(c@)
                },
                Err(e) => {
                    &&& e == Error::MalformedData
                    &&& *final(pos) == *old(pos)
                    &&& forall|cv: ChildView<L, A>|
                        child_encodable(cv) && child_stored(cv) ==> !(
                        #[trigger] child_encoding(cv)).is_prefix_of(bytes@.skip(*old(pos) as int))
                },
            },
    {
        let p0: usize = *pos;
        let ghost s = bytes@.skip(p0 as int);
        let tag = match u8::decode(bytes, pos) {
            Ok(t) => t,
            Err(e) => {
                proof {
                    if s.len() >= 1 {
                        let b = s[0];
                        assert(b.encoding() =~= seq![b]);
                        assert(b.encoding().is_prefix_of(s));
                    }
                    assert forall|cv: ChildView<L, A>|
                        child_encodable(cv) && child_stored(cv) implies !(
                    #[trigger] child_encoding(cv)).is_prefix_of(s) by {
                        assert(child_encoding(cv).len() >= 1);
                    }
                }
                return Err(e);
            },
        };
        let p1: usize = *pos;
        proof {
            assert(bytes@.subrange(p0 as int, p1 as int) == tag.encoding());
            assert(tag.encoding()[0] == tag);
            assert(p1 == p0 + 1);
            assert(s[0] == bytes@[p0 as int]);
            assert(s[0] == tag);
            assert(bytes@.skip(p1 as int) =~= s.skip(1));
        }
        if tag == 0 {
            proof {
                assert(bytes@.subrange(p0 as int, *pos as int) =~= seq![0u8]);
            }
            Ok(Child::Empty)
        } else if tag == 1 {
            let m = match u16::decode(bytes, pos) {
                Ok(m) => m,
                Err(e) => {
                    *pos = p0;
                    proof {
                        assert forall|cv: ChildView<L, A>|
                            child_encodable(cv) && child_stored(cv) implies !(
                        #[trigger] child_encoding(cv)).is_prefix_of(s) by {
                            if child_encoding(cv).is_prefix_of(s) {
                                match cv {
                                    ChildView::Empty => {
                                        assert(child_encoding(cv)[0] == 0);
                                    },
                                    ChildView::Leaf(l) => {
                                        assert((seq![1u8] + u16_le(
                                            l.encoding().len() as u16,
                                        ) + l.encoding()) =~= seq![1u8] + (u16_le(
                                            l.encoding().len() as u16,
                                        ) + l.encoding()));
                                        lemma_concat_prefix(
                                            seq![1u8],
                                            u16_le(l.encoding().len() as u16) + l.encoding(),
                                            s,
                                        );
                                        lemma_concat_prefix(
                                            u16_le(l.encoding().len() as u16),
                                            l.encoding(),
                                            s.skip(1),
                                        );
                                        assert((l.encoding().len() as u16).encoding()
                                            == u16_le(l.encoding().len() as u16));
                                        assert((l.encoding().len() as u16).encoding().is_prefix_of(
                                            bytes@.skip(p1 as int),
                                        ));
                                    },
                                    ChildView::Node(_) => {
                                        assert(child_encoding(cv)[0] == 2);
                                    },
                                }
                            }
                        }
                    }
                    return Err(e);
                },
            };
            let p2: usize = *pos;
            proof {
                assert(bytes@.subrange(p1 as int, p2 as int) == m.encoding());
                assert(m.encoding() == u16_le(m));
                assert(p2 == p1 + 2);
                assert(bytes@.subrange(p0 as int, p2 as int) =~= seq![1u8] + u16_le(m));
            }
            let leaf = match L::decode(bytes, pos) {
                Ok(l) => l,
                Err(_) => {
                    *pos = p0;
                    proof {
                        lemma_no_leaf_record::<L, A>(bytes@, p0 as int, p2 as int, m);
                    }
                    return Err(Error::MalformedData);
                },
            };
            let consumed = *pos - p2;
            if consumed != m as usize {
                *pos = p0;
                proof {
                    lemma_no_leaf_record_len::<L, A>(bytes@, p0 as int, p2 as int, m, leaf, consumed as int);
                }
                return Err(Error::MalformedData);
            }
            proof {
                assert(bytes@.subrange(p0 as int, *pos as int) =~= child_encoding(
                    child_view(Child::<L, A>::Leaf(leaf)),
                ));
            }
            Ok(Child::Leaf(leaf))
        } else if tag == 2 {
            let id = match Id::decode(bytes, pos) {
                Ok(id) => id,
                Err(e) => {
                    *pos = p0;
                    proof {
                        assert forall|cv: ChildView<L, A>|
                            child_encodable(cv) && child_stored(cv) implies !(
                        #[trigger] child_encoding(cv)).is_prefix_of(s) by {
                            if child_encoding(cv).is_prefix_of(s) {
                                match cv {
                                    ChildView::Empty => {
                                        assert(child_encoding(cv)[0] == 0);
                                    },
                                    ChildView::Leaf(_) => {
                                        assert(child_encoding(cv)[0] == 1);
                                    },
                                    ChildView::Node(lv) => {
                                        assert((seq![2u8] + lv.id->Some_0.encoding()
                                            + lv.ann->Some_0.encoding()) =~= seq![2u8] + (
                                        lv.id->Some_0.encoding() + lv.ann->Some_0.encoding()));
                                        lemma_concat_prefix(
                                            seq![2u8],
                                            lv.id->Some_0.encoding() + lv.ann->Some_0.encoding(),
                                            s,
                                        );
                                        lemma_concat_prefix(
                                            lv.id->Some_0.encoding(),
                                            lv.ann->Some_0.encoding(),
                                            s.skip(1),
                                        );
                                        assert(lv.id->Some_0.encoding().is_prefix_of(
                                            bytes@.skip(p1 as int),
                                        ));
                                    },
                                }
                            }
                        }
                    }
                    return Err(e);
                },
            };
            let p3: usize = *pos;
            proof {
                assert(bytes@.subrange(p1 as int, p3 as int) == id.encoding());
                assert(id.encoding().len() == 16);
                assert(p3 == p1 + 16);
            }
            let ann = match A::decode(bytes, pos) {
                Ok(a) => a,
                Err(e) => {
                    *pos = p0;
                    proof {
                        assert forall|cv: ChildView<L, A>|
                            child_encodable(cv) && child_stored(cv) implies !(
                        #[trigger] child_encoding(cv)).is_prefix_of(s) by {
                            if child_encoding(cv).is_prefix_of(s) {
                                match cv {
                                    ChildView::Empty => {
                                        assert(child_encoding(cv)[0] == 0);
                                    },
                                    ChildView::Leaf(_) => {
                                        assert(child_encoding(cv)[0] == 1);
                                    },
                                    ChildView::Node(lv) => {
                                        assert((seq![2u8] + lv.id->Some_0.encoding()
                                            + lv.ann->Some_0.encoding()) =~= seq![2u8] + (
                                        lv.id->Some_0.encoding() + lv.ann->Some_0.encoding()));
                                        lemma_concat_prefix(
                                            seq![2u8],
                                            lv.id->Some_0.encoding() + lv.ann->Some_0.encoding(),
                                            s,
                                        );
                                        lemma_concat_prefix(
                                            lv.id->Some_0.encoding(),
                                            lv.ann->Some_0.encoding(),
                                            s.skip(1),
                                        );
                                        assert(bytes@.skip(p0 + 1) =~= s.skip(1));
                                        assert(lv.id->Some_0.encoding().is_prefix_of(
                                            bytes@.skip(p1 as int),
                                        ));
                                        assert(id.encoding().is_prefix_of(bytes@.skip(p1 as int)));
                                        lemma_unique_prefix::<Id>(
                                            lv.id->Some_0,
                                            id,
                                            bytes@.skip(p1 as int),
                                        );
                                        assert(bytes@.skip(p3 as int) =~= s.skip(1).skip(16));
                                        assert(lv.ann->Some_0.encoding().is_prefix_of(
                                            bytes@.skip(p3 as int),
                                        ));
                                    },
                                }
                            }
                        }
                    }
                    return Err(e);
                },
            };
            let link = Link::<L, A>::stored(id, ann);
            proof {
                assert(bytes@.subrange(p0 as int, *pos as int) =~= child_encoding(
                    child_view(Child::Node(link)),
                ));
            }
            Ok(Child::Node(link))
        } else {
            *pos = p0;
            proof {
                assert forall|cv: ChildView<L, A>|
                    child_encodable(cv) && child_stored(cv) implies !(
                #[trigger] child_encoding(cv)).is_prefix_of(s) by {
                    if child_encoding(cv).is_prefix_of(s) {
                        match cv {
                            ChildView::Empty => {
                                assert(child_encoding(cv)[0] == 0);
                            },
                            ChildView::Leaf(_) => {
                                assert(child_encoding(cv)[0] == 1);
                            },
                            ChildView::Node(_) => {
                                assert(child_encoding(cv)[0] == 2);
                            },
                        }
                    }
                }
            }
            Err(Error::MalformedData)
        }
    }
}

impl<L: Canon, A: Canon> Compound<L, A> {
    /// Parse `n` child records starting at `*pos`; fail without moving
    /// exactly when no run of `n` stored-shape records starts there.
    fn decode_items(bytes: &Vec<u8>, pos: &mut usize, n: u64) -> (r: Result<
        Vec<Child<L, A>>,
        Error,
    >)
        requires
            *old(pos) <= bytes@.len(),
        ensures
            match r {
                Ok(v) => {
                    &&& *old(pos) <= *final(pos) <= bytes@.len()
                    &&& v@.len() == n
                    &&& bytes@.subrange(*old(pos) as int, *final(pos) as int) == items_encoding(
                        children_view(v@),
                    )
                    &&& children_stored(children_view(v@))
                    &&& forall|i: int|
                        0 <= i < n ==> child_encodable(#[trigger] children_view(v@)[i])
                },
                Err(e) => {
                    &&& e == Error::MalformedData
                    &&& *final(pos) == *old(pos)
                    &&& forall|cs: Seq<ChildView<L, A>>|
                        cs.len() == n && children_encodable(cs) && children_stored(cs) ==> !(
                        #[trigger] items_encoding(cs)).is_prefix_of(bytes@.skip(*old(pos) as int))
                },
            },
        decreases n,
    {
        let p0: usize = *pos;
        if n == 0 {
            let v: Vec<Child<L, A>> = Vec::new();
            proof {
                lemma_children_view(v@);
                assert(children_view(v@) =~= Seq::<ChildView<L, A>>::empty());
                assert(bytes@.subrange(p0 as int, p0 as int) =~= items_encoding(
                    children_view(v@),
                ));
            }
            Ok(v)
        } else {
            let c = match Self::decode_child(bytes, pos) {
                Ok(c) => c,
                Err(e) => {
                    proof {
                        assert forall|cs: Seq<ChildView<L, A>>|
                            cs.len() == n && children_encodable(cs) && children_stored(
                                cs,
                            ) implies !(#[trigger] items_encoding(cs)).is_prefix_of(
                            bytes@.skip(p0 as int),
                        ) by {
                            if items_encoding(cs).is_prefix_of(bytes@.skip(p0 as int)) {
                                lemma_concat_prefix(
                                    child_encoding(cs[0]),
                                    items_encoding(cs.skip(1)),
                                    bytes@.skip(p0 as int),
                                );
                                assert(child_encodable(cs[0]) && child_stored(cs[0]));
                            }
                        }
                    }
                    return Err(e);
                },
            };
            let p1: usize = *pos;
            let mut rest = match Self::decode_items(bytes, pos, n - 1) {
                Ok(v) => v,
                Err(e) => {
                    *pos = p0;
                    proof {
                        assert forall|cs: Seq<ChildView<L, A>>|
                            cs.len() == n && children_encodable(cs) && children_stored(
                                cs,
                            ) implies !(#[trigger] items_encoding(cs)).is_prefix_of(
                            bytes@.skip(p0 as int),
                        ) by {
                            if items_encoding(cs).is_prefix_of(bytes@.skip(p0 as int)) {
                                lemma_concat_prefix(
                                    child_encoding(cs[0]),
                                    items_encoding(cs.skip(1)),
                                    bytes@.skip(p0 as int),
                                );
                                assert(child_encodable(cs[0]) && child_stored(cs[0]));
                                assert(child_encoding(c@).is_prefix_of(bytes@.skip(p0 as int)));
                                lemma_child_encoding_unique(cs[0], c@, bytes@.skip(p0 as int));
                                assert(bytes@.skip(p0 as int).skip(
                                    child_encoding(c@).len() as int,
                                ) =~= bytes@.skip(p1 as int));
                                assert(forall|i: int|
                                    0 <= i < cs.skip(1).len() ==> cs.skip(1)[i]
                                        == #[trigger] cs[i + 1]);
                                assert(cs.skip(1).len() == n - 1);
                                assert(children_encodable(cs.skip(1)));
                                assert(children_stored(cs.skip(1)));
                            }
                        }
                    }
                    return Err(e);
                },
            };
            let ghost r0 = rest@;
            let mut v: Vec<Child<L, A>> = Vec::new();
            v.push(c);
            v.append(&mut rest);
            proof {
                assert(v@ =~= seq![c] + r0);
                lemma_children_view(v@);
                lemma_children_view(r0);
                assert(v@[0] == c);
                assert(children_view(v@)[0] == child_view(v@[0]));
                assert(children_view(v@)[0] == c@);
                assert(children_view(v@).skip(1) =~= children_view(r0)) by {
                    assert forall|i: int| 0 <= i < r0.len() implies children_view(v@).skip(1)[i]
                        == children_view(r0)[i] by {
                        assert(v@[i + 1] == r0[i]);
                    }
                }
                assert(items_encoding(children_view(v@)) == child_encoding(c@) + items_encoding(
                    children_view(r0),
                ));
                assert(bytes@.subrange(p0 as int, *pos as int) =~= bytes@.subrange(
                    p0 as int,
                    p1 as int,
                ) + bytes@.subrange(p1 as int, *pos as int));
                assert forall|i: int| 0 <= i < children_view(v@).len() implies child_stored(
                    #[trigger] children_view(v@)[i],
                ) && child_encodable(children_view(v@)[i]) by {
                    if i > 0 {
                        assert(v@[i] == r0[i - 1]);
                        assert(children_view(r0)[i - 1] == child_view(r0[i - 1]));
                    }
                }
            }
            Ok(v)
        }
    }

    /// Parse a whole node starting at `*pos`; fail without moving
    /// exactly when no stored-shape node image starts there.
    pub fn decode(bytes: &Vec<u8>, pos: &mut usize) -> (r: Result<Compound<L, A>, Error>)
        requires
            *old(pos) <= bytes@.len(),
        ensures
            match r {
                Ok(c) => {
                    &&& *old(pos) <= *final(pos) <= bytes@.len()
                    &&& bytes@.subrange(*old(pos) as int, *final(pos) as int) == compound_encoding(
                        c@,
                    )
                    &&& children_stored(c@)
                    &&& children_encodable(c@)
                },
                Err(e) => {
                    &&& e == Error::MalformedData
                    &&& *final(pos) == *old(pos)
                    &&& forall|cs: Seq<ChildView<L, A>>|
                        children_encodable(cs) && children_stored(cs) ==> !(
                        #[trigger] compound_encoding(cs)).is_prefix_of(
                            bytes@.skip(*old(pos) as int),
                        )
                },
            },
    {
        let p0: usize = *pos;
        let n = match u64::decode(bytes, pos) {
            Ok(n) => n,
            Err(e) => {
                proof {
                    assert forall|cs: Seq<ChildView<L, A>>|
                        children_encodable(cs) && children_stored(cs) implies !(
                    #[trigger] compound_encoding(cs)).is_prefix_of(bytes@.skip(p0 as int)) by {
                        if compound_encoding(cs).is_prefix_of(bytes@.skip(p0 as int)) {
                            lemma_concat_prefix(
                                u64_le(cs.len() as u64),
                                items_encoding(cs),
                                bytes@.skip(p0 as int),
                            );
                            assert((cs.len() as u64).encoding() == u64_le(cs.len() as u64));
                            assert((cs.len() as u64).encoding().is_prefix_of(
                                bytes@.skip(p0 as int),
                            ));
                        }
                    }
                }
                return Err(e);
            },
        };
        let p1: usize = *pos;
        proof {
            assert(bytes@.subrange(p0 as int, p1 as int) == n.encoding());
            assert(n.encoding() == u64_le(n));
            assert(u64_le(n).len() == 8);
            assert(p1 == p0 + 8);
        }
        let items = match Self::decode_items(bytes, pos, n) {
            Ok(v) => v,
            Err(e) => {
                *pos = p0;
                proof {
                    assert forall|cs: Seq<ChildView<L, A>>|
                        children_encodable(cs) && children_stored(cs) implies !(
                    #[trigger] compound_encoding(cs)).is_prefix_of(bytes@.skip(p0 as int)) by {
                        if compound_encoding(cs).is_prefix_of(bytes@.skip(p0 as int)) {
                            lemma_concat_prefix(
                                u64_le(cs.len() as u64),
                                items_encoding(cs),
                                bytes@.skip(p0 as int),
                            );
                            assert((cs.len() as u64).encoding() == u64_le(cs.len() as u64));
                            assert(n.encoding().is_prefix_of(bytes@.skip(p0 as int)));
                            lemma_unique_prefix::<u64>(
                                cs.len() as u64,
                                n,
                                bytes@.skip(p0 as int),
                            );
                            assert(cs.len() == n);
                            assert(bytes@.skip(p0 as int).skip(8) =~= bytes@.skip(p1 as int));
                        }
                    }
                }
                return Err(e);
            },
        };
        let c = Compound { children: items };
        proof {
            assert(c@ == children_view(items@));
            lemma_children_view(items@);
            assert(c@.len() == n);
            assert(c@.len() as u64 == n);
            assert(bytes@.subrange(p0 as int, *pos as int) =~= bytes@.subrange(
                p0 as int,
                p1 as int,
            ) + bytes@.subrange(p1 as int, *pos as int));
            assert(bytes@.subrange(p0 as int, *pos as int) =~= compound_encoding(c@));
        }
        Ok(c)
    }
}

/// A child slot whose whole reachable subtree can be persisted: leaves
/// fit the length field and counts fit the count field; a link that
/// already carries its address needs no work.
pub open spec fn child_persistable<L: Canon, A: Canon>(c: ChildView<L, A>) -> bool
    decreases c,
{
    match c {
        ChildView::Empty => true,
        ChildView::Leaf(l) => l.encoding().len() <= u16::MAX,
        ChildView::Node(lv) => (lv.id is Some && lv.ann is Some) || (match lv.tree {
            Some(cs) => children_persistable(cs),
            None => false,
        }),
    }
}

/// Every child of the node can be persisted.
pub open spec fn children_persistable<L: Canon, A: Canon>(cs: Seq<ChildView<L, A>>) -> bool
    decreases cs,
{
    &&& cs.len() <= u64::MAX
    &&& forall|i: int| 0 <= i < cs.len() ==> child_persistable(#[trigger] cs[i])
}

/// Runs of records that agree record by record are equal.
pub proof fn lemma_items_congruence<L: Canon, A: Canon>(
    cs1: Seq<ChildView<L, A>>,
    cs2: Seq<ChildView<L, A>>,
)
    requires
        cs1.len() == cs2.len(),
        forall|i: int|
            0 <= i < cs1.len() ==> child_encoding(#[trigger] cs1[i]) == child_encoding(cs2[i]),
    ensures
        items_encoding(cs1) == items_encoding(cs2),
    decreases cs1.len(),
{
    if cs1.len() > 0 {
        assert(forall|i: int|
            0 <= i < cs1.skip(1).len() ==> cs1.skip(1)[i] == #[trigger] cs1[i + 1]);
        assert(forall|i: int|
            0 <= i < cs2.skip(1).len() ==> cs2.skip(1)[i] == #[trigger] cs2[i + 1]);
        lemma_items_congruence(cs1.skip(1), cs2.skip(1));
    }
}

/// The stored shape of a node's children: each subtree link forgets its
/// materialized tree and keeps only its address and annotation, exactly
/// as a reader of the node's image will see it.
pub open spec fn stored_form<L, A>(cs: Seq<ChildView<L, A>>) -> Seq<ChildView<L, A>> {
    cs.map_values(
        |c: ChildView<L, A>|
            match c {
                ChildView::Node(lv) => ChildView::Node(
                    LinkView { tree: None, ann: lv.ann, id: lv.id },
                ),
                _ => c,
            },
    )
}

/// Forgetting the materialized subtrees changes neither the node's
/// image nor its annotation, and leaves a stored-shape node.
pub proof fn lemma_stored_form<L: Canon, A: Annotation<L> + Canon>(cs: Seq<ChildView<L, A>>)
    requires
        children_encodable(cs),
    ensures
        stored_form(cs).len() == cs.len(),
        children_stored(stored_form(cs)),
        children_encodable(stored_form(cs)),
        compound_encoding(stored_form(cs)) == compound_encoding(cs),
        children_ann(stored_form(cs)) == children_ann(cs),
{
    let sf = stored_form(cs);
    assert forall|i: int| 0 <= i < cs.len() implies child_stored(#[trigger] sf[i])
        && child_encodable(sf[i]) && child_encoding(sf[i]) == child_encoding(cs[i])
        && crate::compound::child_contrib(sf[i]) == crate::compound::child_contrib(cs[i]) by {
        assert(child_encodable(cs[i]));
    }
    lemma_items_congruence(sf, cs);
    lemma_children_ann_congruence(sf, cs);
}

/// A byte image that a link's cached annotation correctly describes: it
/// is the image of some stored-shape node whose annotation folds to the
/// cache.
pub open spec fn good_blob<L: Canon, A: Annotation<L> + Canon>(bytes: Seq<u8>, a: A) -> bool {
    exists|cs: Seq<ChildView<L, A>>|
        children_stored(cs) && children_encodable(cs) && #[trigger] compound_encoding(cs) == bytes
            && children_ann(cs) == a
}

impl<L: Canon, A: Annotation<L> + Canon> Compound<L, A> {
    /// Persist every subtree link of the node, depth-first: afterwards
    /// each link carries its content address and cached annotation, so
    /// the node itself can be written.  Contributions and leaves are
    /// untouched.
    pub fn persist_children(&mut self, store: &mut crate::store::Store)
        requires
            wf_children(old(self)@),
            children_persistable(old(self)@),
            old(store).wf(),
        ensures
            final(store).wf(),
            forall|k: Id| old(store)@.contains_key(k) ==> final(store)@.contains_key(k),
            wf_children(final(self)@),
            children_encodable(final(self)@),
            final(self)@.len() == old(self)@.len(),
            forall|i: int|
                0 <= i < old(self)@.len() ==> crate::compound::child_contrib(
                    #[trigger] final(self)@[i],
                ) == crate::compound::child_contrib(old(self)@[i]),
            forall|i: int|
                0 <= i < old(self)@.len() ==> crate::compound::child_leaves(
                    #[trigger] final(self)@[i],
                ) == crate::compound::child_leaves(old(self)@[i]),
            forall|i: int|
                0 <= i < old(self)@.len() ==> (crate::compound::child_loaded(old(self)@[i])
                    ==> crate::compound::child_loaded(#[trigger] final(self)@[i])),
            crate::compound::children_ann(final(self)@) == crate::compound::children_ann(
                old(self)@,
            ),
        decreases crate::compound::children_height(old(self)@), 1int,
    {
        let ghost cs = old(self)@;
        proof {
            lemma_children_view(self.children@);
        }
        let mut i: usize = 0;
        while i < self.children.len()
            invariant
                old(store).wf(),
                store.wf(),
                forall|k: Id| old(store)@.contains_key(k) ==> store@.contains_key(k),
                wf_children(cs),
                children_persistable(cs),
                cs == old(self)@,
                i <= self.children@.len(),
                cs.len() == self.children@.len(),
                self@.len() == cs.len(),
                forall|j: int|
                    0 <= j < self.children@.len() ==> child_view(#[trigger] self.children@[j])
                        == self@[j],
                forall|j: int| i <= j < cs.len() ==> #[trigger] self@[j] == cs[j],
                forall|j: int|
                    0 <= j < i ==> crate::compound::child_contrib(#[trigger] self@[j])
                        == crate::compound::child_contrib(cs[j]),
                forall|j: int|
                    0 <= j < i ==> crate::compound::child_leaves(#[trigger] self@[j])
                        == crate::compound::child_leaves(cs[j]),
                forall|j: int|
                    0 <= j < i ==> (crate::compound::child_loaded(cs[j])
                        ==> crate::compound::child_loaded(#[trigger] self@[j])),
                forall|j: int|
                    0 <= j < i ==> crate::compound::wf_child(#[trigger] self@[j])
                        && child_encodable(self@[j]),
            decreases self.children@.len() - i,
        {
            let ghost pre = self@;
            proof {
                assert(crate::compound::wf_child(cs[i as int]));
                assert(child_persistable(cs[i as int]));
            }
            let kind: u8 = match &self.children[i] {
                Child::Empty => 0,
                Child::Leaf(_) => 1,
                Child::Node(_) => 2,
            };
            if kind == 2 {
                let ghost ch0 = self.children@;
                let mut tmp = Child::Empty;
                core::mem::swap(&mut self.children[i], &mut tmp);
                match tmp {
                    Child::Node(mut link) => {
                        proof {
                            crate::compound::lemma_child_height_le(cs, i as int);
                        }
                        let _ = link.persist(store);
                        let mut back = Child::Node(link);
                        core::mem::swap(&mut self.children[i], &mut back);
                        proof {
                            lemma_children_view(self.children@);
                            assert(self.children@ =~= ch0.update(
                                i as int,
                                self.children@[i as int],
                            ));
                            assert forall|j: int| 0 <= j < cs.len() && j != i implies #[trigger] self@[j]
                                == pre[j] by {
                                assert(self.children@[j] == ch0[j]);
                            }
                        }
                    },
                    _ => {
                        proof {
                            assert(false);
                        }
                    },
                }
            }
            i = i + 1;
        }
        proof {
            lemma_children_ann_congruence::<L, A>(self@, cs);
        }
    }
}

/// Where a leaf's bytes fail to parse, no leaf record with this length
/// field starts at `p0`.
proof fn lemma_no_leaf_record<L: Canon, A: Canon>(
    bytes: Seq<u8>,
    p0: int,
    p2: int,
    m: u16,
)
    requires
        0 <= p0,
        p2 == p0 + 3,
        p2 <= bytes.len(),
        bytes.subrange(p0, p2) == seq![1u8] + u16_le(m),
        forall|l: L| !(#[trigger] l.encoding()).is_prefix_of(bytes.skip(p2)),
    ensures
        forall|cv: ChildView<L, A>|
            child_encodable(cv) && child_stored(cv) ==> !(#[trigger] child_encoding(
                cv,
            )).is_prefix_of(bytes.skip(p0)),
{
    let s = bytes.skip(p0);
    assert forall|cv: ChildView<L, A>| child_encodable(cv) && child_stored(cv) implies !(
    #[trigger] child_encoding(cv)).is_prefix_of(s) by {
        if child_encoding(cv).is_prefix_of(s) {
            assert(s[0] == bytes[p0]);
            assert(bytes[p0] == 1);
            match cv {
                ChildView::Empty => {
                    assert(child_encoding(cv)[0] == 0);
                },
                ChildView::Leaf(l) => {
                    assert((seq![1u8] + u16_le(l.encoding().len() as u16) + l.encoding())
                        =~= seq![1u8] + (u16_le(l.encoding().len() as u16) + l.encoding()));
                    lemma_concat_prefix(
                        seq![1u8],
                        u16_le(l.encoding().len() as u16) + l.encoding(),
                        s,
                    );
                    lemma_concat_prefix(
                        u16_le(l.encoding().len() as u16),
                        l.encoding(),
                        s.skip(1),
                    );
                    assert(bytes.skip(p2) =~= s.skip(1).skip(2));
                    assert(l.encoding().is_prefix_of(bytes.skip(p2)));
                },
                ChildView::Node(_) => {
                    assert(child_encoding(cv)[0] == 2);
                },
            }
        }
    }
}

/// Where a leaf parses but does not fill the record's length field, no
/// leaf record with this length field starts at `p0`.
proof fn lemma_no_leaf_record_len<L: Canon, A: Canon>(
    bytes: Seq<u8>,
    p0: int,
    p2: int,
    m: u16,
    leaf: L,
    consumed: int,
)
    requires
        0 <= p0,
        p2 == p0 + 3,
        p2 <= bytes.len(),
        bytes.subrange(p0, p2) == seq![1u8] + u16_le(m),
        leaf.encoding().len() == consumed,
        leaf.encoding().is_prefix_of(bytes.skip(p2)),
        consumed != m,
    ensures
        forall|cv: ChildView<L, A>|
            child_encodable(cv) && child_stored(cv) ==> !(#[trigger] child_encoding(
                cv,
            )).is_prefix_of(bytes.skip(p0)),
{
    let s = bytes.skip(p0);
    assert forall|cv: ChildView<L, A>| child_encodable(cv) && child_stored(cv) implies !(
    #[trigger] child_encoding(cv)).is_prefix_of(s) by {
        if child_encoding(cv).is_prefix_of(s) {
            assert(s[0] == bytes[p0]);
            assert(bytes[p0] == 1);
            match cv {
                ChildView::Empty => {
                    assert(child_encoding(cv)[0] == 0);
                },
                ChildView::Leaf(l) => {
                    assert((seq![1u8] + u16_le(l.encoding().len() as u16) + l.encoding())
                        =~= seq![1u8] + (u16_le(l.encoding().len() as u16) + l.encoding()));
                    lemma_concat_prefix(
                        seq![1u8],
                        u16_le(l.encoding().len() as u16) + l.encoding(),
                        s,
                    );
                    lemma_concat_prefix(
                        u16_le(l.encoding().len() as u16),
                        l.encoding(),
                        s.skip(1),
                    );
                    assert(s.skip(1).subrange(0, 2) =~= bytes.subrange(p0 + 1, p2));
                    crate::canon::lemma_unique_prefix::<u16>(
                        l.encoding().len() as u16,
                        m,
                        s.skip(1),
                    );
                    assert(bytes.skip(p2) =~= s.skip(1).skip(2));
                    lemma_unique_prefix::<L>(l, leaf, bytes.skip(p2));
                },
                ChildView::Node(_) => {
                    assert(child_encoding(cv)[0] == 2);
                },
            }
        }
    }
}

} // verus!
