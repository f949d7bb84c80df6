//! The type-erased mirror of a compound node.
//!
//! A generic tree carries, per child slot, either nothing, the bytes
//! of a leaf, or a link's content address with the bytes of its
//! annotation.  Any concrete node whose subtree links are persisted
//! can be mirrored, so downstream tooling can walk trees it does not
//! know the types of.

use vstd::prelude::*;

use crate::canon::{u16_le, u64_le, Canon};
use crate::codec::{child_encodable, children_encodable};
use crate::compound::{ChildView, Compound};
use crate::store::Id;
use crate::Error;

verus! {

/// A serialized leaf, carried as opaque bytes.
#[derive(Clone)]
pub struct GenericLeaf {
    /// The leaf's byte image.
    pub bytes: Vec<u8>,
}

/// A serialized annotation, carried as opaque bytes.
#[derive(Clone)]
pub struct GenericAnnotation {
    /// The annotation's byte image.
    pub bytes: Vec<u8>,
}

/// One type-erased child slot.
#[derive(Clone)]
pub enum GenericChild {
    /// A hole.
    Empty,
    /// A leaf's bytes.
    Leaf(GenericLeaf),
    /// A subtree's content address and its annotation's bytes.
    Link(Id, GenericAnnotation),
}

/// A type-erased node: an ordered sequence of type-erased child slots.
#[derive(Clone)]
pub struct GenericTree {
    /// The ordered child slots.
    pub children: Vec<GenericChild>,
}

/// The spec-level mirror of one type-erased child slot.
pub enum GenericChildView {
    /// A hole.
    Empty,
    /// A leaf's bytes.
    Leaf(Seq<u8>),
    /// A subtree's content address and its annotation's bytes.
    Link(Id, Seq<u8>),
}

/// The spec-level mirror of a type-erased child slot.
pub open spec fn generic_child_view(c: GenericChild) -> GenericChildView {
    match c {
        GenericChild::Empty => GenericChildView::Empty,
        GenericChild::Leaf(gl) => GenericChildView::Leaf(gl.bytes@),
        GenericChild::Link(id, ga) => GenericChildView::Link(id, ga.bytes@),
    }
}

impl View for GenericChild {
    type V = GenericChildView;

    open spec fn view(&self) -> GenericChildView {
        generic_child_view(*self)
    }
}

impl View for GenericTree {
    type V = Seq<GenericChildView>;

    open spec fn view(&self) -> Seq<GenericChildView> {
        self.children@.map_values(|c: GenericChild| generic_child_view(c))
    }
}

/// What a concrete child slot erases to: a leaf becomes its bytes; a
/// link becomes its address and its annotation's bytes.
pub open spec fn erased_child<L: Canon, A: Canon>(c: ChildView<L, A>) -> GenericChildView {
    match c {
        ChildView::Empty => GenericChildView::Empty,
        ChildView::Leaf(l) => GenericChildView::Leaf(l.encoding()),
        ChildView::Node(lv) => GenericChildView::Link(lv.id->Some_0, lv.ann->Some_0.encoding()),
    }
}

impl GenericLeaf {
    /// Erase a leaf to its bytes.
    pub fn new<C: Canon>(c: &C) -> (r: GenericLeaf)
        ensures
            r.bytes@ == c.encoding(),
    {
        let mut bytes: Vec<u8> = Vec::new();
        c.encode(&mut bytes);
        proof {
            assert(bytes@ =~= c.encoding());
        }
        GenericLeaf { bytes }
    }
}

impl GenericAnnotation {
    /// Erase an annotation to its bytes.
    pub fn new<C: Canon>(a: &C) -> (r: GenericAnnotation)
        ensures
            r.bytes@ == a.encoding(),
    {
        let mut bytes: Vec<u8> = Vec::new();
        a.encode(&mut bytes);
        proof {
            assert(bytes@ =~= a.encoding());
        }
        GenericAnnotation { bytes }
    }
}

impl GenericTree {
    /// A mirror with no children yet.
    pub fn new() -> (r: GenericTree)
        ensures
            r@ == Seq::<GenericChildView>::empty(),
    {
        let r = GenericTree { children: Vec::new() };
        proof {
            assert(r@ =~= Seq::<GenericChildView>::empty());
        }
        r
    }

    /// The number of child slots.
    pub fn len(&self) -> (r: usize)
        ensures
            r == self@.len(),
    {
        self.children.len()
    }

    /// A reference to the child slot at `ofs`.
    pub fn child(&self, ofs: usize) -> (c: &GenericChild)
        requires
            ofs < self@.len(),
        ensures
            (*c)@ == self@[ofs as int],
    {
        &self.children[ofs]
    }

    /// Append a hole.
    pub fn push_empty(&mut self)
        ensures
            final(self)@ == old(self)@.push(GenericChildView::Empty),
    {
        self.children.push(GenericChild::Empty);
        proof {
            assert(self@ =~= old(self)@.push(GenericChildView::Empty));
        }
    }

    /// Append a leaf's bytes.
    pub fn push_leaf<C: Canon>(&mut self, leaf: &C)
        ensures
            final(self)@ == old(self)@.push(GenericChildView::Leaf(leaf.encoding())),
    {
        self.children.push(GenericChild::Leaf(GenericLeaf::new(leaf)));
        proof {
            assert(self@ =~= old(self)@.push(GenericChildView::Leaf(leaf.encoding())));
        }
    }

    /// Append a persisted link's address and annotation bytes.
    pub fn push_link<L, A: Canon>(&mut self, link: &crate::link::Link<L, A>)
        requires
            link@.id is Some,
            link@.ann is Some,
        ensures
            final(self)@ == old(self)@.push(
                GenericChildView::Link(link@.id->Some_0, link@.ann->Some_0.encoding()),
            ),
    {
        let id = match link.cached_id() {
            Some(id) => id,
            None => vstd::pervasive::unreached(),
        };
        let ann = match link.cached_annotation() {
            Some(a) => GenericAnnotation::new(a),
            None => vstd::pervasive::unreached(),
        };
        self.children.push(GenericChild::Link(id, ann));
        proof {
            assert(self@ =~= old(self)@.push(
                GenericChildView::Link(link@.id->Some_0, link@.ann->Some_0.encoding()),
            ));
        }
    }

    /// Erase a concrete node whose subtree links are persisted into a
    /// type-erased mirror, slot by slot.
    pub fn mirror<L: Canon, A: Canon>(c: &Compound<L, A>) -> (r: GenericTree)
        requires
            children_encodable(c@),
        ensures
            r@.len() == c@.len(),
            forall|i: int| 0 <= i < c@.len() ==> r@[i] == erased_child(#[trigger] c@[i]),
    {
        let ghost cs = c@;
        proof {
            crate::link::lemma_children_view(c.children@);
        }
        let mut r = GenericTree::new();
        let mut i: usize = 0;
        while i < c.children.len()
            invariant
                children_encodable(cs),
                cs == c@,
                i <= c.children@.len(),
                cs.len() == c.children@.len(),
                forall|j: int|
                    0 <= j < c.children@.len() ==> crate::link::child_view(
                        #[trigger] c.children@[j],
                    ) == cs[j],
                r@.len() == i,
                forall|j: int| 0 <= j < i ==> r@[j] == erased_child(#[trigger] cs[j]),
            decreases c.children@.len() - i,
        {
            proof {
                assert(child_encodable(cs[i as int]));
            }
            match c.child(i) {
                crate::compound::Child::Empty => {
                    r.push_empty();
                },
                crate::compound::Child::Leaf(l) => {
                    r.push_leaf(l);
                },
                crate::compound::Child::Node(link) => {
                    r.push_link(link);
                },
            }
            i = i + 1;
        }
        r
    }
}

/// The byte image of one type-erased child slot: a tag, then — for a
/// leaf — a two-byte little-endian payload length and the payload, or
/// — for a link — the address, then the annotation bytes with their
/// own length field.
pub open spec fn generic_child_encoding(c: GenericChildView) -> Seq<u8> {
    match c {
        GenericChildView::Empty => seq![0u8],
        GenericChildView::Leaf(b) => seq![1u8] + u16_le(b.len() as u16) + b,
        GenericChildView::Link(id, b) => seq![2u8] + id.encoding() + u16_le(b.len() as u16) + b,
    }
}

/// A type-erased slot whose payload fits the length field.
pub open spec fn generic_child_encodable(c: GenericChildView) -> bool {
    match c {
        GenericChildView::Empty => true,
        GenericChildView::Leaf(b) => b.len() <= u16::MAX,
        GenericChildView::Link(_, b) => b.len() <= u16::MAX,
    }
}

/// The concatenated records of a mirror's children, first child first.
pub open spec fn generic_items_encoding(cs: Seq<GenericChildView>) -> Seq<u8>
    decreases cs.len(),
{
    if cs.len() == 0 {
        Seq::empty()
    } else {
        generic_child_encoding(cs[0]) + generic_items_encoding(cs.skip(1))
    }
}

/// A mirror whose every slot can be written, with a count that fits
/// the count field.
pub open spec fn generic_encodable(cs: Seq<GenericChildView>) -> bool {
    &&& cs.len() <= u64::MAX
    &&& forall|i: int| 0 <= i < cs.len() ==> generic_child_encodable(#[trigger] cs[i])
}

/// The byte image of a whole mirror: the slot count, then the records.
pub open spec fn generic_tree_encoding(cs: Seq<GenericChildView>) -> Seq<u8> {
    u64_le(cs.len() as u64) + generic_items_encoding(cs)
}

/// Appending a slot appends its record.
pub proof fn lemma_generic_items_push(cs: Seq<GenericChildView>, c: GenericChildView)
    ensures
        generic_items_encoding(cs.push(c)) == generic_items_encoding(cs)
            + generic_child_encoding(c),
    decreases cs.len(),
{
    if cs.len() == 0 {
        assert(cs.push(c).len() == 1);
        assert(cs.push(c)[0] == c);
        assert(cs.push(c).skip(1) =~= Seq::<GenericChildView>::empty());
        assert(generic_items_encoding(cs.push(c)) == generic_child_encoding(c)
            + generic_items_encoding(cs.push(c).skip(1)));
        assert(generic_items_encoding(cs.push(c)) =~= generic_items_encoding(cs)
            + generic_child_encoding(c));
    } else {
        assert(cs.push(c)[0] == cs[0]);
        assert(cs.push(c).skip(1) =~= cs.skip(1).push(c));
        lemma_generic_items_push(cs.skip(1), c);
        assert(generic_items_encoding(cs.push(c)) == generic_child_encoding(cs[0])
            + generic_items_encoding(cs.skip(1).push(c)));
        assert(generic_items_encoding(cs.push(c)) =~= generic_items_encoding(cs)
            + generic_child_encoding(c));
    }
}

impl GenericTree {
    /// Append the mirror's byte image: the slot count, then one record
    /// per slot.
    pub fn encode(&self, sink: &mut Vec<u8>)
        requires
            generic_encodable(self@),
        ensures
            final(sink)@ == old(sink)@ + generic_tree_encoding(self@),
    {
        let ghost cs = self@;
        let ghost s0 = sink@;
        let n = self.children.len() as u64;
        n.encode(sink);
        let mut i: usize = 0;
        proof {
            assert(cs.take(0) =~= Seq::<GenericChildView>::empty());
        }
        while i < self.children.len()
            invariant
                generic_encodable(cs),
                cs == self@,
                i <= self.children@.len(),
                cs.len() == self.children@.len(),
                sink@ == s0 + u64_le(cs.len() as u64) + generic_items_encoding(cs.take(i as int)),
            decreases self.children@.len() - i,
        {
            proof {
                assert(cs[i as int] == self.children@[i as int]@);
                assert(generic_child_encodable(cs[i as int]));
                assert(cs.take(i + 1) =~= cs.take(i as int).push(cs[i as int]));
                lemma_generic_items_push(cs.take(i as int), cs[i as int]);
            }
            match &self.children[i] {
                GenericChild::Empty => {
                    sink.push(0u8);
                    proof {
                        assert(generic_child_encoding(cs[i as int]) =~= seq![0u8]);
                        assert(sink@ =~= s0 + u64_le(cs.len() as u64) + generic_items_encoding(
                            cs.take(i + 1),
                        ));
                    }
                },
                GenericChild::Leaf(gl) => {
                    sink.push(1u8);
                    (gl.bytes.len() as u16).encode(sink);
                    sink.extend_from_slice(gl.bytes.as_slice());
                    proof {
                        assert(sink@ =~= s0 + u64_le(cs.len() as u64) + generic_items_encoding(
                            cs.take(i + 1),
                        ));
                    }
                },
                GenericChild::Link(id, ga) => {
                    sink.push(2u8);
                    id.encode(sink);
                    (ga.bytes.len() as u16).encode(sink);
                    sink.extend_from_slice(ga.bytes.as_slice());
                    proof {
                        assert(sink@ =~= s0 + u64_le(cs.len() as u64) + generic_items_encoding(
                            cs.take(i + 1),
                        ));
                    }
                },
            }
            i = i + 1;
        }
        proof {
            assert(cs.take(cs.len() as int) =~= cs);
        }
    }

    /// The number of bytes `encode` appends.
    pub fn encoded_len(&self) -> (r: usize)
        requires
            generic_encodable(self@),
            generic_tree_encoding(self@).len() <= usize::MAX,
        ensures
            r == generic_tree_encoding(self@).len(),
    {
        let ghost cs = self@;
        let mut total: usize = 8;
        let mut i: usize = 0;
        proof {
            assert(cs.take(0) =~= Seq::<GenericChildView>::empty());
        }
        while i < self.children.len()
            invariant
                generic_encodable(cs),
                generic_tree_encoding(cs).len() <= usize::MAX,
                cs == self@,
                i <= self.children@.len(),
                cs.len() == self.children@.len(),
                total == 8 + generic_items_encoding(cs.take(i as int)).len(),
            decreases self.children@.len() - i,
        {
            proof {
                assert(cs[i as int] == self.children@[i as int]@);
                assert(generic_child_encodable(cs[i as int]));
                assert(cs.take(i + 1) =~= cs.take(i as int).push(cs[i as int]));
                lemma_generic_items_push(cs.take(i as int), cs[i as int]);
                lemma_generic_items_take_le(cs, i + 1);
            }
            let step: usize = match &self.children[i] {
                GenericChild::Empty => 1,
                GenericChild::Leaf(gl) => 3 + gl.bytes.len(),
                GenericChild::Link(_, ga) => 19 + ga.bytes.len(),
            };
            total = total + step;
            i = i + 1;
        }
        proof {
            assert(cs.take(cs.len() as int) =~= cs);
        }
        total
    }

    /// Parse a whole mirror starting at `*pos`; fail without moving
    /// exactly when no writable mirror image starts there.
    pub fn decode(bytes: &Vec<u8>, pos: &mut usize) -> (r: Result<GenericTree, Error>)
        requires
            *old(pos) <= bytes@.len(),
        ensures
            match r {
                Ok(g) => {
                    &&& *old(pos) <= *final(pos) <= bytes@.len()
                    &&& bytes@.subrange(*old(pos) as int, *final(pos) as int)
                        == generic_tree_encoding(g@)
                    &&& generic_encodable(g@)
                },
                Err(e) => {
                    &&& e == Error::MalformedData
                    &&& *final(pos) == *old(pos)
                    &&& forall|cs: Seq<GenericChildView>|
                        generic_encodable(cs) ==> !(#[trigger] generic_tree_encoding(
                            cs,
                        )).is_prefix_of(bytes@.skip(*old(pos) as int))
                },
            },
    {
        let p0: usize = *pos;
        let n = match u64::decode(bytes, pos) {
            Ok(n) => n,
            Err(e) => {
                proof {
                    assert forall|cs: Seq<GenericChildView>| generic_encodable(cs) implies !(
                    #[trigger] generic_tree_encoding(cs)).is_prefix_of(bytes@.skip(p0 as int)) by {
                        if generic_tree_encoding(cs).is_prefix_of(bytes@.skip(p0 as int)) {
                            crate::canon::lemma_concat_prefix(
                                u64_le(cs.len() as u64),
                                generic_items_encoding(cs),
                                bytes@.skip(p0 as int),
                            );
                            assert((cs.len() as u64).encoding() == u64_le(cs.len() as u64));
                            assert((cs.len() as u64).encoding().is_prefix_of(
                                bytes@.skip(p0 as int),
                            ));
                        }
                    }
                }
                return Err(e);
            },
        };
        let p1: usize = *pos;
        proof {
            assert(bytes@.subrange(p0 as int, p1 as int) == n.encoding());
            assert(n.encoding() == u64_le(n));
            assert(u64_le(n).len() == 8);
            assert(p1 == p0 + 8);
        }
        let items = match Self::decode_items(bytes, pos, n) {
            Ok(v) => v,
            Err(e) => {
                *pos = p0;
                proof {
                    assert forall|cs: Seq<GenericChildView>| generic_encodable(cs) implies !(
                    #[trigger] generic_tree_encoding(cs)).is_prefix_of(bytes@.skip(p0 as int)) by {
                        if generic_tree_encoding(cs).is_prefix_of(bytes@.skip(p0 as int)) {
                            crate::canon::lemma_concat_prefix(
                                u64_le(cs.len() as u64),
                                generic_items_encoding(cs),
                                bytes@.skip(p0 as int),
                            );
                            assert((cs.len() as u64).encoding() == u64_le(cs.len() as u64));
                            assert(n.encoding().is_prefix_of(bytes@.skip(p0 as int)));
                            crate::canon::lemma_unique_prefix::<u64>(
                                cs.len() as u64,
                                n,
                                bytes@.skip(p0 as int),
                            );
                            assert(cs.len() == n);
                            assert(bytes@.skip(p0 as int).skip(8) =~= bytes@.skip(p1 as int));
                        }
                    }
                }
                return Err(e);
            },
        };
        let g = GenericTree { children: items };
        proof {
            assert(bytes@.subrange(p0 as int, *pos as int) =~= bytes@.subrange(
                p0 as int,
                p1 as int,
            ) + bytes@.subrange(p1 as int, *pos as int));
            assert(bytes@.subrange(p0 as int, *pos as int) =~= generic_tree_encoding(g@));
        }
        Ok(g)
    }

    /// Parse `n` type-erased records starting at `*pos`; fail without
    /// moving exactly when no run of `n` writable records starts there.
    fn decode_items(bytes: &Vec<u8>, pos: &mut usize, n: u64) -> (r: Result<
        Vec<GenericChild>,
        Error,
    >)
        requires
            *old(pos) <= bytes@.len(),
        ensures
            match r {
                Ok(v) => {
                    &&& *old(pos) <= *final(pos) <= bytes@.len()
                    &&& v@.map_values(|c: GenericChild| generic_child_view(c)).len() == n
                    &&& bytes@.subrange(*old(pos) as int, *final(pos) as int)
                        == generic_items_encoding(
                        v@.map_values(|c: GenericChild| generic_child_view(c)),
                    )
                    &&& generic_encodable(v@.map_values(|c: GenericChild| generic_child_view(c)))
                },
                Err(e) => {
                    &&& e == Error::MalformedData
                    &&& *final(pos) == *old(pos)
                    &&& forall|cs: Seq<GenericChildView>|
                        cs.len() == n && generic_encodable(cs) ==> !(
                        #[trigger] generic_items_encoding(cs)).is_prefix_of(
                            bytes@.skip(*old(pos) as int),
                        )
                },
            },
        decreases n,
    {
        let p0: usize = *pos;
        if n == 0 {
            let v: Vec<GenericChild> = Vec::new();
            proof {
                assert(v@.map_values(|c: GenericChild| generic_child_view(c)) =~= Seq::<
                    GenericChildView,
                >::empty());
                assert(bytes@.subrange(p0 as int, p0 as int) =~= Seq::<u8>::empty());
            }
            Ok(v)
        } else {
            let c = match Self::decode_child(bytes, pos) {
                Ok(c) => c,
                Err(e) => {
                    proof {
                        assert forall|cs: Seq<GenericChildView>|
                            cs.len() == n && generic_encodable(cs) implies !(
                        #[trigger] generic_items_encoding(cs)).is_prefix_of(
                            bytes@.skip(p0 as int),
                        ) by {
                            if generic_items_encoding(cs).is_prefix_of(bytes@.skip(p0 as int)) {
                                crate::canon::lemma_concat_prefix(
                                    generic_child_encoding(cs[0]),
                                    generic_items_encoding(cs.skip(1)),
                                    bytes@.skip(p0 as int),
                                );
                                assert(generic_child_encodable(cs[0]));
                            }
                        }
                    }
                    return Err(e);
                },
            };
            let p1: usize = *pos;
            let mut rest = match Self::decode_items(bytes, pos, n - 1) {
                Ok(v) => v,
                Err(e) => {
                    *pos = p0;
                    proof {
                        assert forall|cs: Seq<GenericChildView>|
                            cs.len() == n && generic_encodable(cs) implies !(
                        #[trigger] generic_items_encoding(cs)).is_prefix_of(
                            bytes@.skip(p0 as int),
                        ) by {
                            if generic_items_encoding(cs).is_prefix_of(bytes@.skip(p0 as int)) {
                                crate::canon::lemma_concat_prefix(
                                    generic_child_encoding(cs[0]),
                                    generic_items_encoding(cs.skip(1)),
                                    bytes@.skip(p0 as int),
                                );
                                assert(generic_child_encodable(cs[0]));
                                assert(generic_child_encoding(c@).is_prefix_of(
                                    bytes@.skip(p0 as int),
                                ));
                                lemma_generic_child_unique(cs[0], c@, bytes@.skip(p0 as int));
                                assert(bytes@.skip(p0 as int).skip(
                                    generic_child_encoding(c@).len() as int,
                                ) =~= bytes@.skip(p1 as int));
                                assert(forall|i: int|
                                    0 <= i < cs.skip(1).len() ==> cs.skip(1)[i]
                                        == #[trigger] cs[i + 1]);
                                assert(cs.skip(1).len() == n - 1);
                                assert(generic_encodable(cs.skip(1)));
                            }
                        }
                    }
                    return Err(e);
                },
            };
            let ghost r0 = rest@;
            let mut v: Vec<GenericChild> = Vec::new();
            v.push(c);
            v.append(&mut rest);
            proof {
                assert(v@ =~= seq![c] + r0);
                let vv = v@.map_values(|x: GenericChild| generic_child_view(x));
                let rv = r0.map_values(|x: GenericChild| generic_child_view(x));
                assert(vv[0] == c@);
                assert(vv.skip(1) =~= rv) by {
                    assert forall|i: int| 0 <= i < rv.len() implies vv.skip(1)[i] == rv[i] by {
                        assert(v@[i + 1] == r0[i]);
                    }
                }
                assert(generic_items_encoding(vv) == generic_child_encoding(c@)
                    + generic_items_encoding(rv));
                assert(bytes@.subrange(p0 as int, *pos as int) =~= bytes@.subrange(
                    p0 as int,
                    p1 as int,
                ) + bytes@.subrange(p1 as int, *pos as int));
                assert forall|i: int| 0 <= i < vv.len() implies generic_child_encodable(
                    #[trigger] vv[i],
                ) by {
                    if i > 0 {
                        assert(v@[i] == r0[i - 1]);
                        assert(rv[i - 1] == generic_child_view(r0[i - 1]));
                    }
                }
            }
            Ok(v)
        }
    }

    /// Parse one type-erased record starting at `*pos`; fail without
    /// moving exactly when no writable record starts there.
    fn decode_child(bytes: &Vec<u8>, pos: &mut usize) -> (r: Result<GenericChild, Error>)
        requires
            *old(pos) <= bytes@.len(),
        ensures
            match r {
                Ok(c) => {
                    &&& *old(pos) <= *final(pos) <= bytes@.len()
                    &&& bytes@.subrange(*old(pos) as int, *final(pos) as int)
                        == generic_child_encoding(c@)
                    &&& generic_child_encodable(c@)
                },
                Err(e) => {
                    &&& e == Error::MalformedData
                    &&& *final(pos) == *old(pos)
                    &&& forall|cv: GenericChildView|
                        generic_child_encodable(cv) ==> !(#[trigger] generic_child_encoding(
                            cv,
                        )).is_prefix_of(bytes@.skip(*old(pos) as int))
                },
            },
    {
        let p0: usize = *pos;
        let ghost s = bytes@.skip(p0 as int);
        let tag = match u8::decode(bytes, pos) {
            Ok(t) => t,
            Err(e) => {
                proof {
                    if s.len() >= 1 {
                        let b = s[0];
                        assert(b.encoding() =~= seq![b]);
                        assert(b.encoding().is_prefix_of(s));
                    }
                    assert forall|cv: GenericChildView| generic_child_encodable(cv) implies !(
                    #[trigger] generic_child_encoding(cv)).is_prefix_of(s) by {
                        assert(generic_child_encoding(cv).len() >= 1);
                    }
                }
                return Err(e);
            },
        };
        let p1: usize = *pos;
        proof {
            assert(bytes@.subrange(p0 as int, p1 as int) == tag.encoding());
            assert(tag.encoding()[0] == tag);
            assert(p1 == p0 + 1);
            assert(s[0] == bytes@[p0 as int]);
            assert(s[0] == tag);
            assert(bytes@.skip(p1 as int) =~= s.skip(1));
        }
        if tag == 0 {
            proof {
                assert(bytes@.subrange(p0 as int, p1 as int) =~= generic_child_encoding(
                    GenericChildView::Empty,
                ));
            }
            Ok(GenericChild::Empty)
        } else if tag == 1 {
            match Self::decode_payload(bytes, pos, p0) {
                Ok(payload) => {
                    let c = GenericChild::Leaf(GenericLeaf { bytes: payload });
                    proof {
                        assert(bytes@.subrange(p0 as int, *pos as int) =~= bytes@.subrange(
                            p0 as int,
                            p1 as int,
                        ) + bytes@.subrange(p1 as int, *pos as int));
                        assert(bytes@.subrange(p0 as int, *pos as int) =~= generic_child_encoding(
                            c@,
                        ));
                    }
                    Ok(c)
                },
                Err(e) => {
                    proof {
                        assert forall|cv: GenericChildView| generic_child_encodable(cv) implies !(
                        #[trigger] generic_child_encoding(cv)).is_prefix_of(s) by {
                            if generic_child_encoding(cv).is_prefix_of(s) {
                                match cv {
                                    GenericChildView::Empty => {
                                        assert(generic_child_encoding(cv)[0] == 0);
                                    },
                                    GenericChildView::Leaf(b) => {
                                        assert((seq![1u8] + u16_le(b.len() as u16) + b)
                                            =~= seq![1u8] + (u16_le(b.len() as u16) + b));
                                        crate::canon::lemma_concat_prefix(
                                            seq![1u8],
                                            u16_le(b.len() as u16) + b,
                                            s,
                                        );
                                        assert((u16_le(b.len() as u16) + b).is_prefix_of(
                                            bytes@.skip(p1 as int),
                                        ));
                                    },
                                    GenericChildView::Link(_, _) => {
                                        assert(generic_child_encoding(cv)[0] == 2);
                                    },
                                }
                            }
                        }
                    }
                    Err(e)
                },
            }
        } else if tag == 2 {
            let id = match Id::decode(bytes, pos) {
                Ok(id) => id,
                Err(e) => {
                    *pos = p0;
                    proof {
                        assert forall|cv: GenericChildView| generic_child_encodable(cv) implies !(
                        #[trigger] generic_child_encoding(cv)).is_prefix_of(s) by {
                            if generic_child_encoding(cv).is_prefix_of(s) {
                                match cv {
                                    GenericChildView::Empty => {
                                        assert(generic_child_encoding(cv)[0] == 0);
                                    },
                                    GenericChildView::Leaf(_) => {
                                        assert(generic_child_encoding(cv)[0] == 1);
                                    },
                                    GenericChildView::Link(cid, b) => {
                                        assert((seq![2u8] + cid.encoding() + u16_le(
                                            b.len() as u16,
                                        ) + b) =~= seq![2u8] + (cid.encoding() + (u16_le(
                                            b.len() as u16,
                                        ) + b)));
                                        crate::canon::lemma_concat_prefix(
                                            seq![2u8],
                                            cid.encoding() + (u16_le(b.len() as u16) + b),
                                            s,
                                        );
                                        crate::canon::lemma_concat_prefix(
                                            cid.encoding(),
                                            u16_le(b.len() as u16) + b,
                                            s.skip(1),
                                        );
                                        assert(cid.encoding().is_prefix_of(
                                            bytes@.skip(p1 as int),
                                        ));
                                    },
                                }
                            }
                        }
                    }
                    return Err(e);
                },
            };
            let p2: usize = *pos;
            proof {
                assert(bytes@.subrange(p1 as int, p2 as int) == id.encoding());
                assert(id.encoding().len() == 16);
                assert(p2 == p1 + 16);
            }
            match Self::decode_payload(bytes, pos, p0) {
                Ok(payload) => {
                    let c = GenericChild::Link(id, GenericAnnotation { bytes: payload });
                    proof {
                        assert(bytes@.subrange(p0 as int, *pos as int) =~= bytes@.subrange(
                            p0 as int,
                            p1 as int,
                        ) + bytes@.subrange(p1 as int, p2 as int) + bytes@.subrange(
                            p2 as int,
                            *pos as int,
                        ));
                        assert(bytes@.subrange(p0 as int, *pos as int) =~= generic_child_encoding(
                            c@,
                        ));
                    }
                    Ok(c)
                },
                Err(e) => {
                    proof {
                        assert forall|cv: GenericChildView| generic_child_encodable(cv) implies !(
                        #[trigger] generic_child_encoding(cv)).is_prefix_of(s) by {
                            if generic_child_encoding(cv).is_prefix_of(s) {
                                match cv {
                                    GenericChildView::Empty => {
                                        assert(generic_child_encoding(cv)[0] == 0);
                                    },
                                    GenericChildView::Leaf(_) => {
                                        assert(generic_child_encoding(cv)[0] == 1);
                                    },
                                    GenericChildView::Link(cid, b) => {
                                        assert((seq![2u8] + cid.encoding() + u16_le(
                                            b.len() as u16,
                                        ) + b) =~= seq![2u8] + (cid.encoding() + (u16_le(
                                            b.len() as u16,
                                        ) + b)));
                                        crate::canon::lemma_concat_prefix(
                                            seq![2u8],
                                            cid.encoding() + (u16_le(b.len() as u16) + b),
                                            s,
                                        );
                                        crate::canon::lemma_concat_prefix(
                                            cid.encoding(),
                                            u16_le(b.len() as u16) + b,
                                            s.skip(1),
                                        );
                                        assert(cid.encoding().is_prefix_of(
                                            bytes@.skip(p1 as int),
                                        ));
                                        assert(id.encoding().is_prefix_of(bytes@.skip(p1 as int)));
                                        crate::canon::lemma_unique_prefix::<Id>(
                                            cid,
                                            id,
                                            bytes@.skip(p1 as int),
                                        );
                                        assert(bytes@.skip(p1 as int).skip(16) =~= bytes@.skip(
                                            p2 as int,
                                        ));
                                    },
                                }
                            }
                        }
                    }
                    Err(e)
                },
            }
        } else {
            *pos = p0;
            proof {
                assert forall|cv: GenericChildView| generic_child_encodable(cv) implies !(
                #[trigger] generic_child_encoding(cv)).is_prefix_of(s) by {
                    if generic_child_encoding(cv).is_prefix_of(s) {
                        match cv {
                            GenericChildView::Empty => {
                                assert(generic_child_encoding(cv)[0] == 0);
                            },
                            GenericChildView::Leaf(_) => {
                                assert(generic_child_encoding(cv)[0] == 1);
                            },
                            GenericChildView::Link(_, _) => {
                                assert(generic_child_encoding(cv)[0] == 2);
                            },
                        }
                    }
                }
            }
            Err(Error::MalformedData)
        }
    }

    /// Parse a length-prefixed payload starting at `*pos`, rewinding to
    /// `start` on failure: a two-byte length, then that many raw bytes.
    fn decode_payload(bytes: &Vec<u8>, pos: &mut usize, start: usize) -> (r: Result<
        Vec<u8>,
        Error,
    >)
        requires
            start <= *old(pos) <= bytes@.len(),
        ensures
            match r {
                Ok(payload) => {
                    &&& *old(pos) <= *final(pos) <= bytes@.len()
                    &&& payload@.len() <= u16::MAX
                    &&& bytes@.subrange(*old(pos) as int, *final(pos) as int) == u16_le(
                        payload@.len() as u16,
                    ) + payload@
                },
                Err(e) => {
                    &&& e == Error::MalformedData
                    &&& *final(pos) == start
                    &&& forall|b: Seq<u8>|
                        b.len() <= u16::MAX ==> !(#[trigger] (u16_le(b.len() as u16)
                            + b)).is_prefix_of(bytes@.skip(*old(pos) as int))
                },
            },
    {
        let q0: usize = *pos;
        let m = match u16::decode(bytes, pos) {
            Ok(m) => m,
            Err(e) => {
                *pos = start;
                proof {
                    assert forall|b: Seq<u8>| b.len() <= u16::MAX implies !(#[trigger] (u16_le(
                        b.len() as u16,
                    ) + b)).is_prefix_of(bytes@.skip(q0 as int)) by {
                        if (u16_le(b.len() as u16) + b).is_prefix_of(bytes@.skip(q0 as int)) {
                            crate::canon::lemma_concat_prefix(
                                u16_le(b.len() as u16),
                                b,
                                bytes@.skip(q0 as int),
                            );
                            assert((b.len() as u16).encoding().is_prefix_of(
                                bytes@.skip(q0 as int),
                            ));
                        }
                    }
                }
                return Err(e);
            },
        };
        let q1: usize = *pos;
        proof {
            assert(bytes@.subrange(q0 as int, q1 as int) == m.encoding());
            assert(q1 == q0 + 2);
        }
        if bytes.len() - q1 < m as usize {
            *pos = start;
            proof {
                assert forall|b: Seq<u8>| b.len() <= u16::MAX implies !(#[trigger] (u16_le(
                    b.len() as u16,
                ) + b)).is_prefix_of(bytes@.skip(q0 as int)) by {
                    if (u16_le(b.len() as u16) + b).is_prefix_of(bytes@.skip(q0 as int)) {
                        crate::canon::lemma_concat_prefix(
                            u16_le(b.len() as u16),
                            b,
                            bytes@.skip(q0 as int),
                        );
                        assert((b.len() as u16).encoding().is_prefix_of(bytes@.skip(q0 as int)));
                        crate::canon::lemma_unique_prefix::<u16>(
                            b.len() as u16,
                            m,
                            bytes@.skip(q0 as int),
                        );
                        assert(b.is_prefix_of(bytes@.skip(q0 as int).skip(2)));
                    }
                }
            }
            return Err(Error::MalformedData);
        }
        let mut payload: Vec<u8> = Vec::new();
        let mut k: usize = 0;
        while k < m as usize
            invariant
                q1 + m <= bytes@.len(),
                bytes@.len() <= usize::MAX,
                k <= m,
                payload@ == bytes@.subrange(q1 as int, q1 + k),
            decreases m - k,
        {
            payload.push(bytes[q1 + k]);
            proof {
                assert(payload@ =~= bytes@.subrange(q1 as int, q1 + k + 1));
            }
            k = k + 1;
        }
        *pos = q1 + m as usize;
        proof {
            assert(bytes@.subrange(q0 as int, *pos as int) =~= u16_le(payload@.len() as u16)
                + payload@);
        }
        Ok(payload)
    }
}

/// A prefix of the records is at most all of them.
pub proof fn lemma_generic_items_take_le(cs: Seq<GenericChildView>, i: int)
    requires
        0 <= i <= cs.len(),
    ensures
        generic_items_encoding(cs.take(i)).len() <= generic_items_encoding(cs).len(),
    decreases cs.len() - i,
{
    if i == cs.len() {
        assert(cs.take(i) =~= cs);
    } else {
        assert(cs.take(i + 1) =~= cs.take(i).push(cs[i]));
        lemma_generic_items_push(cs.take(i), cs[i]);
        lemma_generic_items_take_le(cs, i + 1);
    }
}

/// Two writable type-erased slots whose records start the same stream
/// are the same slot.
pub proof fn lemma_generic_child_unique(c1: GenericChildView, c2: GenericChildView, s: Seq<u8>)
    requires
        generic_child_encodable(c1),
        generic_child_encodable(c2),
        generic_child_encoding(c1).is_prefix_of(s),
        generic_child_encoding(c2).is_prefix_of(s),
    ensures
        c1 == c2,
{
    assert(generic_child_encoding(c1)[0] == s[0]);
    assert(generic_child_encoding(c2)[0] == s[0]);
    match (c1, c2) {
        (GenericChildView::Empty, GenericChildView::Empty) => {},
        (GenericChildView::Leaf(b1), GenericChildView::Leaf(b2)) => {
            crate::canon::lemma_concat_prefix(seq![1u8], u16_le(b1.len() as u16) + b1, s);
            crate::canon::lemma_concat_prefix(seq![1u8], u16_le(b2.len() as u16) + b2, s);
            crate::canon::lemma_concat_prefix(u16_le(b1.len() as u16), b1, s.skip(1));
            crate::canon::lemma_concat_prefix(u16_le(b2.len() as u16), b2, s.skip(1));
            crate::canon::lemma_unique_prefix::<u16>(
                b1.len() as u16,
                b2.len() as u16,
                s.skip(1),
            );
            assert(b1 =~= b2) by {
                assert(b1.len() == b2.len());
                assert forall|i: int| 0 <= i < b1.len() implies b1[i] == b2[i] by {
                    assert(b1[i] == s.skip(1).skip(2)[i]);
                    assert(b2[i] == s.skip(1).skip(2)[i]);
                }
            }
        },
        (GenericChildView::Link(id1, b1), GenericChildView::Link(id2, b2)) => {
            crate::canon::lemma_concat_prefix(
                seq![2u8],
                id1.encoding() + (u16_le(b1.len() as u16) + b1),
                s,
            );
            crate::canon::lemma_concat_prefix(
                seq![2u8],
                id2.encoding() + (u16_le(b2.len() as u16) + b2),
                s,
            );
            assert((seq![2u8] + id1.encoding() + u16_le(b1.len() as u16) + b1) =~= seq![2u8] + (
            id1.encoding() + (u16_le(b1.len() as u16) + b1)));
            assert((seq![2u8] + id2.encoding() + u16_le(b2.len() as u16) + b2) =~= seq![2u8] + (
            id2.encoding() + (u16_le(b2.len() as u16) + b2)));
            let s1 = s.skip(1);
            crate::canon::lemma_concat_prefix(id1.encoding(), u16_le(b1.len() as u16) + b1, s1);
            crate::canon::lemma_concat_prefix(id2.encoding(), u16_le(b2.len() as u16) + b2, s1);
            crate::canon::lemma_unique_prefix::<Id>(id1, id2, s1);
            assert(id1.encoding().len() == id2.encoding().len());
            let s2 = s1.skip(id1.encoding().len() as int);
            crate::canon::lemma_concat_prefix(u16_le(b1.len() as u16), b1, s2);
            crate::canon::lemma_concat_prefix(u16_le(b2.len() as u16), b2, s2);
            crate::canon::lemma_unique_prefix::<u16>(b1.len() as u16, b2.len() as u16, s2);
            assert(b1 =~= b2) by {
                assert(b1.len() == b2.len());
                assert forall|i: int| 0 <= i < b1.len() implies b1[i] == b2[i] by {
                    assert(b1[i] == s2.skip(2)[i]);
                    assert(b2[i] == s2.skip(2)[i]);
                }
            }
        },
        _ => {
            assert(false);
        },
    }
}

} // verus!
