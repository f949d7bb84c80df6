//! The content-addressed store.
//!
//! The store persists byte images of serialized nodes and hands back an
//! [`Id`]: a content address made of the bytes' hash and their length.
//! It is an explicit in-memory value — the caller owns it and threads it
//! through the operations that persist or materialize subtrees.  `get`
//! returns exactly the bytes most recently `put` under the same address.

use vstd::prelude::*;

use crate::canon::{u64_le, Canon};
use crate::Error;

verus! {

/// Offset basis of the byte hash.
pub const HASH_BASIS: u64 = 0xcbf29ce484222325;

/// Multiplier of the byte hash.
pub const HASH_PRIME: u64 = 0x100000001b3;

/// One step of the rolling byte hash.
pub open spec fn hash_step(h: u64, b: u8) -> u64 {
    vstd::wrapping::u64_specs::wrapping_mul(h ^ (b as u64), HASH_PRIME)
}

/// The content hash of a byte string: a left fold of `hash_step`.
pub open spec fn hash_of(s: Seq<u8>) -> u64
    decreases s.len(),
{
    if s.len() == 0 {
        HASH_BASIS
    } else {
        hash_step(hash_of(s.drop_last()), s.last())
    }
}

/// Hash a byte string.
pub fn hash_bytes(bytes: &Vec<u8>) -> (r: u64)
    ensures
        r == hash_of(bytes@),
{
    let mut h: u64 = HASH_BASIS;
    let mut i: usize = 0;
    while i < bytes.len()
        invariant
            i <= bytes@.len(),
            h == hash_of(bytes@.take(i as int)),
        decreases bytes@.len() - i,
    {
        let b = bytes[i];
        h = (h ^ (b as u64)).wrapping_mul(HASH_PRIME);
        proof {
            assert(bytes@.take(i + 1).drop_last() =~= bytes@.take(i as int));
            assert(bytes@.take(i + 1).last() == bytes@[i as int]);
        }
        i = i + 1;
    }
    proof {
        assert(bytes@.take(bytes@.len() as int) =~= bytes@);
    }
    h
}

/// An opaque content address for a stored, serialized value: the hash of
/// the bytes together with their length.
#[derive(Clone, Copy, Debug, PartialEq, Eq, Structural)]
pub struct Id {
    /// The content hash of the addressed bytes.
    pub hash: u64,
    /// The number of addressed bytes.
    pub len: u64,
}

impl Id {
    /// The length of the represented data.
    pub fn size(&self) -> (r: u64)
        ensures
            r == self.len,
    {
        self.len
    }
}

impl Canon for Id {
    open spec fn encoding(&self) -> Seq<u8> {
        u64_le(self.hash) + u64_le(self.len)
    }

    fn encode(&self, sink: &mut Vec<u8>) {
        let ghost s0 = sink@;
        self.hash.encode(sink);
        self.len.encode(sink);
        proof {
            assert(sink@ =~= s0 + self.encoding());
        }
    }

    fn decode(bytes: &Vec<u8>, pos: &mut usize) -> (r: Result<Self, Error>) {
        let p0: usize = *pos;
        let hash = match u64::decode(bytes, pos) {
            Ok(h) => h,
            Err(e) => {
                proof {
                    assert forall|v: Id| !(#[trigger] v.encoding()).is_prefix_of(
                        bytes@.skip(p0 as int),
                    ) by {
                        if v.encoding().is_prefix_of(bytes@.skip(p0 as int)) {
                            crate::canon::lemma_concat_prefix(
                                u64_le(v.hash),
                                u64_le(v.len),
                                bytes@.skip(p0 as int),
                            );
                            assert(v.hash.encoding().is_prefix_of(bytes@.skip(p0 as int)));
                        }
                    }
                }
                return Err(e);
            },
        };
        let p1: usize = *pos;
        let len = match u64::decode(bytes, pos) {
            Ok(l) => l,
            Err(e) => {
                *pos = p0;
                proof {
                    assert forall|v: Id| !(#[trigger] v.encoding()).is_prefix_of(
                        bytes@.skip(p0 as int),
                    ) by {
                        if v.encoding().is_prefix_of(bytes@.skip(p0 as int)) {
                            crate::canon::lemma_concat_prefix(
                                u64_le(v.hash),
                                u64_le(v.len),
                                bytes@.skip(p0 as int),
                            );
                            assert(hash.encoding().len() == 8);
                            assert(p1 == p0 + 8);
                            assert(bytes@.skip(p0 as int).skip(8) =~= bytes@.skip(p1 as int));
                            assert(v.len.encoding().is_prefix_of(bytes@.skip(p1 as int)));
                        }
                    }
                }
                return Err(e);
            },
        };
        let id = Id { hash, len };
        proof {
            assert(bytes@.subrange(p0 as int, *pos as int) =~= id.encoding());
        }
        Ok(id)
    }

    fn encoded_len(&self) -> (r: usize) {
        16
    }

    proof fn lemma_prefix_free(a: Self, b: Self) {
        assert(a.encoding() =~= b.encoding());
        assert(u64_le(a.hash) =~= u64_le(b.hash)) by {
            assert forall|i: int| 0 <= i < 8 implies u64_le(a.hash)[i] == u64_le(b.hash)[i] by {
                assert(a.encoding()[i] == b.encoding()[i]);
            }
        }
        assert(u64_le(a.len) =~= u64_le(b.len)) by {
            assert forall|i: int| 0 <= i < 8 implies u64_le(a.len)[i] == u64_le(b.len)[i] by {
                assert(a.encoding()[8 + i] == b.encoding()[8 + i]);
            }
        }
        <u64 as Canon>::lemma_prefix_free(a.hash, b.hash);
        <u64 as Canon>::lemma_prefix_free(a.len, b.len);
    }
}

/// The map held by a sequence of store entries; later entries shadow
/// earlier ones with the same address.
pub open spec fn entries_map(es: Seq<(Id, Vec<u8>)>) -> Map<Id, Seq<u8>>
    decreases es.len(),
{
    if es.len() == 0 {
        Map::empty()
    } else {
        entries_map(es.drop_last()).insert(es.last().0, es.last().1@)
    }
}

/// An in-memory content-addressed key-value store.
///
/// Its view is the map from content address to stored bytes.  Every
/// address in the store is the hash and length of the bytes it maps to.
pub struct Store {
    entries: Vec<(Id, Vec<u8>)>,
}

impl View for Store {
    type V = Map<Id, Seq<u8>>;

    closed spec fn view(&self) -> Map<Id, Seq<u8>> {
        entries_map(self.entries@)
    }
}

impl Store {
    /// Every stored address is the hash and length of its bytes.
    pub closed spec fn wf(self) -> bool {
        forall|i: int|
            0 <= i < self.entries@.len() ==> (#[trigger] self.entries@[i]).0.hash == hash_of(
                self.entries@[i].1@,
            ) && self.entries@[i].0.len == self.entries@[i].1@.len()
    }

    /// Create an empty store.
    pub fn new() -> (r: Store)
        ensures
            r.wf(),
            r@ == Map::<Id, Seq<u8>>::empty(),
    {
        Store { entries: Vec::new() }
    }

    /// Write a byte string into the store and return its content address.
    pub fn put(&mut self, bytes: &Vec<u8>) -> (id: Id)
        requires
            old(self).wf(),
        ensures
            final(self).wf(),
            id.hash == hash_of(bytes@),
            id.len == bytes@.len(),
            final(self)@ == old(self)@.insert(id, bytes@),
    {
        let hash = hash_bytes(bytes);
        let id = Id { hash, len: bytes.len() as u64 };
        let ghost es0 = self.entries@;
        self.entries.push((id, bytes.clone()));
        proof {
            assert(self.entries@.drop_last() =~= es0);
        }
        id
    }

    /// Read back the bytes stored under a content address; fail with
    /// `NotFound` exactly when the store holds nothing under it.
    pub fn get(&self, id: &Id) -> (r: Result<Vec<u8>, Error>)
        requires
            self.wf(),
        ensures
            match r {
                Ok(bytes) => {
                    &&& self@.contains_key(*id)
                    &&& bytes@ == self@[*id]
                    &&& id.hash == hash_of(bytes@)
                    &&& id.len == bytes@.len()
                },
                Err(e) => {
                    &&& e == Error::NotFound
                    &&& !self@.contains_key(*id)
                },
            },
    {
        let mut i: usize = self.entries.len();
        while i > 0
            invariant
                self.wf(),
                i <= self.entries@.len(),
                forall|k: int| i <= k < self.entries@.len() ==> (#[trigger] self.entries@[k]).0 != *id,
            decreases i,
        {
            i = i - 1;
            if self.entries[i].0 == *id {
                proof {
                    lemma_entries_found(self.entries@, *id, i as int);
                }
                return Ok(self.entries[i].1.clone());
            }
        }
        proof {
            lemma_entries_absent(self.entries@, *id);
        }
        Err(Error::NotFound)
    }
}

/// If the last occurrence of an address in the entry list is at `j`, the
/// entry map sends the address to that entry's bytes.
proof fn lemma_entries_found(es: Seq<(Id, Vec<u8>)>, id: Id, j: int)
    requires
        0 <= j < es.len(),
        es[j].0 == id,
        forall|k: int| j < k < es.len() ==> (#[trigger] es[k]).0 != id,
    ensures
        entries_map(es).contains_key(id),
        entries_map(es)[id] == es[j].1@,
    decreases es.len(),
{
    if j == es.len() - 1 {
    } else {
        lemma_entries_found(es.drop_last(), id, j);
    }
}

/// An address that no entry carries is not in the entry map.
proof fn lemma_entries_absent(es: Seq<(Id, Vec<u8>)>, id: Id)
    requires
        forall|k: int| 0 <= k < es.len() ==> (#[trigger] es[k]).0 != id,
    ensures
        !entries_map(es).contains_key(id),
    decreases es.len(),
{
    if es.len() > 0 {
        lemma_entries_absent(es.drop_last(), id);
    }
}

} // verus!
