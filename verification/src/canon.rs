//! The serialization contract.
//!
//! Every type that can be written to or read from the content-addressed
//! store exposes a byte encoding.  The encoding of a value is a spec-level
//! sequence of bytes; `encode` appends exactly those bytes to a sink,
//! `decode` consumes exactly those bytes from a source, and `encoded_len`
//! equals their number.  Encodings are prefix-free per type, so a byte
//! stream determines the value that was written.

use vstd::prelude::*;

use crate::Error;

verus! {

/// Little-endian bytes of a `u16`.
pub open spec fn u16_le(v: u16) -> Seq<u8> {
    seq![(v & 0xff) as u8, ((v >> 8) & 0xff) as u8]
}

/// Little-endian bytes of a `u32`.
pub open spec fn u32_le(v: u32) -> Seq<u8> {
    seq![
        (v & 0xff) as u8,
        ((v >> 8) & 0xff) as u8,
        ((v >> 16) & 0xff) as u8,
        ((v >> 24) & 0xff) as u8,
    ]
}

/// Little-endian bytes of a `u64`.
pub open spec fn u64_le(v: u64) -> Seq<u8> {
    seq![
        (v & 0xff) as u8,
        ((v >> 8) & 0xff) as u8,
        ((v >> 16) & 0xff) as u8,
        ((v >> 24) & 0xff) as u8,
        ((v >> 32) & 0xff) as u8,
        ((v >> 40) & 0xff) as u8,
        ((v >> 48) & 0xff) as u8,
        ((v >> 56) & 0xff) as u8,
    ]
}

/// A value that can be written to and read back from a byte stream.
///
/// `encoding` is the byte image of the value; the three executable
/// methods are held to it exactly.  `decode` fails precisely when no
/// value's encoding starts at the read position.
pub trait Canon: Sized {
    /// The byte image of the value.
    spec fn encoding(&self) -> Seq<u8>;

    /// Append the value's bytes to `sink`.
    fn encode(&self, sink: &mut Vec<u8>)
        ensures
            final(sink)@ == old(sink)@ + self.encoding(),
    ;

    /// Parse a value whose encoding starts at `*pos`, advancing `*pos`
    /// past it; fail without moving if no encoding starts there.
    fn decode(bytes: &Vec<u8>, pos: &mut usize) -> (r: Result<Self, Error>)
        requires
            *old(pos) <= bytes@.len(),
        ensures
            match r {
                Ok(v) => {
                    &&& *old(pos) <= *final(pos) <= bytes@.len()
                    &&& bytes@.subrange(*old(pos) as int, *final(pos) as int) == v.encoding()
                },
                Err(e) => {
                    &&& e == Error::MalformedData
                    &&& *final(pos) == *old(pos)
                    &&& forall|v: Self|
                        !(#[trigger] v.encoding()).is_prefix_of(bytes@.skip(*old(pos) as int))
                },
            },
    ;

    /// The number of bytes `encode` appends.
    fn encoded_len(&self) -> (r: usize)
        requires
            self.encoding().len() <= usize::MAX,
        ensures
            r == self.encoding().len(),
    ;

    /// No value's encoding is a strict prefix of another's, and equal
    /// encodings mean equal values.
    proof fn lemma_prefix_free(a: Self, b: Self)
        requires
            a.encoding().is_prefix_of(b.encoding()),
        ensures
            a == b,
    ;
}

/// Two values whose encodings both start the same stream are equal.
pub proof fn lemma_unique_prefix<T: Canon>(a: T, b: T, s: Seq<u8>)
    requires
        a.encoding().is_prefix_of(s),
        b.encoding().is_prefix_of(s),
    ensures
        a == b,
{
    if a.encoding().len() <= b.encoding().len() {
        assert(a.encoding() =~= b.encoding().subrange(0, a.encoding().len() as int));
        T::lemma_prefix_free(a, b);
    } else {
        assert(b.encoding() =~= a.encoding().subrange(0, b.encoding().len() as int));
        T::lemma_prefix_free(b, a);
    }
}

/// A concatenation that starts a stream splits into a prefix of the
/// stream and a prefix of the stream past it.
pub proof fn lemma_concat_prefix(a: Seq<u8>, b: Seq<u8>, s: Seq<u8>)
    requires
        (a + b).is_prefix_of(s),
    ensures
        a.is_prefix_of(s),
        b.is_prefix_of(s.skip(a.len() as int)),
{
    assert(a =~= s.subrange(0, a.len() as int)) by {
        assert forall|i: int| 0 <= i < a.len() implies a[i] == s[i] by {
            assert((a + b)[i] == s[i]);
        }
    }
    assert(b =~= s.skip(a.len() as int).subrange(0, b.len() as int)) by {
        assert forall|i: int| 0 <= i < b.len() implies b[i] == s.skip(a.len() as int)[i] by {
            assert((a + b)[a.len() + i] == s[a.len() + i]);
        }
    }
}

impl Canon for u8 {
    open spec fn encoding(&self) -> Seq<u8> {
        seq![*self]
    }

    fn encode(&self, sink: &mut Vec<u8>) {
        let ghost s0 = sink@;
        sink.push(*self);
        proof {
            assert(sink@ =~= s0 + self.encoding());
        }
    }

    fn decode(bytes: &Vec<u8>, pos: &mut usize) -> (r: Result<Self, Error>) {
        let ghost p0 = *pos;
        if bytes.len() - *pos < 1 {
            return Err(Error::MalformedData);
        }
        let v = bytes[*pos];
        *pos = *pos + 1;
        proof {
            assert(bytes@.subrange(p0 as int, *pos as int) =~= v.encoding());
        }
        Ok(v)
    }

    fn encoded_len(&self) -> (r: usize) {
        1
    }

    proof fn lemma_prefix_free(a: Self, b: Self) {
        assert(a.encoding()[0] == b.encoding()[0]);
    }
}

impl Canon for u16 {
    open spec fn encoding(&self) -> Seq<u8> {
        u16_le(*self)
    }

    fn encode(&self, sink: &mut Vec<u8>) {
        let ghost s0 = sink@;
        sink.push((*self & 0xff) as u8);
        sink.push(((*self >> 8) & 0xff) as u8);
        proof {
            assert(sink@ =~= s0 + self.encoding());
        }
    }

    fn decode(bytes: &Vec<u8>, pos: &mut usize) -> (r: Result<Self, Error>) {
        let ghost p0 = *pos;
        if bytes.len() - *pos < 2 {
            return Err(Error::MalformedData);
        }
        let b0 = bytes[*pos];
        let b1 = bytes[*pos + 1];
        let v = (b0 as u16) | ((b1 as u16) << 8);
        *pos = *pos + 2;
        proof {
            assert((v & 0xff) as u8 == b0 && ((v >> 8) & 0xff) as u8 == b1) by (bit_vector)
                requires
                    v == (b0 as u16) | ((b1 as u16) << 8),
            ;
            assert(bytes@.subrange(p0 as int, *pos as int) =~= v.encoding());
        }
        Ok(v)
    }

    fn encoded_len(&self) -> (r: usize) {
        2
    }

    proof fn lemma_prefix_free(a: Self, b: Self) {
        assert(a.encoding() =~= b.encoding());
        assert((a & 0xff) as u8 == (b & 0xff) as u8 && ((a >> 8) & 0xff) as u8 == ((b >> 8)
            & 0xff) as u8 ==> a == b) by (bit_vector);
        assert(a.encoding()[0] == b.encoding()[0] && a.encoding()[1] == b.encoding()[1]);
    }
}

impl Canon for u32 {
    open spec fn encoding(&self) -> Seq<u8> {
        u32_le(*self)
    }

    fn encode(&self, sink: &mut Vec<u8>) {
        let ghost s0 = sink@;
        sink.push((*self & 0xff) as u8);
        sink.push(((*self >> 8) & 0xff) as u8);
        sink.push(((*self >> 16) & 0xff) as u8);
        sink.push(((*self >> 24) & 0xff) as u8);
        proof {
            assert(sink@ =~= s0 + self.encoding());
        }
    }

    fn decode(bytes: &Vec<u8>, pos: &mut usize) -> (r: Result<Self, Error>) {
        let ghost p0 = *pos;
        if bytes.len() - *pos < 4 {
            return Err(Error::MalformedData);
        }
        let b0 = bytes[*pos];
        let b1 = bytes[*pos + 1];
        let b2 = bytes[*pos + 2];
        let b3 = bytes[*pos + 3];
        let v = (b0 as u32) | ((b1 as u32) << 8) | ((b2 as u32) << 16) | ((b3 as u32) << 24);
        *pos = *pos + 4;
        proof {
            assert((v & 0xff) as u8 == b0 && ((v >> 8) & 0xff) as u8 == b1 && ((v >> 16)
                & 0xff) as u8 == b2 && ((v >> 24) & 0xff) as u8 == b3) by (bit_vector)
                requires
                    v == (b0 as u32) | ((b1 as u32) << 8) | ((b2 as u32) << 16) | ((b3
                        as u32) << 24),
            ;
            assert(bytes@.subrange(p0 as int, *pos as int) =~= v.encoding());
        }
        Ok(v)
    }

    fn encoded_len(&self) -> (r: usize) {
        4
    }

    proof fn lemma_prefix_free(a: Self, b: Self) {
        assert(a.encoding() =~= b.encoding());
        assert((a & 0xff) as u8 == (b & 0xff) as u8 && ((a >> 8) & 0xff) as u8 == ((b >> 8)
            & 0xff) as u8 && ((a >> 16) & 0xff) as u8 == ((b >> 16) & 0xff) as u8 && ((a >> 24)
            & 0xff) as u8 == ((b >> 24) & 0xff) as u8 ==> a == b) by (bit_vector);
        assert(forall|i: int| 0 <= i < 4 ==> a.encoding()[i] == b.encoding()[i]);
    }
}

impl Canon for u64 {
    open spec fn encoding(&self) -> Seq<u8> {
        u64_le(*self)
    }

    fn encode(&self, sink: &mut Vec<u8>) {
        let ghost s0 = sink@;
        sink.push((*self & 0xff) as u8);
        sink.push(((*self >> 8) & 0xff) as u8);
        sink.push(((*self >> 16) & 0xff) as u8);
        sink.push(((*self >> 24) & 0xff) as u8);
        sink.push(((*self >> 32) & 0xff) as u8);
        sink.push(((*self >> 40) & 0xff) as u8);
        sink.push(((*self >> 48) & 0xff) as u8);
        sink.push(((*self >> 56) & 0xff) as u8);
        proof {
            assert(sink@ =~= s0 + self.encoding());
        }
    }

    fn decode(bytes: &Vec<u8>, pos: &mut usize) -> (r: Result<Self, Error>) {
        let ghost p0 = *pos;
        if bytes.len() - *pos < 8 {
            return Err(Error::MalformedData);
        }
        let b0 = bytes[*pos];
        let b1 = bytes[*pos + 1];
        let b2 = bytes[*pos + 2];
        let b3 = bytes[*pos + 3];
        let b4 = bytes[*pos + 4];
        let b5 = bytes[*pos + 5];
        let b6 = bytes[*pos + 6];
        let b7 = bytes[*pos + 7];
        let v = (b0 as u64) | ((b1 as u64) << 8) | ((b2 as u64) << 16) | ((b3 as u64) << 24) | ((
        b4 as u64) << 32) | ((b5 as u64) << 40) | ((b6 as u64) << 48) | ((b7 as u64) << 56);
        *pos = *pos + 8;
        proof {
            assert((v & 0xff) as u8 == b0 && ((v >> 8) & 0xff) as u8 == b1 && ((v >> 16)
                & 0xff) as u8 == b2 && ((v >> 24) & 0xff) as u8 == b3 && ((v >> 32) & 0xff) as u8
                == b4 && ((v >> 40) & 0xff) as u8 == b5 && ((v >> 48) & 0xff) as u8 == b6 && ((v
                >> 56) & 0xff) as u8 == b7) by (bit_vector)
                requires
                    v == (b0 as u64) | ((b1 as u64) << 8) | ((b2 as u64) << 16) | ((b3
                        as u64) << 24) | ((b4 as u64) << 32) | ((b5 as u64) << 40) | ((b6
                        as u64) << 48) | ((b7 as u64) << 56),
            ;
            assert(bytes@.subrange(p0 as int, *pos as int) =~= v.encoding());
        }
        Ok(v)
    }

    fn encoded_len(&self) -> (r: usize) {
        8
    }

    proof fn lemma_prefix_free(a: Self, b: Self) {
        assert(a.encoding() =~= b.encoding());
        assert((a & 0xff) as u8 == (b & 0xff) as u8 && ((a >> 8) & 0xff) as u8 == ((b >> 8)
            & 0xff) as u8 && ((a >> 16) & 0xff) as u8 == ((b >> 16) & 0xff) as u8 && ((a >> 24)
            & 0xff) as u8 == ((b >> 24) & 0xff) as u8 && ((a >> 32) & 0xff) as u8 == ((b >> 32)
            & 0xff) as u8 && ((a >> 40) & 0xff) as u8 == ((b >> 40) & 0xff) as u8 && ((a >> 48)
            & 0xff) as u8 == ((b >> 48) & 0xff) as u8 && ((a >> 56) & 0xff) as u8 == ((b >> 56)
            & 0xff) as u8 ==> a == b) by (bit_vector);
        assert(forall|i: int| 0 <= i < 8 ==> a.encoding()[i] == b.encoding()[i]);
    }
}

} // verus!
