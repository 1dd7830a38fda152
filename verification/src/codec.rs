//! Encoding a `GSet` to bytes and decoding it back.
//!
//! The encoded form is exactly the elements' own encodings, in increasing
//! element order, with no additional metadata: each element is its eight
//! little-endian bytes. Decoding rejects inputs that are not a whole
//! number of element encodings; duplicate or out-of-order elements in an
//! input (which a correct encoder never writes) are deduplicated by
//! insertion rather than rejected.

use crate::gset::GSet;
use vstd::bytes::lemma_auto_spec_u64_to_from_le_bytes;
use vstd::bytes::spec_u64_from_le_bytes;
use vstd::bytes::spec_u64_to_le_bytes;
use vstd::bytes::u64_from_le_bytes;
use vstd::bytes::u64_to_le_bytes;
use vstd::prelude::*;
use vstd::slice::slice_subrange;

verus! {

/// Why a byte string failed to decode.
#[derive(Debug, Clone, Copy, PartialEq, Eq)]
pub enum DecodeError {
    /// The input ends in the middle of an element: its length is not a
    /// whole number of eight-byte element encodings.
    Truncated,
}

/// The encoded form of an element sequence: each element's eight
/// little-endian bytes, in sequence order.
pub open spec fn spec_encode(s: Seq<u64>) -> Seq<u8>
    decreases s.len(),
{
    if s.len() == 0 {
        Seq::empty()
    } else {
        spec_u64_to_le_bytes(s[0]) + spec_encode(s.drop_first())
    }
}

/// The element sequence read back from a byte string, eight bytes at a
/// time; meaningful when the length is a multiple of eight.
pub open spec fn spec_parse(b: Seq<u8>) -> Seq<u64>
    decreases b.len(),
{
    if b.len() < 8 {
        Seq::empty()
    } else {
        seq![spec_u64_from_le_bytes(b.take(8))] + spec_parse(b.skip(8))
    }
}

/// Encoding yields eight bytes per element.
pub proof fn lemma_encode_len(s: Seq<u64>)
    ensures
        spec_encode(s).len() == 8 * s.len(),
    decreases s.len(),
{
    lemma_auto_spec_u64_to_from_le_bytes();
    if s.len() > 0 {
        lemma_encode_len(s.drop_first());
    }
}

/// Parsing an encoded element sequence yields exactly that sequence.
pub proof fn lemma_parse_encode(s: Seq<u64>)
    ensures
        spec_parse(spec_encode(s)) == s,
    decreases s.len(),
{
    lemma_auto_spec_u64_to_from_le_bytes();
    if s.len() == 0 {
        assert(spec_parse(spec_encode(s)) =~= s);
    } else {
        let head = spec_u64_to_le_bytes(s[0]);
        let rest = spec_encode(s.drop_first());
        lemma_encode_len(s.drop_first());
        assert((head + rest).take(8) =~= head);
        assert((head + rest).skip(8) =~= rest);
        lemma_parse_encode(s.drop_first());
        assert(spec_parse(spec_encode(s)) =~= s);
    }
}

/// Prepending one element to a sequence adds exactly that element to its
/// element set.
proof fn lemma_cons_to_set(x: u64, t: Seq<u64>)
    ensures
        (seq![x] + t).to_set() == t.to_set().insert(x),
{
    let u = seq![x] + t;
    assert forall|y: u64| u.contains(y) implies (y == x || t.contains(y)) by {
        let j = choose|j: int| 0 <= j < u.len() && u[j] == y;
        if j > 0 {
            assert(t[j - 1] == y);
        }
    }
    assert forall|y: u64| t.contains(y) implies u.contains(y) by {
        let j = choose|j: int| 0 <= j < t.len() && t[j] == y;
        assert(u[j + 1] == y);
    }
    assert(u.contains(x)) by {
        assert(u[0] == x);
    }
    assert(u.to_set() =~= t.to_set().insert(x));
}

impl GSet {
    /// Serializes the set: each element as eight little-endian bytes, in
    /// increasing element order, with no additional metadata.
    pub fn encode(&self) -> (r: Vec<u8>)
        ensures
            r@ == spec_encode(self.ordered()),
            r@.len() % 8 == 0,
            spec_parse(r@).to_set() == self@,
    {
        let v = self.to_vec();
        let ghost s = v@;
        let mut r: Vec<u8> = Vec::new();
        let mut i: usize = 0;
        proof {
            assert(s.skip(0) =~= s);
            assert(r@ + spec_encode(s.skip(0)) =~= spec_encode(s));
        }
        while i < v.len()
            invariant
                v@ == s,
                0 <= i <= v.len(),
                r@ + spec_encode(s.skip(i as int)) == spec_encode(s),
            decreases v.len() - i,
        {
            let mut bytes = u64_to_le_bytes(v[i]);
            proof {
                assert(s.skip(i as int).drop_first() =~= s.skip(i as int + 1));
                assert(spec_encode(s.skip(i as int)) == spec_u64_to_le_bytes(s[i as int])
                    + spec_encode(s.skip(i as int + 1)));
            }
            r.append(&mut bytes);
            proof {
                assert(r@ + spec_encode(s.skip(i as int + 1)) =~= spec_encode(s));
            }
            i += 1;
        }
        proof {
            assert(s.skip(s.len() as int) =~= Seq::<u64>::empty());
            assert(spec_encode(s.skip(s.len() as int)) =~= Seq::<u8>::empty());
            assert(r@ =~= spec_encode(s));
            lemma_encode_len(s);
            lemma_parse_encode(s);
        }
        r
    }

    /// Reconstructs a set from its encoded form.
    ///
    /// Succeeds exactly when the input's length is a whole number of
    /// eight-byte element encodings; a failed decode yields no set at
    /// all. The elements read are gathered by insertion, so duplicates in
    /// a malformed input collapse to one occurrence.
    pub fn decode(bytes: &[u8]) -> (r: Result<GSet, DecodeError>)
        ensures
            match r {
                Ok(g) => bytes@.len() % 8 == 0 && g@ == spec_parse(bytes@).to_set(),
                Err(e) => bytes@.len() % 8 != 0 && e == DecodeError::Truncated,
            },
    {
        if bytes.len() % 8 != 0 {
            return Err(DecodeError::Truncated);
        }
        let ghost b = bytes@;
        let mut g = GSet::new();
        let mut i: usize = 0;
        proof {
            assert(b.skip(0) =~= b);
            assert(g@.union(spec_parse(b.skip(0)).to_set()) =~= spec_parse(b).to_set());
        }
        while i < bytes.len()
            invariant
                b == bytes@,
                b.len() % 8 == 0,
                i % 8 == 0,
                0 <= i <= b.len(),
                g@.union(spec_parse(b.skip(i as int)).to_set()) == spec_parse(b).to_set(),
            decreases b.len() - i,
        {
            proof {
                assert(i + 8 <= b.len());
            }
            let chunk = slice_subrange(bytes, i, i + 8);
            let x = u64_from_le_bytes(chunk);
            let ghost t = spec_parse(b.skip(i as int + 8));
            proof {
                assert(b.skip(i as int).take(8) =~= chunk@);
                assert(b.skip(i as int).skip(8) =~= b.skip(i as int + 8));
                assert(spec_parse(b.skip(i as int)) == seq![x] + t);
                lemma_cons_to_set(x, t);
            }
            g.insert(x);
            proof {
                assert(g@.union(t.to_set()) =~= spec_parse(b).to_set());
            }
            i += 8;
        }
        proof {
            assert(b.skip(b.len() as int) =~= Seq::<u8>::empty());
            assert(spec_parse(b.skip(b.len() as int)).to_set() =~= Set::<u64>::empty());
            assert(g@ =~= spec_parse(b).to_set());
        }
        Ok(g)
    }
}

/// Serialization is deterministic: two orderings of the same element set
/// encode to the same bytes, since the encoded order is the unique
/// increasing one.
pub proof fn lemma_encode_deterministic(a: Seq<u64>, b: Seq<u64>)
    requires
        crate::gset::strictly_increasing(a),
        crate::gset::strictly_increasing(b),
        a.to_set() == b.to_set(),
    ensures
        spec_encode(a) == spec_encode(b),
{
    crate::gset::lemma_canonical_order(a, b);
}

/// Round trip: decoding the encoded form of any element sequence yields
/// a set equal to the sequence's element set, so in particular decoding
/// what `encode` wrote yields a set equal to the encoded one.
pub proof fn lemma_round_trip(s: Seq<u64>)
    ensures
        spec_parse(spec_encode(s)).to_set() == s.to_set(),
{
    lemma_parse_encode(s);
}

} // verus!
