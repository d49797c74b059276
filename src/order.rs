use vstd::prelude::*;

verus! {

/// A relevance score, held as an order-preserving 32-bit key.
///
/// The key is derived from the bits of a finite `f32`: comparing keys as
/// unsigned integers orders them as the floats they come from, and both
/// zeros share one key. Non-finite scores have no key: they are rejected
/// before they reach a collector, so that every comparison is total.
#[derive(Clone, Copy, PartialEq, Eq, Structural, Debug)]
pub struct Score {
    pub key: u32,
}

/// Whether `bits` encodes a finite `f32` (its exponent is not all ones).
pub open spec fn finite_bits(bits: u32) -> bool {
    (bits >> 23u32) & 0xffu32 != 0xffu32
}

/// The order-preserving key of the float with the given bits.
pub open spec fn key_of_bits(bits: u32) -> u32 {
    if bits & 0x7fff_ffffu32 == 0 {
        0x8000_0000u32
    } else if bits & 0x8000_0000u32 != 0 {
        !bits
    } else {
        bits | 0x8000_0000u32
    }
}

/// The float bits that a key stands for (positive zero for the zero key).
pub open spec fn bits_of_key(key: u32) -> u32 {
    if key & 0x8000_0000u32 != 0 {
        key & 0x7fff_ffffu32
    } else {
        !key
    }
}

/// A score gives back the bits it was made from, except that negative zero
/// comes back as positive zero.
pub proof fn lemma_bits_round_trip(bits: u32)
    ensures
        bits != 0x8000_0000u32 ==> bits_of_key(key_of_bits(bits)) == bits,
        bits_of_key(key_of_bits(0x8000_0000u32)) == 0,
{
    assert(bits != 0x8000_0000u32 ==> bits_of_key(key_of_bits(bits)) == bits) by (bit_vector);
    assert(bits_of_key(key_of_bits(0x8000_0000u32)) == 0) by (bit_vector);
}

impl Score {
    /// The score of the `f32` whose bits are `bits`; `None` when that float
    /// is infinite or not a number.
    pub fn from_bits(bits: u32) -> (r: Option<Score>)
        ensures
            finite_bits(bits) <==> r.is_some(),
            r.is_some() ==> r.unwrap().key == key_of_bits(bits),
    {
        if (bits >> 23u32) & 0xffu32 == 0xffu32 {
            None
        } else if bits & 0x7fff_ffffu32 == 0 {
            Some(Score { key: 0x8000_0000u32 })
        } else if bits & 0x8000_0000u32 != 0 {
            Some(Score { key: !bits })
        } else {
            Some(Score { key: bits | 0x8000_0000u32 })
        }
    }

    /// The bits of the `f32` this score stands for.
    pub fn to_bits(&self) -> (r: u32)
        ensures
            r == bits_of_key(self.key),
    {
        if self.key & 0x8000_0000u32 != 0 {
            self.key & 0x7fff_ffffu32
        } else {
            !self.key
        }
    }
}

/// A document's identity for one search: the segment it lives in and its
/// id within that segment.
#[derive(Clone, Copy, PartialEq, Eq, Structural, Debug)]
pub struct DocAddress {
    pub segment_id: u32,
    pub doc_id: u32,
}

/// A scored document, as collected and returned.
pub type ScoredDoc = (Score, DocAddress);

/// The direction in which scores rank.
#[derive(Clone, Copy, PartialEq, Eq, Structural, Debug)]
pub enum Policy {
    /// Smaller scores come first.
    Ascending,
    /// Larger scores come first.
    Descending,
}

/// Whether score key `a` ranks strictly before `b` under `p`.
pub open spec fn score_before(p: Policy, a: u32, b: u32) -> bool {
    match p {
        Policy::Ascending => a < b,
        Policy::Descending => a > b,
    }
}

/// The canonical tie-break: addresses ascend by segment, then by doc id,
/// whatever the score direction.
pub open spec fn address_before(a: DocAddress, b: DocAddress) -> bool {
    a.segment_id < b.segment_id || (a.segment_id == b.segment_id && a.doc_id < b.doc_id)
}

/// The total order of results under `p`: score first, by direction, then
/// address.
pub open spec fn precedes(p: Policy, a: ScoredDoc, b: ScoredDoc) -> bool {
    score_before(p, a.0.key, b.0.key) || (a.0.key == b.0.key && address_before(a.1, b.1))
}

/// `precedes` is a strict total order on (score, address): it is
/// transitive, irreflexive, and of two entries that differ in score or
/// address one precedes the other.
pub proof fn lemma_precedes_order(p: Policy, a: ScoredDoc, b: ScoredDoc, c: ScoredDoc)
    ensures
        precedes(p, a, b) && precedes(p, b, c) ==> precedes(p, a, c),
        !precedes(p, a, a),
        precedes(p, a, b) ==> !precedes(p, b, a),
        !precedes(p, a, b) && !precedes(p, b, a) ==> a.0 == b.0 && a.1 == b.1,
        !precedes(p, b, a) && !precedes(p, c, b) ==> !precedes(p, c, a),
{
}

impl Policy {
    /// Whether `a` ranks strictly before `b` under this policy.
    pub fn precedes(&self, a: &ScoredDoc, b: &ScoredDoc) -> (r: bool)
        ensures
            r == precedes(*self, *a, *b),
    {
        let score_first = match self {
            Policy::Ascending => a.0.key < b.0.key,
            Policy::Descending => a.0.key > b.0.key,
        };
        score_first || (a.0.key == b.0.key && (a.1.segment_id < b.1.segment_id || (
        a.1.segment_id == b.1.segment_id && a.1.doc_id < b.1.doc_id)))
    }
}

} // verus!
