//! The Fiat-Shamir transcript: a running Keccak-256 input that every message is absorbed
//! into, and from which challenges are squeezed.

use vstd::prelude::*;
use sha3::{Digest, Keccak256};
use crate::field::{le_encode, le_value, modulus, vals, FieldElement};

verus! {

/// The Keccak-256 digest of `data`.
pub uninterp spec fn keccak256_of(data: Seq<u8>) -> Seq<u8>;

/// Relies on `sha3::Keccak256::digest`: the digest of the bytes, 32 bytes long.
#[verifier::external_body]
fn keccak256(data: &[u8]) -> (r: Vec<u8>)
    ensures
        r@ == keccak256_of(data@),
        r@.len() == 32,
{
    Keccak256::digest(data).to_vec()
}

/// The challenge that a transcript holding `state` squeezes: its digest, read as a
/// little-endian integer and reduced modulo the field's order.
pub open spec fn challenge_of(state: Seq<u8>) -> int {
    le_value(keccak256_of(state)) % modulus()
}

/// The encodings of the values, 32 little-endian bytes each, one after the other.
pub open spec fn encode_all(s: Seq<int>) -> Seq<u8>
    decreases s.len(),
{
    if s.len() == 0 {
        Seq::empty()
    } else {
        encode_all(s.drop_last()) + le_encode(s.last(), 32)
    }
}

/// The hash input since the last challenge: the last digest, then every absorbed byte.
pub struct Transcript {
    pending: Vec<u8>,
}

impl View for Transcript {
    type V = Seq<u8>;

    closed spec fn view(&self) -> Seq<u8> {
        self.pending@
    }
}

impl Transcript {
    pub fn init() -> (r: Self)
        ensures
            r@ == Seq::<u8>::empty(),
    {
        Transcript { pending: Vec::new() }
    }

    /// Appends `preimage` to the hash input.
    pub fn absorb(&mut self, preimage: &[u8])
        ensures
            final(self)@ == old(self)@ + preimage@,
    {
        let ghost start = self.pending@;
        let mut i: usize = 0;
        while i < preimage.len()
            invariant
                i <= preimage@.len(),
                self.pending@ == start + preimage@.subrange(0, i as int),
            decreases preimage@.len() - i,
        {
            self.pending.push(preimage[i]);
            i = i + 1;
            proof {
                assert(self.pending@ =~= start + preimage@.subrange(0, i as int));
            }
        }
        proof {
            assert(preimage@.subrange(0, preimage@.len() as int) =~= preimage@);
        }
    }

    /// Finalizes the digest of everything absorbed, starts a new input holding that
    /// digest, and returns the digest reduced to a field element.
    pub fn squeeze(&mut self) -> (r: FieldElement)
        ensures
            r@ == challenge_of(old(self)@),
            final(self)@ == keccak256_of(old(self)@),
    {
        let digest = keccak256(self.pending.as_slice());
        let r = FieldElement::from_le_bytes_mod_order(digest.as_slice());
        self.pending = digest;
        r
    }
}

/// The canonical encodings of `values`, one after the other.
pub fn fq_vec_to_bytes(values: &[FieldElement]) -> (r: Vec<u8>)
    ensures
        r@ == encode_all(vals(values@)),
{
    let ghost v = vals(values@);
    let mut r: Vec<u8> = Vec::new();
    let mut i: usize = 0;
    proof {
        assert(v.take(0) =~= Seq::<int>::empty());
    }
    while i < values.len()
        invariant
            i <= values@.len(),
            v == vals(values@),
            r@ == encode_all(v.take(i as int)),
        decreases values@.len() - i,
    {
        let mut bytes = values[i].to_bytes_le();
        r.append(&mut bytes);
        proof {
            assert(v.take(i + 1).drop_last() =~= v.take(i as int));
        }
        i = i + 1;
    }
    proof {
        assert(v.take(values@.len() as int) =~= v);
    }
    r
}

} // verus!
