//! A domain-separated Fiat-Shamir transcript over the Keccak-256 sponge.
//!
//! The transcript is a deterministic function of the ordered absorbed bytes.
//! Squeezing finalizes the current state into a 32-byte digest, reseeds the
//! state with that digest, and reduces the digest to a field element.

use crate::field::{be_bytes8, be_bytes_mod, fe_views, FieldElement};
use vstd::prelude::*;

verus! {

/// The 32-byte Keccak-256 digest of a byte string.
pub uninterp spec fn keccak256(data: Seq<u8>) -> Seq<u8>;

/// Relies on sha3::Keccak256::digest: the Keccak-256 digest, 32 bytes, a
/// function of the input bytes alone.
#[verifier::external_body]
fn keccak256_digest(data: &[u8]) -> (r: Vec<u8>)
    ensures
        r@ == keccak256(data@),
        r@.len() == 32,
{
    <sha3::Keccak256 as sha3::Digest>::digest(data).to_vec()
}

/// The transcript state after `n` squeezes.
pub open spec fn squeeze_state(s: Seq<u8>, n: nat) -> Seq<u8>
    decreases n,
{
    if n == 0 {
        s
    } else {
        keccak256(squeeze_state(s, (n - 1) as nat))
    }
}

/// The field elements produced by `n` successive squeezes.
pub open spec fn squeeze_values(s: Seq<u8>, n: nat) -> Seq<int>
    decreases n,
{
    if n == 0 {
        Seq::empty()
    } else {
        squeeze_values(s, (n - 1) as nat).push(
            be_bytes_mod(keccak256(squeeze_state(s, (n - 1) as nat))))
    }
}

/// A Fiat-Shamir transcript: the bytes absorbed into the current sponge
/// state since the last squeeze (or since the start).
#[derive(Debug)]
pub struct Transcript {
    pub state: Vec<u8>,
}

impl View for Transcript {
    type V = Seq<u8>;

    open spec fn view(&self) -> Seq<u8> {
        self.state@
    }
}

impl Transcript {
    /// A fresh transcript with nothing absorbed.
    pub fn new() -> (r: Transcript)
        ensures
            r@ == Seq::<u8>::empty(),
    {
        Transcript { state: Vec::new() }
    }

    /// Absorbs raw bytes.
    pub fn append(&mut self, data: &[u8])
        ensures
            final(self)@ == old(self)@ + data@,
    {
        let mut i: usize = 0;
        while i < data.len()
            invariant
                i <= data@.len(),
                self.state@ == old(self).state@ + data@.take(i as int),
            decreases data@.len() - i,
        {
            self.state.push(data[i]);
            i = i + 1;
            proof {
                assert(old(self).state@ + data@.take(i as int)
                    =~= (old(self).state@ + data@.take(i as int - 1)).push(
                        data@[i as int - 1]));
            }
        }
        proof {
            assert(data@.take(data@.len() as int) =~= data@);
        }
    }

    /// Absorbs the fixed-length big-endian encoding of a field element.
    pub fn append_field_element(&mut self, element: &FieldElement)
        ensures
            final(self)@ == old(self)@ + be_bytes8(element@),
    {
        let bytes = element.to_be_bytes();
        self.append(bytes.as_slice());
    }

    /// Finalizes the current state into a digest, reseeds the state with
    /// the digest, and returns the digest reduced to a field element. Each
    /// squeeze therefore depends on all prior absorptions.
    pub fn sample_field_element(&mut self) -> (r: FieldElement)
        ensures
            final(self)@ == keccak256(old(self)@),
            r@ == be_bytes_mod(keccak256(old(self)@)),
    {
        let digest = keccak256_digest(self.state.as_slice());
        let r = FieldElement::from_be_bytes_mod_order(digest.as_slice());
        self.state = digest;
        r
    }

    /// `n` successive squeezes.
    pub fn sample_n_elements(&mut self, n: usize) -> (r: Vec<FieldElement>)
        ensures
            r@.len() == n,
            fe_views(r@) == squeeze_values(old(self)@, n as nat),
            final(self)@ == squeeze_state(old(self)@, n as nat),
    {
        let mut out: Vec<FieldElement> = Vec::new();
        let mut i: usize = 0;
        while i < n
            invariant
                i <= n,
                out@.len() == i,
                fe_views(out@) == squeeze_values(old(self)@, i as nat),
                self@ == squeeze_state(old(self)@, i as nat),
            decreases n - i,
        {
            let e = self.sample_field_element();
            out.push(e);
            i = i + 1;
            proof {
                assert(fe_views(out@) =~= squeeze_values(old(self)@, i as nat));
            }
        }
        out
    }
}

} // verus!
