//! Fast content hasher: a whitespace-normalized 64-bit FNV-1a fingerprint
//! of a document, used as the embedding cache key.

use vstd::prelude::*;

use crate::text::{
    chars_vec, lemma_normalize_idempotent, normalize_chars, normalize_spec, string_from_chars,
};
use vstd::utf8::encode_utf8;

verus! {

/// FNV-1a 64-bit offset basis.
pub const FNV_OFFSET: u64 = 0xcbf29ce484222325;

/// FNV-1a 64-bit prime.
pub const FNV_PRIME: u64 = 0x100000001b3;

/// One FNV-1a round: xor the byte in, multiply by the prime modulo `2^64`.
pub open spec fn fnv1a_step(state: u64, byte: u8) -> u64 {
    vstd::wrapping::u64_specs::wrapping_mul(state ^ (byte as u64), FNV_PRIME)
}

/// FNV-1a over a byte sequence starting from an arbitrary state.
pub open spec fn fnv1a_from(state: u64, bytes: Seq<u8>) -> u64
    decreases bytes.len(),
{
    if bytes.len() == 0 {
        state
    } else {
        fnv1a_from(fnv1a_step(state, bytes[0]), bytes.drop_first())
    }
}

/// FNV-1a of a byte sequence from the standard offset basis.
pub open spec fn fnv1a(bytes: Seq<u8>) -> u64 {
    fnv1a_from(FNV_OFFSET, bytes)
}

/// The cache key of a text: FNV-1a over the UTF-8 bytes of its
/// whitespace-normal form.
pub open spec fn content_hash_spec(s: Seq<char>) -> u64 {
    fnv1a(encode_utf8(normalize_spec(s)))
}

/// A fast, non-cryptographic hasher (FNV-1a) for content fingerprints,
/// where speed matters more than collision resistance.
pub struct FastHasher {
    state: u64,
}

impl View for FastHasher {
    type V = u64;

    closed spec fn view(&self) -> u64 {
        self.state
    }
}

impl FastHasher {
    /// A hasher at the FNV-1a offset basis.
    pub fn new() -> (r: Self)
        ensures
            r@ == FNV_OFFSET,
    {
        Self { state: 0xcbf29ce484222325 }
    }

    /// Feed one byte through FNV-1a.
    pub fn write_u8(&mut self, byte: u8)
        ensures
            final(self)@ == fnv1a_step(old(self)@, byte),
    {
        self.state = (self.state ^ (byte as u64)).wrapping_mul(0x100000001b3);
    }

    /// Feed a byte slice through FNV-1a.
    pub fn write(&mut self, bytes: &[u8])
        ensures
            final(self)@ == fnv1a_from(old(self)@, bytes@),
    {
        let n = bytes.len();
        let mut i: usize = 0;
        proof {
            assert(bytes@.subrange(0, n as int) == bytes@);
        }
        while i < n
            invariant
                i <= n,
                n == bytes@.len(),
                fnv1a_from(self.state, bytes@.subrange(i as int, n as int)) == fnv1a_from(
                    old(self)@,
                    bytes@,
                ),
            decreases n - i,
        {
            let ghost rem = bytes@.subrange(i as int, n as int);
            self.write_u8(bytes[i]);
            proof {
                assert(rem[0] == bytes@[i as int]);
                assert(rem.drop_first() == bytes@.subrange(i + 1, n as int));
            }
            i = i + 1;
        }
    }

    /// The accumulated hash value.
    pub fn finish(&self) -> (r: u64)
        ensures
            r == self@,
    {
        self.state
    }

    /// FNV-1a of the UTF-8 bytes of a string.
    pub fn hash_string(s: &str) -> (r: u64)
        ensures
            r == fnv1a(encode_utf8(s@)),
    {
        let mut hasher = Self::new();
        hasher.write(s.as_bytes());
        hasher.finish()
    }
}

/// The whitespace-normal form of a text: every line trimmed, blank lines
/// dropped, the rest joined with single newlines.
pub fn normalize_content(content: &str) -> (r: String)
    ensures
        r@ == normalize_spec(content@),
{
    let cs = chars_vec(content);
    let normalized = normalize_chars(&cs);
    string_from_chars(&normalized)
}

/// The cache key of a document: hash of its whitespace-normal form, so that
/// reflow, trailing spaces, and blank-line density do not change the key.
pub fn compute_content_hash(content: &str) -> (r: u64)
    ensures
        r == content_hash_spec(content@),
{
    let normalized = normalize_content(content);
    FastHasher::hash_string(normalized.as_str())
}

/// The content hash is invariant under whitespace normalization: any text
/// and its reflowed form (lines trimmed, blank lines dropped) hash alike.
pub proof fn lemma_content_hash_normalize_invariant(s: Seq<char>)
    ensures
        content_hash_spec(normalize_spec(s)) == content_hash_spec(s),
{
    lemma_normalize_idempotent(s);
}

} // verus!
