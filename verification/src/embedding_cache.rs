//! Two-tier content-addressed embedding cache (C-style: memory in front of
//! disk). Keys are the whitespace-normalized content hash, so reflowed
//! content hits the same entry. The in-memory tier lives here, fully
//! modeled; the disk tier is driven through explicit file actions (name
//! and bytes) that the caller performs, with the record format supplied by
//! the codec.

use vstd::prelude::*;

use crate::codec::{decode_embedding, encode_embedding, encode_spec};
use crate::error::ServerError;
use crate::fast_hash::{compute_content_hash, content_hash_spec};
use crate::text::{normalize_spec, string_from_chars};
use std::collections::HashMap;

verus! {

broadcast use vstd::std_specs::hash::group_hash_axioms;

/// The hex digit for a value below sixteen, lower case.
pub open spec fn hex_digit(d: u8) -> char {
    if d < 10 {
        (('0' as u8) + d) as char
    } else {
        (('a' as u8) + (d - 10)) as char
    }
}

/// Sixteen hex digits of a 64-bit hash, most significant first.
pub open spec fn hex16_spec(h: u64) -> Seq<char> {
    Seq::new(16, |i: int| hex_digit(((h >> ((60 - 4 * i) as u64)) & 0xf) as u8))
}

/// The disk file name of a cache entry: the hash in hex plus `.bin`.
pub open spec fn cache_file_name_spec(h: u64) -> Seq<char> {
    hex16_spec(h) + ".bin"@
}

/// Render a content hash as its cache file name.
pub fn cache_file_name(hash: u64) -> (r: String)
    ensures
        r@ == cache_file_name_spec(hash),
{
    let mut cs: Vec<char> = Vec::new();
    let mut i: usize = 0;
    while i < 16
        invariant
            i <= 16,
            cs@ == hex16_spec(hash).subrange(0, i as int),
        decreases 16 - i,
    {
        let shift: u64 = (60 - 4 * (i as u64)) as u64;
        let w: u64 = (hash >> shift) & 0xf;
        proof {
            assert((hash >> shift) & 0xf <= 0xf) by (bit_vector);
        }
        let d: u8 = w as u8;
        let c: char = if d < 10 {
            (('0' as u8) + d) as char
        } else {
            (('a' as u8) + (d - 10)) as char
        };
        cs.push(c);
        proof {
            assert(hex16_spec(hash)[i as int] == hex_digit(((hash >> ((60 - 4 * (i as int)) as u64))
                & 0xf) as u8));
            assert(cs@ =~= hex16_spec(hash).subrange(0, i + 1));
        }
        i = i + 1;
    }
    cs.push('.');
    cs.push('b');
    cs.push('i');
    cs.push('n');
    proof {
        assert(hex16_spec(hash).subrange(0, 16) =~= hex16_spec(hash));
        assert(cs@ =~= hex16_spec(hash) + ".bin"@) by {
            reveal_strlit(".bin");
        }
    }
    string_from_chars(&cs)
}

/// A write the caller owes the disk tier: the file to create under the
/// cache directory, and its full contents.
pub struct PendingWrite {
    /// File name under the cache directory, hash in hex plus `.bin`.
    pub file_name: String,
    /// The encoded record to write.
    pub bytes: Vec<u8>,
}

/// The in-memory tier of the embedding cache, keyed by content hash.
pub struct EmbeddingCache {
    memory: HashMap<u64, Vec<u32>>,
}

/// What a cache holds, as a map from content hash to vector.
impl View for EmbeddingCache {
    type V = Map<u64, Seq<u32>>;

    closed spec fn view(&self) -> Map<u64, Seq<u32>> {
        Map::new(
            |h: u64| self.memory@.contains_key(h),
            |h: u64| self.memory@[h]@,
        )
    }
}

/// The model of a lookup: the vector stored under the content's hash.
pub open spec fn cache_get_model(m: Map<u64, Seq<u32>>, content: Seq<char>) -> Option<Seq<u32>> {
    if m.contains_key(content_hash_spec(content)) {
        Some(m[content_hash_spec(content)])
    } else {
        None
    }
}

/// The model of an insertion under the content's hash.
pub open spec fn cache_put_model(
    m: Map<u64, Seq<u32>>,
    content: Seq<char>,
    v: Seq<u32>,
) -> Map<u64, Seq<u32>> {
    m.insert(content_hash_spec(content), v)
}

impl EmbeddingCache {
    /// An empty in-memory tier.
    pub fn new() -> (r: Self)
        ensures
            r@ == Map::<u64, Seq<u32>>::empty(),
    {
        let r = EmbeddingCache { memory: HashMap::new() };
        proof {
            assert(r@ =~= Map::<u64, Seq<u32>>::empty());
        }
        r
    }

    /// Look the content up in the memory tier.
    pub fn get_memory(&self, content: &str) -> (r: Option<&Vec<u32>>)
        ensures
            match r {
                Some(v) => cache_get_model(self@, content@) == Some(v@),
                None => cache_get_model(self@, content@) is None,
            },
    {
        let h = compute_content_hash(content);
        let r = self.memory.get(&h);
        proof {
            match r {
                Some(v) => {
                    assert(self.memory@.contains_key(h) && self.memory@[h] == *v);
                    assert(self@.contains_key(h) && self@[h] == v@);
                },
                None => {
                    assert(!self.memory@.contains_key(h));
                    assert(!self@.contains_key(h));
                },
            }
        }
        r
    }

    /// Install a vector under the content's hash and hand back the disk
    /// write that makes the store write-through.
    pub fn put(&mut self, content: &str, vector: Vec<u32>) -> (file: PendingWrite)
        ensures
            final(self)@ == cache_put_model(old(self)@, content@, vector@),
            file.file_name@ == cache_file_name_spec(content_hash_spec(content@)),
            file.bytes@ == encode_spec(vector@),
    {
        let h = compute_content_hash(content);
        let bytes = encode_embedding(&vector);
        let file_name = cache_file_name(h);
        let ghost v_view = vector@;
        self.memory.insert(h, vector);
        proof {
            assert(self@ =~= cache_put_model(old(self)@, content@, v_view));
        }
        PendingWrite { file_name, bytes }
    }

    /// Take the bytes that the disk tier holds for this content and, when
    /// they decode, install and return the vector; rejected bytes leave
    /// the cache unchanged and read as a decode failure, which callers
    /// treat as a miss.
    pub fn admit_disk_record(&mut self, content: &str, bytes: &[u8]) -> (r: Result<
        Vec<u32>,
        ServerError,
    >)
        ensures
            match r {
                Ok(v) => {
                    &&& bytes@ == encode_spec(v@)
                    &&& final(self)@ == cache_put_model(old(self)@, content@, v@)
                },
                Err(e) => {
                    &&& e == ServerError::CodecFailed
                    &&& final(self)@ == old(self)@
                    &&& forall|w: Seq<u32>| bytes@ != #[trigger] encode_spec(w)
                },
            },
    {
        let h = compute_content_hash(content);
        match decode_embedding(bytes) {
            Ok(v) => {
                let copy = copy_words(&v);
                let ghost v_view = v@;
                self.memory.insert(h, copy);
                proof {
                    assert(self@ =~= cache_put_model(old(self)@, content@, v_view));
                }
                Ok(v)
            },
            Err(e) => Err(e),
        }
    }
}

/// Duplicate a vector of words.
fn copy_words(v: &Vec<u32>) -> (r: Vec<u32>)
    ensures
        r@ == v@,
{
    let n = v.len();
    let mut r: Vec<u32> = Vec::new();
    let mut i: usize = 0;
    while i < n
        invariant
            i <= n,
            n == v@.len(),
            r@ == v@.subrange(0, i as int),
        decreases n - i,
    {
        r.push(v[i]);
        assert(r@ == v@.subrange(0, i + 1));
        i = i + 1;
    }
    proof {
        assert(v@.subrange(0, n as int) == v@);
    }
    r
}

/// Cache round trip: a lookup right after an insertion of the same content
/// returns exactly the inserted vector.
pub proof fn lemma_cache_round_trip(m: Map<u64, Seq<u32>>, content: Seq<char>, v: Seq<u32>)
    ensures
        cache_get_model(cache_put_model(m, content, v), content) == Some(v),
{
}

/// Whitespace invariance of the cache: content and its whitespace-normal
/// form read and write the same entry.
pub proof fn lemma_cache_whitespace_invariant(m: Map<u64, Seq<u32>>, content: Seq<char>)
    ensures
        cache_get_model(m, content) == cache_get_model(m, normalize_spec(content)),
{
    crate::fast_hash::lemma_content_hash_normalize_invariant(content);
}

} // verus!
