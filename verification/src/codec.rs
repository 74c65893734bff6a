//! Binary codec for persisted embedding vectors: a version byte, the word
//! count as eight little-endian bytes, then each 32-bit word little-endian.
//! Readers reject anything else, so a stale or foreign file reads as a
//! cache miss.

use vstd::prelude::*;

use crate::error::ServerError;

verus! {

/// Version byte written at the head of every persisted vector record.
pub const CODEC_VERSION: u8 = 1;

/// The four little-endian bytes of a 32-bit word.
pub open spec fn le32_bytes(x: u32) -> Seq<u8> {
    seq![
        (x & 0xff) as u8,
        ((x >> 8u32) & 0xff) as u8,
        ((x >> 16u32) & 0xff) as u8,
        ((x >> 24u32) & 0xff) as u8,
    ]
}

/// The eight little-endian bytes of a 64-bit word.
pub open spec fn le64_bytes(x: u64) -> Seq<u8> {
    seq![
        (x & 0xff) as u8,
        ((x >> 8u64) & 0xff) as u8,
        ((x >> 16u64) & 0xff) as u8,
        ((x >> 24u64) & 0xff) as u8,
        ((x >> 32u64) & 0xff) as u8,
        ((x >> 40u64) & 0xff) as u8,
        ((x >> 48u64) & 0xff) as u8,
        ((x >> 56u64) & 0xff) as u8,
    ]
}

/// The little-endian bytes of the words, in order.
pub open spec fn words_bytes(v: Seq<u32>) -> Seq<u8>
    decreases v.len(),
{
    if v.len() == 0 {
        Seq::empty()
    } else {
        words_bytes(v.drop_last()) + le32_bytes(v.last())
    }
}

/// The on-disk form of a vector: version byte, word count, words.
pub open spec fn encode_spec(v: Seq<u32>) -> Seq<u8> {
    seq![CODEC_VERSION] + le64_bytes(v.len() as u64) + words_bytes(v)
}

/// Four bytes for every word.
pub proof fn lemma_words_bytes_len(v: Seq<u32>)
    ensures
        words_bytes(v).len() == 4 * v.len(),
    decreases v.len(),
{
    if v.len() > 0 {
        lemma_words_bytes_len(v.drop_last());
    }
}

/// Bytes extracted little-endian from a 64-bit word reassemble to the
/// word.
proof fn lemma_le64_rebuild(x: u64, b0: u8, b1: u8, b2: u8, b3: u8, b4: u8, b5: u8, b6: u8, b7: u8)
    requires
        b0 == (x & 0xff) as u8,
        b1 == ((x >> 8u64) & 0xff) as u8,
        b2 == ((x >> 16u64) & 0xff) as u8,
        b3 == ((x >> 24u64) & 0xff) as u8,
        b4 == ((x >> 32u64) & 0xff) as u8,
        b5 == ((x >> 40u64) & 0xff) as u8,
        b6 == ((x >> 48u64) & 0xff) as u8,
        b7 == ((x >> 56u64) & 0xff) as u8,
    ensures
        (b0 as u64) | ((b1 as u64) << 8u64) | ((b2 as u64) << 16u64) | ((b3 as u64) << 24u64) | (
        (b4 as u64) << 32u64) | ((b5 as u64) << 40u64) | ((b6 as u64) << 48u64) | ((b7 as u64)
            << 56u64) == x,
{
    assert((b0 as u64) | ((b1 as u64) << 8u64) | ((b2 as u64) << 16u64) | ((b3 as u64) << 24u64)
        | ((b4 as u64) << 32u64) | ((b5 as u64) << 40u64) | ((b6 as u64) << 48u64) | ((b7 as u64)
        << 56u64) == x) by (bit_vector)
        requires
            b0 == (x & 0xff) as u8,
            b1 == ((x >> 8u64) & 0xff) as u8,
            b2 == ((x >> 16u64) & 0xff) as u8,
            b3 == ((x >> 24u64) & 0xff) as u8,
            b4 == ((x >> 32u64) & 0xff) as u8,
            b5 == ((x >> 40u64) & 0xff) as u8,
            b6 == ((x >> 48u64) & 0xff) as u8,
            b7 == ((x >> 56u64) & 0xff) as u8,
    ;
}

/// A 64-bit word assembled from eight bytes extracts back to those bytes.
proof fn lemma_le64_build(
    b0: u8,
    b1: u8,
    b2: u8,
    b3: u8,
    b4: u8,
    b5: u8,
    b6: u8,
    b7: u8,
    x: u64,
)
    requires
        x == ((b0 as u64) | ((b1 as u64) << 8u64) | ((b2 as u64) << 16u64) | ((b3 as u64)
            << 24u64) | ((b4 as u64) << 32u64) | ((b5 as u64) << 40u64) | ((b6 as u64) << 48u64) | (
        (b7 as u64) << 56u64)),
    ensures
        (x & 0xff) as u8 == b0,
        ((x >> 8u64) & 0xff) as u8 == b1,
        ((x >> 16u64) & 0xff) as u8 == b2,
        ((x >> 24u64) & 0xff) as u8 == b3,
        ((x >> 32u64) & 0xff) as u8 == b4,
        ((x >> 40u64) & 0xff) as u8 == b5,
        ((x >> 48u64) & 0xff) as u8 == b6,
        ((x >> 56u64) & 0xff) as u8 == b7,
{
    let y: u64 = ((b0 as u64) | ((b1 as u64) << 8u64) | ((b2 as u64) << 16u64) | ((b3 as u64)
        << 24u64) | ((b4 as u64) << 32u64) | ((b5 as u64) << 40u64) | ((b6 as u64) << 48u64) | ((
    b7 as u64) << 56u64));
    assert((y & 0xff) as u8 == b0 && ((y >> 8u64) & 0xff) as u8 == b1 && ((y >> 16u64) & 0xff) as u8
        == b2 && ((y >> 24u64) & 0xff) as u8 == b3 && ((y >> 32u64) & 0xff) as u8 == b4 && ((y
        >> 40u64) & 0xff) as u8 == b5 && ((y >> 48u64) & 0xff) as u8 == b6 && ((y >> 56u64) & 0xff)
        as u8 == b7) by (bit_vector)
        requires
            y == ((b0 as u64) | ((b1 as u64) << 8u64) | ((b2 as u64) << 16u64) | ((b3 as u64)
                << 24u64) | ((b4 as u64) << 32u64) | ((b5 as u64) << 40u64) | ((b6 as u64)
                << 48u64) | ((b7 as u64) << 56u64)),
    ;
}

/// A 32-bit word assembled from four bytes extracts back to those bytes.
proof fn lemma_le32_build(b0: u8, b1: u8, b2: u8, b3: u8, x: u32)
    requires
        x == ((b0 as u32) | ((b1 as u32) << 8u32) | ((b2 as u32) << 16u32) | ((b3 as u32)
            << 24u32)),
    ensures
        (x & 0xff) as u8 == b0,
        ((x >> 8u32) & 0xff) as u8 == b1,
        ((x >> 16u32) & 0xff) as u8 == b2,
        ((x >> 24u32) & 0xff) as u8 == b3,
{
    let y: u32 = ((b0 as u32) | ((b1 as u32) << 8u32) | ((b2 as u32) << 16u32) | ((b3 as u32)
        << 24u32));
    assert((y & 0xff) as u8 == b0 && ((y >> 8u32) & 0xff) as u8 == b1 && ((y >> 16u32) & 0xff) as u8
        == b2 && ((y >> 24u32) & 0xff) as u8 == b3) by (bit_vector)
        requires
            y == ((b0 as u32) | ((b1 as u32) << 8u32) | ((b2 as u32) << 16u32) | ((b3 as u32)
                << 24u32)),
    ;
}

/// Encode a vector of words for the disk tier.
pub fn encode_embedding(v: &Vec<u32>) -> (r: Vec<u8>)
    ensures
        r@ == encode_spec(v@),
{
    let mut out: Vec<u8> = Vec::new();
    out.push(CODEC_VERSION);
    let count: u64 = v.len() as u64;
    out.push((count & 0xff) as u8);
    out.push(((count >> 8u64) & 0xff) as u8);
    out.push(((count >> 16u64) & 0xff) as u8);
    out.push(((count >> 24u64) & 0xff) as u8);
    out.push(((count >> 32u64) & 0xff) as u8);
    out.push(((count >> 40u64) & 0xff) as u8);
    out.push(((count >> 48u64) & 0xff) as u8);
    out.push(((count >> 56u64) & 0xff) as u8);
    proof {
        assert(out@ =~= seq![CODEC_VERSION] + le64_bytes(count));
        assert(v@.take(0) =~= Seq::<u32>::empty());
    }
    let n = v.len();
    let mut i: usize = 0;
    while i < n
        invariant
            i <= n,
            n == v@.len(),
            count == v@.len() as u64,
            out@ == seq![CODEC_VERSION] + le64_bytes(count) + words_bytes(v@.take(i as int)),
        decreases n - i,
    {
        let ghost out0 = out@;
        let x = v[i];
        out.push((x & 0xff) as u8);
        out.push(((x >> 8u32) & 0xff) as u8);
        out.push(((x >> 16u32) & 0xff) as u8);
        out.push(((x >> 24u32) & 0xff) as u8);
        proof {
            assert(out@ =~= out0 + le32_bytes(x));
            assert(v@.take(i + 1).drop_last() =~= v@.take(i as int));
            assert(v@.take(i + 1).last() == v@[i as int]);
            assert(words_bytes(v@.take(i + 1)) == words_bytes(v@.take(i as int)) + le32_bytes(
                v@[i as int],
            ));
            assert(out@ =~= seq![CODEC_VERSION] + le64_bytes(count) + words_bytes(v@.take(i + 1)));
        }
        i = i + 1;
    }
    proof {
        assert(v@.take(n as int) =~= v@);
    }
    out
}

/// Decode a persisted vector record. Returns the encoded words exactly
/// when the bytes are a well-formed record of the current version, and
/// `CodecFailed` when no vector encodes to these bytes.
pub fn decode_embedding(bytes: &[u8]) -> (r: Result<Vec<u32>, ServerError>)
    ensures
        match r {
            Ok(v) => bytes@ == encode_spec(v@),
            Err(e) => {
                &&& e == ServerError::CodecFailed
                &&& forall|w: Seq<u32>| bytes@ != #[trigger] encode_spec(w)
            },
        },
{
    let len = bytes.len();
    if len < 9 {
        proof {
            assert forall|w: Seq<u32>| bytes@ != #[trigger] encode_spec(w) by {
                lemma_words_bytes_len(w);
                assert(encode_spec(w).len() == 9 + 4 * w.len());
            }
        }
        return Err(ServerError::CodecFailed);
    }
    if !(bytes[0] == CODEC_VERSION) {
        proof {
            assert forall|w: Seq<u32>| bytes@ != #[trigger] encode_spec(w) by {
                assert(encode_spec(w)[0] == CODEC_VERSION);
            }
        }
        return Err(ServerError::CodecFailed);
    }
    let n64: u64 = (bytes[1] as u64) | ((bytes[2] as u64) << 8u64) | ((bytes[3] as u64) << 16u64)
        | ((bytes[4] as u64) << 24u64) | ((bytes[5] as u64) << 32u64) | ((bytes[6] as u64)
        << 40u64) | ((bytes[7] as u64) << 48u64) | ((bytes[8] as u64) << 56u64);
    let rem = len - 9;
    let count = rem / 4;
    proof {
        assert(4 * (rem as int / 4) <= rem);
    }
    if !(4 * count == rem) || !(n64 == count as u64) {
        proof {
            assert forall|w: Seq<u32>| bytes@ != #[trigger] encode_spec(w) by {
                if bytes@ == encode_spec(w) {
                    lemma_words_bytes_len(w);
                    assert(bytes@.len() == 9 + 4 * w.len());
                    assert(w.len() == (rem as int) / 4) by {
                        assert(4 * w.len() == rem as int);
                    }
                    assert(4 * count == rem);
                    let x: u64 = w.len() as u64;
                    assert(bytes@[1] == (x & 0xff) as u8);
                    assert(bytes@[2] == ((x >> 8u64) & 0xff) as u8);
                    assert(bytes@[3] == ((x >> 16u64) & 0xff) as u8);
                    assert(bytes@[4] == ((x >> 24u64) & 0xff) as u8);
                    assert(bytes@[5] == ((x >> 32u64) & 0xff) as u8);
                    assert(bytes@[6] == ((x >> 40u64) & 0xff) as u8);
                    assert(bytes@[7] == ((x >> 48u64) & 0xff) as u8);
                    assert(bytes@[8] == ((x >> 56u64) & 0xff) as u8);
                    lemma_le64_rebuild(
                        x,
                        bytes@[1],
                        bytes@[2],
                        bytes@[3],
                        bytes@[4],
                        bytes@[5],
                        bytes@[6],
                        bytes@[7],
                        bytes@[8],
                    );
                    assert(n64 == x);
                }
            }
        }
        return Err(ServerError::CodecFailed);
    }
    let mut v: Vec<u32> = Vec::new();
    let mut i: usize = 0;
    proof {
        assert(v@ =~= Seq::<u32>::empty());
    }
    while i < count
        invariant
            i <= count,
            v@.len() == i,
            len == bytes@.len(),
            len == 9 + 4 * count,
            words_bytes(v@) == bytes@.subrange(9, 9 + 4 * i),
        decreases count - i,
    {
        let base = 9 + 4 * i;
        let b0 = bytes[base];
        let b1 = bytes[base + 1];
        let b2 = bytes[base + 2];
        let b3 = bytes[base + 3];
        let x: u32 = (b0 as u32) | ((b1 as u32) << 8u32) | ((b2 as u32) << 16u32) | ((b3 as u32)
            << 24u32);
        let ghost v0 = v@;
        v.push(x);
        proof {
            lemma_le32_build(b0, b1, b2, b3, x);
            assert(v@.drop_last() =~= v0);
            assert(words_bytes(v@) == words_bytes(v0) + le32_bytes(x));
            assert(le32_bytes(x) =~= bytes@.subrange(base as int, base + 4));
            assert(words_bytes(v@) =~= bytes@.subrange(9, 9 + 4 * (i + 1)));
        }
        i = i + 1;
    }
    proof {
        let x: u64 = v@.len() as u64;
        assert(x == n64);
        lemma_le64_build(
            bytes@[1],
            bytes@[2],
            bytes@[3],
            bytes@[4],
            bytes@[5],
            bytes@[6],
            bytes@[7],
            bytes@[8],
            n64,
        );
        assert(encode_spec(v@).len() == 9 + 4 * v@.len()) by {
            lemma_words_bytes_len(v@);
        }
        assert(bytes@ =~= encode_spec(v@)) by {
            assert forall|t: int| 0 <= t < bytes@.len() implies bytes@[t] == encode_spec(v@)[t] by {
                if t == 0 {
                } else if t < 9 {
                    assert(encode_spec(v@)[t] == le64_bytes(x)[t - 1]);
                } else {
                    assert(encode_spec(v@)[t] == words_bytes(v@)[t - 9]);
                    assert(words_bytes(v@)[t - 9] == bytes@.subrange(9, 9 + 4 * count)[t - 9]);
                }
            }
        }
    }
    Ok(v)
}

/// A decoded record re-encodes to the same bytes, and an encoded vector
/// decodes back: the two contracts above compose into a round trip.
pub proof fn lemma_encode_injective(a: Seq<u32>, b: Seq<u32>)
    requires
        encode_spec(a) == encode_spec(b),
    ensures
        a == b,
    decreases a.len(),
{
    lemma_words_bytes_len(a);
    lemma_words_bytes_len(b);
    assert(encode_spec(a).len() == 9 + 4 * a.len());
    assert(encode_spec(b).len() == 9 + 4 * b.len());
    assert(a.len() == b.len());
    assert(words_bytes(a) =~= words_bytes(b)) by {
        assert forall|t: int| 0 <= t < words_bytes(a).len() implies words_bytes(a)[t]
            == words_bytes(b)[t] by {
            assert(encode_spec(a)[9 + t] == words_bytes(a)[t]);
            assert(encode_spec(b)[9 + t] == words_bytes(b)[t]);
        }
    }
    lemma_words_bytes_injective(a, b);
}

proof fn lemma_words_bytes_injective(a: Seq<u32>, b: Seq<u32>)
    requires
        a.len() == b.len(),
        words_bytes(a) == words_bytes(b),
    ensures
        a == b,
    decreases a.len(),
{
    if a.len() > 0 {
        lemma_words_bytes_len(a.drop_last());
        lemma_words_bytes_len(b.drop_last());
        let wa = words_bytes(a.drop_last());
        let wb = words_bytes(b.drop_last());
        assert(words_bytes(a) == wa + le32_bytes(a.last()));
        assert(words_bytes(b) == wb + le32_bytes(b.last()));
        assert(wa =~= wb) by {
            assert forall|t: int| 0 <= t < wa.len() implies wa[t] == wb[t] by {
                assert(wa[t] == (wa + le32_bytes(a.last()))[t]);
                assert(wb[t] == (wb + le32_bytes(b.last()))[t]);
            }
        }
        lemma_words_bytes_injective(a.drop_last(), b.drop_last());
        let xa = a.last();
        let xb = b.last();
        assert(le32_bytes(xa) =~= le32_bytes(xb)) by {
            assert forall|t: int| 0 <= t < 4 implies le32_bytes(xa)[t] == le32_bytes(xb)[t] by {
                assert((wa + le32_bytes(xa))[wa.len() + t] == le32_bytes(xa)[t]);
                assert((wb + le32_bytes(xb))[wb.len() + t] == le32_bytes(xb)[t]);
            }
        }
        assert(xa == xb) by {
            let a0 = (xa & 0xff) as u8;
            let a1 = ((xa >> 8u32) & 0xff) as u8;
            let a2 = ((xa >> 16u32) & 0xff) as u8;
            let a3 = ((xa >> 24u32) & 0xff) as u8;
            assert(le32_bytes(xb)[0] == a0 && le32_bytes(xb)[1] == a1 && le32_bytes(xb)[2] == a2
                && le32_bytes(xb)[3] == a3);
            assert(((xa & 0xff) as u8 == (xb & 0xff) as u8 && ((xa >> 8u32) & 0xff) as u8 == ((xb
                >> 8u32) & 0xff) as u8 && ((xa >> 16u32) & 0xff) as u8 == ((xb >> 16u32) & 0xff)
                as u8 && ((xa >> 24u32) & 0xff) as u8 == ((xb >> 24u32) & 0xff) as u8) ==> xa == xb)
                by (bit_vector);
        }
        assert(a =~= b) by {
            assert forall|t: int| 0 <= t < a.len() implies a[t] == b[t] by {
                if t < a.len() - 1 {
                    assert(a.drop_last()[t] == a[t]);
                    assert(b.drop_last()[t] == b[t]);
                } else {
                    assert(a[t] == a.last() && b[t] == b.last());
                }
            }
        }
    } else {
        assert(a =~= b);
    }
}

} // verus!
