//! Embedding pipeline: filter each document by its token count before
//! any request is made, validate the shape of each response, and assemble
//! the surviving documents' embeddings with an exact token total. The
//! network calls themselves happen outside the library, between the
//! filtering and the assembly.

use vstd::prelude::*;

use crate::doc_loader::Document;
use crate::embeddings::{Embedding, EmbeddingProvider};
use crate::error::ServerError;

verus! {

/// Documents above this token count are skipped: it keeps headroom below
/// the embedding endpoint's hard limit of 8192.
pub const TOKEN_CAP: usize = 8000;

/// At most this many embedding requests are in flight at once.
pub const CONCURRENCY: usize = 8;

/// Name for the number of tokens the `cl100k_base` tokenizer produces for
/// a text; the tokenization depends on the text alone.
pub uninterp spec fn cl100k_token_count(text: Seq<char>) -> nat;

/// Relies on `tiktoken_rs::cl100k_base` and
/// `CoreBPE::encode_with_special_tokens`: the token count of a text under
/// the `cl100k_base` encoding, which is deterministic in the text. The
/// tokenizer is built from a fixed embedded vocabulary and a constant
/// split pattern, so its construction cannot fail at run time and the
/// count is total.
#[verifier::external_body]
fn count_tokens(text: &str) -> (r: usize)
    ensures
        r as nat == cl100k_token_count(text@),
{
    let bpe = tiktoken_rs::cl100k_base().expect("the embedded cl100k vocabulary is well-formed");
    bpe.encode_with_special_tokens(text).len()
}

/// Document `i` is admitted when its content tokenizes to at most the
/// cap.
pub open spec fn admitted(docs: Seq<Document>, i: int) -> bool {
    &&& 0 <= i < docs.len()
    &&& cl100k_token_count(docs[i].content@) <= TOKEN_CAP
}

/// Some entry of the admitted list carries index `i`.
pub open spec fn kept_contains_index(kept: Seq<(usize, usize)>, i: int) -> bool {
    exists|t: int| 0 <= t < kept.len() && (#[trigger] kept[t]).0 as int == i
}

/// Every document at or below the token cap appears in the admitted list.
pub open spec fn gate_complete(docs: Seq<Document>, kept: Seq<(usize, usize)>) -> bool {
    forall|i: int| #[trigger] admitted(docs, i) ==> kept_contains_index(kept, i)
}

/// Decide which documents may be embedded: the indices whose content stays
/// at or below the token cap, each with its token count, in input order;
/// documents above the cap contribute nothing.
#[verifier::rlimit(50)]
pub fn gate_documents(docs: &Vec<Document>) -> (kept: Vec<(usize, usize)>)
    ensures
        forall|t: int|
            0 <= t < kept@.len() ==> admitted(docs@, (#[trigger] kept@[t]).0 as int),
        forall|t: int|
            0 <= t < kept@.len() ==> (#[trigger] kept@[t]).1 as nat == cl100k_token_count(
                docs@[kept@[t].0 as int].content@,
            ),
        forall|t1: int, t2: int|
            0 <= t1 < t2 < kept@.len() ==> (#[trigger] kept@[t1]).0 < (#[trigger] kept@[t2]).0,
        gate_complete(docs@, kept@),
{
    let n = docs.len();
    let mut kept: Vec<(usize, usize)> = Vec::new();
    let mut i: usize = 0;
    while i < n
        invariant
            i <= n,
            n == docs@.len(),
            forall|t: int| 0 <= t < kept@.len() ==> admitted(docs@, (#[trigger] kept@[t]).0 as int),
            forall|t: int|
                0 <= t < kept@.len() ==> (#[trigger] kept@[t]).1 as nat == cl100k_token_count(
                    docs@[kept@[t].0 as int].content@,
                ),
            forall|t1: int, t2: int|
                0 <= t1 < t2 < kept@.len() ==> (#[trigger] kept@[t1]).0 < (#[trigger] kept@[t2]).0,
            forall|t: int| 0 <= t < kept@.len() ==> (#[trigger] kept@[t]).0 < i,
            forall|k: int|
                0 <= k < i && #[trigger] admitted(docs@, k) ==> kept_contains_index(kept@, k),
        decreases n - i,
    {
        let tokens = count_tokens(docs[i].content.as_str());
        if tokens <= TOKEN_CAP {
            let ghost kept_old = kept@;
            kept.push((i, tokens));
            proof {
                assert forall|k: int| 0 <= k < i + 1 && #[trigger] admitted(docs@, k) implies
                    kept_contains_index(kept@, k) by {
                    if k < i {
                        let t = choose|t: int|
                            0 <= t < kept_old.len() && (#[trigger] kept_old[t]).0 as int == k;
                        assert(kept@[t].0 as int == k);
                        assert(kept_contains_index(kept@, k));
                    } else {
                        assert(kept@[kept@.len() - 1].0 as int == k);
                        assert(kept_contains_index(kept@, k));
                    }
                }
            }
        } else {
            proof {
                assert(!admitted(docs@, i as int));
            }
        }
        i = i + 1;
    }
    proof {
        assert(forall|t: int|
            0 <= t < kept@.len() ==> admitted(docs@, (#[trigger] kept@[t]).0 as int));
        assert(forall|t: int|
            0 <= t < kept@.len() ==> (#[trigger] kept@[t]).1 as nat == cl100k_token_count(
                docs@[kept@[t].0 as int].content@,
            ));
        assert(forall|t1: int, t2: int|
            0 <= t1 < t2 < kept@.len() ==> (#[trigger] kept@[t1]).0 < (#[trigger] kept@[t2]).0);
        assert forall|k: int| #[trigger] admitted(docs@, k) implies kept_contains_index(
            kept@,
            k,
        ) by {
            assert(0 <= k < i);
        }
        assert(gate_complete(docs@, kept@));
    }
    kept
}

/// An embedding response must carry exactly one vector for the one input;
/// any other count breaks the provider contract.
pub fn validate_embedding_response(vectors_in_response: usize) -> (r: Result<(), ServerError>)
    ensures
        r is Ok <==> vectors_in_response == 1,
        r is Err ==> (r matches Err(e) && e is ProviderContract),
{
    if vectors_in_response == 1 {
        Ok(())
    } else {
        Err(
            ServerError::ProviderContract(
                String::from_str("embedding response did not hold exactly one vector"),
            ),
        )
    }
}

/// Sum of the token counts of the admitted documents.
pub open spec fn sum_tokens(kept: Seq<(usize, usize)>) -> int
    decreases kept.len(),
{
    if kept.len() == 0 {
        0
    } else {
        sum_tokens(kept.drop_last()) + kept.last().1
    }
}

/// Pair each admitted document's path with the vector the endpoint
/// returned for it, and report the exact token total of the admitted
/// documents; skipped documents contribute no pair and zero tokens.
pub fn assemble_embeddings(
    docs: &Vec<Document>,
    kept: &Vec<(usize, usize)>,
    vectors: Vec<Vec<u32>>,
    provider: EmbeddingProvider,
    model: &str,
) -> (r: (Vec<(String, Embedding)>, u128))
    requires
        kept@.len() == vectors@.len(),
        forall|t: int| 0 <= t < kept@.len() ==> (#[trigger] kept@[t]).0 < docs@.len(),
        forall|t: int| 0 <= t < kept@.len() ==> (#[trigger] kept@[t]).1 <= TOKEN_CAP,
    ensures
        r.0@.len() == kept@.len(),
        forall|t: int|
            0 <= t < kept@.len() ==> (#[trigger] r.0@[t]).0@ == docs@[kept@[t].0 as int].path@,
        forall|t: int|
            0 <= t < kept@.len() ==> (#[trigger] r.0@[t]).1.values@ == vectors@[t]@ && r.0@[t].1.wf()
                && r.0@[t].1.provider == provider && r.0@[t].1.model@ == model@,
        r.1 == sum_tokens(kept@),
{
    let m = kept.len();
    let mut out: Vec<(String, Embedding)> = Vec::new();
    let mut total: u128 = 0;
    let mut t: usize = 0;
    let mut rest = vectors;
    proof {
        assert(kept@.take(0) =~= Seq::<(usize, usize)>::empty());
    }
    while t < m
        invariant
            t <= m,
            m == kept@.len(),
            rest@.len() == m - t,
            forall|u: int| 0 <= u < rest@.len() ==> #[trigger] rest@[u] == vectors@[t + u],
            forall|u: int| 0 <= u < kept@.len() ==> (#[trigger] kept@[u]).0 < docs@.len(),
            forall|u: int| 0 <= u < kept@.len() ==> (#[trigger] kept@[u]).1 <= TOKEN_CAP,
            out@.len() == t,
            forall|u: int|
                0 <= u < t ==> (#[trigger] out@[u]).0@ == docs@[kept@[u].0 as int].path@,
            forall|u: int|
                0 <= u < t ==> (#[trigger] out@[u]).1.values@ == vectors@[u]@ && out@[u].1.wf()
                    && out@[u].1.provider == provider && out@[u].1.model@ == model@,
            total == sum_tokens(kept@.take(t as int)),
            total <= (TOKEN_CAP as u128) * (t as u128),
        decreases m - t,
    {
        let (index, tokens) = kept[t];
        let vector = rest.remove(0);
        let path = String::from_str(docs[index].path.as_str());
        let embedding = Embedding::new(vector, provider, String::from_str(model));
        out.push((path, embedding));
        proof {
            assert(kept@.take(t + 1).drop_last() =~= kept@.take(t as int));
            assert(kept@.take(t + 1).last() == kept@[t as int]);
            assert(sum_tokens(kept@.take(t + 1)) == sum_tokens(kept@.take(t as int)) + tokens);
            assert((TOKEN_CAP as u128) * (t as u128) + (TOKEN_CAP as u128) <= (TOKEN_CAP as u128) * (
            (t + 1) as u128)) by (nonlinear_arith);
        }
        total = total + (tokens as u128);
        t = t + 1;
    }
    proof {
        assert(kept@.take(m as int) =~= kept@);
    }
    (out, total)
}

/// Strictly increasing indices spread at least as far as their count.
proof fn lemma_increasing_gap(kept: Seq<(usize, usize)>, t1: int, t2: int)
    requires
        forall|u1: int, u2: int|
            0 <= u1 < u2 < kept.len() ==> (#[trigger] kept[u1]).0 < (#[trigger] kept[u2]).0,
        0 <= t1 <= t2 < kept.len(),
    ensures
        kept[t2].0 as int - kept[t1].0 as int >= t2 - t1,
    decreases t2 - t1,
{
    if t1 < t2 {
        lemma_increasing_gap(kept, t1, t2 - 1);
        assert(kept[t2 - 1].0 < kept[t2].0);
    }
}

/// When any document exceeds the token cap, the pipeline returns fewer
/// pairs than it was given documents: the exceeder is skipped, and skipped
/// documents contribute neither a pair nor tokens.
pub proof fn lemma_token_cap_excludes(docs: Seq<Document>, kept: Seq<(usize, usize)>, i: int)
    requires
        forall|t: int| 0 <= t < kept.len() ==> admitted(docs, (#[trigger] kept[t]).0 as int),
        forall|t1: int, t2: int|
            0 <= t1 < t2 < kept.len() ==> (#[trigger] kept[t1]).0 < (#[trigger] kept[t2]).0,
        0 <= i < docs.len(),
        cl100k_token_count(docs[i].content@) > TOKEN_CAP,
    ensures
        kept.len() < docs.len(),
{
    let n = docs.len() as int;
    if kept.len() >= n {
        assert(admitted(docs, kept[n - 1].0 as int));
        lemma_increasing_gap(kept, 0, n - 1);
        assert(kept[n - 1].0 as int >= kept[0].0 as int + n - 1);
        assert(kept[n - 1].0 as int <= n - 1);
        assert(kept[0].0 as int == 0);
        lemma_increasing_gap(kept, i, n - 1);
        lemma_increasing_gap(kept, 0, i);
        assert(kept[i].0 as int == i);
        assert(admitted(docs, i));
    }
}

} // verus!
