//! Query engine support: pick the winning document for the best-scoring
//! path and build the exact two-message prompt for the answer generator.
//! Embedding the question and calling the chat endpoint happen outside the
//! library; the ranking itself is `best_match_index` over score keys.

use vstd::prelude::*;

use crate::doc_loader::Document;
use crate::error::ServerError;
use crate::text::str_eq;
use vstd::string::StringExecFns;

verus! {

/// The first document carrying the winning path; `ContextMissing` exactly
/// when no document backs it.
pub fn select_context(documents: &Vec<Document>, path: &str) -> (r: Result<usize, ServerError>)
    ensures
        match r {
            Ok(i) => (i as int) < documents@.len() && documents@[i as int].path@ == path@ && (
            forall|j: int| 0 <= j < i as int ==> (#[trigger] documents@[j]).path@ != path@),
            Err(e) => (forall|j: int|
                0 <= j < documents@.len() ==> (#[trigger] documents@[j]).path@ != path@) && (
            e matches ServerError::ContextMissing(p) && p@ == path@),
        },
{
    let n = documents.len();
    let mut i: usize = 0;
    while i < n
        invariant
            i <= n,
            n == documents@.len(),
            forall|j: int| 0 <= j < i ==> (#[trigger] documents@[j]).path@ != path@,
        decreases n - i,
    {
        if str_eq(documents[i].path.as_str(), path) {
            return Ok(i);
        }
        i = i + 1;
    }
    Err(ServerError::ContextMissing(String::from_str(path)))
}

/// The fixed system message for a package: an expert persona bound to the
/// package name.
pub open spec fn system_prompt_spec(package: Seq<char>) -> Seq<char> {
    "You are an expert technical assistant for the Rust crate '"@ + package
        + "'. Answer the user's question based *only* on the provided context. If the context does not contain the answer, say so. Do not make up information. Be clear, concise, and comprehensive providing example usage code when possible."@
}

/// The user message: the matched document's body, then the question.
pub open spec fn user_prompt_spec(context: Seq<char>, question: Seq<char>) -> Seq<char> {
    "Context:\n---\n"@ + context + "\n---\n\nQuestion: "@ + question
}

/// Build the two-message prompt for the chat endpoint.
pub fn build_prompts(package: &str, context: &str, question: &str) -> (r: (String, String))
    ensures
        r.0@ == system_prompt_spec(package@),
        r.1@ == user_prompt_spec(context@, question@),
{
    let mut system = String::from_str(
        "You are an expert technical assistant for the Rust crate '",
    );
    system.append(package);
    system.append(
        "'. Answer the user's question based *only* on the provided context. If the context does not contain the answer, say so. Do not make up information. Be clear, concise, and comprehensive providing example usage code when possible.",
    );
    let mut user = String::from_str("Context:\n---\n");
    user.append(context);
    user.append("\n---\n\nQuestion: ");
    user.append(question);
    (system, user)
}

} // verus!
