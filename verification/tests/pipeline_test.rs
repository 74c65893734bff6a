use rustdocs_mcp_server::doc_loader::Document;
use rustdocs_mcp_server::embedding_pipeline::{
    assemble_embeddings, gate_documents, validate_embedding_response, CONCURRENCY, TOKEN_CAP,
};
use rustdocs_mcp_server::embeddings::EmbeddingProvider;
use rustdocs_mcp_server::error::ServerError;

fn doc(path: &str, content: String) -> Document {
    Document { path: path.to_string(), content }
}

#[test]
fn gate_skips_documents_over_the_token_cap() {
    // One short document and one far above the cap: fewer entries come
    // back than documents went in, and the oversized one contributes
    // neither a pair nor tokens.
    let long_text = "alpha beta gamma delta epsilon ".repeat(2500);
    let docs = vec![
        doc("short.html", "A short document.".to_string()),
        doc("long.html", long_text),
    ];
    let kept = gate_documents(&docs);
    assert!(kept.len() < docs.len(), "oversized documents are skipped");
    assert_eq!(kept.len(), 1);
    assert_eq!(kept[0].0, 0);
    assert!(kept[0].1 <= TOKEN_CAP);
    assert!(kept[0].1 > 0);
}

#[test]
fn gate_keeps_everything_under_the_cap() {
    let docs = vec![
        doc("a.html", "First document.".to_string()),
        doc("b.html", "Second document, a little longer.".to_string()),
    ];
    let kept = gate_documents(&docs);
    assert_eq!(kept.len(), 2);
    assert_eq!(kept[0].0, 0);
    assert_eq!(kept[1].0, 1);
}

#[test]
fn response_shape_is_validated() {
    assert!(validate_embedding_response(1).is_ok());
    assert!(matches!(
        validate_embedding_response(0),
        Err(ServerError::ProviderContract(_))
    ));
    assert!(matches!(
        validate_embedding_response(2),
        Err(ServerError::ProviderContract(_))
    ));
}

#[test]
fn assembly_pairs_paths_with_vectors_and_sums_tokens() {
    let docs = vec![
        doc("a.html", "First.".to_string()),
        doc("b.html", "Second.".to_string()),
        doc("c.html", "Third.".to_string()),
    ];
    let kept = vec![(0usize, 3usize), (2usize, 5usize)];
    let vectors = vec![vec![1u32, 2u32], vec![3u32, 4u32]];
    let (pairs, total) = assemble_embeddings(
        &docs,
        &kept,
        vectors,
        EmbeddingProvider::OpenAI,
        "text-embedding-3-small",
    );
    assert_eq!(total, 8);
    assert_eq!(pairs.len(), 2);
    assert_eq!(pairs[0].0, "a.html");
    assert_eq!(pairs[0].1.values, vec![1u32, 2u32]);
    assert_eq!(pairs[0].1.dimensions, 2);
    assert_eq!(pairs[0].1.model, "text-embedding-3-small");
    assert_eq!(pairs[1].0, "c.html");
    assert_eq!(pairs[1].1.values, vec![3u32, 4u32]);
}

#[test]
fn pipeline_constants_match_the_design() {
    assert_eq!(TOKEN_CAP, 8000);
    assert_eq!(CONCURRENCY, 8);
}
