use rustdocs_mcp_server::embeddings::{
    best_match_index, check_dimensions, Embedding, EmbeddingProvider,
};
use rustdocs_mcp_server::error::ServerError;

fn bits(values: &[f32]) -> Vec<u32> {
    values.iter().map(|v| v.to_bits()).collect()
}

#[test]
fn test_embedding_struct() {
    // Create a test embedding
    let values = bits(&[0.1, 0.2, 0.3, 0.4, 0.5]);
    let provider = EmbeddingProvider::OpenAI;
    let model = "test-model".to_string();

    let embedding = Embedding::new(values.clone(), provider, model.clone());

    // Check properties
    assert_eq!(embedding.values, values);
    assert_eq!(embedding.provider, provider);
    assert_eq!(embedding.model, model);
    assert_eq!(embedding.dimensions, 5);

    // The stored bit patterns recover the float components
    assert_eq!(f32::from_bits(embedding.values[0]), 0.1);
    assert_eq!(f32::from_bits(embedding.values[4]), 0.5);
}

#[test]
fn dimension_check_reports_both_sizes() {
    let a = Embedding::new(bits(&[1.0, 0.0]), EmbeddingProvider::OpenAI, "m".to_string());
    let b = Embedding::new(bits(&[1.0, 0.0, 0.0]), EmbeddingProvider::OpenAI, "m".to_string());
    assert!(check_dimensions(&a, &a).is_ok());
    match check_dimensions(&a, &b) {
        Err(ServerError::DimensionMismatch { expected, actual }) => {
            assert_eq!(expected, 2);
            assert_eq!(actual, 3);
        }
        other => panic!("expected a dimension mismatch, got {:?}", other),
    }
}

#[test]
fn best_match_takes_first_of_maximum() {
    assert_eq!(best_match_index(&vec![]), None);
    assert_eq!(best_match_index(&vec![5]), Some(0));
    assert_eq!(best_match_index(&vec![1, 9, 3]), Some(1));
    // Ties go to the first occurrence, as storage order breaks ties
    assert_eq!(best_match_index(&vec![2, 7, 7, 1]), Some(1));
    assert_eq!(best_match_index(&vec![-4, -2, -9]), Some(1));
}

fn cosine(a: &[f32], b: &[f32]) -> f32 {
    let dot: f32 = a.iter().zip(b.iter()).map(|(x, y)| x * y).sum();
    let na: f32 = a.iter().map(|x| x * x).sum::<f32>().sqrt();
    let nb: f32 = b.iter().map(|x| x * x).sum::<f32>().sqrt();
    if na == 0.0 || nb == 0.0 { 0.0 } else { dot / (na * nb) }
}

fn score_key(x: f32) -> i64 {
    // Monotone key for scores in [-1, 1]
    (x * 1_000_000.0) as i64
}

#[test]
fn ranking_prefers_the_on_topic_document() {
    // Hand-made embeddings standing for three documents and a question
    // about the first topic: the highest cosine must pick that document.
    let rust_doc = [0.9f32, 0.1, 0.05];
    let python_doc = [0.4f32, 0.8, 0.1];
    let astro_doc = [0.05f32, 0.1, 0.95];
    let question = [0.85f32, 0.2, 0.1];

    let scores: Vec<i64> = [rust_doc, python_doc, astro_doc]
        .iter()
        .map(|d| score_key(cosine(&question, d)))
        .collect();
    assert_eq!(best_match_index(&scores), Some(0));
}

#[test]
fn error_kinds_are_stable_strings() {
    assert_eq!(ServerError::IoFailed("x".to_string()).kind(), "IoFailed");
    assert_eq!(ServerError::RenderFailed("x".to_string()).kind(), "RenderFailed");
    assert_eq!(ServerError::RenderOutputAmbiguous.kind(), "RenderOutputAmbiguous");
    assert_eq!(ServerError::SelectorFailed("x".to_string()).kind(), "SelectorFailed");
    assert_eq!(ServerError::TokenizerFailed("x".to_string()).kind(), "TokenizerFailed");
    assert_eq!(ServerError::ProviderContract("x".to_string()).kind(), "ProviderContract");
    assert_eq!(ServerError::ProviderUnavailable("x".to_string()).kind(), "ProviderUnavailable");
    assert_eq!(ServerError::CodecFailed.kind(), "CodecFailed");
    assert_eq!(ServerError::MissingEnv("OPENAI_API_KEY".to_string()).kind(), "MissingEnv");
    assert_eq!(
        ServerError::UnknownPackage {
            package: "p".to_string(),
            available: vec![],
            similar: vec![]
        }
        .kind(),
        "UnknownPackage"
    );
    assert_eq!(ServerError::ContextMissing("p".to_string()).kind(), "ContextMissing");
    assert_eq!(
        ServerError::DimensionMismatch { expected: 1, actual: 2 }.kind(),
        "DimensionMismatch"
    );
    assert_eq!(ServerError::ProtocolError("x".to_string()).kind(), "ProtocolError");
}
