use rustdocs_mcp_server::codec::{decode_embedding, encode_embedding, CODEC_VERSION};
use rustdocs_mcp_server::embedding_cache::{cache_file_name, EmbeddingCache};
use rustdocs_mcp_server::error::ServerError;

fn bits(values: &[f32]) -> Vec<u32> {
    values.iter().map(|v| v.to_bits()).collect()
}

#[test]
fn cache_round_trip_in_memory() {
    // put(content, vector); get(content) == Some(vector)
    let mut cache = EmbeddingCache::new();
    let vector = bits(&[0.1, 0.2, 0.3]);
    cache.put("hello world", vector.clone());
    let got = cache.get_memory("hello world").expect("hit after put");
    assert_eq!(*got, vector);
}

#[test]
fn cache_round_trip_through_disk_record() {
    // A second process sees only the written file; admitting its bytes
    // restores the vector under the same key.
    let mut cache = EmbeddingCache::new();
    let vector = bits(&[0.1, 0.2, 0.3]);
    let pending = cache.put("hello world", vector.clone());

    let mut restarted = EmbeddingCache::new();
    assert!(restarted.get_memory("hello world").is_none());
    let restored = restarted
        .admit_disk_record("hello world", &pending.bytes)
        .expect("written record decodes");
    assert_eq!(restored, vector);
    let got = restarted.get_memory("hello world").expect("hit after admit");
    assert_eq!(*got, vector);
}

#[test]
fn cache_hit_is_whitespace_invariant() {
    // put("a\nb\n", [1.0]); get("  a  \n\n\nb  \n") == Some([1.0])
    let mut cache = EmbeddingCache::new();
    let vector = bits(&[1.0]);
    cache.put("a\nb\n", vector.clone());
    let got = cache.get_memory("  a  \n\n\nb  \n").expect("reflowed content hits");
    assert_eq!(*got, vector);
}

#[test]
fn cache_miss_on_unknown_content() {
    let cache = EmbeddingCache::new();
    assert!(cache.get_memory("never stored").is_none());
}

#[test]
fn codec_round_trip() {
    let vector: Vec<u32> = bits(&[0.25, -1.5, 3.25, 0.0]);
    let encoded = encode_embedding(&vector);
    assert_eq!(encoded[0], CODEC_VERSION);
    let decoded = decode_embedding(&encoded).expect("encoded record decodes");
    assert_eq!(decoded, vector);

    let empty: Vec<u32> = Vec::new();
    let encoded_empty = encode_embedding(&empty);
    assert_eq!(encoded_empty.len(), 9);
    assert_eq!(decode_embedding(&encoded_empty).expect("empty record decodes"), empty);
}

#[test]
fn codec_rejects_malformed_records() {
    // Too short
    assert!(matches!(decode_embedding(&[1, 2, 3]), Err(ServerError::CodecFailed)));
    // Wrong version byte
    let mut wrong_version = encode_embedding(&vec![7u32]);
    wrong_version[0] = wrong_version[0].wrapping_add(1);
    assert!(matches!(decode_embedding(&wrong_version), Err(ServerError::CodecFailed)));
    // Truncated payload
    let mut truncated = encode_embedding(&vec![7u32, 9u32]);
    truncated.pop();
    assert!(matches!(decode_embedding(&truncated), Err(ServerError::CodecFailed)));
    // Length field disagreeing with the payload
    let mut bad_count = encode_embedding(&vec![7u32]);
    bad_count[1] = 2;
    assert!(matches!(decode_embedding(&bad_count), Err(ServerError::CodecFailed)));
}

#[test]
fn cache_file_name_is_hash_in_hex() {
    assert_eq!(cache_file_name(0x0123456789abcdef), "0123456789abcdef.bin");
    assert_eq!(cache_file_name(0), "0000000000000000.bin");
    assert_eq!(cache_file_name(u64::MAX), "ffffffffffffffff.bin");
}

#[test]
fn put_reports_the_write_through_file() {
    let mut cache = EmbeddingCache::new();
    let vector = bits(&[0.5, 0.75]);
    let pending = cache.put("some document", vector.clone());
    assert!(pending.file_name.ends_with(".bin"));
    assert_eq!(pending.file_name.len(), 20);
    assert_eq!(decode_embedding(&pending.bytes).expect("pending bytes decode"), vector);
}
