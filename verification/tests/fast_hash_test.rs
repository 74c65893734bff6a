use rustdocs_mcp_server::fast_hash::{compute_content_hash, normalize_content, FastHasher};

#[test]
fn fnv1a_known_values() {
    // FNV-1a 64-bit reference values
    assert_eq!(FastHasher::hash_string(""), 0xcbf29ce484222325);
    assert_eq!(FastHasher::hash_string("a"), 0xaf63dc4c8601ec8c);
    assert_eq!(FastHasher::hash_string("foobar"), 0x85944171f73967e8);
}

#[test]
fn hasher_feeds_bytes_incrementally() {
    let mut hasher = FastHasher::new();
    hasher.write(b"foo");
    hasher.write_u8(b'b');
    hasher.write(b"ar");
    assert_eq!(hasher.finish(), FastHasher::hash_string("foobar"));
}

#[test]
fn normalize_trims_lines_and_drops_blanks() {
    assert_eq!(normalize_content("  a  \n\n\nb  \n"), "a\nb");
    assert_eq!(normalize_content("a\nb"), "a\nb");
    assert_eq!(normalize_content("   \n \t \n"), "");
    assert_eq!(normalize_content(""), "");
    assert_eq!(normalize_content("one line"), "one line");
    assert_eq!(normalize_content("\r\nwindows line\r\n"), "windows line");
}

#[test]
fn content_hash_ignores_whitespace_layout() {
    // The cache key is stable under reflow: trimmed lines, dropped blank
    // lines, and trailing spaces hash alike.
    let reference = compute_content_hash("a\nb");
    assert_eq!(compute_content_hash("  a  \n\n\nb  \n"), reference);
    assert_eq!(compute_content_hash("a\n\n\n\nb"), reference);
    assert_eq!(compute_content_hash("\ta\t\nb"), reference);
    assert_ne!(compute_content_hash("a\nc"), reference);
}

#[test]
fn content_hash_is_hash_of_normal_form() {
    let text = "  hello  \n\n world \n";
    assert_eq!(
        compute_content_hash(text),
        FastHasher::hash_string(&normalize_content(text))
    );
}
