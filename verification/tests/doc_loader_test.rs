use rustdocs_mcp_server::doc_loader::{
    extract_documents, select_html_files, Document, FileEntry,
};

fn entry(path: &str, size: u64) -> FileEntry {
    FileEntry { path: path.to_string(), size }
}

#[test]
fn test_document_struct() {
    // Simple test for the Document struct
    let doc = Document {
        path: "test/path.html".to_string(),
        content: "Test content".to_string(),
    };

    assert_eq!(doc.path, "test/path.html");
    assert_eq!(doc.content, "Test content");

    // Test clone works
    let doc_clone = doc.clone();
    assert_eq!(doc.path, doc_clone.path);
    assert_eq!(doc.content, doc_clone.content);

    // Test debug formatting
    let debug_str = format!("{:?}", doc);
    assert!(debug_str.contains("Document"));
    assert!(debug_str.contains("test/path.html"));
    assert!(debug_str.contains("Test content"));
}

#[test]
fn selection_excludes_source_view_pages() {
    // No selected path has a component equal to `src`.
    let files = vec![
        entry("index.html", 100),
        entry("src/lib.rs.html", 400),
        entry("struct.Thing.html", 200),
        entry("deep/src/nested.html", 300),
    ];
    let chosen = select_html_files(&files);
    let paths: Vec<&str> = chosen.iter().map(|&i| files[i].path.as_str()).collect();
    assert!(paths.contains(&"index.html"));
    assert!(paths.contains(&"struct.Thing.html"));
    assert!(!paths.iter().any(|p| p.split('/').any(|c| c == "src")));
    assert_eq!(paths.len(), 2);
}

#[test]
fn selection_keeps_only_root_index() {
    let files = vec![
        entry("index.html", 100),
        entry("module/index.html", 500),
        entry("other/index.html", 700),
    ];
    let chosen = select_html_files(&files);
    let paths: Vec<&str> = chosen.iter().map(|&i| files[i].path.as_str()).collect();
    assert_eq!(paths, vec!["index.html"]);
}

#[test]
fn selection_keeps_largest_duplicate() {
    let files = vec![
        entry("a/duplicate.html", 10),
        entry("b/duplicate.html", 90),
        entry("c/duplicate.html", 40),
        entry("unique.html", 5),
    ];
    let chosen = select_html_files(&files);
    let paths: Vec<&str> = chosen.iter().map(|&i| files[i].path.as_str()).collect();
    assert!(paths.contains(&"b/duplicate.html"));
    assert!(paths.contains(&"unique.html"));
    assert_eq!(paths.len(), 2);
}

#[test]
fn selection_breaks_size_ties_at_first() {
    let files = vec![
        entry("a/tied.html", 50),
        entry("b/tied.html", 50),
    ];
    let chosen = select_html_files(&files);
    let paths: Vec<&str> = chosen.iter().map(|&i| files[i].path.as_str()).collect();
    assert_eq!(paths, vec!["a/tied.html"]);
}

#[test]
fn selection_ignores_non_html_files() {
    let files = vec![entry("readme.md", 10), entry("page.html", 10)];
    let chosen = select_html_files(&files);
    let paths: Vec<&str> = chosen.iter().map(|&i| files[i].path.as_str()).collect();
    assert_eq!(paths, vec!["page.html"]);
}

#[test]
fn selection_yields_distinct_paths() {
    // No two selected files (hence no two documents) share a path.
    let files = vec![
        entry("index.html", 1),
        entry("x/page.html", 10),
        entry("y/page.html", 10),
        entry("z/other.html", 3),
    ];
    let chosen = select_html_files(&files);
    let mut paths: Vec<&str> = chosen.iter().map(|&i| files[i].path.as_str()).collect();
    let before = paths.len();
    paths.sort();
    paths.dedup();
    assert_eq!(paths.len(), before);
}

#[test]
fn extraction_reads_main_content() {
    let html = "<html><body>\
        <nav>Sidebar noise</nav>\
        <section id=\"main-content\" class=\"content\">\
        <h1> Title </h1><p>Paragraph 1</p><div><p>Nested paragraph</p></div>\
        </section></body></html>";
    let pages = vec![("page.html".to_string(), html.to_string())];
    let docs = extract_documents(&pages);
    assert_eq!(docs.len(), 1);
    assert_eq!(docs[0].path, "page.html");
    assert_eq!(docs[0].content, "Title\nParagraph 1\nNested paragraph");
    assert!(!docs[0].content.contains("Sidebar noise"));
}

#[test]
fn extraction_skips_pages_without_selector_or_text() {
    let no_selector = "<html><body><div class=\"content\">text</div></body></html>";
    let empty_text = "<html><body><section id=\"main-content\" class=\"content\"> \n\t </section></body></html>";
    let good = "<html><body><section id=\"main-content\" class=\"content\">kept</section></body></html>";
    let pages = vec![
        ("a.html".to_string(), no_selector.to_string()),
        ("b.html".to_string(), empty_text.to_string()),
        ("c.html".to_string(), good.to_string()),
    ];
    let docs = extract_documents(&pages);
    assert_eq!(docs.len(), 1);
    assert_eq!(docs[0].path, "c.html");
    assert_eq!(docs[0].content, "kept");
}
