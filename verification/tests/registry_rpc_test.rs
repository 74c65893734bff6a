use rustdocs_mcp_server::crate_discovery::{
    canonical_crate_name, discover_available_crates, find_matching_crate_names,
    normalize_crate_name, DirEntryInfo,
};
use rustdocs_mcp_server::doc_loader::Document;
use rustdocs_mcp_server::embeddings::{Embedding, EmbeddingProvider};
use rustdocs_mcp_server::error::ServerError;
use rustdocs_mcp_server::query::{build_prompts, select_context};
use rustdocs_mcp_server::registry::{assemble_entry, CrateEntry, Registry, Resolution};
use rustdocs_mcp_server::render::{locate_render_output, render_manifest};
use rustdocs_mcp_server::rpc::{Connection, ConnectionPhase, Reply, Request};

fn doc(path: &str, content: &str) -> Document {
    Document { path: path.to_string(), content: content.to_string() }
}

fn embedding(values: Vec<u32>) -> Embedding {
    Embedding::new(values, EmbeddingProvider::OpenAI, "test-model".to_string())
}

fn entry(name: &str) -> CrateEntry {
    assemble_entry(
        name.to_string(),
        vec![doc("index.html", "front page")],
        vec![("index.html".to_string(), embedding(vec![1, 2, 3]))],
    )
    .expect("embedded path has a backing document")
}

#[test]
fn crate_name_normalization() {
    assert_eq!(normalize_crate_name("serde-json"), "serde_json");
    assert_eq!(normalize_crate_name("tokio"), "tokio");
    assert_eq!(canonical_crate_name("async-openai"), "async_openai");
}

#[test]
fn fuzzy_matching_is_case_and_hyphen_insensitive() {
    let available = vec![
        "serde_json".to_string(),
        "Tokio".to_string(),
        "reqwest".to_string(),
        "serde".to_string(),
    ];
    let matches = find_matching_crate_names("serde-json", &available);
    assert!(matches.contains(&"serde_json".to_string()));
    // "serde" is contained in the normalized query, so it is suggested too
    assert!(matches.contains(&"serde".to_string()));
    assert!(!matches.contains(&"reqwest".to_string()));
    let tokio_matches = find_matching_crate_names("TOKIO", &available);
    assert_eq!(tokio_matches, vec!["Tokio".to_string()]);
}

#[test]
fn entry_invariant_is_validated() {
    // An embedded path without a backing document is rejected.
    let rejected = assemble_entry(
        "broken".to_string(),
        vec![doc("present.html", "text")],
        vec![("absent.html".to_string(), embedding(vec![1]))],
    );
    assert!(rejected.is_none());
}

#[test]
fn registry_replaces_entries_by_name() {
    let mut registry = Registry::new(vec!["serde".to_string()], true);
    registry.insert_entry(entry("serde"));
    registry.insert_entry(entry("tokio"));
    registry.insert_entry(entry("serde"));
    assert_eq!(registry.entries.len(), 2);
    assert!(registry.get_entry("serde").is_some());
    assert!(registry.get_entry("tokio").is_some());
    assert!(registry.get_entry("reqwest").is_none());
}

#[test]
fn unknown_package_carries_available_and_similar() {
    // Query for a package that is neither loaded nor renderable: the error
    // lists what is loaded and which renderable names look similar.
    let mut registry = Registry::new(
        vec!["serde".to_string(), "does".to_string()],
        false,
    );
    registry.insert_entry(entry("serde"));
    match registry.resolve("does-not-exist") {
        Resolution::Unknown { available, similar } => {
            assert!(available.contains(&"serde".to_string()));
            assert!(similar.contains(&"does".to_string()));
            assert!(!similar.contains(&"serde".to_string()));
        }
        _ => panic!("expected an unknown-package resolution"),
    }
}

#[test]
fn lazy_renderable_packages_are_ingested_on_demand() {
    let registry = Registry::new(vec!["serde".to_string()], true);
    assert!(matches!(registry.resolve("serde"), Resolution::Ingest));
    // With lazy loading off the same query is unknown
    let eager = Registry::new(vec!["serde".to_string()], false);
    assert!(matches!(eager.resolve("serde"), Resolution::Unknown { .. }));
}

#[test]
fn loaded_packages_resolve_to_their_entry() {
    let mut registry = Registry::new(vec![], true);
    registry.insert_entry(entry("serde"));
    match registry.resolve("serde") {
        Resolution::Loaded(i) => assert_eq!(registry.entries[i].name, "serde"),
        _ => panic!("expected the loaded entry"),
    }
}

#[test]
fn connection_rejects_requests_before_initialization() {
    let registry = Registry::new(vec![], true);
    let mut conn = Connection::new("ready".to_string());
    let early = conn.handle_request(&registry, Request::ListTools);
    assert!(matches!(early, Err(ServerError::ProtocolError(_))));
    assert_eq!(conn.phase, ConnectionPhase::Uninitialized);

    conn.on_initialize().expect("fresh connection initializes");
    assert!(conn.on_initialize().is_err());
    assert!(conn.handle_request(&registry, Request::ListTools).is_ok());
    assert_eq!(conn.phase, ConnectionPhase::Serving);

    conn.on_close();
    let late = conn.handle_request(&registry, Request::ListTools);
    assert!(matches!(late, Err(ServerError::ProtocolError(_))));
    assert_eq!(conn.phase, ConnectionPhase::Closed);
}

#[test]
fn startup_announcement_is_one_shot() {
    let mut conn = Connection::new("Test startup message".to_string());
    assert_eq!(conn.take_startup_announcement(), Some("Test startup message".to_string()));
    assert_eq!(conn.take_startup_announcement(), None);
    assert_eq!(conn.take_startup_announcement(), None);
}

#[test]
fn resources_list_loaded_packages_as_uris() {
    let mut registry = Registry::new(vec![], true);
    registry.insert_entry(entry("serde"));
    registry.insert_entry(entry("tokio"));
    let mut conn = Connection::new("hello".to_string());
    conn.on_initialize().expect("fresh connection initializes");
    match conn.handle_request(&registry, Request::ListResources) {
        Ok(Reply::Resources(uris)) => {
            assert_eq!(uris, vec!["crate://serde".to_string(), "crate://tokio".to_string()]);
        }
        other => panic!("expected the resource list, got {:?}", other.is_ok()),
    }
}

#[test]
fn read_resource_resolves_crate_uris() {
    let mut registry = Registry::new(vec!["serde".to_string()], true);
    registry.insert_entry(entry("serde"));
    let mut conn = Connection::new("hello".to_string());
    conn.on_initialize().expect("fresh connection initializes");

    match conn.handle_request(&registry, Request::ReadResource { uri: "crate://serde".to_string() }) {
        Ok(Reply::ResourceText { uri, text }) => {
            assert_eq!(uri, "crate://serde");
            assert_eq!(text, "serde");
        }
        _ => panic!("expected the resource text"),
    }

    let missing = conn.handle_request(
        &registry,
        Request::ReadResource { uri: "crate://unknown".to_string() },
    );
    assert!(matches!(missing, Err(ServerError::UnknownPackage { .. })));

    let malformed = conn.handle_request(
        &registry,
        Request::ReadResource { uri: "file://etc/passwd".to_string() },
    );
    assert!(matches!(malformed, Err(ServerError::ProtocolError(_))));
}

#[test]
fn query_requests_become_query_tasks() {
    let registry = Registry::new(vec![], true);
    let mut conn = Connection::new("hello".to_string());
    conn.on_initialize().expect("fresh connection initializes");
    match conn.handle_request(
        &registry,
        Request::QueryDocumentation {
            package: "serde".to_string(),
            question: "How do I derive?".to_string(),
        },
    ) {
        Ok(Reply::QueryTask { package, question }) => {
            assert_eq!(package, "serde");
            assert_eq!(question, "How do I derive?");
        }
        _ => panic!("expected a query task"),
    }
}

#[test]
fn context_selection_finds_the_backing_document() {
    let documents = vec![doc("a.html", "alpha"), doc("b.html", "beta")];
    let i = select_context(&documents, "b.html").expect("path is backed");
    assert_eq!(i, 1);
    match select_context(&documents, "missing.html") {
        Err(ServerError::ContextMissing(p)) => assert_eq!(p, "missing.html"),
        other => panic!("expected missing context, got {:?}", other),
    }
}

#[test]
fn prompts_quote_package_context_and_question() {
    let (system, user) = build_prompts("serde", "Serde is a framework.", "What is serde?");
    assert!(system.starts_with("You are an expert technical assistant for the Rust crate 'serde'."));
    assert!(system.contains("based *only* on the provided context"));
    assert_eq!(
        user,
        "Context:\n---\nSerde is a framework.\n---\n\nQuestion: What is serde?"
    );
}

#[test]
fn manifest_names_the_sole_dependency() {
    let manifest = render_manifest(
        "serde",
        "1.0",
        &vec!["derive".to_string(), "rc".to_string()],
    );
    assert_eq!(
        manifest,
        "[package]\nname = \"docs_only\"\nversion = \"0.1.0\"\nedition = \"2021\"\n\n[dependencies]\nserde = { version = \"1.0\", features = [\"derive\", \"rc\"] }\n"
    );
    let bare = render_manifest("tokio", "*", &vec![]);
    assert!(bare.ends_with("tokio = { version = \"*\", features = [] }\n"));
}

fn dir(name: &str, is_dir: bool, has_index: bool) -> DirEntryInfo {
    DirEntryInfo { name: name.to_string(), is_dir, has_index }
}

#[test]
fn render_output_must_be_unique() {
    let one = vec![dir("doc", true, true), dir("other", true, false)];
    assert_eq!(locate_render_output(&one).expect("one candidate"), "doc");

    let none: Vec<DirEntryInfo> = vec![dir("empty", true, false)];
    assert!(matches!(
        locate_render_output(&none),
        Err(ServerError::RenderOutputAmbiguous)
    ));

    let two = vec![dir("a", true, true), dir("b", true, true)];
    assert!(matches!(
        locate_render_output(&two),
        Err(ServerError::RenderOutputAmbiguous)
    ));
}

#[test]
fn discovery_filters_and_deduplicates() {
    let entries = vec![
        dir("serde", true, true),
        dir("notes.txt", false, false),
        dir("tokio", true, false),
        dir("serde", true, true),
        dir("reqwest", true, true),
    ];
    let names = discover_available_crates(&entries);
    assert_eq!(names, vec!["serde".to_string(), "reqwest".to_string()]);
}
