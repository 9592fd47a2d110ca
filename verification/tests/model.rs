use zatlas::model::{describe, FileId, Graph, Language, UnresolvedImport, UnresolvedReason};

#[test]
fn every_extension_we_claim_to_support_maps_to_a_language() {
    for ext in ["ts", "tsx", "js", "jsx", "mjs", "cjs", "rs", "py", "go"] {
        assert!(Language::from_extension(ext).is_some(), "{ext} should map to a language");
    }
    assert_eq!(Language::from_extension("md"), None);
}

#[test]
fn a_language_without_a_resolver_is_never_silently_empty() {
    for language in Language::resolved() {
        assert!(language.has_resolver(), "{language:?}");
    }
    assert!(Language::Rust.has_resolver());
    assert!(Language::Python.has_resolver());
    assert!(Language::Go.has_resolver());
}

#[test]
fn external_imports_do_not_count_as_resolution_failures() {
    let mut g = Graph::new();
    g.unresolved.push(UnresolvedImport {
        from: FileId(0),
        specifier: "serde".into(),
        line: 1,
        reason: UnresolvedReason::External("serde".into()),
    });
    g.unresolved.push(UnresolvedImport {
        from: FileId(0),
        specifier: "./gone".into(),
        line: 2,
        reason: UnresolvedReason::NoSuchFile("./gone".into()),
    });
    g.unresolved.push(UnresolvedImport {
        from: FileId(0),
        specifier: "./styles.css".into(),
        line: 3,
        reason: UnresolvedReason::Asset("css".into()),
    });
    assert_eq!(g.unresolved_failure_count(), 1);
}

#[test]
fn labels_and_extensions_agree() {
    assert_eq!(Language::from_extension("mjs"), Some(Language::JavaScript));
    assert_eq!(Language::from_extension("tsx"), Some(Language::Tsx));
    assert_eq!(Language::Tsx.label(), "TSX");
}

#[test]
fn a_missing_file_is_described_in_words() {
    let text = describe(&UnresolvedReason::NoSuchFile("./x".into()));
    assert!(text.contains("./x"));
}
