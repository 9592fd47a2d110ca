use zatlas::lsp::servers::{discover, known_servers, language_id};
use zatlas::lsp::uri::{decode, path_to_uri, uri_to_path};
use zatlas::lsp::{is_failure, locate, utf16_offset, LspMode, LspReport, LspSettings};
use zatlas::model::{Language, UnresolvedReason};

#[test]
fn off_is_the_default_because_this_starts_a_process() {
    assert_eq!(LspSettings::default().mode, LspMode::Off);
}

#[test]
fn utf16_offsets_count_code_units_not_bytes() {
    assert_eq!(utf16_offset("abc", 3), 3);
    assert_eq!(utf16_offset("é!", 3), 2);
    assert_eq!(utf16_offset("🗺x", 4), 2);
}

#[test]
fn locate_points_inside_the_specifier_not_at_its_quote() {
    let source = "import { a } from './lib/thing';\n";
    let at = locate(source, 1, "./lib/thing").unwrap();

    assert!(at > 19 && at < 30, "got {at}");
}

#[test]
fn locate_declines_a_specifier_that_is_not_on_the_line() {
    let source = "use crate::{a, b};\n";
    assert_eq!(locate(source, 1, "crate::a"), None);
}

#[test]
fn locate_accounts_for_multibyte_text_earlier_on_the_line() {
    let source = "import x from './a'; // — dash\n";
    let at = locate(source, 1, "./a").unwrap();
    assert_eq!(at, utf16_offset("import x from './a'; // — dash", 16));
}

#[test]
fn locate_survives_a_specifier_whose_midpoint_is_inside_a_character() {
    let source = "import x from './é';\n";
    assert!(locate(source, 1, "./é").is_some());
}

#[test]
fn locate_declines_a_line_past_the_end_of_the_file() {
    assert_eq!(locate("one line\n", 9, "x"), None);
    assert_eq!(locate("one line\n", 0, "x"), None);
}

#[test]
fn only_real_failures_are_worth_asking_a_server_about() {
    assert!(is_failure(&UnresolvedReason::NoSuchFile("x".into())));
    assert!(is_failure(&UnresolvedReason::FileNotInModuleTree));

    assert!(!is_failure(&UnresolvedReason::External("serde".into())));
    assert!(!is_failure(&UnresolvedReason::Asset("a.css".into())));
    assert!(!is_failure(&UnresolvedReason::DynamicSpecifier));
    assert!(!is_failure(&UnresolvedReason::ExcludedFromScan("g".into())));
}

#[test]
fn an_empty_report_is_one_where_nothing_ran() {
    let mut report = LspReport::default();
    assert!(report.is_empty());
    report.queries = 1;
    assert!(!report.is_empty());
}

#[test]
fn every_known_server_has_a_language_id_for_each_language_it_claims() {
    for spec in known_servers() {
        assert!(!spec.languages.is_empty(), "{} handles nothing", spec.id);
        for language in &spec.languages {
            assert!(!language_id(*language).is_empty());
        }
    }
}

#[test]
fn server_ids_are_unique_because_config_addresses_them_by_id() {
    let servers = known_servers();
    let mut ids: Vec<&str> = servers.iter().map(|s| s.id).collect();
    ids.sort_unstable();
    let count = ids.len();
    ids.dedup();
    assert_eq!(ids.len(), count);
}

fn all_found() -> Vec<Option<String>> {
    known_servers().iter().map(|s| Some(format!("/usr/bin/{}", s.command))).collect()
}

#[test]
fn a_repository_without_the_marker_file_starts_nothing() {
    let found = discover(&[Language::Rust], &[], &[false; 6], &all_found());
    assert!(found.is_empty());
}

#[test]
fn a_language_the_scan_did_not_find_never_starts_a_server() {
    let markers = [true, false, false, false, false, false];
    assert!(discover(&[Language::Python], &[], &markers, &all_found()).is_empty());
}

#[test]
fn the_allowlist_excludes_servers_not_named_in_it() {
    let markers = [true, false, false, false, false, false];
    let wanted = vec!["gopls".to_owned()];
    assert!(discover(&[Language::Rust], &wanted, &markers, &all_found()).is_empty());
}

#[test]
fn one_server_per_language_the_first_that_is_installed() {
    let markers = [true, true, true, true, true, true];
    let mut executables = all_found();
    executables[3] = None;
    let found = discover(&[Language::Python, Language::Rust], &[], &markers, &executables);
    let ids: Vec<&str> = found.iter().map(|d| d.spec.id).collect();
    assert_eq!(ids, vec!["rust-analyzer", "basedpyright"]);
    assert_eq!(found[1].executable, "/usr/bin/basedpyright-langserver");
}

#[test]
fn a_unix_path_round_trips() {
    let p = "/home/z/src/main.rs";
    assert_eq!(path_to_uri(p), "file:///home/z/src/main.rs");
    assert_eq!(uri_to_path("file:///home/z/src/main.rs").unwrap(), p);
}

#[test]
fn a_windows_path_gains_the_third_slash_and_keeps_its_colon() {
    let uri = path_to_uri(r"C:\Users\z\main.rs");
    assert_eq!(uri, "file:///C:/Users/z/main.rs");
    assert_eq!(uri_to_path(&uri).unwrap(), "C:/Users/z/main.rs");
}

#[test]
fn spaces_and_non_ascii_are_percent_encoded() {
    let uri = path_to_uri("/home/z/my code/café.ts");
    assert_eq!(uri, "file:///home/z/my%20code/caf%C3%A9.ts");
    assert_eq!(uri_to_path(&uri).unwrap(), "/home/z/my code/café.ts");
}

#[test]
fn a_verbatim_prefix_is_stripped_because_no_server_understands_it() {
    assert_eq!(path_to_uri(r"\\?\C:\src\a.rs"), "file:///C:/src/a.rs");
}

#[test]
fn a_non_file_scheme_is_declined_rather_than_guessed_at() {
    assert!(uri_to_path("untitled:Untitled-1").is_none());
    assert!(uri_to_path("jdt://contents/rt.jar").is_none());
}

#[test]
fn a_stray_percent_is_left_alone_instead_of_eating_the_next_characters() {
    assert_eq!(decode("100% done"), "100% done");
    assert_eq!(decode("a%zz"), "a%zz");
}

#[test]
fn an_escaped_byte_decodes_to_its_character() {
    assert_eq!(decode("caf%C3%A9"), "café");
    assert_eq!(decode("a%2Fb"), "a/b");
}
