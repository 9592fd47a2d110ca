use zatlas::analyse::{js_specifiers, mod_decls};
use zatlas::findings::{alias_severity, enough_files_to_rank, fixed_severity, long_enough_for_god_file, FindingKind, Severity};
use zatlas::model::Language;
use zatlas::parse::{fits_parse, parse, ParsedFile};

#[test]
fn kinds_with_a_fixed_severity_have_it() {
    assert_eq!(fixed_severity(FindingKind::Orphan), Some(Severity::Low));
    assert_eq!(fixed_severity(FindingKind::CaseMismatch), Some(Severity::High));
    assert_eq!(fixed_severity(FindingKind::LayeringViolation), Some(Severity::High));
    assert_eq!(fixed_severity(FindingKind::LspDisagreement), Some(Severity::High));
    assert_eq!(fixed_severity(FindingKind::BusFactor), Some(Severity::Medium));
    assert_eq!(fixed_severity(FindingKind::DistantCoupling), Some(Severity::Medium));
    assert_eq!(fixed_severity(FindingKind::Cycle), None);
    assert_eq!(fixed_severity(FindingKind::GodFile), None);
}

#[test]
fn a_broken_alias_is_high_and_an_unused_one_information() {
    assert_eq!(alias_severity(false), Severity::High);
    assert_eq!(alias_severity(true), Severity::Info);
}

#[test]
fn ranking_needs_five_files_and_a_god_file_two_hundred_lines() {
    assert!(!enough_files_to_rank(4));
    assert!(enough_files_to_rank(5));
    assert!(!long_enough_for_god_file(199));
    assert!(long_enough_for_god_file(200));
}

#[test]
fn ordinary_sources_fit_the_parser() {
    assert!(fits_parse(""));
    assert!(fits_parse("fn main() {}\n"));
}

#[test]
fn module_declarations_are_listed_per_file() {
    let paths = vec!["src/lib.rs".to_string(), "src/a.rs".to_string(), "src/b.rs".to_string()];
    let parsed: Vec<ParsedFile> = vec![
        parse(Language::Rust, "mod a;\nmod b;\nuse std::fmt;\n"),
        parse(Language::Rust, "pub fn f() {}\n"),
        parse(Language::Rust, "mod c;\n"),
    ];
    let decls = mod_decls(&paths, &parsed);
    assert_eq!(
        decls,
        vec![
            ("src/lib.rs".to_string(), vec!["a".to_string(), "b".to_string()]),
            ("src/b.rs".to_string(), vec!["c".to_string()]),
        ]
    );
}

#[test]
fn only_javascript_family_files_give_specifiers() {
    let languages = vec![Language::TypeScript, Language::Rust, Language::Jsx];
    let parsed: Vec<ParsedFile> = vec![
        parse(Language::TypeScript, "import a from './a';\nimport b from 'b';\n"),
        parse(Language::Rust, "use crate::x;\n"),
        parse(Language::Jsx, "import c from './c';\n"),
    ];
    assert_eq!(js_specifiers(&languages, &parsed), vec!["./a".to_string(), "b".to_string(), "./c".to_string()]);
}
