use zatlas::findings::{can_be_dead, is_root_index, Evidence, FindingKind, FindingsOptions, Severity};
use zatlas::git::compare::windows_safe;

#[test]
fn a_barrel_is_not_mistaken_for_an_entry_point() {
    assert!(is_root_index("src/index.ts"));
    assert!(is_root_index("apps/web/src/index.tsx"));
    assert!(is_root_index("index.ts"));
    assert!(!is_root_index("src/store/index.ts"));
    assert!(!is_root_index("src/components/ui/index.ts"));
    assert!(!is_root_index("src/main.tsx"));
}

#[test]
fn severity_orders_correctly_for_ranking() {
    assert!(Severity::Critical > Severity::High);
    assert!(Severity::High > Severity::Medium);
    assert!(Severity::Info < Severity::Low);
    assert!(zatlas::findings::at_least(Severity::High, Severity::Medium));
    assert!(!zatlas::findings::at_least(Severity::Low, Severity::Medium));
}

#[test]
fn kinds_have_readable_labels() {
    assert_eq!(FindingKind::Cycle.label(), "Import cycle");
    assert_eq!(FindingKind::LspDisagreement.label(), "Resolver disagreement");
    let e = Evidence::new("files", "3");
    assert_eq!(e.label, "files");
    assert_eq!(e.value, "3");
    assert_eq!(FindingsOptions::default().max_per_kind, 100);
}

#[test]
fn tests_configs_and_scripts_are_never_dead_code() {
    assert!(can_be_dead("src/util.ts"));
    assert!(!can_be_dead("src/types.d.ts"));
    assert!(!can_be_dead("vite.config.ts"));
    assert!(!can_be_dead("src/a.test.ts"));
    assert!(!can_be_dead("crate/tests/it.rs"));
    assert!(!can_be_dead("src/x.mjs"));
    assert!(!can_be_dead("script.js"));
    assert!(can_be_dead("lib/script.js"));
}

#[test]
fn windows_reserved_device_names_are_not_writable() {
    for bad in ["aux.ts", "src/con.rs", "NUL", "lpt1.go", "src/Aux.py"] {
        assert!(!windows_safe(bad), "{bad} should be rejected");
    }
    for ok in ["src/auxiliary.ts", "console.rs", "src/nullable.go", "com.ts"] {
        assert!(windows_safe(ok), "{ok} should be fine");
    }
}

#[test]
fn characters_windows_forbids_in_a_name_are_rejected() {
    for bad in ["a:b.ts", "what?.rs", "a|b.go", "quo\"te.ts", "star*.py", "lt<gt>.ts"] {
        assert!(!windows_safe(bad), "{bad} should be rejected");
    }
}

#[test]
fn a_trailing_dot_or_space_is_rejected_because_windows_trims_it() {
    assert!(!windows_safe("src/trailing."));
    assert!(!windows_safe("src/trailing "));
    assert!(!windows_safe("trailing./a.ts"));
    assert!(windows_safe("src/fine.ts"));
}

#[test]
fn ordinary_paths_are_writable() {
    for ok in ["src/main.rs", "a/b/c/d.ts", "crates/zatlas-core/src/lib.rs", ""] {
        assert!(windows_safe(ok), "{ok} should be fine");
    }
}
