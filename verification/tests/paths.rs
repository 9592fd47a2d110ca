use zatlas::paths::rel_to_path;
use zatlas::walk::{is_manifest, to_rel_string};
use zatlas::watch::is_interesting;

#[test]
fn a_relative_path_is_joined_one_component_at_a_time() {
    assert_eq!(rel_to_path("/repo", "src/a.ts"), "/repo/src/a.ts");
}

#[test]
fn a_leading_dot_and_empty_segments_are_dropped() {
    assert_eq!(rel_to_path("/repo", "./a//b"), "/repo/a/b");
}

#[test]
fn an_empty_relative_path_is_the_root_itself() {
    assert_eq!(rel_to_path("/repo", ""), "/repo");
}

#[test]
fn a_root_ending_in_a_separator_gains_no_second_one() {
    assert_eq!(rel_to_path("/", "etc/x"), "/etc/x");
    assert_eq!(rel_to_path("", "a/b"), "a/b");
}

#[test]
fn rel_to_path_round_trips_through_the_platform_separator() {
    let root = "/repo";
    let joined = rel_to_path(root, "src/deep/file.ts");
    assert!(joined.ends_with("file.ts"));
    assert_eq!(to_rel_string(root, &joined).as_deref(), Some("src/deep/file.ts"));
}

#[test]
fn a_path_outside_the_root_has_no_relative_form() {
    assert_eq!(to_rel_string("/repo", "/usr/lib/x.ts"), None);
    assert_eq!(to_rel_string("/repo", "repo/a.ts"), None);
    assert_eq!(to_rel_string("/repo/", "/repo/./a//b.ts").as_deref(), Some("a/b.ts"));
    assert_eq!(to_rel_string("/repo", "/repo").as_deref(), Some(""));
}

#[test]
fn manifests_are_recognised_by_name() {
    for name in ["package.json", "Cargo.toml", "go.mod", "go.work", "tsconfig.json", "tsconfig.base.json", "pyproject.toml"] {
        assert!(is_manifest(name), "{name}");
    }
    for name in ["tsconfig.yaml", "main.rs", "package.json5"] {
        assert!(!is_manifest(name), "{name}");
    }
}

#[test]
fn source_files_are_interesting() {
    for path in ["src/a.ts", "src/b.rs", "app/views.py", "main.go", "src/c.tsx"] {
        assert!(is_interesting(path), "{path}");
    }
}

#[test]
fn manifests_are_interesting_because_they_change_resolution() {
    for path in ["tsconfig.json", "Cargo.toml", "package.json", "go.mod"] {
        assert!(is_interesting(path), "{path}");
    }
}

#[test]
fn build_output_is_never_interesting() {
    for path in [
        "target/debug/thing.rs",
        "node_modules/lib/index.js",
        "dist/bundle.js",
        ".git/COMMIT_EDITMSG",
        ".zatlas/cache.sqlite",
        "__pycache__/mod.py",
    ] {
        assert!(!is_interesting(path), "{path}");
    }
}

#[test]
fn editor_scratch_files_are_ignored() {
    for path in ["src/a.ts~", "src/.#a.ts", "src/a.ts.tmp"] {
        assert!(!is_interesting(path), "{path}");
    }
}

#[test]
fn non_source_files_are_ignored() {
    for path in ["README.md", "logo.png", "LICENSE"] {
        assert!(!is_interesting(path), "{path}");
    }
}

#[test]
fn a_nested_skip_directory_is_still_skipped() {
    assert!(!is_interesting("crates/foo/target/x.rs"));
    assert!(!is_interesting("apps/web/node_modules/a/b.ts"));
}

#[test]
fn a_backslash_separates_directories_too() {
    assert!(!is_interesting("crates\\foo\\target\\x.rs"));
    assert!(is_interesting("src\\a.ts"));
}
