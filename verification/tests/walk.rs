use zatlas::cache::content_hash;
use zatlas::model::Language;
use zatlas::walk::{check_globs, entry_fate, skips_dir, sorted_walk, EntryFate, SkipReason, SkippedFile, WalkedFile};

fn none() -> Vec<String> {
    Vec::new()
}

fn ok(bytes: u64) -> Result<u64, String> {
    Ok(bytes)
}

#[test]
fn build_output_and_dependencies_are_never_entered() {
    for d in ["node_modules", ".git", "target", "__pycache__", ".cache", "vendor"] {
        assert!(skips_dir(d), "{d}");
    }
    for d in ["src", "lib", "Target", "node_module"] {
        assert!(!skips_dir(d), "{d}");
    }
}

#[test]
fn manifests_are_recorded_and_unknown_files_ignored() {
    assert_eq!(entry_fate("web/package.json", "package.json", ok(10), 100, false, &none(), &none()), Ok(EntryFate::Manifest));
    assert_eq!(entry_fate("tsconfig.base.json", "tsconfig.base.json", ok(10), 100, false, &none(), &none()), Ok(EntryFate::Manifest));
    assert_eq!(entry_fate("README.md", "README.md", ok(10), 100, false, &none(), &none()), Ok(EntryFate::Ignored));
    assert_eq!(entry_fate(".ts", ".ts", ok(10), 100, false, &none(), &none()), Ok(EntryFate::Ignored));
    assert_eq!(entry_fate("Makefile", "Makefile", ok(10), 100, false, &none(), &none()), Ok(EntryFate::Ignored));
}

#[test]
fn a_source_file_is_kept_with_its_language_and_size() {
    assert_eq!(entry_fate("src/a.ts", "a.ts", ok(10), 100, false, &none(), &none()), Ok(EntryFate::Source(Language::TypeScript, 10)));
    assert_eq!(entry_fate("x/..go", "..go", ok(7), 100, false, &none(), &none()), Ok(EntryFate::Source(Language::Go, 7)));
}

#[test]
fn size_binary_and_unreadable_files_are_skipped_with_a_reason() {
    assert_eq!(
        entry_fate("big.rs", "big.rs", ok(101), 100, false, &none(), &none()),
        Ok(EntryFate::Skipped(SkipReason::TooLarge { bytes: 101, limit: 100 }))
    );
    assert_eq!(entry_fate("ok.rs", "ok.rs", ok(100), 100, false, &none(), &none()), Ok(EntryFate::Source(Language::Rust, 100)));
    assert_eq!(entry_fate("bin.py", "bin.py", ok(5), 100, true, &none(), &none()), Ok(EntryFate::Skipped(SkipReason::Binary)));
    assert_eq!(
        entry_fate("gone.py", "gone.py", Err("denied".to_string()), 100, false, &none(), &none()),
        Ok(EntryFate::Skipped(SkipReason::Unreadable("denied".to_string())))
    );
}

#[test]
fn globs_include_and_exclude_source_files() {
    let inc = vec!["src/**".to_string()];
    let exc = vec!["**/gen/**".to_string()];
    assert_eq!(entry_fate("src/a.ts", "a.ts", ok(1), 100, false, &inc, &exc), Ok(EntryFate::Source(Language::TypeScript, 1)));
    assert_eq!(entry_fate("lib/a.ts", "a.ts", ok(1), 100, false, &inc, &exc), Ok(EntryFate::Ignored));
    assert_eq!(entry_fate("src/gen/a.ts", "a.ts", ok(1), 100, false, &inc, &exc), Ok(EntryFate::Skipped(SkipReason::Excluded)));
}

#[test]
fn a_bad_glob_fails_the_walk_and_says_which() {
    let bad = vec!["src/[".to_string()];
    let e = check_globs(&bad).unwrap_err();
    assert!(e.starts_with("bad glob pattern \"src/[\": "), "{e}");
    assert!(check_globs(&none()).is_ok());
    assert!(check_globs(&vec!["src/**".to_string()]).is_ok());
    assert_eq!(entry_fate("src/a.ts", "a.ts", ok(1), 100, false, &bad, &none()), Err(e));
}

#[test]
fn the_outcome_is_sorted_by_path() {
    let f = |p: &str| WalkedFile { rel_path: p.into(), abs_path: format!("/r/{p}"), language: Language::Rust, bytes: 1 };
    let s = |p: &str| SkippedFile { rel_path: p.into(), reason: SkipReason::Binary };
    let out = sorted_walk(
        vec![f("b.rs"), f("a/z.rs"), f("a.rs")],
        vec![s("z"), s("")],
        vec!["package.json".into(), "Cargo.toml".into()],
    );
    let paths: Vec<&str> = out.files.iter().map(|x| x.rel_path.as_str()).collect();
    assert_eq!(paths, vec!["a.rs", "a/z.rs", "b.rs"]);
    let skipped: Vec<&str> = out.skipped.iter().map(|x| x.rel_path.as_str()).collect();
    assert_eq!(skipped, vec!["", "z"]);
    assert_eq!(out.manifests, vec!["Cargo.toml".to_string(), "package.json".to_string()]);
}

#[test]
fn the_content_hash_is_blake3_in_hex() {
    let h = content_hash(b"hello");
    assert_eq!(h.len(), 64);
    assert_eq!(h, blake3::hash(b"hello").to_hex().to_string());
    assert_ne!(h, content_hash(b"hello!"));
}
