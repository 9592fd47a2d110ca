use zatlas::baseline::{compare, fingerprint, from_findings, path_of, Baseline, FindingFacts, BASELINE_VERSION, FILE_NAME};
use zatlas::findings::{FindingKind, Severity};
use zatlas::model::{FileId, FileNode, Graph, Language, ModuleId};

fn graph_with(paths: &[&str]) -> Graph {
    let mut g = Graph::new();
    for (i, path) in paths.iter().enumerate() {
        g.files.push(FileNode {
            id: FileId(i as u32),
            path: (*path).to_owned(),
            module: ModuleId(0),
            language: Language::TypeScript,
            loc: 10,
            bytes: 100,
            content_hash: String::new(),
        });
    }
    g
}

fn finding(kind: FindingKind, headline: &str, files: Vec<u32>) -> FindingFacts {
    FindingFacts {
        kind,
        severity: Severity::Medium,
        headline: headline.to_owned(),
        files: files.into_iter().map(FileId).collect(),
    }
}

#[test]
fn the_same_finding_fingerprints_identically_twice() {
    let g = graph_with(&["a.ts"]);
    let f = finding(FindingKind::GodFile, "a.ts is 840 lines", vec![0]);
    assert_eq!(fingerprint(&f, &g), fingerprint(&f, &g));
}

#[test]
fn a_finding_whose_numbers_moved_is_still_the_same_finding() {
    let g = graph_with(&["a.ts"]);
    let before = finding(FindingKind::GodFile, "a.ts is 840 lines with 8 users", vec![0]);
    let after = finding(FindingKind::GodFile, "a.ts is 1204 lines with 9 users", vec![0]);
    assert_eq!(fingerprint(&before, &g), fingerprint(&after, &g));
}

#[test]
fn a_finding_about_a_different_file_is_a_different_finding() {
    let g = graph_with(&["a.ts", "b.ts"]);
    let a = finding(FindingKind::GodFile, "a.ts is 840 lines", vec![0]);
    let b = finding(FindingKind::GodFile, "b.ts is 840 lines", vec![1]);
    assert_ne!(fingerprint(&a, &g), fingerprint(&b, &g));
}

#[test]
fn two_kinds_about_the_same_file_do_not_collide() {
    let g = graph_with(&["a.ts"]);
    let god = finding(FindingKind::GodFile, "a.ts is big", vec![0]);
    let orphan = finding(FindingKind::Orphan, "a.ts is big", vec![0]);
    assert_ne!(fingerprint(&god, &g), fingerprint(&orphan, &g));
}

#[test]
fn a_cycle_reported_from_a_different_member_is_the_same_cycle() {
    let g = graph_with(&["a.ts", "b.ts"]);
    let one = finding(FindingKind::Cycle, "cycle between two files", vec![0, 1]);
    let other = finding(FindingKind::Cycle, "cycle between two files", vec![1, 0]);
    assert_eq!(fingerprint(&one, &g), fingerprint(&other, &g));
}

#[test]
fn two_case_mismatches_in_one_file_are_told_apart_by_their_specifier() {
    let g = graph_with(&["a.ts"]);
    let one = finding(FindingKind::CaseMismatch, "a.ts:3 imports \"./Foo\"", vec![0]);
    let two = finding(FindingKind::CaseMismatch, "a.ts:9 imports \"./Bar\"", vec![0]);
    assert_ne!(fingerprint(&one, &g), fingerprint(&two, &g));
}

#[test]
fn the_same_import_moving_down_the_file_stays_accepted() {
    let g = graph_with(&["a.ts"]);
    let before = finding(FindingKind::CaseMismatch, "a.ts:3 imports \"./Foo\"", vec![0]);
    let after = finding(FindingKind::CaseMismatch, "a.ts:41 imports \"./Foo\"", vec![0]);
    assert_eq!(fingerprint(&before, &g), fingerprint(&after, &g));
}

#[test]
fn comparing_splits_new_from_accepted_and_names_what_was_fixed() {
    let g = graph_with(&["a.ts", "b.ts"]);
    let old = finding(FindingKind::GodFile, "a.ts is 840 lines", vec![0]);
    let baseline = from_findings(std::slice::from_ref(&old), &g, "2026-01-01");

    let fresh = finding(FindingKind::Orphan, "b.ts is never imported", vec![1]);
    let both = [old.clone(), fresh.clone()];
    let comparison = compare(&both, &g, &baseline);
    assert_eq!(comparison.accepted.len(), 1);
    assert_eq!(comparison.fresh.len(), 1);
    assert_eq!(both[comparison.fresh[0]].headline, fresh.headline);
    assert!(comparison.fixed.is_empty());

    let only_fresh = [fresh];
    let comparison = compare(&only_fresh, &g, &baseline);
    assert_eq!(comparison.fixed.len(), 1);
    assert_eq!(baseline.entries[comparison.fixed[0]].headline, "a.ts is 840 lines");
}

#[test]
fn duplicate_findings_are_stored_once() {
    let g = graph_with(&["a.ts"]);
    let f = finding(FindingKind::GodFile, "a.ts is 840 lines", vec![0]);
    let baseline = from_findings(&[f.clone(), f], &g, "2026-01-01");
    assert_eq!(baseline.entries.len(), 1);
}

#[test]
fn entries_are_sorted_so_the_committed_file_diffs_cleanly() {
    let g = graph_with(&["a.ts", "b.ts", "c.ts"]);
    let baseline = from_findings(
        &[
            finding(FindingKind::Orphan, "c.ts unused", vec![2]),
            finding(FindingKind::Orphan, "a.ts unused", vec![0]),
            finding(FindingKind::Orphan, "b.ts unused", vec![1]),
        ],
        &g,
        "2026-01-01",
    );
    let ids: Vec<&str> = baseline.entries.iter().map(|e| e.id.as_str()).collect();
    let mut sorted = ids.clone();
    sorted.sort_unstable();
    assert_eq!(ids, sorted);
}

#[test]
fn a_fingerprint_is_sixteen_hex_digits_of_the_documented_input() {
    let g = graph_with(&["b.ts", "a.ts"]);
    let f = finding(FindingKind::Cycle, "  2 files 3 times  ", vec![0, 1, 7]);
    let expected = blake3::hash("Import cycle\0a.ts\0b.ts\0files  times".as_bytes()).to_hex()[..16].to_owned();
    assert_eq!(fingerprint(&f, &g), expected);
}

#[test]
fn an_entry_keeps_the_finding_and_the_paths_of_its_files() {
    let g = graph_with(&["a.ts", "b.ts"]);
    let b = from_findings(&[finding(FindingKind::Cycle, "loop", vec![1, 0, 9])], &g, "2026-02-03");
    assert_eq!(b.version, BASELINE_VERSION);
    assert_eq!(b.created, "2026-02-03");
    assert_eq!(b.entries[0].files, ["b.ts", "a.ts"]);
    assert_eq!(b.entries[0].kind, FindingKind::Cycle);
    assert_eq!(b.entries[0].note, None);
    assert!(b.contains(&b.entries[0].id));
    assert!(!b.contains("0000000000000000"));
    let empty = Baseline { version: 1, created: String::new(), entries: Vec::new() };
    assert!(empty.is_empty());
}

#[test]
fn the_baseline_file_sits_at_the_repository_root() {
    assert_eq!(path_of("/repo"), format!("/repo/{FILE_NAME}"));
}
