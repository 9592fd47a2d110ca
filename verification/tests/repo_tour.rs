use zatlas::repo::simplify;
use zatlas::tour::lines;

#[test]
fn a_verbatim_windows_path_is_unwrapped_for_display() {
    assert_eq!(simplify(r"\\?\C:\code\acme"), r"C:\code\acme");

    let unc = r"\\?\UNC\server\share";
    assert_eq!(simplify(unc), unc);

    assert_eq!(simplify("/home/me/x"), "/home/me/x");
}

#[test]
fn line_counts_read_correctly_when_singular() {
    assert_eq!(lines(1), "1 line");
    assert_eq!(lines(0), "0 lines");
    assert_eq!(lines(42), "42 lines");
}

use zatlas::findings::{cycle_severity, Severity};
use zatlas::git::compare::{compare_sides, RefSide, RefSnapshot};
use zatlas::graph::{Adjacency, Relation};
use zatlas::model::{Edge, EdgeKind, FileId, FileNode, Graph, Language, ModuleId};
use zatlas::tour::{entry_stops, fallback_stops};

fn graph(files: &[(&str, u32)], edges: &[(u32, u32)]) -> Graph {
    let mut g = Graph::new();
    g.files = files
        .iter()
        .enumerate()
        .map(|(i, (p, loc))| FileNode {
            id: FileId(i as u32),
            path: p.to_string(),
            module: ModuleId(0),
            language: Language::Rust,
            loc: *loc,
            bytes: 10,
            content_hash: String::new(),
        })
        .collect();
    g.edges = edges.iter().map(|(a, b)| Edge { from: FileId(*a), to: FileId(*b), kind: EdgeKind::Import }).collect();
    g
}

#[test]
fn the_tour_opens_at_main_then_the_longer_of_the_rest() {
    let g = graph(&[("src/util.rs", 50), ("src/lib.rs", 30), ("src/main.rs", 10), ("src/tiny.rs", 1)], &[(2, 0), (1, 0)]);
    let structural = Adjacency::build_for(4, &g.edges, Relation::Structure);
    let mut covered = vec![false; 4];
    let stops = entry_stops(&g, &structural, &[FileId(1), FileId(2), FileId(9)], &mut covered);
    let paths: Vec<&str> = stops.iter().map(|s| s.path.as_str()).collect();
    assert_eq!(paths, vec!["src/main.rs", "src/lib.rs"]);
    assert_eq!(stops[0].unlocks, 1);
    assert!(stops[0].reason.contains("reaches 1 of the 4 files"));
    assert_eq!(covered, vec![true, true, true, false]);
}

#[test]
fn an_entry_point_of_one_line_is_not_a_stop() {
    let g = graph(&[("src/main.rs", 1), ("src/lib.rs", 40)], &[]);
    let structural = Adjacency::build_for(2, &g.edges, Relation::Structure);
    let mut covered = vec![false; 2];
    let stops = entry_stops(&g, &structural, &[FileId(0), FileId(1)], &mut covered);
    assert_eq!(stops.len(), 1);
    assert_eq!(stops[0].path, "src/lib.rs");
    assert_eq!(covered, vec![false, true]);
}

#[test]
fn the_fallback_takes_the_heaviest_files_ties_by_path() {
    let g = graph(&[("b.rs", 10), ("a.rs", 10), ("c.rs", 4), ("empty.rs", 0), ("d.rs", 100)], &[(2, 1), (3, 1)]);
    let deps = Adjacency::build(5, &g.edges);
    let stops = fallback_stops(&g, &deps, &[FileId(4)], 2);
    let paths: Vec<&str> = stops.iter().map(|s| s.path.as_str()).collect();
    assert_eq!(paths, vec!["a.rs", "b.rs"]);
    assert_eq!(stops[0].unlocks, 2);
    assert!(stops[0].reason.ends_with("10 lines, imported by 2."));
    assert!(stops[1].reason.ends_with("at 10 lines."));
    assert_eq!(fallback_stops(&g, &deps, &[], 10).len(), 4);
}

#[test]
fn a_cycle_is_as_serious_as_it_is_wide() {
    assert_eq!(cycle_severity(2), Severity::Low);
    assert_eq!(cycle_severity(3), Severity::Medium);
    assert_eq!(cycle_severity(5), Severity::Medium);
    assert_eq!(cycle_severity(6), Severity::High);
}

fn side(reference: &str) -> RefSide {
    RefSide { reference: reference.into(), commit: "abc1234".into(), files: 2, loc: 20, edges: 1, cycles: 0, unresolved: 0, findings: 1 }
}

fn s(v: &[&str]) -> Vec<String> {
    v.iter().map(|x| x.to_string()).collect()
}

#[test]
fn comparing_two_revisions_reports_what_changed() {
    let base = RefSnapshot {
        side: side("main"),
        loc: vec![("a.rs".into(), 10), ("b.rs".into(), 10), ("gone.rs".into(), 5), ("same.rs".into(), 3)],
        cycles: vec![s(&["a.rs", "b.rs"])],
        findings: s(&["old one", "kept"]),
        skipped: s(&["z", "x"]),
    };
    let head = RefSnapshot {
        side: side("HEAD"),
        loc: vec![("b.rs".into(), 4), ("a.rs".into(), 30), ("new.rs".into(), 1), ("same.rs".into(), 3)],
        cycles: vec![s(&["a.rs", "new.rs"]), s(&["a.rs", "b.rs"])],
        findings: s(&["kept", "zeta", "alpha"]),
        skipped: s(&["x", "y"]),
    };
    let c = compare_sides(&base, &head);
    assert_eq!(c.base.reference, "main");
    assert_eq!(c.head.reference, "HEAD");
    assert_eq!(c.added, s(&["new.rs"]));
    assert_eq!(c.removed, s(&["gone.rs"]));
    assert_eq!(c.grown, vec![("a.rs".to_string(), 20)]);
    assert_eq!(c.shrunk, vec![("b.rs".to_string(), -6)]);
    assert_eq!(c.cycles_introduced, vec![s(&["a.rs", "new.rs"])]);
    assert!(c.cycles_resolved.is_empty());
    assert_eq!(c.findings_new, s(&["alpha", "zeta"]));
    assert_eq!(c.findings_fixed, s(&["old one"]));
    assert_eq!(c.skipped, s(&["x", "y", "z"]));
}
