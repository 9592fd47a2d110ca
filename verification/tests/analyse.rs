use std::collections::HashMap;
use zatlas::analyse::{build_modules, contributions_of, disk_candidates, reclassify, sorted_edges, sorted_mismatches, sorted_unresolved, ImportFate, Projects};
use zatlas::model::{Edge, EdgeKind, FileId, Language, ModuleId, UnresolvedReason};
use zatlas::parse::{parse, ParsedFile};
use zatlas::parse::grammar::syntax_tree;
use zatlas::parse::grammar::damage;
use zatlas::resolve::go::GoProject;
use zatlas::resolve::javascript::JsProject;
use zatlas::resolve::python::PythonProject;
use zatlas::resolve::rust::RustProject;
use zatlas::resolve::FileIndex;

fn projects() -> Projects {
    Projects { js: JsProject::default(), rust: RustProject::default(), python: PythonProject::default(), go: GoProject::default() }
}

fn scan(files: &[(&str, &str)]) -> (FileIndex, HashMap<u32, ParsedFile>) {
    let paths: Vec<String> = files.iter().map(|(p, _)| p.to_string()).collect();
    let languages: Vec<Language> = files.iter().map(|_| Language::TypeScript).collect();
    let mut parsed = HashMap::new();
    for (i, (_, src)) in files.iter().enumerate() {
        parsed.insert(i as u32, parse(Language::TypeScript, src));
    }
    (FileIndex::new(paths, languages), parsed)
}

#[test]
fn a_relative_import_becomes_an_edge_and_a_package_stays_unresolved() {
    let (index, parsed) = scan(&[("src/a.ts", "import { b } from './b';\nimport React from 'react';\n"), ("src/b.ts", "export const b = 1;\n")]);
    let c = contributions_of(&parsed, &index, &projects(), true);
    assert_eq!(c.edges, vec![Edge { from: FileId(0), to: FileId(1), kind: EdgeKind::Import }]);
    assert_eq!(c.edge_sites.len(), 1);
    assert_eq!(c.unresolved.len(), 1);
    assert_eq!(c.unresolved[0].specifier, "react");
    assert!(matches!(c.unresolved[0].reason, UnresolvedReason::External(_)));
}

#[test]
fn a_named_import_through_a_barrel_lands_on_the_defining_file() {
    let (index, parsed) = scan(&[
        ("src/app.ts", "import { thing } from './lib';\n"),
        ("src/lib/index.ts", "export { thing } from './thing';\n"),
        ("src/lib/thing.ts", "export const thing = 1;\n"),
    ]);
    let c = contributions_of(&parsed, &index, &projects(), true);
    let from_app: Vec<&Edge> = c.edges.iter().filter(|e| e.from == FileId(0)).collect();
    assert_eq!(from_app, vec![&Edge { from: FileId(0), to: FileId(2), kind: EdgeKind::Import }]);
}

#[test]
fn type_only_imports_can_be_left_out() {
    let (index, parsed) = scan(&[("a.ts", "import type { T } from './b';\n"), ("b.ts", "export type T = number;\n")]);
    assert_eq!(contributions_of(&parsed, &index, &projects(), false).edges.len(), 0);
    assert_eq!(contributions_of(&parsed, &index, &projects(), true).edges.len(), 1);
    let _ = ImportFate::Skipped;
}

#[test]
fn edges_are_sorted_and_each_appears_once() {
    let e = |a: u32, b: u32, k: EdgeKind| Edge { from: FileId(a), to: FileId(b), kind: k };
    let sorted = sorted_edges(vec![e(2, 1, EdgeKind::Import), e(0, 3, EdgeKind::Contains), e(0, 3, EdgeKind::Import), e(2, 1, EdgeKind::Import)]);
    assert_eq!(sorted, vec![e(0, 3, EdgeKind::Import), e(0, 3, EdgeKind::Contains), e(2, 1, EdgeKind::Import)]);
}

#[test]
fn unresolved_imports_are_listed_by_file_line_and_specifier() {
    let (index, parsed) = scan(&[("b.ts", "import 'zeta';\nimport 'alpha';\n"), ("a.ts", "import 'x';\n")]);
    let c = contributions_of(&parsed, &index, &projects(), true);
    let u = sorted_unresolved(c.unresolved);
    let got: Vec<(u32, u32, &str)> = u.iter().map(|u| (u.from.0, u.line, u.specifier.as_str())).collect();
    assert_eq!(got, vec![(0, 1, "zeta"), (0, 2, "alpha"), (1, 1, "x")]);
    assert!(sorted_mismatches(c.case_mismatches).is_empty());
}

#[test]
fn modules_group_files_by_directory() {
    let paths: Vec<String> = ["src/b/x.ts", "main.ts", "src/a.ts", "src/b/y.ts"].iter().map(|s| s.to_string()).collect();
    let (modules, module_of) = build_modules(&paths);
    let dirs: Vec<&str> = modules.iter().map(|m| m.path.as_str()).collect();
    assert_eq!(dirs, vec!["", "src", "src/b"]);
    assert_eq!(modules[2].files, vec![FileId(0), FileId(3)]);
    assert_eq!(module_of, vec![ModuleId(2), ModuleId(0), ModuleId(1), ModuleId(2)]);
}

#[test]
fn a_missing_file_on_disk_is_reclassified_as_excluded() {
    let reason = UnresolvedReason::NoSuchFile("./gen".into());
    let cands = disk_candidates("src/a.ts", "./gen", &reason, &JsProject::default());
    assert!(cands.contains(&"src/gen.ts".to_string()));
    assert!(cands.contains(&"src/gen/index.ts".to_string()));
    assert!(matches!(reclassify("./gen", reason.clone(), true), UnresolvedReason::ExcludedFromScan(_)));
    assert!(matches!(reclassify("./gen", reason, false), UnresolvedReason::NoSuchFile(_)));
    assert!(disk_candidates("src/a.ts", "react", &UnresolvedReason::External("react".into()), &JsProject::default()).is_empty());
}

#[test]
fn clean_source_reports_no_damage() {
    let tree = syntax_tree(Language::Rust, "pub fn a() -> u32 { 1 }").unwrap();
    assert!(damage(&tree).is_clean());
}

#[test]
fn broken_source_reports_damage() {
    let tree = syntax_tree(Language::Rust, "pub fn ( { { { ]]] ###").unwrap();
    assert!(!damage(&tree).is_clean());
}

#[test]
fn a_deeply_nested_expression_does_not_blow_the_stack() {
    let src = format!("const x = {}1{};", "(".repeat(2000), ")".repeat(2000));
    let p = parse(Language::TypeScript, &src);
    assert_eq!(p.definitions.len(), 1);
}
