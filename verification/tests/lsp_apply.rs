use std::collections::HashMap;
use zatlas::lsp::apply::{languages_in, plan, record_answer, servers_consulted, settle, target_of, Answers, Site, Verdict};
use zatlas::lsp::LspMode;
use zatlas::model::{Edge, EdgeKind, FileId, FileNode, Graph, Language, ModuleId, UnresolvedImport, UnresolvedReason};
use zatlas::parse::parse;

fn file(id: u32, path: &str, language: Language) -> FileNode {
    FileNode {
        id: FileId(id),
        path: path.into(),
        module: ModuleId(0),
        language,
        loc: 10,
        bytes: 10,
        content_hash: String::new(),
    }
}

fn unresolved(from: u32, specifier: &str, line: u32, reason: UnresolvedReason) -> UnresolvedImport {
    UnresolvedImport { from: FileId(from), specifier: specifier.into(), line, reason }
}

fn setup() -> (Graph, HashMap<u32, zatlas::parse::ParsedFile>, HashMap<u32, String>) {
    let a_src = "import { x } from './missing';\nimport { y } from './b';\n";
    let mut g = Graph::new();
    g.files = vec![file(0, "src/a.ts", Language::TypeScript), file(1, "src/b.ts", Language::TypeScript), file(2, "lib.rs", Language::Rust)];
    g.edges = vec![Edge { from: FileId(0), to: FileId(1), kind: EdgeKind::Import }];
    g.unresolved = vec![unresolved(0, "./missing", 1, UnresolvedReason::NoSuchFile("src/missing".into()))];
    let mut parsed = HashMap::new();
    parsed.insert(0u32, parse(Language::TypeScript, a_src));
    parsed.insert(1u32, parse(Language::TypeScript, ""));
    let mut sources = HashMap::new();
    sources.insert(0u32, a_src.to_string());
    (g, parsed, sources)
}

#[test]
fn repair_mode_asks_only_about_imports_that_failed() {
    let (g, parsed, sources) = setup();
    let (sites, missed) = plan(&g, &parsed, &sources, &[Language::TypeScript], LspMode::Repair);
    assert_eq!(missed, 0);
    assert_eq!(sites, [Site { from: FileId(0), specifier: "./missing".into(), line: 1, character: 23 }]);
}

#[test]
fn verify_mode_asks_about_every_import_and_off_asks_about_none() {
    let (g, parsed, sources) = setup();
    let (sites, _) = plan(&g, &parsed, &sources, &[Language::TypeScript], LspMode::Verify);
    assert_eq!(sites.len(), 2);
    assert_eq!(sites[1].specifier, "./b");
    assert_eq!(sites[1].line, 2);
    let (none, _) = plan(&g, &parsed, &sources, &[Language::TypeScript], LspMode::Off);
    assert!(none.is_empty());
}

#[test]
fn a_language_no_server_handles_is_not_asked_about() {
    let (g, parsed, sources) = setup();
    let (sites, missed) = plan(&g, &parsed, &sources, &[Language::Rust], LspMode::Verify);
    assert!(sites.is_empty());
    assert_eq!(missed, 0);
}

#[test]
fn an_import_whose_source_was_not_read_cannot_be_located() {
    let (g, parsed, _) = setup();
    let (sites, missed) = plan(&g, &parsed, &HashMap::new(), &[Language::TypeScript], LspMode::Verify);
    assert!(sites.is_empty());
    assert_eq!(missed, 2);
}

#[test]
fn the_languages_of_a_graph_come_once_each_sorted_by_name() {
    let (g, _, _) = setup();
    assert_eq!(languages_in(&g), [Language::Rust, Language::TypeScript]);
    assert!(languages_in(&Graph::new()).is_empty());
}

#[test]
fn an_answer_is_matched_to_the_first_location_that_is_a_file_of_the_graph() {
    let (g, _, _) = setup();
    assert_eq!(target_of(&g, &["../outside.ts".into(), "src/b.ts".into(), "src/a.ts".into()]), Some(FileId(1)));
    assert_eq!(target_of(&g, &["nowhere.ts".into()]), None);
    assert_eq!(target_of(&g, &[]), None);
}

#[test]
fn answers_become_repairs_disagreements_or_nothing() {
    let (g, _, _) = setup();
    let mut answers = Answers::new();
    let failed = Site { from: FileId(0), specifier: "./missing".into(), line: 1, character: 23 };
    let resolved = Site { from: FileId(0), specifier: "./b".into(), line: 2, character: 20 };

    assert_eq!(record_answer(&mut answers, &g, &failed, FileId(0), "srv"), Verdict::SelfReference);
    assert_eq!(record_answer(&mut answers, &g, &resolved, FileId(1), "srv"), Verdict::AlreadyKnown);
    assert_eq!(record_answer(&mut answers, &g, &failed, FileId(2), "srv"), Verdict::Repaired);
    assert_eq!(record_answer(&mut answers, &g, &failed, FileId(2), "srv"), Verdict::AlreadyAnswered);
    assert_eq!(record_answer(&mut answers, &g, &resolved, FileId(2), "srv"), Verdict::Disagreed);

    assert_eq!(answers.repaired.len(), 1);
    assert_eq!(answers.repaired[0].to, FileId(2));
    assert_eq!(answers.repaired[0].server, "srv");
    assert_eq!(answers.disagreements.len(), 1);
    assert_eq!(answers.disagreements[0].lsp_target, FileId(2));
    assert_eq!(answers.new_edges.len(), 2);
}

#[test]
fn settling_removes_repaired_imports_and_merges_the_edges_in_order() {
    let (mut g, _, _) = setup();
    g.unresolved.push(unresolved(1, "react", 3, UnresolvedReason::External("react".into())));
    let mut answers = Answers::new();
    let failed = Site { from: FileId(0), specifier: "./missing".into(), line: 1, character: 23 };
    let resolved = Site { from: FileId(1), specifier: "./a".into(), line: 1, character: 20 };
    record_answer(&mut answers, &g, &failed, FileId(2), "srv");
    record_answer(&mut answers, &g, &resolved, FileId(0), "srv");
    settle(&mut g, answers);

    assert_eq!(g.unresolved.len(), 1);
    assert_eq!(g.unresolved[0].specifier, "react");
    let edges: Vec<(u32, u32)> = g.edges.iter().map(|e| (e.from.0, e.to.0)).collect();
    assert_eq!(edges, [(0, 1), (0, 2), (1, 0)]);
    assert_eq!(g.lsp_repairs.len(), 1);
    assert_eq!(g.lsp_repairs[0].specifier, "./missing");
    assert_eq!(g.lsp_disagreements.len(), 1);
    assert_eq!(g.lsp_disagreements[0].from, FileId(1));
}

#[test]
fn repairs_are_recorded_in_file_line_and_specifier_order() {
    let mut g = Graph::new();
    g.files = vec![file(0, "a.ts", Language::TypeScript), file(1, "b.ts", Language::TypeScript), file(2, "c.ts", Language::TypeScript)];
    g.unresolved = vec![
        unresolved(1, "./z", 4, UnresolvedReason::NoSuchFile("z".into())),
        unresolved(0, "./y", 9, UnresolvedReason::NoSuchFile("y".into())),
        unresolved(0, "./x", 9, UnresolvedReason::NoSuchFile("x".into())),
    ];
    let mut answers = Answers::new();
    for (from, spec, line) in [(1, "./z", 4), (0, "./y", 9), (0, "./x", 9)] {
        let site = Site { from: FileId(from), specifier: spec.into(), line, character: 1 };
        assert_eq!(record_answer(&mut answers, &g, &site, FileId(2), "srv"), Verdict::Repaired);
    }
    settle(&mut g, answers);
    let order: Vec<(u32, u32, &str)> = g.lsp_repairs.iter().map(|r| (r.from.0, r.line, r.specifier.as_str())).collect();
    assert_eq!(order, [(0, 9, "./x"), (0, 9, "./y"), (1, 4, "./z")]);
    assert!(g.unresolved.is_empty());
}

#[test]
fn servers_are_consulted_only_when_switched_on_and_found() {
    assert!(!servers_consulted(LspMode::Off, 3));
    assert!(!servers_consulted(LspMode::Repair, 0));
    assert!(servers_consulted(LspMode::Verify, 1));
}
