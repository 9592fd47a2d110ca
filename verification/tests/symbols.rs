use zatlas::model::{FileId, Language};
use zatlas::parse::DefKind;
use zatlas::symbols::{build, SymbolGraph};

fn graph_of(language: Language, files: &[(&str, &str)]) -> SymbolGraph {
    let owned: Vec<(FileId, String, Language, String)> = files
        .iter()
        .enumerate()
        .map(|(i, (path, src))| (FileId(i as u32), (*path).to_string(), language, (*src).to_string()))
        .collect();
    build(&owned)
}

fn ts(files: &[(&str, &str)]) -> SymbolGraph {
    graph_of(Language::TypeScript, files)
}

fn rs(files: &[(&str, &str)]) -> SymbolGraph {
    graph_of(Language::Rust, files)
}

fn names(g: &SymbolGraph) -> Vec<&str> {
    g.nodes.iter().map(|n| n.name.as_str()).collect()
}

fn edge_names(g: &SymbolGraph) -> Vec<String> {
    let mut out: Vec<String> = g
        .edges
        .iter()
        .map(|e| format!("{} -> {}", g.nodes[e.from as usize].name, g.nodes[e.to as usize].name))
        .collect();
    out.sort();
    out
}

#[test]
fn an_empty_selection_yields_an_empty_graph() {
    assert_eq!(build(&[]), SymbolGraph::default());
}

#[test]
fn definitions_become_nodes() {
    let g = ts(&[(
        "a.ts",
        "export function alpha() {}\nexport class Beta {}\nconst gamma = () => {};",
    )]);
    let mut got = names(&g);
    got.sort_unstable();
    assert_eq!(got, ["Beta", "alpha", "gamma"]);
}

#[test]
fn a_call_becomes_an_edge() {
    let g = ts(&[(
        "a.ts",
        "function helper() { return 1; }\nfunction main() { return helper(); }",
    )]);
    assert_eq!(edge_names(&g), ["main -> helper"]);
}

#[test]
fn calls_across_files_in_the_selection_are_linked() {
    let g = ts(&[
        ("a.ts", "export function helper() { return 1; }"),
        (
            "b.ts",
            "import { helper } from './a';\nexport function main() { return helper(); }",
        ),
    ]);
    assert_eq!(edge_names(&g), ["main -> helper"]);
}

#[test]
fn a_function_calling_itself_is_not_an_edge() {
    let g = ts(&[("a.ts", "function loop() { return loop(); }")]);
    assert!(g.edges.is_empty(), "{:?}", edge_names(&g));
}

#[test]
fn an_ambiguous_name_is_dropped_rather_than_guessed_at() {
    let g = ts(&[
        ("a.ts", "export function render() {}"),
        ("b.ts", "export function render() {}"),
        ("c.ts", "export function draw() { render(); }"),
    ]);
    assert!(
        edge_names(&g).is_empty(),
        "guessing between duplicates draws wrong edges: {:?}",
        edge_names(&g)
    );
}

#[test]
fn references_to_things_outside_the_selection_are_reported_not_dropped() {
    let g = ts(&[("a.ts", "function main() { console.log(externalThing()); }")]);
    assert!(
        g.external_refs.iter().any(|r| r == "externalThing"),
        "got {:?}",
        g.external_refs
    );
}

#[test]
fn rust_calls_resolve_through_their_path() {
    let g = rs(&[(
        "a.rs",
        "pub fn compute() -> u32 { 1 }\npub fn run() -> u32 { helpers::compute() }",
    )]);
    assert_eq!(edge_names(&g), ["run -> compute"]);
}

#[test]
fn rust_type_references_are_edges() {
    let g = rs(&[("a.rs", "pub struct Config;\npub fn load() -> Config { Config }")]);
    assert!(
        edge_names(&g).contains(&"load -> Config".to_string()),
        "got {:?}",
        edge_names(&g)
    );
}

#[test]
fn impl_blocks_are_not_call_targets() {
    let g = rs(&[("a.rs", "pub struct S;\nimpl S { pub fn go() {} }")]);
    assert_eq!(names(&g).iter().filter(|n| **n == "S").count(), 1, "got {:?}", names(&g));
    assert_eq!(g.nodes.iter().find(|n| n.name == "S").map(|n| n.kind), Some(DefKind::Struct));
    assert!(names(&g).contains(&"go"));
}

#[test]
fn a_reference_before_any_definition_is_ignored() {
    let g = ts(&[("a.ts", "setup();\nfunction setup() {}")]);
    assert!(g.edges.is_empty(), "{:?}", edge_names(&g));
}

#[test]
fn the_graph_is_deterministic() {
    let files = [
        ("a.ts", "export function a() { b(); }"),
        ("b.ts", "export function b() { c(); }"),
        ("c.ts", "export function c() {}"),
    ];
    assert_eq!(ts(&files), ts(&files));
}

#[test]
fn external_references_are_capped() {
    let mut src = String::from("function main() {\n");
    for i in 0..200 {
        src.push_str(&format!("  ext{i}();\n"));
    }
    src.push('}');
    let g = ts(&[("a.ts", &src)]);
    assert!(g.external_refs.len() <= 50, "got {}", g.external_refs.len());
}

#[test]
fn node_ids_follow_the_order_of_files_and_definitions() {
    let g = ts(&[
        ("a.ts", "export function one() {}\nexport function two() {}"),
        ("b.ts", "export function three() { one(); }"),
    ]);
    let ids: Vec<u32> = g.nodes.iter().map(|n| n.id).collect();
    assert_eq!(ids, [0, 1, 2]);
    assert_eq!(names(&g), ["one", "two", "three"]);
    assert_eq!(g.nodes[2].file, FileId(1));
    assert_eq!(g.nodes[2].path, "b.ts");
    assert_eq!(g.nodes[1].line, 2);
    assert_eq!(g.edges.len(), 1);
    assert_eq!((g.edges[0].from, g.edges[0].to), (2, 0));
}

#[test]
fn outside_names_come_sorted_and_once_each() {
    let g = ts(&[("a.ts", "function main() { zeta(); alpha(); zeta(); mid(); }")]);
    assert_eq!(g.external_refs, ["alpha", "mid", "zeta"]);
}

#[test]
fn the_cap_keeps_the_first_names_in_order() {
    let mut src = String::from("function main() {\n");
    for i in 0..60 {
        src.push_str(&format!("  f{:03}();\n", 59 - i));
    }
    src.push('}');
    let g = ts(&[("a.ts", &src)]);
    assert_eq!(g.external_refs.len(), 50);
    assert_eq!(g.external_refs[0], "f000");
    assert_eq!(g.external_refs[49], "f049");
}
