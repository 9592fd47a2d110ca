use zatlas::model::{Edge, EdgeKind, FileId, FileNode, Graph, Language, ModuleId, ModuleNode, UnresolvedImport, UnresolvedReason};
use zatlas::workspace::{json_string_field, merge, published_from, representative_file, Member};

fn file(id: u32, path: &str, module: u32) -> FileNode {
    FileNode {
        id: FileId(id),
        path: path.into(),
        module: ModuleId(module),
        language: Language::TypeScript,
        loc: 10,
        bytes: 10,
        content_hash: format!("h{id}"),
    }
}

fn external(from: u32, pkg: &str) -> UnresolvedImport {
    UnresolvedImport { from: FileId(from), specifier: pkg.into(), line: 1, reason: UnresolvedReason::External(pkg.into()) }
}

fn member(name: &str, files: &[&str], edges: &[(u32, u32)], unresolved: Vec<UnresolvedImport>, packages: &[&str]) -> Member {
    let mut g = Graph::new();
    g.files = files.iter().enumerate().map(|(i, p)| file(i as u32, p, 0)).collect();
    g.modules = vec![ModuleNode { id: ModuleId(0), path: "src".into(), files: (0..files.len() as u32).map(FileId).collect() }];
    g.edges = edges.iter().map(|(a, b)| Edge { from: FileId(*a), to: FileId(*b), kind: EdgeKind::Import }).collect();
    g.unresolved = unresolved;
    Member { name: name.into(), graph: g, packages: packages.iter().map(|s| s.to_string()).collect() }
}

fn edge_paths(g: &Graph) -> Vec<String> {
    let mut out: Vec<String> = g
        .edges
        .iter()
        .map(|e| format!("{} -> {}", g.files[e.from.0 as usize].path, g.files[e.to.0 as usize].path))
        .collect();
    out.sort();
    out
}

#[test]
fn package_names_are_read_from_both_manifest_kinds() {
    let names = published_from(&[
        ("package.json".to_string(), r#"{ "name": "@app/ui", "version": "1.0.0" }"#.to_string()),
        ("Cargo.toml".to_string(), "[package]\nname = \"my-crate\"\n".to_string()),
    ]);
    assert_eq!(names, ["@app/ui", "my-crate", "my_crate"]);
}

#[test]
fn only_the_package_table_names_a_crate() {
    let names = published_from(&[(
        "crates/x/Cargo.toml".to_string(),
        "[dependencies]\nname = \"not-this\"\n[package]\nversion = \"1\"\n  name='real'\nname = \"later\"\n".to_string(),
    )]);
    assert_eq!(names, ["real"]);
    assert!(published_from(&[("README.md".to_string(), "name = \"x\"".to_string())]).is_empty());
}

#[test]
fn a_json_field_is_read_between_the_quotes_after_its_colon() {
    assert_eq!(json_string_field(r#"{"name" :  "a-b", "x": 1}"#, "name"), Some("a-b".to_string()));
    assert_eq!(json_string_field(r#"{"nam": "a"}"#, "name"), None);
    assert_eq!(json_string_field(r#"{"name": 3}"#, "name"), None);
}

#[test]
fn a_workspace_dependency_becomes_an_edge_to_the_most_imported_file() {
    let ui = member("ui", &["src/button.ts", "src/index.ts"], &[(1, 0)], vec![], &["@acme/ui"]);
    let web = member("web", &["src/app.ts"], &[], vec![external(0, "@acme/ui")], &["@acme/web"]);
    let g = merge(&[ui, web]);
    assert_eq!(edge_paths(&g), ["ui/src/index.ts -> ui/src/button.ts", "web/src/app.ts -> ui/src/button.ts"]);
}

#[test]
fn paths_and_ids_are_shifted_so_two_repositories_do_not_collide() {
    let a = member("a", &["src/index.ts"], &[], vec![], &[]);
    let b = member("b", &["src/index.ts", "src/x.ts"], &[(1, 0)], vec![], &[]);
    let g = merge(&[a, b]);
    let paths: Vec<&str> = g.files.iter().map(|f| f.path.as_str()).collect();
    assert_eq!(paths, ["a/src/index.ts", "b/src/index.ts", "b/src/x.ts"]);
    let ids: Vec<u32> = g.files.iter().map(|f| f.id.0).collect();
    assert_eq!(ids, [0, 1, 2]);
    assert_eq!(g.files[2].module, ModuleId(1));
    assert_eq!(g.files[2].content_hash, "h1");
    assert_eq!(g.modules.len(), 2);
    assert_eq!(g.modules[1].path, "b/src");
    assert_eq!(g.modules[1].files, [FileId(1), FileId(2)]);
    assert_eq!(edge_paths(&g), ["b/src/x.ts -> b/src/index.ts"]);
    assert!(g.unresolved.is_empty() && g.root.is_empty());
}

#[test]
fn an_external_package_nobody_in_the_workspace_publishes_stays_external() {
    let a = member("a", &["src/app.ts"], &[], vec![external(0, "react")], &["@acme/web"]);
    assert!(merge(&[a]).edges.is_empty());
}

#[test]
fn a_package_published_twice_links_to_neither() {
    let a = member("a", &["src/x.ts"], &[], vec![], &["@acme/ui"]);
    let b = member("b", &["src/y.ts"], &[], vec![], &["@acme/ui"]);
    let c = member("c", &["src/app.ts"], &[], vec![external(0, "@acme/ui")], &["@acme/web"]);
    assert!(merge(&[a, b, c]).edges.is_empty());
}

#[test]
fn importing_your_own_package_gives_no_self_edge() {
    let a = member("a", &["src/x.ts"], &[], vec![external(0, "@acme/ui")], &["@acme/ui"]);
    assert!(merge(&[a]).edges.is_empty());
}

#[test]
fn an_empty_workspace_merges_to_an_empty_graph() {
    let g = merge(&[]);
    assert!(g.files.is_empty() && g.modules.is_empty() && g.edges.is_empty());
}

#[test]
fn the_representative_is_the_most_imported_file_then_the_earliest_path() {
    let m = member("a", &["src/b.ts", "src/a.ts", "src/c.ts"], &[(2, 0), (2, 1)], vec![], &[]);
    assert_eq!(representative_file(&m.graph), Some(FileId(1)));
    let m = member("a", &["src/b.ts", "src/a.ts", "src/c.ts"], &[(2, 0), (1, 0)], vec![], &[]);
    assert_eq!(representative_file(&m.graph), Some(FileId(0)));
    assert_eq!(representative_file(&Graph::new()), None);
}

#[test]
fn duplicate_cross_edges_are_merged() {
    let core = member("core", &["src/lib.rs"], &[], vec![], &["acme-core", "acme_core"]);
    let app = member("app", &["src/main.rs"], &[], vec![external(0, "acme_core"), external(0, "acme_core")], &["acme-app", "acme_app"]);
    let g = merge(&[core, app]);
    assert_eq!(edge_paths(&g), ["app/src/main.rs -> core/src/lib.rs"]);
}
