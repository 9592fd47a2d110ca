use zatlas::config::{Layer, ZatlasConfig};
use zatlas::findings::{entrypoints_of, layer_of, layer_violations};
use zatlas::model::{Edge, EdgeKind, FileId, FileNode, Graph, Language, ModuleId};

fn graph(paths: &[&str], edges: &[(u32, u32, EdgeKind)]) -> Graph {
    let mut g = Graph::new();
    g.files = paths
        .iter()
        .enumerate()
        .map(|(i, p)| FileNode {
            id: FileId(i as u32),
            path: p.to_string(),
            module: ModuleId(0),
            language: Language::TypeScript,
            loc: 10,
            bytes: 10,
            content_hash: String::new(),
        })
        .collect();
    g.edges = edges.iter().map(|(a, b, k)| Edge { from: FileId(*a), to: FileId(*b), kind: *k }).collect();
    g
}

fn layered(rules: &[&str], layers: &[(&str, &str)]) -> ZatlasConfig {
    ZatlasConfig {
        rules: rules.iter().map(|s| s.to_string()).collect(),
        layers: layers
            .iter()
            .map(|(n, p)| Layer { name: n.to_string(), paths: vec![p.to_string()], rules: Vec::new() })
            .collect(),
        ..ZatlasConfig::default()
    }
}

#[test]
fn a_layering_violation_is_found_against_the_declared_rules() {
    let g = graph(
        &["src/ui/Chart.tsx", "src/domain/rules.ts", "src/data/pg.ts"],
        &[(0, 2, EdgeKind::Import)],
    );
    let config = layered(
        &["ui -> domain", "domain -> data"],
        &[("ui", "src/ui/**"), ("domain", "src/domain/**"), ("data", "src/data/**")],
    );
    let v = layer_violations(&g, &config);
    assert_eq!(v.len(), 1);
    assert_eq!((v[0].from, v[0].to), (FileId(0), FileId(2)));
    assert_eq!((v[0].from_layer.as_str(), v[0].to_layer.as_str()), ("ui", "data"));
}

#[test]
fn an_allowed_direction_is_not_a_violation() {
    let g = graph(&["src/ui/View.tsx", "src/domain/rules.ts"], &[(0, 1, EdgeKind::Import)]);
    let config = layered(&["ui -> domain"], &[("ui", "src/ui/**"), ("domain", "src/domain/**")]);
    assert!(layer_violations(&g, &config).is_empty());
}

#[test]
fn without_layer_rules_no_violations_are_invented() {
    let g = graph(&["src/ui/a.ts", "src/data/pg.ts"], &[(0, 1, EdgeKind::Import)]);
    assert!(layer_violations(&g, &ZatlasConfig::default()).is_empty());
    let no_rules = layered(&[], &[("ui", "src/ui/**"), ("data", "src/data/**")]);
    assert!(layer_violations(&g, &no_rules).is_empty());
}

#[test]
fn containment_and_co_change_edges_are_not_judged() {
    let g = graph(
        &["src/ui/a.ts", "src/data/pg.ts"],
        &[(0, 1, EdgeKind::Contains), (0, 1, EdgeKind::CoChange), (0, 1, EdgeKind::ViaBarrel)],
    );
    let config = layered(&["data -> ui"], &[("ui", "src/ui/**"), ("data", "src/data/**")]);
    let v = layer_violations(&g, &config);
    assert_eq!(v.len(), 1);
}

#[test]
fn a_file_takes_the_first_layer_that_matches_it() {
    let g = graph(&["src/ui/a.ts", "lib/x.ts"], &[]);
    let config = layered(&[], &[("all", "src/**"), ("ui", "src/ui/**"), ("bad", "[")]);
    let map = layer_of(&g, &config);
    assert_eq!(map, [(FileId(0), "all".to_string())]);
}

#[test]
fn configured_entry_points_win_and_otherwise_conventional_roots_are_used() {
    let g = graph(&["src/index.ts", "src/store/index.ts", "src/main.tsx", "tools/build.rs", "src/app.ts"], &[]);
    assert_eq!(entrypoints_of(&g, &ZatlasConfig::default()), [FileId(0), FileId(2), FileId(3)]);
    let config = ZatlasConfig { entrypoints: vec!["src/app.ts".into()], ..ZatlasConfig::default() };
    assert_eq!(entrypoints_of(&g, &config), [FileId(4)]);
    let unmatched = ZatlasConfig { entrypoints: vec!["nowhere/**".into()], ..ZatlasConfig::default() };
    assert_eq!(entrypoints_of(&g, &unmatched), [FileId(0), FileId(2), FileId(3)]);
}
