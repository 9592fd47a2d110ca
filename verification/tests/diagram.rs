use zatlas::export::diagram::{ident, label, prepare, to_d2, to_mermaid, DiagramOptions, DiagramScope};
use zatlas::model::{Edge, EdgeKind, FileId, FileNode, Graph, Language, ModuleId, ModuleNode};

fn file(id: u32, module: u32, path: &str, loc: u32) -> FileNode {
    FileNode {
        id: FileId(id),
        path: path.into(),
        module: ModuleId(module),
        language: Language::TypeScript,
        loc,
        bytes: 100,
        content_hash: String::new(),
    }
}

fn graph() -> Graph {
    Graph {
        files: vec![file(0, 0, "src/ui/a.ts", 100), file(1, 0, "src/ui/b.ts", 50), file(2, 1, "src/data/c.ts", 200)],
        modules: vec![
            ModuleNode { id: ModuleId(0), path: "src/ui".into(), files: vec![FileId(0), FileId(1)] },
            ModuleNode { id: ModuleId(1), path: "src/data".into(), files: vec![FileId(2)] },
        ],
        edges: vec![
            Edge { from: FileId(0), to: FileId(2), kind: EdgeKind::Import },
            Edge { from: FileId(1), to: FileId(2), kind: EdgeKind::Import },
        ],
        ..Graph::new()
    }
}

fn empty_cycles() -> Vec<FileId> {
    Vec::new()
}

#[test]
fn identifiers_are_safe_for_both_formats() {
    assert_eq!(ident("src/ui/a.ts"), "src_ui_a_ts");
    assert_eq!(ident("my-crate"), "my_crate");
    assert_eq!(ident(""), "root");
    assert!(!ident("2fast").starts_with(|c: char| c.is_ascii_digit()));
}

#[test]
fn d2_emits_one_node_per_module_and_the_edges_between_them() {
    let d2 = to_d2(&graph(), &DiagramOptions::default(), &empty_cycles());
    assert!(d2.contains("src_ui: \"src/ui\""), "{d2}");
    assert!(d2.contains("src_data: \"src/data\""), "{d2}");

    assert!(d2.contains("src_ui -> src_data: 2"), "{d2}");
}

#[test]
fn mermaid_emits_the_same_topology() {
    let m = to_mermaid(&graph(), &DiagramOptions::default(), &empty_cycles());
    assert!(m.starts_with("%% Generated by ZAtlas"));
    assert!(m.contains("graph LR"));
    assert!(m.contains("src_ui[\"src/ui\"]"), "{m}");
    assert!(m.contains("src_ui -->|2| src_data"), "{m}");
}

#[test]
fn file_scope_emits_one_node_per_file() {
    let opts = DiagramOptions { scope: DiagramScope::Files, ..Default::default() };
    let d2 = to_d2(&graph(), &opts, &empty_cycles());
    assert!(d2.contains("src_ui_a_ts"), "{d2}");
    assert!(d2.contains("src_ui_a_ts -> src_data_c_ts"), "{d2}");
}

#[test]
fn a_subgraph_export_includes_only_the_selected_files() {
    let opts = DiagramOptions { scope: DiagramScope::Files, only: vec![FileId(0), FileId(2)], ..Default::default() };
    let d2 = to_d2(&graph(), &opts, &empty_cycles());
    assert!(d2.contains("src_ui_a_ts"));
    assert!(!d2.contains("src_ui_b_ts"), "b was not selected: {d2}");
}

#[test]
fn cycles_are_marked_in_both_formats() {
    let cycles = vec![FileId(0)];
    let d2 = to_d2(&graph(), &DiagramOptions::default(), &cycles);
    assert!(d2.contains("#f87171"), "{d2}");
    let m = to_mermaid(&graph(), &DiagramOptions::default(), &cycles);
    assert!(m.contains("classDef cycle"), "{m}");
}

#[test]
fn a_huge_graph_is_truncated_rather_than_emitted_unreadable() {
    let mut g = Graph::new();
    for i in 0..500u32 {
        g.files.push(FileNode {
            id: FileId(i),
            path: format!("m{i}/f.ts"),
            module: ModuleId(i),
            language: Language::TypeScript,
            loc: 10,
            bytes: 10,
            content_hash: String::new(),
        });
        g.modules.push(ModuleNode { id: ModuleId(i), path: format!("m{i}"), files: vec![FileId(i)] });
    }
    let d2 = to_d2(&g, &DiagramOptions::default(), &empty_cycles());
    assert!(d2.contains("more nodes omitted"), "{}", &d2[..200.min(d2.len())]);
    assert!(d2.matches(" -> ").count() < 500);
}

#[test]
fn output_is_byte_identical_across_runs() {
    let g = graph();
    let opts = DiagramOptions::default();
    assert_eq!(to_d2(&g, &opts, &empty_cycles()), to_d2(&g, &opts, &empty_cycles()));
    assert_eq!(to_mermaid(&g, &opts, &empty_cycles()), to_mermaid(&g, &opts, &empty_cycles()));
}

#[test]
fn an_empty_graph_still_produces_valid_source() {
    let g = Graph::new();
    let d2 = to_d2(&g, &DiagramOptions::default(), &empty_cycles());
    assert!(d2.contains("direction: right"));
    let m = to_mermaid(&g, &DiagramOptions::default(), &empty_cycles());
    assert!(m.contains("graph LR"));
}

#[test]
fn a_quote_in_a_path_does_not_break_the_label() {
    let mut g = graph();
    g.modules[0].path = "src/we\"ird".into();
    let d2 = to_d2(&g, &DiagramOptions::default(), &empty_cycles());
    assert!(!d2.contains("we\"ird"), "an unescaped quote breaks parsing: {d2}");
}

#[test]
fn the_d2_source_is_written_exactly() {
    let cycles = vec![FileId(2)];
    let d2 = to_d2(&graph(), &DiagramOptions::default(), &cycles);
    let expected = "# Generated by ZAtlas\ndirection: right\n\n\
src_data: \"src/data\" {\n  style.stroke: \"#f87171\"\n  style.stroke-width: 2\n  # 1\n}\n\
src_ui: \"src/ui\" {\n  # 2\n}\n\n\
src_ui -> src_data: 2\n";
    assert_eq!(d2, expected);
}

#[test]
fn the_mermaid_source_is_written_exactly() {
    let cycles = vec![FileId(2)];
    let opts = DiagramOptions { scope: DiagramScope::Files, max_nodes: 2, ..Default::default() };
    let m = to_mermaid(&graph(), &opts, &cycles);
    let expected = [
        "%% Generated by ZAtlas\n",
        "graph LR\n",
        "  src_data_c_ts[\"src/data/c.ts\"]\n",
        "  src_ui_a_ts[\"src/ui/a.ts\"]\n",
        "  src_ui_a_ts --> src_data_c_ts\n",
        "  classDef cycle stroke:#f87171,stroke-width:2px\n",
        "  class src_data_c_ts,cycle\n",
        "  %% 1 more nodes omitted to keep the diagram readable\n",
    ]
    .concat();
    assert_eq!(m, expected);
}

#[test]
fn the_largest_nodes_are_kept_and_then_ordered_by_identifier() {
    let opts = DiagramOptions { scope: DiagramScope::Files, max_nodes: 2, ..Default::default() };
    let p = prepare(&graph(), &opts, &empty_cycles());
    let ids: Vec<&str> = p.nodes.iter().map(|n| n.id.as_str()).collect();
    assert_eq!(ids, ["src_data_c_ts", "src_ui_a_ts"]);
    assert_eq!(p.truncated, 1);
    assert_eq!(p.edges.len(), 1);
}

#[test]
fn a_file_edge_drawn_twice_is_drawn_once() {
    let mut g = graph();
    g.edges.push(Edge { from: FileId(0), to: FileId(2), kind: EdgeKind::ViaBarrel });
    g.edges.push(Edge { from: FileId(0), to: FileId(2), kind: EdgeKind::CoChange });
    let opts = DiagramOptions { scope: DiagramScope::Files, ..Default::default() };
    let p = prepare(&g, &opts, &empty_cycles());
    let edges: Vec<(String, String, u32)> = p.edges.iter().map(|e| (e.from.clone(), e.to.clone(), e.weight)).collect();
    assert_eq!(
        edges,
        [
            ("src_ui_a_ts".to_string(), "src_data_c_ts".to_string(), 1),
            ("src_ui_b_ts".to_string(), "src_data_c_ts".to_string(), 1)
        ]
    );
}

#[test]
fn labels_replace_double_quotes_and_name_the_root() {
    assert_eq!(label(""), "(root)");
    assert_eq!(label("a\"b"), "a'b");
    assert_eq!(ident("9lives"), "n9lives");
}
