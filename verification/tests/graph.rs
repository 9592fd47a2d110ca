use zatlas::graph::{dependencies_of, dsm_order, impact, module_edges, orphans, tangles, Adjacency, Relation};
use zatlas::model::{Edge, EdgeKind, FileId, FileNode, Graph, Language, ModuleId, ModuleNode};

fn edge(from: u32, to: u32) -> Edge {
    Edge { from: FileId(from), to: FileId(to), kind: EdgeKind::Import }
}

fn adj(n: usize, pairs: &[(u32, u32)]) -> Adjacency {
    let edges: Vec<Edge> = pairs.iter().map(|&(f, t)| edge(f, t)).collect();
    Adjacency::build(n, &edges)
}

fn ids(v: &[FileId]) -> Vec<u32> {
    v.iter().map(|f| f.0).collect()
}

#[test]
fn adjacency_records_both_directions() {
    let a = adj(3, &[(0, 1), (0, 2), (1, 2)]);
    assert_eq!(ids(a.dependencies(FileId(0))), [1, 2]);
    assert_eq!(ids(a.dependents(FileId(2))), [0, 1]);
    assert_eq!(a.fan_in(FileId(2)), 2);
    assert_eq!(a.fan_out(FileId(0)), 2);
}

#[test]
fn co_change_edges_are_not_dependencies() {
    let edges = vec![edge(0, 1), Edge { from: FileId(1), to: FileId(0), kind: EdgeKind::CoChange }];
    let a = Adjacency::build(2, &edges);
    assert_eq!(ids(a.dependencies(FileId(1))), [] as [u32; 0]);
    assert!(tangles(&a).is_empty(), "co-change must not create a cycle");
}

#[test]
fn containment_is_not_a_dependency_but_is_structural() {
    let edges = vec![Edge { from: FileId(0), to: FileId(1), kind: EdgeKind::Contains }, edge(1, 0)];
    let dep = Adjacency::build_for(2, &edges, Relation::Dependency);
    assert!(tangles(&dep).is_empty(), "mod + use crate:: is idiomatic, not a tangle");

    let structural = Adjacency::build_for(2, &edges, Relation::Structure);
    assert_eq!(ids(structural.dependencies(FileId(0))), [1]);

    assert!(orphans(&structural, &[FileId(0)]).is_empty());
}

#[test]
fn an_acyclic_graph_has_no_tangles() {
    let a = adj(4, &[(0, 1), (1, 2), (2, 3)]);
    assert!(tangles(&a).is_empty());
}

#[test]
fn a_two_node_cycle_is_found_with_its_chain() {
    let a = adj(2, &[(0, 1), (1, 0)]);
    let t = tangles(&a);
    assert_eq!(t.len(), 1);
    assert_eq!(ids(&t[0].members), [0, 1]);
    assert_eq!(ids(&t[0].example), [0, 1, 0]);
}

#[test]
fn a_three_node_cycle_is_found_in_order() {
    let a = adj(3, &[(0, 1), (1, 2), (2, 0)]);
    let t = tangles(&a);
    assert_eq!(t.len(), 1);
    assert_eq!(ids(&t[0].members), [0, 1, 2]);
    assert_eq!(ids(&t[0].example), [0, 1, 2, 0]);
}

#[test]
fn a_chain_hanging_off_a_cycle_is_not_part_of_it() {
    let a = adj(4, &[(0, 1), (1, 0), (2, 0), (3, 2)]);
    let t = tangles(&a);
    assert_eq!(t.len(), 1);
    assert_eq!(ids(&t[0].members), [0, 1]);
}

#[test]
fn two_separate_cycles_are_reported_separately() {
    let a = adj(4, &[(0, 1), (1, 0), (2, 3), (3, 2)]);
    let t = tangles(&a);
    assert_eq!(t.len(), 2);
    assert_eq!(ids(&t[0].members), [0, 1]);
    assert_eq!(ids(&t[1].members), [2, 3]);
}

#[test]
fn the_example_chain_is_a_shortest_cycle_not_the_whole_component() {
    let a = adj(6, &[(0, 1), (1, 0), (1, 2), (2, 3), (3, 4), (4, 5), (5, 1)]);
    let t = tangles(&a);
    assert_eq!(t.len(), 1);
    assert_eq!(t[0].members.len(), 6);
    assert_eq!(ids(&t[0].example), [0, 1, 0]);
}

#[test]
fn tarjan_survives_a_very_long_chain_without_overflowing_the_stack() {
    let n = 60_000usize;
    let pairs: Vec<(u32, u32)> = (0..n as u32 - 1).map(|i| (i, i + 1)).collect();
    let a = adj(n, &pairs);
    assert!(tangles(&a).is_empty());
}

#[test]
fn a_very_long_cycle_is_still_found() {
    let n = 10_000usize;
    let mut pairs: Vec<(u32, u32)> = (0..n as u32 - 1).map(|i| (i, i + 1)).collect();
    pairs.push((n as u32 - 1, 0));
    let a = adj(n, &pairs);
    let t = tangles(&a);
    assert_eq!(t.len(), 1);
    assert_eq!(t[0].members.len(), n);
}

#[test]
fn impact_finds_everything_that_would_break() {
    let a = adj(4, &[(1, 0), (2, 1), (3, 2)]);
    assert_eq!(ids(&impact(&a, &[FileId(0)])), [1, 2, 3]);
    assert_eq!(ids(&impact(&a, &[FileId(2)])), [3]);
    assert_eq!(ids(&impact(&a, &[FileId(3)])), [] as [u32; 0]);
}

#[test]
fn impact_terminates_on_a_cycle() {
    let a = adj(3, &[(0, 1), (1, 0), (2, 0)]);
    let got = impact(&a, &[FileId(0)]);
    assert_eq!(ids(&got), [1, 2]);
}

#[test]
fn dependencies_of_walks_the_other_direction() {
    let a = adj(4, &[(3, 2), (2, 1), (1, 0)]);
    assert_eq!(ids(&dependencies_of(&a, &[FileId(3)])), [0, 1, 2]);
}

#[test]
fn orphans_exclude_anything_an_entry_point_reaches() {
    let a = adj(3, &[(0, 1)]);
    assert_eq!(ids(&orphans(&a, &[FileId(0)])), [2]);
}

#[test]
fn without_entry_points_every_root_would_look_dead() {
    let a = adj(3, &[(0, 1)]);
    assert_eq!(ids(&orphans(&a, &[])), [0, 2]);
}

#[test]
fn module_edges_roll_up_and_drop_self_loops() {
    let file = |id: u32, module: u32, path: &str| FileNode {
        id: FileId(id),
        path: path.into(),
        module: ModuleId(module),
        language: Language::TypeScript,
        loc: 1,
        bytes: 1,
        content_hash: String::new(),
    };
    let mut graph = Graph::new();
    graph.files = vec![file(0, 0, "ui/a.ts"), file(1, 0, "ui/b.ts"), file(2, 1, "data/c.ts")];
    graph.modules = vec![
        ModuleNode { id: ModuleId(0), path: "ui".into(), files: vec![FileId(0), FileId(1)] },
        ModuleNode { id: ModuleId(1), path: "data".into(), files: vec![FileId(2)] },
    ];
    graph.edges = vec![edge(0, 1), edge(0, 2), edge(1, 2)];
    assert_eq!(module_edges(&graph), [(ModuleId(0), ModuleId(1), 2)]);
}

#[test]
fn dsm_order_puts_dependencies_before_dependents() {
    let a = adj(3, &[(2, 1), (1, 0)]);
    let order = ids(&dsm_order(&a));
    let pos = |x: u32| order.iter().position(|&y| y == x).unwrap();
    assert!(pos(0) < pos(1), "got {order:?}");
    assert!(pos(1) < pos(2), "got {order:?}");
}

#[test]
fn dsm_order_includes_every_node_exactly_once() {
    let a = adj(6, &[(0, 1), (1, 2), (3, 4), (5, 0)]);
    let mut order = ids(&dsm_order(&a));
    order.sort_unstable();
    assert_eq!(order, [0, 1, 2, 3, 4, 5]);
}

#[test]
fn dsm_order_is_stable_across_runs() {
    let a = adj(8, &[(0, 1), (1, 2), (2, 3), (4, 5), (6, 7), (7, 0)]);
    assert_eq!(dsm_order(&a), dsm_order(&a));
}

#[test]
fn an_edge_pointing_outside_the_node_range_is_ignored_rather_than_panicking() {
    let edges = vec![edge(0, 99)];
    let a = Adjacency::build(2, &edges);
    assert!(a.dependencies(FileId(0)).is_empty());
}
