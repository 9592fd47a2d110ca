//! The graph as D2 or Mermaid source: a node per module (or per file), the
//! edges between the nodes that are drawn, files on a cycle highlighted, and
//! the largest nodes kept where there are too many to read.
use vstd::prelude::*;
use crate::graph::{module_edges, pair_count, pair_lt};
use crate::model::{EdgeKind, FileId, FileNode, Graph, ModuleId, ModuleNode};
use crate::order::{count_not_before, is_before, stable_sorted, str_before};
use crate::text::{chars_of, concat, decimal, decimal_string, string_of};

verus! {

/// Whether a diagram has a node per module or per file.
#[derive(Debug, Clone, Copy, PartialEq, Eq, Structural)]
pub enum DiagramScope {
    Modules,
    Files,
}

/// What a diagram shows: its scope, the files it is limited to (all when
/// empty), whether cycles are highlighted, and how many nodes it keeps.
pub struct DiagramOptions {
    pub scope: DiagramScope,
    pub only: Vec<FileId>,
    pub highlight_cycles: bool,
    pub max_nodes: usize,
}

impl Default for DiagramOptions {
    fn default() -> (r: DiagramOptions)
        ensures
            r.scope == DiagramScope::Modules,
            r.only@.len() == 0,
            r.highlight_cycles,
            r.max_nodes == 120,
    {
        DiagramOptions { scope: DiagramScope::Modules, only: Vec::new(), highlight_cycles: true, max_nodes: 120 }
    }
}

/// An ASCII letter or digit.
pub open spec fn ascii_alnum(c: char) -> bool {
    ('a' <= c && c <= 'z') || ('A' <= c && c <= 'Z') || ('0' <= c && c <= '9')
}

/// A character as it may stand in an identifier.
pub open spec fn ident_char(c: char) -> char {
    if ascii_alnum(c) { c } else { '_' }
}

/// A path as an identifier both formats accept: letters and digits kept,
/// anything else `_`, an `n` before a leading digit, and `root` for the
/// empty path.
pub open spec fn ident_text(raw: Seq<char>) -> Seq<char> {
    if raw.len() == 0 {
        seq!['r', 'o', 'o', 't']
    } else {
        let m = raw.map_values(|c: char| ident_char(c));
        if '0' <= m[0] && m[0] <= '9' { seq!['n'] + m } else { m }
    }
}

/// A path as a quoted label: `(root)` for the empty path, double quotes
/// turned into single ones.
pub open spec fn label_text(raw: Seq<char>) -> Seq<char> {
    if raw.len() == 0 {
        seq!['(', 'r', 'o', 'o', 't', ')']
    } else {
        raw.map_values(|c: char| if c == '"' { '\'' } else { c })
    }
}

/// The identifier of a path.
pub fn ident(raw: &str) -> (r: String)
    ensures
        r@ == ident_text(raw@),
{
    let cs = chars_of(raw);
    if cs.len() == 0 {
        let v = vec!['r', 'o', 'o', 't'];
        assert(v@ =~= seq!['r', 'o', 'o', 't']);
        return string_of(v.as_slice());
    }
    let mut out: Vec<char> = Vec::new();
    let mut i: usize = 0;
    while i < cs.len()
        invariant
            i <= cs@.len(),
            cs@ == raw@,
            out@ == cs@.take(i as int).map_values(|c: char| ident_char(c)),
        decreases cs@.len() - i,
    {
        let c = cs[i];
        let ok = ('a' <= c && c <= 'z') || ('A' <= c && c <= 'Z') || ('0' <= c && c <= '9');
        out.push(if ok { c } else { '_' });
        assert(cs@.take(i + 1).map_values(|c: char| ident_char(c)) =~= cs@.take(i as int).map_values(|c: char| ident_char(c)).push(ident_char(c)));
        i += 1;
    }
    assert(cs@.take(i as int) =~= cs@);
    if '0' <= out[0] && out[0] <= '9' {
        out.insert(0, 'n');
        assert(out@ =~= seq!['n'] + cs@.map_values(|c: char| ident_char(c)));
    }
    string_of(out.as_slice())
}

/// The label of a path.
pub fn label(raw: &str) -> (r: String)
    ensures
        r@ == label_text(raw@),
{
    let cs = chars_of(raw);
    if cs.len() == 0 {
        let v = vec!['(', 'r', 'o', 'o', 't', ')'];
        assert(v@ =~= seq!['(', 'r', 'o', 'o', 't', ')']);
        return string_of(v.as_slice());
    }
    let r = crate::text::replace_char(cs.as_slice(), '"', '\'');
    assert(r@ =~= label_text(raw@));
    string_of(r.as_slice())
}

/// A node to be drawn: its identifier, its label, its size (files of a
/// module, lines of a file) and how many of its files are on a cycle.
#[derive(Debug, Clone)]
pub struct DiagramNode {
    pub id: String,
    pub label: String,
    pub size: usize,
    pub cycles: u32,
}

/// An edge to be drawn, with how many file edges it stands for.
#[derive(Debug, Clone)]
pub struct DiagramEdge {
    pub from: String,
    pub to: String,
    pub weight: u32,
}

/// A node as plain values.
pub struct NodeRow {
    pub id: Seq<char>,
    pub label: Seq<char>,
    pub size: usize,
    pub cycles: u32,
}

/// An edge as plain values.
pub struct EdgeRow {
    pub from: Seq<char>,
    pub to: Seq<char>,
    pub weight: u32,
}

impl View for DiagramNode {
    type V = NodeRow;

    open spec fn view(&self) -> NodeRow {
        NodeRow { id: self.id@, label: self.label@, size: self.size, cycles: self.cycles }
    }
}

impl View for DiagramEdge {
    type V = EdgeRow;

    open spec fn view(&self) -> EdgeRow {
        EdgeRow { from: self.from@, to: self.to@, weight: self.weight }
    }
}

/// What is drawn: the nodes by identifier, the edges in order, and how many
/// nodes were left out.
pub struct Prepared {
    pub nodes: Vec<DiagramNode>,
    pub edges: Vec<DiagramEdge>,
    pub truncated: usize,
}

/// Nodes as plain values.
pub open spec fn node_rows(v: Seq<DiagramNode>) -> Seq<NodeRow> {
    v.map_values(|n: DiagramNode| n@)
}

/// Edges as plain values.
pub open spec fn edge_rows(v: Seq<DiagramEdge>) -> Seq<EdgeRow> {
    v.map_values(|e: DiagramEdge| e@)
}

/// A file is drawn when no selection is given or it is selected.
pub open spec fn selected(only: Seq<FileId>, id: FileId) -> bool {
    only.len() == 0 || only.contains(id)
}

/// How many of `members` are in `cycles`.
pub open spec fn count_in(members: Seq<FileId>, cycles: Seq<FileId>) -> nat
    decreases members.len(),
{
    if members.len() == 0 {
        0
    } else {
        count_in(members.drop_last(), cycles) + if cycles.contains(members.last()) { 1nat } else { 0nat }
    }
}

/// A module is drawn when one of its drawn files belongs to it.
pub open spec fn module_kept(files: Seq<FileNode>, only: Seq<FileId>, mid: u32) -> bool {
    exists|k: int| 0 <= k < files.len() && selected(only, (#[trigger] files[k]).id) && files[k].module.0 == mid
}

/// The module nodes, in module order.
pub open spec fn module_nodes(modules: Seq<ModuleNode>, files: Seq<FileNode>, only: Seq<FileId>, cycles: Seq<FileId>) -> Seq<NodeRow>
    decreases modules.len(),
{
    if modules.len() == 0 {
        Seq::empty()
    } else {
        let p = module_nodes(modules.drop_last(), files, only, cycles);
        let m = modules.last();
        if module_kept(files, only, m.id.0) {
            p.push(NodeRow {
                id: ident_text(m.path@),
                label: label_text(m.path@),
                size: m.files@.len() as usize,
                cycles: count_in(m.files@, cycles) as u32,
            })
        } else {
            p
        }
    }
}

/// The file nodes, in file order.
pub open spec fn file_nodes(files: Seq<FileNode>, only: Seq<FileId>, cycles: Seq<FileId>) -> Seq<NodeRow>
    decreases files.len(),
{
    if files.len() == 0 {
        Seq::empty()
    } else {
        let p = file_nodes(files.drop_last(), only, cycles);
        let f = files.last();
        if selected(only, f.id) {
            p.push(NodeRow {
                id: ident_text(f.path@),
                label: label_text(f.path@),
                size: f.loc as usize,
                cycles: if cycles.contains(f.id) { 1u32 } else { 0u32 },
            })
        } else {
            p
        }
    }
}

/// Larger nodes first, ties by identifier.
pub open spec fn size_before(a: NodeRow, b: NodeRow) -> bool {
    a.size > b.size || (a.size == b.size && str_before(a.id, b.id, false))
}

/// Nodes by identifier.
pub open spec fn ident_before(a: NodeRow, b: NodeRow) -> bool {
    str_before(a.id, b.id, false)
}

/// The order nodes are sorted in.
pub open spec fn node_order(by_size: bool) -> spec_fn(NodeRow, NodeRow) -> bool {
    |a: NodeRow, b: NodeRow| if by_size { size_before(a, b) } else { ident_before(a, b) }
}

/// Edges by source, then target, then weight.
pub open spec fn edge_before(a: EdgeRow, b: EdgeRow) -> bool {
    str_before(a.from, b.from, false)
        || (a.from == b.from && (str_before(a.to, b.to, false) || (a.to == b.to && a.weight < b.weight)))
}

/// The order edges are sorted in.
pub open spec fn edge_order() -> spec_fn(EdgeRow, EdgeRow) -> bool {
    |a: EdgeRow, b: EdgeRow| edge_before(a, b)
}

/// The nodes kept: the largest `max`, ties by identifier.
pub open spec fn kept_nodes(rows: Seq<NodeRow>, max: usize) -> Seq<NodeRow> {
    let s = stable_sorted(rows, node_order(true));
    if s.len() > max { s.take(max as int) } else { s }
}

/// Some kept node has identifier `name`.
pub open spec fn present(kept: Seq<NodeRow>, name: Seq<char>) -> bool {
    exists|i: int| 0 <= i < kept.len() && (#[trigger] kept[i]).id == name
}

/// The path of the last module with id `id`.
pub open spec fn path_of_module(modules: Seq<ModuleNode>, id: u32) -> Option<Seq<char>>
    decreases modules.len(),
{
    if modules.len() == 0 {
        None
    } else if modules.last().id.0 == id {
        Some(modules.last().path@)
    } else {
        path_of_module(modules.drop_last(), id)
    }
}

/// The module edges between kept nodes, in the order given.
pub open spec fn module_edge_rows(me: Seq<(ModuleId, ModuleId, u32)>, modules: Seq<ModuleNode>, kept: Seq<NodeRow>) -> Seq<EdgeRow>
    decreases me.len(),
{
    if me.len() == 0 {
        Seq::empty()
    } else {
        let p = module_edge_rows(me.drop_last(), modules, kept);
        let e = me.last();
        match (path_of_module(modules, e.0.0), path_of_module(modules, e.1.0)) {
            (Some(a), Some(b)) => {
                let f = ident_text(a);
                let t = ident_text(b);
                if present(kept, f) && present(kept, t) { p.push(EdgeRow { from: f, to: t, weight: e.2 }) } else { p }
            },
            _ => p,
        }
    }
}

/// The file edges (not co-change) between kept nodes, in the order given.
pub open spec fn file_edge_rows(edges: Seq<crate::model::Edge>, files: Seq<FileNode>, kept: Seq<NodeRow>) -> Seq<EdgeRow>
    decreases edges.len(),
{
    if edges.len() == 0 {
        Seq::empty()
    } else {
        let p = file_edge_rows(edges.drop_last(), files, kept);
        let e = edges.last();
        if e.kind != EdgeKind::CoChange && e.from.0 < files.len() && e.to.0 < files.len() {
            let f = ident_text(files[e.from.0 as int].path@);
            let t = ident_text(files[e.to.0 as int].path@);
            if present(kept, f) && present(kept, t) { p.push(EdgeRow { from: f, to: t, weight: 1 }) } else { p }
        } else {
            p
        }
    }
}

/// `s` with each run of equal neighbours cut to one.
pub open spec fn dedup_runs(s: Seq<EdgeRow>) -> Seq<EdgeRow>
    decreases s.len(),
{
    if s.len() == 0 {
        s
    } else {
        let p = dedup_runs(s.drop_last());
        if p.len() > 0 && p.last() == s.last() { p } else { p.push(s.last()) }
    }
}

/// `me` is what `module_edges` returns for `graph`.
pub open spec fn is_module_edges(graph: Graph, me: Seq<(ModuleId, ModuleId, u32)>) -> bool {
    &&& forall|i: int, j: int| 0 <= i < j < me.len() ==> pair_lt(#[trigger] me[i], #[trigger] me[j])
    &&& forall|i: int| 0 <= i < me.len() ==> (#[trigger] me[i]).2 > 0
        && me[i].2 == pair_count(graph.files@, graph.edges@, me[i].0.0, me[i].1.0)
    &&& forall|a: u32, b: u32| #[trigger] pair_count(graph.files@, graph.edges@, a, b) > 0 ==>
        exists|i: int| 0 <= i < me.len() && me[i].0.0 == a && me[i].1.0 == b
}

/// The nodes a diagram could draw, before any are left out.
pub open spec fn candidate_nodes(graph: Graph, scope: DiagramScope, only: Seq<FileId>, cycles: Seq<FileId>) -> Seq<NodeRow> {
    match scope {
        DiagramScope::Modules => module_nodes(graph.modules@, graph.files@, only, cycles),
        DiagramScope::Files => file_nodes(graph.files@, only, cycles),
    }
}

/// The edges a diagram draws between the kept nodes.
pub open spec fn drawn_edges(graph: Graph, scope: DiagramScope, kept: Seq<NodeRow>, me: Seq<(ModuleId, ModuleId, u32)>) -> Seq<EdgeRow> {
    match scope {
        DiagramScope::Modules => stable_sorted(module_edge_rows(me, graph.modules@, kept), edge_order()),
        DiagramScope::Files => dedup_runs(stable_sorted(file_edge_rows(graph.edges@, graph.files@, kept), edge_order())),
    }
}

/// What a diagram of `graph` draws, given the module edges `me`.
pub open spec fn prepared_rows(graph: Graph, scope: DiagramScope, only: Seq<FileId>, max: usize, cycles: Seq<FileId>, me: Seq<(ModuleId, ModuleId, u32)>) -> (Seq<NodeRow>, Seq<EdgeRow>, usize) {
    let rows = candidate_nodes(graph, scope, only, cycles);
    let kept = kept_nodes(rows, max);
    (
        stable_sorted(kept, node_order(false)),
        drawn_edges(graph, scope, kept, me),
        if rows.len() > max { (rows.len() - max) as usize } else { 0usize },
    )
}

fn node_is_before(a: &DiagramNode, b: &DiagramNode, by_size: bool) -> (r: bool)
    ensures
        r == (node_order(by_size))(a@, b@),
{
    if by_size {
        a.size > b.size || (a.size == b.size && is_before(a.id.as_str(), b.id.as_str(), false))
    } else {
        is_before(a.id.as_str(), b.id.as_str(), false)
    }
}

fn edge_is_before(a: &DiagramEdge, b: &DiagramEdge) -> (r: bool)
    ensures
        r == (edge_order())(a@, b@),
{
    if is_before(a.from.as_str(), b.from.as_str(), false) {
        true
    } else if crate::text::str_eq(a.from.as_str(), b.from.as_str()) {
        is_before(a.to.as_str(), b.to.as_str(), false)
            || (crate::text::str_eq(a.to.as_str(), b.to.as_str()) && a.weight < b.weight)
    } else {
        false
    }
}

/// The nodes sorted stably by size or by identifier.
fn sort_nodes(v: Vec<DiagramNode>, by_size: bool) -> (r: Vec<DiagramNode>)
    ensures
        node_rows(r@) == stable_sorted(node_rows(v@), node_order(by_size)),
{
    let ghost raw = node_rows(v@);
    let ghost before = node_order(by_size);
    let total = v.len();
    let mut rest = v;
    let mut sorted: Vec<DiagramNode> = Vec::new();
    let mut taken: usize = 0;
    while rest.len() > 0
        invariant
            total == raw.len(),
            taken <= raw.len(),
            node_rows(rest@) == raw.skip(taken as int),
            before == node_order(by_size),
            node_rows(sorted@) == stable_sorted(raw.take(taken as int), before),
        decreases rest@.len(),
    {
        let ghost rv = node_rows(rest@);
        let ghost old_rest = rest@;
        let x = rest.remove(0);
        assert(rest@ =~= old_rest.skip(1));
        assert(node_rows(rest@) =~= rv.skip(1));
        assert(rv[0] == x@);
        assert(raw.skip(taken as int)[0] == raw[taken as int]);
        assert(raw.take(taken + 1).drop_last() == raw.take(taken as int));
        assert(raw.take(taken + 1).last() == x@);
        let ghost s = node_rows(sorted@);
        let mut count: usize = 0;
        let mut k: usize = 0;
        while k < sorted.len()
            invariant
                k <= sorted@.len(),
                s == node_rows(sorted@),
                before == node_order(by_size),
                count == count_not_before(s.take(k as int), x@, before),
                count <= k,
            decreases sorted@.len() - k,
        {
            assert(s.take(k + 1).drop_last() == s.take(k as int));
            if !node_is_before(&x, &sorted[k], by_size) {
                count += 1;
            }
            k += 1;
        }
        assert(s.take(k as int) == s);
        sorted.insert(count, x);
        assert(node_rows(sorted@) =~= s.insert(count as int, x@));
        taken += 1;
        assert(node_rows(rest@) =~= raw.skip(taken as int));
    }
    assert(raw.take(taken as int) =~= raw);
    sorted
}

/// The edges sorted stably.
fn sort_edges(v: Vec<DiagramEdge>) -> (r: Vec<DiagramEdge>)
    ensures
        edge_rows(r@) == stable_sorted(edge_rows(v@), edge_order()),
{
    let ghost raw = edge_rows(v@);
    let ghost before = edge_order();
    let total = v.len();
    let mut rest = v;
    let mut sorted: Vec<DiagramEdge> = Vec::new();
    let mut taken: usize = 0;
    while rest.len() > 0
        invariant
            total == raw.len(),
            taken <= raw.len(),
            edge_rows(rest@) == raw.skip(taken as int),
            before == edge_order(),
            edge_rows(sorted@) == stable_sorted(raw.take(taken as int), before),
        decreases rest@.len(),
    {
        let ghost rv = edge_rows(rest@);
        let ghost old_rest = rest@;
        let x = rest.remove(0);
        assert(rest@ =~= old_rest.skip(1));
        assert(edge_rows(rest@) =~= rv.skip(1));
        assert(rv[0] == x@);
        assert(raw.skip(taken as int)[0] == raw[taken as int]);
        assert(raw.take(taken + 1).drop_last() == raw.take(taken as int));
        assert(raw.take(taken + 1).last() == x@);
        let ghost s = edge_rows(sorted@);
        let mut count: usize = 0;
        let mut k: usize = 0;
        while k < sorted.len()
            invariant
                k <= sorted@.len(),
                s == edge_rows(sorted@),
                before == edge_order(),
                count == count_not_before(s.take(k as int), x@, before),
                count <= k,
            decreases sorted@.len() - k,
        {
            assert(s.take(k + 1).drop_last() == s.take(k as int));
            if !edge_is_before(&x, &sorted[k]) {
                count += 1;
            }
            k += 1;
        }
        assert(s.take(k as int) == s);
        sorted.insert(count, x);
        assert(edge_rows(sorted@) =~= s.insert(count as int, x@));
        taken += 1;
        assert(edge_rows(rest@) =~= raw.skip(taken as int));
    }
    assert(raw.take(taken as int) =~= raw);
    sorted
}


/// A prepared diagram holds the rows given.
pub open spec fn prepared_as(p: Prepared, rows: (Seq<NodeRow>, Seq<EdgeRow>, usize)) -> bool {
    &&& node_rows(p.nodes@) == rows.0
    &&& edge_rows(p.edges@) == rows.1
    &&& p.truncated == rows.2
}

fn contains_id(list: &[FileId], id: FileId) -> (r: bool)
    ensures
        r == list@.contains(id),
{
    let mut i: usize = 0;
    while i < list.len()
        invariant
            i <= list@.len(),
            forall|k: int| 0 <= k < i ==> list@[k] != id,
        decreases list@.len() - i,
    {
        if list[i].0 == id.0 {
            assert(list@[i as int] == id);
            return true;
        }
        i += 1;
    }
    false
}

fn is_selected(only: &[FileId], id: FileId) -> (r: bool)
    ensures
        r == selected(only@, id),
{
    only.len() == 0 || contains_id(only, id)
}

fn count_cycles(members: &Vec<FileId>, cycles: &[FileId]) -> (r: usize)
    ensures
        r as nat == count_in(members@, cycles@),
{
    let mut c: usize = 0;
    let mut i: usize = 0;
    while i < members.len()
        invariant
            i <= members@.len(),
            c <= i,
            c as nat == count_in(members@.take(i as int), cycles@),
        decreases members@.len() - i,
    {
        assert(members@.take(i + 1).drop_last() =~= members@.take(i as int));
        if contains_id(cycles, members[i]) {
            c += 1;
        }
        i += 1;
    }
    assert(members@.take(i as int) =~= members@);
    c
}

fn module_is_kept(files: &Vec<FileNode>, only: &[FileId], mid: u32) -> (r: bool)
    ensures
        r == module_kept(files@, only@, mid),
{
    let mut i: usize = 0;
    while i < files.len()
        invariant
            i <= files@.len(),
            forall|k: int| 0 <= k < i ==> !(selected(only@, (#[trigger] files@[k]).id) && files@[k].module.0 == mid),
        decreases files@.len() - i,
    {
        if files[i].module.0 == mid && is_selected(only, files[i].id) {
            return true;
        }
        i += 1;
    }
    false
}

fn candidate_rows(graph: &Graph, scope: DiagramScope, only: &[FileId], cycles: &[FileId]) -> (r: Vec<DiagramNode>)
    ensures
        node_rows(r@) == candidate_nodes(*graph, scope, only@, cycles@),
{
    let mut out: Vec<DiagramNode> = Vec::new();
    match scope {
        DiagramScope::Modules => {
            let ms = &graph.modules;
            let mut i: usize = 0;
            assert(ms@.take(0) =~= Seq::<ModuleNode>::empty());
            assert(node_rows(out@) =~= Seq::<NodeRow>::empty());
            while i < ms.len()
                invariant
                    i <= ms@.len(),
                    ms == &graph.modules,
                    node_rows(out@) == module_nodes(ms@.take(i as int), graph.files@, only@, cycles@),
                decreases ms@.len() - i,
            {
                assert(ms@.take(i + 1).drop_last() =~= ms@.take(i as int));
                let m = &ms[i];
                if module_is_kept(&graph.files, only, m.id.0) {
                    let c = count_cycles(&m.files, cycles);
                    let n = DiagramNode { id: ident(m.path.as_str()), label: label(m.path.as_str()), size: m.files.len(), cycles: c as u32 };
                    let ghost before = node_rows(out@);
                    out.push(n);
                    assert(node_rows(out@) =~= before.push(n@));
                }
                i += 1;
            }
            assert(ms@.take(i as int) =~= ms@);
        },
        DiagramScope::Files => {
            let fs = &graph.files;
            let mut i: usize = 0;
            assert(fs@.take(0) =~= Seq::<FileNode>::empty());
            assert(node_rows(out@) =~= Seq::<NodeRow>::empty());
            while i < fs.len()
                invariant
                    i <= fs@.len(),
                    fs == &graph.files,
                    node_rows(out@) == file_nodes(fs@.take(i as int), only@, cycles@),
                decreases fs@.len() - i,
            {
                assert(fs@.take(i + 1).drop_last() =~= fs@.take(i as int));
                let f = &fs[i];
                if is_selected(only, f.id) {
                    let c: u32 = if contains_id(cycles, f.id) { 1 } else { 0 };
                    let n = DiagramNode { id: ident(f.path.as_str()), label: label(f.path.as_str()), size: f.loc as usize, cycles: c };
                    let ghost before = node_rows(out@);
                    out.push(n);
                    assert(node_rows(out@) =~= before.push(n@));
                }
                i += 1;
            }
            assert(fs@.take(i as int) =~= fs@);
        },
    }
    out
}

fn is_present(kept: &Vec<DiagramNode>, name: &str) -> (r: bool)
    ensures
        r == present(node_rows(kept@), name@),
{
    let mut i: usize = 0;
    while i < kept.len()
        invariant
            i <= kept@.len(),
            forall|k: int| 0 <= k < i ==> kept@[k].id@ != name@,
        decreases kept@.len() - i,
    {
        if crate::text::str_eq(kept[i].id.as_str(), name) {
            assert(node_rows(kept@)[i as int].id == name@);
            return true;
        }
        i += 1;
    }
    assert(!present(node_rows(kept@), name@)) by {
        if present(node_rows(kept@), name@) {
            let k = choose|k: int| 0 <= k < node_rows(kept@).len() && (#[trigger] node_rows(kept@)[k]).id == name@;
            assert(kept@[k].id@ == name@);
        }
    }
    false
}

fn find_module_path(modules: &Vec<ModuleNode>, id: u32) -> (r: Option<&String>)
    ensures
        match r {
            Some(p) => path_of_module(modules@, id) == Some(p@),
            None => path_of_module(modules@, id) is None,
        },
{
    let mut k = modules.len();
    assert(modules@.take(k as int) =~= modules@);
    while k > 0
        invariant
            k <= modules@.len(),
            path_of_module(modules@, id) == path_of_module(modules@.take(k as int), id),
        decreases k,
    {
        assert(modules@.take(k as int).drop_last() =~= modules@.take(k - 1));
        if modules[k - 1].id.0 == id {
            return Some(&modules[k - 1].path);
        }
        k -= 1;
    }
    None
}

fn module_edge_list(me: &Vec<(ModuleId, ModuleId, u32)>, modules: &Vec<ModuleNode>, kept: &Vec<DiagramNode>) -> (r: Vec<DiagramEdge>)
    ensures
        edge_rows(r@) == module_edge_rows(me@, modules@, node_rows(kept@)),
{
    let mut out: Vec<DiagramEdge> = Vec::new();
    let mut i: usize = 0;
    assert(me@.take(0) =~= Seq::<(ModuleId, ModuleId, u32)>::empty());
    assert(edge_rows(out@) =~= Seq::<EdgeRow>::empty());
    while i < me.len()
        invariant
            i <= me@.len(),
            edge_rows(out@) == module_edge_rows(me@.take(i as int), modules@, node_rows(kept@)),
        decreases me@.len() - i,
    {
        assert(me@.take(i + 1).drop_last() =~= me@.take(i as int));
        assert(me@.take(i + 1).last() == me@[i as int]);
        let (a, b, n) = me[i];
        match (find_module_path(modules, a.0), find_module_path(modules, b.0)) {
            (Some(pa), Some(pb)) => {
                let f = ident(pa.as_str());
                let t = ident(pb.as_str());
                if is_present(kept, f.as_str()) && is_present(kept, t.as_str()) {
                    let e = DiagramEdge { from: f, to: t, weight: n };
                    let ghost before = edge_rows(out@);
                    out.push(e);
                    assert(edge_rows(out@) =~= before.push(e@));
                }
            },
            _ => {},
        }
        i += 1;
    }
    assert(me@.take(i as int) =~= me@);
    out
}

fn file_edge_list(edges: &Vec<crate::model::Edge>, files: &Vec<FileNode>, kept: &Vec<DiagramNode>) -> (r: Vec<DiagramEdge>)
    ensures
        edge_rows(r@) == file_edge_rows(edges@, files@, node_rows(kept@)),
{
    let mut out: Vec<DiagramEdge> = Vec::new();
    let mut i: usize = 0;
    assert(edges@.take(0) =~= Seq::<crate::model::Edge>::empty());
    assert(edge_rows(out@) =~= Seq::<EdgeRow>::empty());
    while i < edges.len()
        invariant
            i <= edges@.len(),
            edge_rows(out@) == file_edge_rows(edges@.take(i as int), files@, node_rows(kept@)),
        decreases edges@.len() - i,
    {
        assert(edges@.take(i + 1).drop_last() =~= edges@.take(i as int));
        assert(edges@.take(i + 1).last() == edges@[i as int]);
        let e = edges[i];
        let co = match e.kind {
            EdgeKind::CoChange => true,
            _ => false,
        };
        let a = e.from.0 as usize;
        let b = e.to.0 as usize;
        if !co && a < files.len() && b < files.len() {
            let f = ident(files[a].path.as_str());
            let t = ident(files[b].path.as_str());
            if is_present(kept, f.as_str()) && is_present(kept, t.as_str()) {
                let d = DiagramEdge { from: f, to: t, weight: 1 };
                let ghost before = edge_rows(out@);
                out.push(d);
                assert(edge_rows(out@) =~= before.push(d@));
            }
        }
        i += 1;
    }
    assert(edges@.take(i as int) =~= edges@);
    out
}

fn same_edge(a: &DiagramEdge, b: &DiagramEdge) -> (r: bool)
    ensures
        r == (a@ == b@),
{
    crate::text::str_eq(a.from.as_str(), b.from.as_str()) && crate::text::str_eq(a.to.as_str(), b.to.as_str()) && a.weight == b.weight
}

fn dedup_edges(v: Vec<DiagramEdge>) -> (r: Vec<DiagramEdge>)
    ensures
        edge_rows(r@) == dedup_runs(edge_rows(v@)),
{
    let ghost raw = edge_rows(v@);
    let mut out: Vec<DiagramEdge> = Vec::new();
    let mut i: usize = 0;
    assert(raw.take(0) =~= Seq::<EdgeRow>::empty());
    assert(edge_rows(out@) =~= Seq::<EdgeRow>::empty());
    while i < v.len()
        invariant
            i <= raw.len(),
            raw == edge_rows(v@),
            edge_rows(out@) == dedup_runs(raw.take(i as int)),
        decreases raw.len() - i,
    {
        assert(raw.take(i + 1).drop_last() =~= raw.take(i as int));
        assert(raw.take(i + 1).last() == v@[i as int]@);
        let n = out.len();
        if n > 0 && same_edge(&out[n - 1], &v[i]) {
        } else {
            let e = v[i].clone();
            let ghost before = edge_rows(out@);
            out.push(DiagramEdge { from: crate::text::owned(v[i].from.as_str()), to: crate::text::owned(v[i].to.as_str()), weight: v[i].weight });
            assert(edge_rows(out@) =~= before.push(v@[i as int]@));
        }
        i += 1;
    }
    assert(raw.take(i as int) =~= raw);
    out
}

/// What a diagram draws: the candidate nodes (modules, or files, limited to
/// the selection), the largest `max_nodes` of them kept and sorted by
/// identifier, the edges between kept nodes sorted (and, for files, each
/// drawn once), and how many nodes were left out.
pub fn prepare(graph: &Graph, opts: &DiagramOptions, cycle_files: &[FileId]) -> (p: Prepared)
    requires
        graph.edges@.len() <= u32::MAX,
    ensures
        opts.scope == DiagramScope::Files ==> prepared_as(p, prepared_rows(*graph, opts.scope, opts.only@, opts.max_nodes, cycle_files@, Seq::empty())),
        opts.scope == DiagramScope::Modules ==> exists|me: Seq<(ModuleId, ModuleId, u32)>| is_module_edges(*graph, me)
            && prepared_as(p, prepared_rows(*graph, opts.scope, opts.only@, opts.max_nodes, cycle_files@, me)),
{
    let rows = candidate_rows(graph, opts.scope, opts.only.as_slice(), cycle_files);
    let ghost rv = node_rows(rows@);
    let max = opts.max_nodes;
    let truncated: usize = if rows.len() > max { rows.len() - max } else { 0 };
    let mut kept = sort_nodes(rows, true);
    if kept.len() > max {
        kept.truncate(max);
    }
    let ghost kv = node_rows(kept@);
    assert(kv =~= kept_nodes(rv, max)) by {
        crate::order::lemma_stable_sorted_len(rv, node_order(true));
    }
    let ghost mut me: Seq<(ModuleId, ModuleId, u32)> = Seq::empty();
    let edges = match opts.scope {
        DiagramScope::Modules => {
            let m = module_edges(graph);
            proof {
                me = m@;
                assert(is_module_edges(*graph, me));
            }
            let list = module_edge_list(&m, &graph.modules, &kept);
            sort_edges(list)
        },
        DiagramScope::Files => {
            let list = file_edge_list(&graph.edges, &graph.files, &kept);
            dedup_edges(sort_edges(list))
        },
    };
    let nodes = sort_nodes(kept, false);
    let p = Prepared { nodes, edges, truncated };
    assert(prepared_as(p, prepared_rows(*graph, opts.scope, opts.only@, opts.max_nodes, cycle_files@, me)));
    assert(opts.scope == DiagramScope::Modules ==> is_module_edges(*graph, me));
    p
}

/// One node in D2: its identifier and quoted label, a red outline when it
/// is on a cycle and cycles are highlighted, and its size as a comment.
pub open spec fn d2_node(n: NodeRow, highlight: bool) -> Seq<char> {
    n.id + ": \""@ + n.label + "\" {\n"@
        + (if highlight && n.cycles > 0 { "  style.stroke: \"#f87171\"\n  style.stroke-width: 2\n"@ } else { Seq::empty() })
        + "  # "@ + decimal(n.size as nat) + "\n}\n"@
}

/// The nodes in D2, in order.
pub open spec fn d2_nodes(ns: Seq<NodeRow>, highlight: bool) -> Seq<char>
    decreases ns.len(),
{
    if ns.len() == 0 { Seq::empty() } else { d2_nodes(ns.drop_last(), highlight) + d2_node(ns.last(), highlight) }
}

/// One edge in D2, labelled with its weight when it stands for more than one.
pub open spec fn d2_edge(e: EdgeRow) -> Seq<char> {
    if e.weight > 1 {
        e.from + " -> "@ + e.to + ": "@ + decimal(e.weight as nat) + seq!['\n']
    } else {
        e.from + " -> "@ + e.to + seq!['\n']
    }
}

/// The edges in D2, in order.
pub open spec fn d2_edges(es: Seq<EdgeRow>) -> Seq<char>
    decreases es.len(),
{
    if es.len() == 0 { Seq::empty() } else { d2_edges(es.drop_last()) + d2_edge(es.last()) }
}

/// A prepared diagram as D2 source.
pub open spec fn d2_text(rows: (Seq<NodeRow>, Seq<EdgeRow>, usize), highlight: bool) -> Seq<char> {
    "# Generated by ZAtlas\n"@ + "direction: right\n\n"@ + d2_nodes(rows.0, highlight)
        + (if rows.0.len() > 0 { seq!['\n'] } else { Seq::empty() })
        + d2_edges(rows.1)
        + (if rows.2 > 0 { "\n# "@ + decimal(rows.2 as nat) + " more nodes omitted to keep the diagram readable\n"@ } else { Seq::empty() })
}

/// One node in Mermaid.
pub open spec fn mermaid_node(n: NodeRow) -> Seq<char> {
    "  "@ + n.id + "[\""@ + n.label + "\"]\n"@
}

/// The nodes in Mermaid, in order.
pub open spec fn mermaid_nodes(ns: Seq<NodeRow>) -> Seq<char>
    decreases ns.len(),
{
    if ns.len() == 0 { Seq::empty() } else { mermaid_nodes(ns.drop_last()) + mermaid_node(ns.last()) }
}

/// One edge in Mermaid, labelled with its weight when it stands for more
/// than one.
pub open spec fn mermaid_edge(e: EdgeRow) -> Seq<char> {
    if e.weight > 1 {
        "  "@ + e.from + " -->|"@ + decimal(e.weight as nat) + "| "@ + e.to + seq!['\n']
    } else {
        "  "@ + e.from + " --> "@ + e.to + seq!['\n']
    }
}

/// The edges in Mermaid, in order.
pub open spec fn mermaid_edges(es: Seq<EdgeRow>) -> Seq<char>
    decreases es.len(),
{
    if es.len() == 0 { Seq::empty() } else { mermaid_edges(es.drop_last()) + mermaid_edge(es.last()) }
}

/// The identifiers of the nodes on a cycle, in order.
pub open spec fn cycle_ids(ns: Seq<NodeRow>) -> Seq<Seq<char>>
    decreases ns.len(),
{
    if ns.len() == 0 {
        Seq::empty()
    } else {
        let p = cycle_ids(ns.drop_last());
        if ns.last().cycles > 0 { p.push(ns.last().id) } else { p }
    }
}

/// A prepared diagram as Mermaid source.
pub open spec fn mermaid_text(rows: (Seq<NodeRow>, Seq<EdgeRow>, usize), highlight: bool) -> Seq<char> {
    let marked = cycle_ids(rows.0);
    "%% Generated by ZAtlas\n"@ + "graph LR\n"@ + mermaid_nodes(rows.0) + mermaid_edges(rows.1)
        + (if highlight && marked.len() > 0 {
            "  classDef cycle stroke:#f87171,stroke-width:2px\n"@ + "  class "@ + crate::text::join(marked, ',') + ",cycle\n"@
        } else {
            Seq::empty()
        })
        + (if rows.2 > 0 { "  %% "@ + decimal(rows.2 as nat) + " more nodes omitted to keep the diagram readable\n"@ } else { Seq::empty() })
}

fn append(out: &mut String, piece: &str)
    ensures
        final(out)@ == old(out)@ + piece@,
{
    let joined = concat(out.as_str(), piece);
    *out = joined;
}

fn append_number(out: &mut String, n: u64)
    ensures
        final(out)@ == old(out)@ + decimal(n as nat),
{
    let d = decimal_string(n);
    append(out, d.as_str());
}

/// The rows a prepared diagram holds.
pub open spec fn rows_of(p: Prepared) -> (Seq<NodeRow>, Seq<EdgeRow>, usize) {
    (node_rows(p.nodes@), edge_rows(p.edges@), p.truncated)
}

/// A prepared diagram written as D2 source.
pub fn write_d2(p: &Prepared, highlight: bool) -> (r: String)
    ensures
        r@ == d2_text(rows_of(*p), highlight),
{
    let mut out = String::new();
    assert(out@ =~= Seq::<char>::empty());
    append(&mut out, "# Generated by ZAtlas\n");
    append(&mut out, "direction: right\n\n");
    let ghost head = out@;
    let ghost ns = node_rows(p.nodes@);
    let mut i: usize = 0;
    assert(ns.take(0) =~= Seq::<NodeRow>::empty());
    assert(out@ =~= head + d2_nodes(ns.take(0), highlight));
    while i < p.nodes.len()
        invariant
            i <= ns.len(),
            ns == node_rows(p.nodes@),
            out@ == head + d2_nodes(ns.take(i as int), highlight),
        decreases ns.len() - i,
    {
        assert(ns.take(i + 1).drop_last() =~= ns.take(i as int));
        assert(ns.take(i + 1).last() == p.nodes@[i as int]@);
        let n = &p.nodes[i];
        let ghost before = out@;
        append(&mut out, n.id.as_str());
        append(&mut out, ": \"");
        append(&mut out, n.label.as_str());
        append(&mut out, "\" {\n");
        if highlight && n.cycles > 0 {
            append(&mut out, "  style.stroke: \"#f87171\"\n  style.stroke-width: 2\n");
        }
        append(&mut out, "  # ");
        append_number(&mut out, n.size as u64);
        append(&mut out, "\n}\n");
        assert(out@ =~= before + d2_node(n@, highlight));
        i += 1;
    }
    assert(ns.take(i as int) =~= ns);
    if p.nodes.len() > 0 {
        append(&mut out, "\n");
        proof { reveal_strlit("\n"); }
    }
    let ghost mid = out@;
    let ghost es = edge_rows(p.edges@);
    let mut j: usize = 0;
    assert(es.take(0) =~= Seq::<EdgeRow>::empty());
    assert(out@ =~= mid + d2_edges(es.take(0)));
    while j < p.edges.len()
        invariant
            j <= es.len(),
            es == edge_rows(p.edges@),
            out@ == mid + d2_edges(es.take(j as int)),
        decreases es.len() - j,
    {
        assert(es.take(j + 1).drop_last() =~= es.take(j as int));
        assert(es.take(j + 1).last() == p.edges@[j as int]@);
        let e = &p.edges[j];
        let ghost before = out@;
        append(&mut out, e.from.as_str());
        append(&mut out, " -> ");
        append(&mut out, e.to.as_str());
        if e.weight > 1 {
            append(&mut out, ": ");
            append_number(&mut out, e.weight as u64);
        }
        append(&mut out, "\n");
        proof { reveal_strlit("\n"); }
        assert(out@ =~= before + d2_edge(e@));
        j += 1;
    }
    assert(es.take(j as int) =~= es);
    let ghost tail_start = out@;
    if p.truncated > 0 {
        append(&mut out, "\n# ");
        append_number(&mut out, p.truncated as u64);
        append(&mut out, " more nodes omitted to keep the diagram readable\n");
    }
    assert(out@ =~= d2_text(rows_of(*p), highlight));
    out
}

/// A prepared diagram written as Mermaid source.
pub fn write_mermaid(p: &Prepared, highlight: bool) -> (r: String)
    ensures
        r@ == mermaid_text(rows_of(*p), highlight),
{
    let mut out = String::new();
    assert(out@ =~= Seq::<char>::empty());
    append(&mut out, "%% Generated by ZAtlas\n");
    append(&mut out, "graph LR\n");
    let ghost head = out@;
    let ghost ns = node_rows(p.nodes@);
    let mut i: usize = 0;
    assert(ns.take(0) =~= Seq::<NodeRow>::empty());
    assert(out@ =~= head + mermaid_nodes(ns.take(0)));
    while i < p.nodes.len()
        invariant
            i <= ns.len(),
            ns == node_rows(p.nodes@),
            out@ == head + mermaid_nodes(ns.take(i as int)),
        decreases ns.len() - i,
    {
        assert(ns.take(i + 1).drop_last() =~= ns.take(i as int));
        assert(ns.take(i + 1).last() == p.nodes@[i as int]@);
        let n = &p.nodes[i];
        let ghost before = out@;
        append(&mut out, "  ");
        append(&mut out, n.id.as_str());
        append(&mut out, "[\"");
        append(&mut out, n.label.as_str());
        append(&mut out, "\"]\n");
        assert(out@ =~= before + mermaid_node(n@));
        i += 1;
    }
    assert(ns.take(i as int) =~= ns);
    let ghost mid = out@;
    let ghost es = edge_rows(p.edges@);
    let mut j: usize = 0;
    assert(es.take(0) =~= Seq::<EdgeRow>::empty());
    assert(out@ =~= mid + mermaid_edges(es.take(0)));
    while j < p.edges.len()
        invariant
            j <= es.len(),
            es == edge_rows(p.edges@),
            out@ == mid + mermaid_edges(es.take(j as int)),
        decreases es.len() - j,
    {
        assert(es.take(j + 1).drop_last() =~= es.take(j as int));
        assert(es.take(j + 1).last() == p.edges@[j as int]@);
        let e = &p.edges[j];
        let ghost before = out@;
        append(&mut out, "  ");
        append(&mut out, e.from.as_str());
        if e.weight > 1 {
            append(&mut out, " -->|");
            append_number(&mut out, e.weight as u64);
            append(&mut out, "| ");
        } else {
            append(&mut out, " --> ");
        }
        append(&mut out, e.to.as_str());
        append(&mut out, "\n");
        proof { reveal_strlit("\n"); }
        assert(out@ =~= before + mermaid_edge(e@));
        j += 1;
    }
    assert(es.take(j as int) =~= es);
    let ghost after_edges = out@;
    if highlight {
        let mut marked: Vec<Vec<char>> = Vec::new();
        let mut k: usize = 0;
        assert(ns.take(0) =~= Seq::<NodeRow>::empty());
        while k < p.nodes.len()
            invariant
                k <= ns.len(),
                ns == node_rows(p.nodes@),
                marked@.map_values(|v: Vec<char>| v@) == cycle_ids(ns.take(k as int)),
            decreases ns.len() - k,
        {
            assert(ns.take(k + 1).drop_last() =~= ns.take(k as int));
            assert(ns.take(k + 1).last() == p.nodes@[k as int]@);
            if p.nodes[k].cycles > 0 {
                let ghost before = marked@.map_values(|v: Vec<char>| v@);
                marked.push(chars_of(p.nodes[k].id.as_str()));
                assert(marked@.map_values(|v: Vec<char>| v@) =~= before.push(p.nodes@[k as int].id@));
            }
            k += 1;
        }
        assert(ns.take(k as int) =~= ns);
        if marked.len() > 0 {
            append(&mut out, "  classDef cycle stroke:#f87171,stroke-width:2px\n");
            append(&mut out, "  class ");
            let joined = crate::text::join_chars(&marked, ',');
            let js = string_of(joined.as_slice());
            append(&mut out, js.as_str());
            append(&mut out, ",cycle\n");
        }
    }
    let ghost after_marks = out@;
    if p.truncated > 0 {
        append(&mut out, "  %% ");
        append_number(&mut out, p.truncated as u64);
        append(&mut out, " more nodes omitted to keep the diagram readable\n");
    }
    assert(out@ =~= mermaid_text(rows_of(*p), highlight));
    out
}

/// The graph as D2 source.
pub fn to_d2(graph: &Graph, opts: &DiagramOptions, cycle_files: &[FileId]) -> (r: String)
    requires
        graph.edges@.len() <= u32::MAX,
    ensures
        opts.scope == DiagramScope::Files
            ==> r@ == d2_text(prepared_rows(*graph, opts.scope, opts.only@, opts.max_nodes, cycle_files@, Seq::empty()), opts.highlight_cycles),
        opts.scope == DiagramScope::Modules ==> exists|me: Seq<(ModuleId, ModuleId, u32)>| is_module_edges(*graph, me)
            && r@ == d2_text(prepared_rows(*graph, opts.scope, opts.only@, opts.max_nodes, cycle_files@, me), opts.highlight_cycles),
{
    let p = prepare(graph, opts, cycle_files);
    write_d2(&p, opts.highlight_cycles)
}

/// The graph as Mermaid source.
pub fn to_mermaid(graph: &Graph, opts: &DiagramOptions, cycle_files: &[FileId]) -> (r: String)
    requires
        graph.edges@.len() <= u32::MAX,
    ensures
        opts.scope == DiagramScope::Files
            ==> r@ == mermaid_text(prepared_rows(*graph, opts.scope, opts.only@, opts.max_nodes, cycle_files@, Seq::empty()), opts.highlight_cycles),
        opts.scope == DiagramScope::Modules ==> exists|me: Seq<(ModuleId, ModuleId, u32)>| is_module_edges(*graph, me)
            && r@ == mermaid_text(prepared_rows(*graph, opts.scope, opts.only@, opts.max_nodes, cycle_files@, me), opts.highlight_cycles),
{
    let p = prepare(graph, opts, cycle_files);
    write_mermaid(&p, opts.highlight_cycles)
}

} // verus!
