//! Several repositories analysed together: their graphs merged into one,
//! paths prefixed by the repository's name, and an import of a package that
//! exactly one member publishes turned into an edge to that member.
use vstd::prelude::*;
use crate::analyse::{dedup, edge_before, sorted_edges};
use crate::graph::{adj_wf, counted, Adjacency, Relation};
use crate::model::{Edge, EdgeKind, FileId, FileNode, Graph, Language, ModuleId, ModuleNode, UnresolvedReason};
use crate::order::{is_before, str_before};
use crate::text::{concat, owned, str_eq};

verus! {

/// One repository of a workspace: its name, its graph, and the package
/// names it publishes.
pub struct Member {
    pub name: String,
    pub graph: Graph,
    pub packages: Vec<String>,
}

/// The files with an edge (not co-change) into `y`, among `n` files.
pub open spec fn importers(edges: Seq<Edge>, n: nat, y: int) -> Set<FileId> {
    Set::new(|f: FileId| f.0 < n && exists|k: int| 0 <= k < edges.len()
        && counted(#[trigger] edges[k], n, Relation::Dependency) && edges[k].from == f && edges[k].to.0 == y)
}

/// How many files import `y`.
pub open spec fn in_degree(edges: Seq<Edge>, n: nat, y: int) -> nat {
    importers(edges, n, y).len()
}

/// `b` is at least as good a representative as `a`: more importers, or as
/// many and a path that is not later.
pub open spec fn at_least_as_central(g: Graph, a: FileNode, b: FileNode) -> bool {
    let n = g.files@.len();
    in_degree(g.edges@, n, b.id.0 as int) > in_degree(g.edges@, n, a.id.0 as int)
        || (in_degree(g.edges@, n, b.id.0 as int) == in_degree(g.edges@, n, a.id.0 as int) && !str_before(a.path@, b.path@, false))
}

/// Where the best of the first `i` files is: the last of those with the
/// most importers and, among them, the earliest path.
pub open spec fn best_upto(g: Graph, i: int) -> int
    decreases i,
{
    if i <= 1 {
        0
    } else {
        let p = best_upto(g, i - 1);
        if at_least_as_central(g, g.files@[p], g.files@[i - 1]) { i - 1 } else { p }
    }
}

/// The file another repository's import of this one stands for: the most
/// imported file, ties to the earliest path; none for an empty graph.
pub open spec fn representative_of(g: Graph) -> Option<FileId> {
    if g.files@.len() == 0 { None } else { Some(g.files@[best_upto(g, g.files@.len() as int)].id) }
}

proof fn lemma_fan_in(a: &Adjacency, edges: Seq<Edge>, n: nat, y: int)
    requires
        a.succ().len() == n,
        adj_wf(a.succ(), a.pred()),
        0 <= y < n,
        forall|x: int, z: int| 0 <= x < n && 0 <= z < n ==>
            (#[trigger] a.succ()[x].contains(FileId(z as u32)) <==> exists|k: int|
                0 <= k < edges.len() && counted(#[trigger] edges[k], n, Relation::Dependency)
                    && edges[k].from.0 == x && edges[k].to.0 == z),
    ensures
        a.pred()[y].len() == in_degree(edges, n, y),
{
    let s = a.pred()[y];
    assert(s.no_duplicates()) by {
        assert(crate::graph::strictly_sorted(s));
        assert forall|i: int, j: int| 0 <= i < s.len() && 0 <= j < s.len() && i != j implies s[i] != s[j] by {
            if i < j {
                assert(s[i].0 < s[j].0);
            } else {
                assert(s[j].0 < s[i].0);
            }
        }
    }
    s.unique_seq_to_set();
    assert(s.to_set() =~= importers(edges, n, y)) by {
        assert forall|f: FileId| s.to_set().contains(f) implies importers(edges, n, y).contains(f) by {
            let i = choose|i: int| 0 <= i < s.len() && s[i] == f;
            assert(f.0 < n);
            assert(a.pred()[y].contains(FileId(f.0 as u32)));
            assert(a.succ()[f.0 as int].contains(FileId(y as u32)));
        }
        assert forall|f: FileId| importers(edges, n, y).contains(f) implies s.to_set().contains(f) by {
            assert(a.succ()[f.0 as int].contains(FileId(y as u32)));
            assert(a.pred()[y].contains(FileId(f.0 as u32)));
        }
    }
}

/// The file another repository's import of `g` stands for.
pub fn representative_file(g: &Graph) -> (r: Option<FileId>)
    requires
        g.files@.len() <= u32::MAX,
    ensures
        r == representative_of(*g),
{
    let n = g.files.len();
    if n == 0 {
        return None;
    }
    let adj = Adjacency::build(n, g.edges.as_slice());
    let _ = adj.len();
    let mut best: usize = 0;
    let mut best_in = adj.fan_in(g.files[0].id);
    proof {
        let y = g.files@[0].id.0 as int;
        if y < n {
            lemma_fan_in(&adj, g.edges@, n as nat, y);
        } else {
            assert(importers(g.edges@, n as nat, y) =~= Set::<FileId>::empty());
        }
    }
    let mut i: usize = 1;
    while i < n
        invariant
            1 <= i <= n,
            n == g.files@.len(),
            best < i,
            best as int == best_upto(*g, i as int),
            best_in as nat == in_degree(g.edges@, n as nat, g.files@[best as int].id.0 as int),
            adj.succ().len() == n,
            adj_wf(adj.succ(), adj.pred()),
            forall|x: int, z: int| 0 <= x < n && 0 <= z < n ==>
                (#[trigger] adj.succ()[x].contains(FileId(z as u32)) <==> exists|k: int|
                    0 <= k < g.edges@.len() && counted(#[trigger] g.edges@[k], n as nat, Relation::Dependency)
                        && g.edges@[k].from.0 == x && g.edges@[k].to.0 == z),
        decreases n - i,
    {
        let f = &g.files[i];
        let d = adj.fan_in(f.id);
        proof {
            let y = f.id.0 as int;
            if y < n {
                lemma_fan_in(&adj, g.edges@, n as nat, y);
            } else {
                assert(importers(g.edges@, n as nat, y) =~= Set::<FileId>::empty());
            }
        }
        if d > best_in || (d == best_in && !is_before(g.files[best].path.as_str(), f.path.as_str(), false)) {
            best = i;
            best_in = d;
        }
        i += 1;
    }
    Some(g.files[best].id)
}

/// A path prefixed by its repository's name.
pub open spec fn prefixed(name: Seq<char>, path: Seq<char>) -> Seq<char> {
    name + seq!['/'] + path
}

/// How many files the members before `i` have.
pub open spec fn file_base(ms: Seq<Member>, i: int) -> int
    decreases i,
{
    if i <= 0 { 0 } else { file_base(ms, i - 1) + ms[i - 1].graph.files@.len() }
}

/// How many modules the members before `i` have.
pub open spec fn module_base(ms: Seq<Member>, i: int) -> int
    decreases i,
{
    if i <= 0 { 0 } else { module_base(ms, i - 1) + ms[i - 1].graph.modules@.len() }
}

/// A file as plain values.
pub open spec fn file_row(f: FileNode) -> (FileId, Seq<char>, ModuleId, Language, u32, u64, Seq<char>) {
    (f.id, f.path@, f.module, f.language, f.loc, f.bytes, f.content_hash@)
}

/// A module as plain values.
pub open spec fn module_row(m: ModuleNode) -> (ModuleId, Seq<char>, Seq<FileId>) {
    (m.id, m.path@, m.files@)
}

/// A member's file, renumbered after the files before it and prefixed by
/// the member's name.
pub open spec fn shifted_file(name: Seq<char>, fb: int, mb: int, f: FileNode) -> (FileId, Seq<char>, ModuleId, Language, u32, u64, Seq<char>) {
    (FileId((fb + f.id.0) as u32), prefixed(name, f.path@), ModuleId((mb + f.module.0) as u32), f.language, f.loc, f.bytes, f.content_hash@)
}

/// A member's module, renumbered and prefixed likewise.
pub open spec fn shifted_module(name: Seq<char>, fb: int, mb: int, m: ModuleNode) -> (ModuleId, Seq<char>, Seq<FileId>) {
    (ModuleId((mb + m.id.0) as u32), prefixed(name, m.path@), m.files@.map_values(|f: FileId| FileId((fb + f.0) as u32)))
}

/// A member's edge, renumbered.
pub open spec fn shifted_edge(fb: int, e: Edge) -> Edge {
    Edge { from: FileId((fb + e.from.0) as u32), to: FileId((fb + e.to.0) as u32), kind: e.kind }
}

/// The files of the first `i` members, in order.
pub open spec fn merged_files(ms: Seq<Member>, i: int) -> Seq<(FileId, Seq<char>, ModuleId, Language, u32, u64, Seq<char>)>
    decreases i,
{
    if i <= 0 {
        Seq::empty()
    } else {
        let m = ms[i - 1];
        merged_files(ms, i - 1) + m.graph.files@.map_values(|f: FileNode| shifted_file(m.name@, file_base(ms, i - 1), module_base(ms, i - 1), f))
    }
}

/// The modules of the first `i` members, in order.
pub open spec fn merged_modules(ms: Seq<Member>, i: int) -> Seq<(ModuleId, Seq<char>, Seq<FileId>)>
    decreases i,
{
    if i <= 0 {
        Seq::empty()
    } else {
        let m = ms[i - 1];
        merged_modules(ms, i - 1) + m.graph.modules@.map_values(|n: ModuleNode| shifted_module(m.name@, file_base(ms, i - 1), module_base(ms, i - 1), n))
    }
}

/// The edges of the first `i` members, renumbered.
pub open spec fn merged_edges_of(ms: Seq<Member>, i: int) -> Seq<Edge>
    decreases i,
{
    if i <= 0 {
        Seq::empty()
    } else {
        merged_edges_of(ms, i - 1) + ms[i - 1].graph.edges@.map_values(|e: Edge| shifted_edge(file_base(ms, i - 1), e))
    }
}

/// How often `pkg` is among `pkgs`.
pub open spec fn times_listed(pkgs: Seq<String>, pkg: Seq<char>) -> nat
    decreases pkgs.len(),
{
    if pkgs.len() == 0 { 0 } else { times_listed(pkgs.drop_last(), pkg) + if pkgs.last()@ == pkg { 1nat } else { 0nat } }
}

/// Who publishes a package after the members before `i`: nobody yet
/// (`None`), member `j` alone (`Some(Some(j))`), or more than one listing
/// (`Some(None)`).
pub open spec fn publisher_upto(ms: Seq<Member>, pkg: Seq<char>, i: int) -> Option<Option<int>>
    decreases i,
{
    if i <= 0 {
        None
    } else {
        let p = publisher_upto(ms, pkg, i - 1);
        let n = times_listed(ms[i - 1].packages@, pkg);
        if n == 0 {
            p
        } else if p is None && n == 1 {
            Some(Some(i - 1))
        } else {
            Some(None)
        }
    }
}

/// The one member that publishes `pkg`, if exactly one listing names it.
pub open spec fn publisher(ms: Seq<Member>, pkg: Seq<char>) -> Option<int> {
    match publisher_upto(ms, pkg, ms.len() as int) {
        Some(Some(j)) => Some(j),
        _ => None,
    }
}

/// The edge an unresolved import of member `i` becomes: an import of a
/// package another member alone publishes points at that member's
/// representative file.
pub open spec fn cross_edge(ms: Seq<Member>, i: int, u: crate::model::UnresolvedImport) -> Option<Edge> {
    match u.reason {
        UnresolvedReason::External(pkg) => match publisher(ms, pkg@) {
            Some(t) => if t != i {
                match representative_of(ms[t].graph) {
                    Some(entry) => Some(Edge {
                        from: FileId((file_base(ms, i) + u.from.0) as u32),
                        to: FileId((file_base(ms, t) + entry.0) as u32),
                        kind: EdgeKind::Import,
                    }),
                    None => None,
                }
            } else {
                None
            },
            None => None,
        },
        _ => None,
    }
}

/// The cross edges of member `i`'s first `k` unresolved imports.
pub open spec fn member_cross(ms: Seq<Member>, i: int, us: Seq<crate::model::UnresolvedImport>) -> Seq<Edge>
    decreases us.len(),
{
    if us.len() == 0 {
        Seq::empty()
    } else {
        let p = member_cross(ms, i, us.drop_last());
        match cross_edge(ms, i, us.last()) {
            Some(e) => p.push(e),
            None => p,
        }
    }
}

/// The cross edges of the first `i` members, in order.
pub open spec fn cross_edges(ms: Seq<Member>, i: int) -> Seq<Edge>
    decreases i,
{
    if i <= 0 { Seq::empty() } else { cross_edges(ms, i - 1) + member_cross(ms, i - 1, ms[i - 1].graph.unresolved@) }
}

/// Every renumbered id of a member fits a `u32`.
pub open spec fn member_fits(m: Member, fb: int, mb: int) -> bool {
    &&& forall|k: int| 0 <= k < m.graph.files@.len() ==>
        fb + (#[trigger] m.graph.files@[k]).id.0 <= u32::MAX && mb + m.graph.files@[k].module.0 <= u32::MAX
    &&& forall|k: int| 0 <= k < m.graph.modules@.len() ==> mb + (#[trigger] m.graph.modules@[k]).id.0 <= u32::MAX
    &&& forall|k: int, j: int| 0 <= k < m.graph.modules@.len() && 0 <= j < m.graph.modules@[k].files@.len() ==>
        fb + (#[trigger] m.graph.modules@[k].files@[j]).0 <= u32::MAX
    &&& forall|k: int| 0 <= k < m.graph.edges@.len() ==>
        fb + (#[trigger] m.graph.edges@[k]).from.0 <= u32::MAX && fb + m.graph.edges@[k].to.0 <= u32::MAX
    &&& forall|k: int| 0 <= k < m.graph.unresolved@.len() ==> fb + (#[trigger] m.graph.unresolved@[k]).from.0 <= u32::MAX
}

/// The merged numbering fits a `u32` everywhere.
pub open spec fn ids_fit(ms: Seq<Member>) -> bool {
    &&& file_base(ms, ms.len() as int) <= u32::MAX
    &&& module_base(ms, ms.len() as int) <= u32::MAX
    &&& forall|i: int| 0 <= i < ms.len() ==> #[trigger] member_fits(ms[i], file_base(ms, i), module_base(ms, i))
}

proof fn lemma_bases_grow(ms: Seq<Member>, i: int, j: int)
    requires
        0 <= i <= j <= ms.len(),
    ensures
        file_base(ms, i) <= file_base(ms, j),
        module_base(ms, i) <= module_base(ms, j),
        i < j ==> file_base(ms, i) + ms[i].graph.files@.len() <= file_base(ms, j),
    decreases j - i,
{
    if i < j {
        lemma_bases_grow(ms, i, j - 1);
    }
}

proof fn lemma_best_in_range(g: Graph, i: int)
    requires
        1 <= i,
    ensures
        0 <= best_upto(g, i) < i,
    decreases i,
{
    if i > 1 {
        lemma_best_in_range(g, i - 1);
    }
}

fn times_in(pkgs: &Vec<String>, pkg: &str) -> (r: usize)
    ensures
        r as nat == times_listed(pkgs@, pkg@),
{
    let mut c: usize = 0;
    let mut i: usize = 0;
    while i < pkgs.len()
        invariant
            i <= pkgs@.len(),
            c <= i,
            c as nat == times_listed(pkgs@.take(i as int), pkg@),
        decreases pkgs@.len() - i,
    {
        assert(pkgs@.take(i + 1).drop_last() =~= pkgs@.take(i as int));
        if str_eq(pkgs[i].as_str(), pkg) {
            c += 1;
        }
        i += 1;
    }
    assert(pkgs@.take(i as int) =~= pkgs@);
    c
}

fn find_publisher(members: &[Member], pkg: &str) -> (r: Option<usize>)
    ensures
        match r {
            Some(j) => publisher(members@, pkg@) == Some(j as int) && j < members@.len(),
            None => publisher(members@, pkg@) is None,
        },
{
    let mut seen = false;
    let mut many = false;
    let mut who: usize = 0;
    let mut i: usize = 0;
    while i < members.len()
        invariant
            i <= members@.len(),
            publisher_upto(members@, pkg@, i as int) == if !seen { None::<Option<int>> } else if many { Some(None) } else { Some(Some(who as int)) },
            seen && !many ==> who < i,
            !seen ==> !many,
        decreases members@.len() - i,
    {
        let n = times_in(&members[i].packages, pkg);
        assert(n as nat == times_listed(members@[i as int].packages@, pkg@));
        assert(publisher_upto(members@, pkg@, i + 1) == {
            let p = publisher_upto(members@, pkg@, i as int);
            let c = times_listed(members@[i as int].packages@, pkg@);
            if c == 0 { p } else if p is None && c == 1 { Some(Some(i as int)) } else { Some(None) }
        });
        if n > 0 {
            if !seen && n == 1 {
                seen = true;
                who = i;
            } else {
                seen = true;
                many = true;
            }
        }
        i += 1;
    }
    if seen && !many { Some(who) } else { None }
}

/// Merges the graphs of a workspace: each member's files, modules and edges
/// renumbered after the members before it and their paths prefixed by the
/// member's name; an import of a package that exactly one other member
/// publishes becomes an edge to that member's most imported file; the edges
/// sorted by source, target and kind, each once. The merged graph has no
/// root and no unresolved imports or findings of its own.
pub fn merge(members: &[Member]) -> (g: Graph)
    requires
        ids_fit(members@),
    ensures
        g.files@.map_values(|f: FileNode| file_row(f)) == merged_files(members@, members@.len() as int),
        g.modules@.map_values(|m: ModuleNode| module_row(m)) == merged_modules(members@, members@.len() as int),
        g.edges@ == dedup(stable_sorted_edges(merged_edges_of(members@, members@.len() as int) + cross_edges(members@, members@.len() as int))),
        g.root@.len() == 0,
        g.unresolved@.len() == 0,
        g.case_mismatches@.len() == 0,
        g.lsp_repairs@.len() == 0,
        g.lsp_disagreements@.len() == 0,
        g.alias_audit@.len() == 0,
        g.edge_sites@.len() == 0,
{
    let ghost ms = members@;
    let total = members.len();
    let mut files: Vec<FileNode> = Vec::new();
    let mut modules: Vec<ModuleNode> = Vec::new();
    let mut edges: Vec<Edge> = Vec::new();
    let mut bases: Vec<usize> = Vec::new();
    let mut fb: usize = 0;
    let mut mb: usize = 0;
    let mut i: usize = 0;
    assert(files@.map_values(|f: FileNode| file_row(f)) =~= Seq::<(FileId, Seq<char>, ModuleId, Language, u32, u64, Seq<char>)>::empty());
    assert(modules@.map_values(|m: ModuleNode| module_row(m)) =~= Seq::<(ModuleId, Seq<char>, Seq<FileId>)>::empty());
    while i < total
        invariant
            total == ms.len(),
            ms == members@,
            i <= total,
            ids_fit(ms),
            fb as int == file_base(ms, i as int),
            mb as int == module_base(ms, i as int),
            bases@.len() == i,
            forall|k: int| 0 <= k < i ==> (#[trigger] bases@[k]) as int == file_base(ms, k),
            files@.map_values(|f: FileNode| file_row(f)) == merged_files(ms, i as int),
            modules@.map_values(|m: ModuleNode| module_row(m)) == merged_modules(ms, i as int),
            edges@ == merged_edges_of(ms, i as int),
        decreases total - i,
    {
        proof {
            lemma_bases_grow(ms, i as int, total as int);
            lemma_bases_grow(ms, i + 1, total as int);
            assert(member_fits(ms[i as int], file_base(ms, i as int), module_base(ms, i as int)));
        }
        bases.push(fb);
        let m = &members[i];
        let name = m.name.as_str();
        let prefix = concat(name, "/");
        proof { reveal_strlit("/"); }
        let fbu = fb as u32;
        let mbu = mb as u32;
        let ghost fstart = files@.map_values(|f: FileNode| file_row(f));
        let mut k: usize = 0;
        while k < m.graph.files.len()
            invariant
                k <= m.graph.files@.len(),
                fbu as int == file_base(ms, i as int),
                mbu as int == module_base(ms, i as int),
                member_fits(*m, fbu as int, mbu as int),
                prefix@ == m.name@ + seq!['/'],
                files@.map_values(|f: FileNode| file_row(f))
                    == fstart + m.graph.files@.take(k as int).map_values(|f: FileNode| shifted_file(m.name@, fbu as int, mbu as int, f)),
            decreases m.graph.files@.len() - k,
        {
            let f = &m.graph.files[k];
            assert(m.graph.files@[k as int] == *f);
            assert(fbu + f.id.0 <= u32::MAX && mbu + f.module.0 <= u32::MAX);
            let node = FileNode {
                id: FileId(fbu + f.id.0),
                path: concat(prefix.as_str(), f.path.as_str()),
                module: ModuleId(mbu + f.module.0),
                language: f.language,
                loc: f.loc,
                bytes: f.bytes,
                content_hash: owned(f.content_hash.as_str()),
            };
            let ghost before = files@.map_values(|f: FileNode| file_row(f));
            files.push(node);
            assert(files@.map_values(|f: FileNode| file_row(f)) =~= before.push(file_row(node)));
            assert(m.graph.files@.take(k + 1).map_values(|f: FileNode| shifted_file(m.name@, fbu as int, mbu as int, f))
                =~= m.graph.files@.take(k as int).map_values(|f: FileNode| shifted_file(m.name@, fbu as int, mbu as int, f))
                    .push(shifted_file(m.name@, fbu as int, mbu as int, *f)));
            k += 1;
        }
        assert(m.graph.files@.take(k as int) =~= m.graph.files@);
        let ghost mstart = modules@.map_values(|m: ModuleNode| module_row(m));
        let mut k: usize = 0;
        while k < m.graph.modules.len()
            invariant
                k <= m.graph.modules@.len(),
                fbu as int == file_base(ms, i as int),
                mbu as int == module_base(ms, i as int),
                member_fits(*m, fbu as int, mbu as int),
                prefix@ == m.name@ + seq!['/'],
                modules@.map_values(|m: ModuleNode| module_row(m))
                    == mstart + m.graph.modules@.take(k as int).map_values(|n: ModuleNode| shifted_module(m.name@, fbu as int, mbu as int, n)),
            decreases m.graph.modules@.len() - k,
        {
            let n = &m.graph.modules[k];
            let mut ids: Vec<FileId> = Vec::new();
            let mut j: usize = 0;
            while j < n.files.len()
                invariant
                    j <= n.files@.len(),
                    member_fits(*m, fbu as int, mbu as int),
                    n == &m.graph.modules@[k as int],
                    k < m.graph.modules@.len(),
                    ids@ == n.files@.take(j as int).map_values(|f: FileId| FileId((fbu + f.0) as u32)),
                decreases n.files@.len() - j,
            {
                assert(m.graph.modules@[k as int].files@[j as int] == n.files@[j as int]);
                assert(fbu + m.graph.modules@[k as int].files@[j as int].0 <= u32::MAX);
                ids.push(FileId(fbu + n.files[j].0));
                assert(n.files@.take(j + 1).map_values(|f: FileId| FileId((fbu + f.0) as u32))
                    =~= n.files@.take(j as int).map_values(|f: FileId| FileId((fbu + f.0) as u32)).push(FileId((fbu + n.files@[j as int].0) as u32)));
                j += 1;
            }
            assert(n.files@.take(j as int) =~= n.files@);
            assert(m.graph.modules@[k as int] == *n);
            assert(mbu + n.id.0 <= u32::MAX);
            let node = ModuleNode { id: ModuleId(mbu + n.id.0), path: concat(prefix.as_str(), n.path.as_str()), files: ids };
            let ghost before = modules@.map_values(|m: ModuleNode| module_row(m));
            modules.push(node);
            assert(modules@.map_values(|m: ModuleNode| module_row(m)) =~= before.push(module_row(node)));
            assert(m.graph.modules@.take(k + 1).map_values(|n: ModuleNode| shifted_module(m.name@, fbu as int, mbu as int, n))
                =~= m.graph.modules@.take(k as int).map_values(|n: ModuleNode| shifted_module(m.name@, fbu as int, mbu as int, n))
                    .push(shifted_module(m.name@, fbu as int, mbu as int, *n)));
            k += 1;
        }
        assert(m.graph.modules@.take(k as int) =~= m.graph.modules@);
        let ghost estart = edges@;
        let mut k: usize = 0;
        while k < m.graph.edges.len()
            invariant
                k <= m.graph.edges@.len(),
                fbu as int == file_base(ms, i as int),
                member_fits(*m, fbu as int, mbu as int),
                edges@ == estart + m.graph.edges@.take(k as int).map_values(|e: Edge| shifted_edge(fbu as int, e)),
            decreases m.graph.edges@.len() - k,
        {
            let e = m.graph.edges[k];
            assert(m.graph.edges@[k as int] == e);
            assert(fbu + e.from.0 <= u32::MAX && fbu + e.to.0 <= u32::MAX);
            edges.push(Edge { from: FileId(fbu + e.from.0), to: FileId(fbu + e.to.0), kind: e.kind });
            assert(m.graph.edges@.take(k + 1).map_values(|e: Edge| shifted_edge(fbu as int, e))
                =~= m.graph.edges@.take(k as int).map_values(|e: Edge| shifted_edge(fbu as int, e)).push(shifted_edge(fbu as int, e)));
            k += 1;
        }
        assert(m.graph.edges@.take(k as int) =~= m.graph.edges@);
        fb = fb + m.graph.files.len();
        mb = mb + m.graph.modules.len();
        i += 1;
    }
    let ghost nm = ms.len() as int;
    let mut c: usize = 0;
    let ghost mine = edges@;
    assert(cross_edges(ms, 0) =~= Seq::<Edge>::empty());
    assert(mine + cross_edges(ms, 0) =~= mine);
    while c < total
        invariant
            total == ms.len(),
            ms == members@,
            c <= total,
            ids_fit(ms),
            bases@.len() == total,
            forall|k: int| 0 <= k < total ==> (#[trigger] bases@[k]) as int == file_base(ms, k),
            mine == merged_edges_of(ms, total as int),
            edges@ == mine + cross_edges(ms, c as int),
        decreases total - c,
    {
        let us = &members[c].graph.unresolved;
        let ghost start = edges@;
        proof {
            assert(member_fits(ms[c as int], file_base(ms, c as int), module_base(ms, c as int)));
        }
        let mut k: usize = 0;
        assert(us@.take(0) =~= Seq::<crate::model::UnresolvedImport>::empty());
        while k < us.len()
            invariant
                k <= us@.len(),
                c < total,
                total == ms.len(),
                ms == members@,
                ids_fit(ms),
                us == &ms[c as int].graph.unresolved,
                member_fits(ms[c as int], file_base(ms, c as int), module_base(ms, c as int)),
                bases@.len() == total,
                forall|q: int| 0 <= q < total ==> (#[trigger] bases@[q]) as int == file_base(ms, q),
                edges@ == start + member_cross(ms, c as int, us@.take(k as int)),
            decreases us@.len() - k,
        {
            assert(us@.take(k + 1).drop_last() =~= us@.take(k as int));
            assert(us@.take(k + 1).last() == us@[k as int]);
            let u = &us[k];
            match &u.reason {
                UnresolvedReason::External(pkg) => {
                    match find_publisher(members, pkg.as_str()) {
                        Some(t) => {
                            if t != c {
                                proof {
                                    lemma_bases_grow(ms, t as int, total as int);
                                    lemma_bases_grow(ms, 0, t as int);
                                    assert(file_base(ms, total as int) <= u32::MAX);
                                    assert(file_base(ms, t as int) + ms[t as int].graph.files@.len() <= u32::MAX);
                                    assert(members@[t as int].graph.files@.len() <= u32::MAX);
                                    assert(member_fits(ms[t as int], file_base(ms, t as int), module_base(ms, t as int)));
                                }
                                match representative_file(&members[t].graph) {
                                    Some(entry) => {
                                        proof {
                                            let tg = ms[t as int].graph;
                                            lemma_best_in_range(tg, tg.files@.len() as int);
                                            let b = best_upto(tg, tg.files@.len() as int);
                                            assert(entry == tg.files@[b].id);
                                        }
                                        assert(bases@[c as int] + u.from.0 <= u32::MAX);
                                        assert(bases@[t as int] + entry.0 <= u32::MAX);
                                        let from = (bases[c] as u32) + u.from.0;
                                        let to = (bases[t] as u32) + entry.0;
                                        edges.push(Edge { from: FileId(from), to: FileId(to), kind: EdgeKind::Import });
                                    },
                                    None => {},
                                }
                            }
                        },
                        None => {},
                    }
                },
                _ => {},
            }
            k += 1;
        }
        assert(us@.take(k as int) =~= us@);
        assert(mine + cross_edges(ms, c + 1) =~= mine + cross_edges(ms, c as int) + member_cross(ms, c as int, us@));
        c += 1;
    }
    let sorted = sorted_edges(edges);
    Graph {
        root: String::new(),
        files,
        modules,
        edges: sorted,
        unresolved: Vec::new(),
        case_mismatches: Vec::new(),
        lsp_repairs: Vec::new(),
        lsp_disagreements: Vec::new(),
        alias_audit: Vec::new(),
        edge_sites: Vec::new(),
    }
}

/// The edges sorted by source, target and kind, stably.
pub open spec fn stable_sorted_edges(s: Seq<Edge>) -> Seq<Edge> {
    crate::order::stable_sorted(s, |a: Edge, b: Edge| edge_before(a, b))
}

/// `needle` occurs in `s` at `i`.
pub open spec fn occurs_at(s: Seq<char>, needle: Seq<char>, i: int) -> bool {
    0 <= i && i + needle.len() <= s.len() && s.subrange(i, i + needle.len()) == needle
}

/// Where `needle` first occurs in `s` at or after `i`.
pub open spec fn find_from(s: Seq<char>, needle: Seq<char>, i: int) -> Option<int>
    decreases s.len() + 1 - i,
{
    if i < 0 || i + needle.len() > s.len() {
        None
    } else if occurs_at(s, needle, i) {
        Some(i)
    } else {
        find_from(s, needle, i + 1)
    }
}

/// The value of the first `"key"` in a JSON text, read simply: after the
/// key, past the next `:`, the text between the next two double quotes.
pub open spec fn json_field(text: Seq<char>, key: Seq<char>) -> Option<Seq<char>> {
    let needle = seq!['"'] + key + seq!['"'];
    match find_from(text, needle, 0) {
        None => None,
        Some(at) => {
            let rest = text.skip(at + needle.len());
            match find_from(rest, seq![':'], 0) {
                None => None,
                Some(colon) => {
                    let after = rest.skip(colon + 1);
                    match find_from(after, seq!['"'], 0) {
                        None => None,
                        Some(open) => {
                            let tail = after.skip(open + 1);
                            match find_from(tail, seq!['"'], 0) {
                                None => None,
                                Some(close) => Some(tail.take(close)),
                            }
                        },
                    }
                },
            }
        },
    }
}

/// A crate name as written and, where it has hyphens, with underscores.
pub open spec fn crate_names(v: Seq<char>) -> Seq<Seq<char>> {
    let u = v.map_values(|c: char| if c == '-' { '_' } else { c });
    if v.len() == 0 { Seq::empty() } else if u != v { seq![v, u] } else { seq![v] }
}

/// The value after `name` in a `[package]` line: `=` and spaces skipped,
/// trimmed, quotes removed.
pub open spec fn name_value(rest: Seq<char>) -> Seq<char> {
    crate::text::strip_trailing(crate::text::strip_leading(
        crate::text::strip_trailing(crate::text::strip_leading(crate::text::trim(crate::text::strip_leading2(rest, '=', ' ')), '"'), '"'),
        '\''), '\'')
}

/// The names the lines of a `Cargo.toml` publish: the first line starting
/// with `name` inside the `[package]` table.
pub open spec fn cargo_names(lines: Seq<Seq<char>>, in_package: bool) -> Seq<Seq<char>>
    decreases lines.len(),
{
    if lines.len() == 0 {
        Seq::empty()
    } else {
        let l = crate::text::trim(lines[0]);
        if l.len() > 0 && l[0] == '[' {
            cargo_names(lines.drop_first(), l == "[package]"@)
        } else if !in_package {
            cargo_names(lines.drop_first(), false)
        } else if crate::text::is_prefix("name"@, l) {
            crate_names(name_value(l.skip(4)))
        } else {
            cargo_names(lines.drop_first(), true)
        }
    }
}

fn find_sub(s: &[char], needle: &[char]) -> (r: Option<usize>)
    ensures
        match r {
            Some(i) => find_from(s@, needle@, 0) == Some(i as int) && i + needle@.len() <= s@.len(),
            None => find_from(s@, needle@, 0) is None,
        },
{
    let n = s.len();
    let m = needle.len();
    if m > n {
        return None;
    }
    let mut i: usize = 0;
    while i <= n - m
        invariant
            n == s@.len(),
            m == needle@.len(),
            m <= n,
            i <= n - m + 1,
            find_from(s@, needle@, 0) == find_from(s@, needle@, i as int),
        decreases n - m + 1 - i,
    {
        let mut k: usize = 0;
        let mut same = true;
        while k < m
            invariant
                k <= m,
                i + m <= n,
                n == s@.len(),
                m == needle@.len(),
                same <==> forall|q: int| 0 <= q < k ==> s@[i + q] == needle@[q],
            decreases m - k,
        {
            if s[i + k] != needle[k] {
                same = false;
            }
            k += 1;
        }
        if same {
            assert(s@.subrange(i as int, i + m) =~= needle@);
            return Some(i);
        }
        assert(!occurs_at(s@, needle@, i as int)) by {
            if s@.subrange(i as int, i + m) == needle@ {
                assert forall|q: int| 0 <= q < m implies s@[i + q] == needle@[q] by {
                    assert(s@.subrange(i as int, i + m)[q] == s@[i + q]);
                }
            }
        }
        i += 1;
    }
    None
}

fn skip_chars(s: &[char], k: usize) -> (r: Vec<char>)
    requires
        k <= s@.len(),
    ensures
        r@ == s@.skip(k as int),
{
    let v = vstd::slice::slice_to_vec(vstd::slice::slice_subrange(s, k, s.len()));
    assert(s@.subrange(k as int, s@.len() as int) =~= s@.skip(k as int));
    v
}

/// The value of the first `"key"` in a JSON text, read as `json_field` says.
pub fn json_string_field(text: &str, key: &str) -> (r: Option<String>)
    ensures
        match r {
            Some(v) => json_field(text@, key@) == Some(v@),
            None => json_field(text@, key@) is None,
        },
{
    let cs = chars_of_str(text);
    let mut needle: Vec<char> = Vec::new();
    needle.push('"');
    let kc = chars_of_str(key);
    let mut j: usize = 0;
    while j < kc.len()
        invariant
            j <= kc@.len(),
            needle@ == seq!['"'] + kc@.take(j as int),
        decreases kc@.len() - j,
    {
        needle.push(kc[j]);
        assert(kc@.take(j + 1) =~= kc@.take(j as int).push(kc@[j as int]));
        j += 1;
    }
    assert(kc@.take(j as int) =~= kc@);
    needle.push('"');
    assert(needle@ =~= seq!['"'] + key@ + seq!['"']);
    let colon_mark = [':'];
    let quote_mark = ['"'];
    assert(colon_mark@ =~= seq![':']);
    assert(quote_mark@ =~= seq!['"']);
    let n = cs.len();
    let m = needle.len();
    let at = match find_sub(cs.as_slice(), needle.as_slice()) {
        Some(a) => a,
        None => {
            return None;
        },
    };
    assert(at + m <= n);
    let rest = skip_chars(cs.as_slice(), at + m);
    let colon = match find_sub(rest.as_slice(), &colon_mark) {
        Some(c) => c,
        None => {
            return None;
        },
    };
    let after = skip_chars(rest.as_slice(), colon + 1);
    let open = match find_sub(after.as_slice(), &quote_mark) {
        Some(o) => o,
        None => {
            return None;
        },
    };
    let tail = skip_chars(after.as_slice(), open + 1);
    let close = match find_sub(tail.as_slice(), &quote_mark) {
        Some(c) => c,
        None => {
            return None;
        },
    };
    let v = vstd::slice::slice_to_vec(vstd::slice::slice_subrange(tail.as_slice(), 0, close));
    assert(tail@.subrange(0, close as int) =~= tail@.take(close as int));
    Some(crate::text::string_of(v.as_slice()))
}

fn chars_of_str(s: &str) -> (r: Vec<char>)
    ensures
        r@ == s@,
{
    crate::text::chars_of(s)
}

fn strip_leading_of(s: &[char], a: char, b: char) -> (r: Vec<char>)
    ensures
        r@ == crate::text::strip_leading2(s@, a, b),
{
    let mut i: usize = 0;
    assert(s@.skip(0) =~= s@);
    while i < s.len() && (s[i] == a || s[i] == b)
        invariant
            i <= s@.len(),
            crate::text::strip_leading2(s@, a, b) == crate::text::strip_leading2(s@.skip(i as int), a, b),
        decreases s@.len() - i,
    {
        assert(s@.skip(i as int).drop_first() =~= s@.skip(i + 1));
        i += 1;
    }
    skip_chars(s, i)
}

fn crate_names_of(v: &Vec<char>) -> (r: Vec<String>)
    ensures
        r@.map_values(|x: String| x@) == crate_names(v@),
{
    let mut out: Vec<String> = Vec::new();
    if v.len() == 0 {
        assert(out@.map_values(|x: String| x@) =~= crate_names(v@));
        return out;
    }
    let u = crate::text::replace_char(v.as_slice(), '-', '_');
    out.push(crate::text::string_of(v.as_slice()));
    if !crate::text::chars_eq(u.as_slice(), v.as_slice()) {
        out.push(crate::text::string_of(u.as_slice()));
    }
    assert(out@.map_values(|x: String| x@) =~= crate_names(v@));
    out
}

/// The names a `Cargo.toml` publishes.
fn cargo_package_names(text: &str) -> (r: Vec<String>)
    ensures
        r@.map_values(|x: String| x@) == cargo_names(crate::lsp::source_lines(text@), false),
{
    let lines = crate::lsp::lines_of(text);
    let ghost ls = lines@.map_values(|l: Vec<char>| l@);
    let mut in_package = false;
    let mut i: usize = 0;
    let package = ['[', 'p', 'a', 'c', 'k', 'a', 'g', 'e', ']'];
    let name = ['n', 'a', 'm', 'e'];
    proof {
        reveal_strlit("[package]");
        reveal_strlit("name");
    }
    assert(package@ =~= "[package]"@);
    assert(name@ =~= "name"@);
    assert(ls.skip(0) =~= ls);
    while i < lines.len()
        invariant
            i <= ls.len(),
            ls == lines@.map_values(|l: Vec<char>| l@),
            ls == crate::lsp::source_lines(text@),
            package@ == "[package]"@,
            name@ == "name"@,
            cargo_names(ls, false) == cargo_names(ls.skip(i as int), in_package),
        decreases ls.len() - i,
    {
        assert(ls.skip(i as int)[0] == lines@[i as int]@);
        assert(ls.skip(i as int).drop_first() =~= ls.skip(i + 1));
        let l = crate::text::trim_chars(lines[i].as_slice());
        if l.len() > 0 && l[0] == '[' {
            in_package = crate::text::chars_eq(l.as_slice(), &package);
        } else if !in_package {
        } else if crate::text::starts_with(l.as_slice(), &name) {
            let rest = skip_chars(l.as_slice(), 4);
            let a = strip_leading_of(rest.as_slice(), '=', ' ');
            let b = crate::text::trim_chars(a.as_slice());
            let c = crate::text::strip_both(b.as_slice(), '"');
            let d = crate::text::strip_both(c.as_slice(), '\'');
            assert(d@ == name_value(l@.skip(4)));
            assert(l@ == crate::text::trim(ls.skip(i as int)[0]));
            assert(cargo_names(ls.skip(i as int), true) == crate_names(name_value(l@.skip(4))));
            assert(in_package);
            assert(cargo_names(ls, false) == crate_names(name_value(l@.skip(4))));
            assert(ls == crate::lsp::source_lines(text@));
            let r = crate_names_of(&d);
            return r;
        }
        i += 1;
    }
    let out: Vec<String> = Vec::new();
    assert(ls.skip(i as int) =~= Seq::<Seq<char>>::empty());
    assert(out@.map_values(|x: String| x@) =~= Seq::<Seq<char>>::empty());
    out
}

/// The package names a manifest publishes: the `name` of a `package.json`,
/// or the crate name (and its underscored form) of a `Cargo.toml`.
pub open spec fn manifest_packages(rel: Seq<char>, text: Seq<char>) -> Seq<Seq<char>> {
    let file = crate::text::last_piece(rel, '/');
    if file == "package.json"@ {
        match json_field(text, "name"@) {
            Some(v) => seq![v],
            None => Seq::empty(),
        }
    } else if file == "Cargo.toml"@ {
        cargo_names(crate::lsp::source_lines(text), false)
    } else {
        Seq::empty()
    }
}

/// Every package the manifests publish.
pub open spec fn all_packages(manifests: Seq<(String, String)>) -> Set<Seq<char>>
    decreases manifests.len(),
{
    if manifests.len() == 0 {
        Set::empty()
    } else {
        all_packages(manifests.drop_last()).union(manifest_packages(manifests.last().0@, manifests.last().1@).to_set())
    }
}

fn manifest_packages_of(rel: &str, text: &str) -> (r: Vec<String>)
    ensures
        r@.map_values(|x: String| x@) == manifest_packages(rel@, text@),
{
    let rc = crate::text::chars_of(rel);
    let n = rc.len();
    proof { crate::text::lemma_last_index_of(rel@, '/'); }
    let file_chars = match crate::text::rfind_char(rc.as_slice(), '/') {
        Some(i) => skip_chars(rc.as_slice(), i + 1),
        None => rc.clone(),
    };
    assert(file_chars@ == crate::text::last_piece(rel@, '/')) by {
        assert(rel@.skip(0) =~= rel@);
    }
    let file = crate::text::string_of(file_chars.as_slice());
    if str_eq(file.as_str(), "package.json") {
        match json_string_field(text, "name") {
            Some(v) => {
                let mut out: Vec<String> = Vec::new();
                out.push(v);
                assert(out@.map_values(|x: String| x@) =~= manifest_packages(rel@, text@));
                out
            },
            None => {
                let out: Vec<String> = Vec::new();
                assert(out@.map_values(|x: String| x@) =~= manifest_packages(rel@, text@));
                out
            },
        }
    } else if str_eq(file.as_str(), "Cargo.toml") {
        cargo_package_names(text)
    } else {
        let out: Vec<String> = Vec::new();
        assert(out@.map_values(|x: String| x@) =~= manifest_packages(rel@, text@));
        out
    }
}

/// The package names a repository publishes, sorted, each once, from its
/// manifests given as (repository-relative path, text).
pub fn published_from(manifests: &[(String, String)]) -> (r: Vec<String>)
    ensures
        crate::order::strictly_sorted(r@.map_values(|x: String| x@), false),
        r@.map_values(|x: String| x@).to_set() == all_packages(manifests@),
{
    let mut out: Vec<String> = Vec::new();
    let mut i: usize = 0;
    assert(manifests@.take(0) =~= Seq::<(String, String)>::empty());
    assert(out@.map_values(|x: String| x@).to_set() =~= Set::<Seq<char>>::empty());
    assert(out@.map_values(|x: String| x@) =~= Seq::<Seq<char>>::empty());
    while i < manifests.len()
        invariant
            i <= manifests@.len(),
            crate::order::strictly_sorted(out@.map_values(|x: String| x@), false),
            out@.map_values(|x: String| x@).to_set() == all_packages(manifests@.take(i as int)),
        decreases manifests@.len() - i,
    {
        assert(manifests@.take(i + 1).drop_last() =~= manifests@.take(i as int));
        assert(manifests@.take(i + 1).last() == manifests@[i as int]);
        let found = manifest_packages_of(manifests[i].0.as_str(), manifests[i].1.as_str());
        let ghost fv = found@.map_values(|x: String| x@);
        let ghost start = out@.map_values(|x: String| x@).to_set();
        let mut k: usize = 0;
        assert(start.union(fv.take(0).to_set()) =~= start);
        while k < found.len()
            invariant
                k <= fv.len(),
                fv == found@.map_values(|x: String| x@),
                crate::order::strictly_sorted(out@.map_values(|x: String| x@), false),
                out@.map_values(|x: String| x@).to_set() == start.union(fv.take(k as int).to_set()),
            decreases fv.len() - k,
        {
            crate::order::insert_sorted(&mut out, owned(found[k].as_str()), false);
            assert(fv.take(k + 1) =~= fv.take(k as int).push(fv[k as int]));
            proof { crate::text::lemma_push_to_set(fv.take(k as int), fv[k as int]); }
            assert(start.union(fv.take(k + 1).to_set()) =~= start.union(fv.take(k as int).to_set()).insert(fv[k as int]));
            k += 1;
        }
        assert(fv.take(k as int) =~= fv);
        i += 1;
    }
    assert(manifests@.take(i as int) =~= manifests@);
    out
}

} // verus!
