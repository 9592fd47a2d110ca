//! The file dependency graph: adjacency, cycles (tangles), reachability and ordering.
use vstd::prelude::*;
use crate::model::{Edge, EdgeKind, FileId, Graph, ModuleId};

verus! {

/// Which edges count when the adjacency is built.
#[derive(Debug, Clone, Copy, PartialEq, Eq, Structural)]
pub enum Relation {
    /// Imports only: containment (`mod` declarations) is left out.
    Dependency,
    /// Imports and containment: the structure of modules as well as their
    /// dependencies.
    Structure,
}

/// Whether an edge takes part in an adjacency of `n` nodes for `rel`:
/// co-change never does, containment only for `Structure`, and both ends must be in range.
pub open spec fn counted(e: Edge, n: nat, rel: Relation) -> bool {
    &&& e.kind != EdgeKind::CoChange
    &&& !(e.kind == EdgeKind::Contains && rel == Relation::Dependency)
    &&& e.from.0 < n
    &&& e.to.0 < n
}

/// A list of ids in strictly increasing order.
pub open spec fn strictly_sorted(s: Seq<FileId>) -> bool {
    forall|i: int, j: int| 0 <= i < j < s.len() ==> s[i].0 < s[j].0
}

/// The successor (`out`) and predecessor (`inc`) lists of an adjacency are
/// consistent: every id is in range, every list is strictly sorted, and each
/// edge is recorded in both directions.
pub open spec fn adj_wf(out: Seq<Seq<FileId>>, inc: Seq<Seq<FileId>>) -> bool {
    &&& out.len() == inc.len()
    &&& out.len() <= u32::MAX
    &&& forall|x: int| 0 <= x < out.len() ==> #[trigger] strictly_sorted(out[x])
    &&& forall|x: int| 0 <= x < inc.len() ==> #[trigger] strictly_sorted(inc[x])
    &&& forall|x: int, i: int| 0 <= x < out.len() && 0 <= i < out[x].len() ==> (#[trigger] out[x][i]).0 < out.len()
    &&& forall|x: int, i: int| 0 <= x < inc.len() && 0 <= i < inc[x].len() ==> (#[trigger] inc[x][i]).0 < inc.len()
    &&& forall|x: int, y: int| 0 <= x < out.len() && 0 <= y < out.len() ==>
        (#[trigger] out[x].contains(FileId(y as u32)) <==> #[trigger] inc[y].contains(FileId(x as u32)))
}

/// There is an edge `a -> b` in the successor lists `s`.
pub open spec fn has_edge(s: Seq<Seq<FileId>>, a: FileId, b: FileId) -> bool {
    a.0 < s.len() && s[a.0 as int].contains(b)
}

/// Successor and predecessor lists of the files, built from the edges.
pub struct Adjacency {
    out: Vec<Vec<FileId>>,
    inc: Vec<Vec<FileId>>,
}

impl Adjacency {
    /// The successor list of each node.
    pub closed spec fn succ(&self) -> Seq<Seq<FileId>> {
        self.out@.map_values(|v: Vec<FileId>| v@)
    }

    /// The predecessor list of each node.
    pub closed spec fn pred(&self) -> Seq<Seq<FileId>> {
        self.inc@.map_values(|v: Vec<FileId>| v@)
    }

    #[verifier::type_invariant]
    closed spec fn inv(self) -> bool {
        adj_wf(self.succ(), self.pred())
    }

    /// The import adjacency of `node_count` files: as `build_for` with
    /// `Relation::Dependency`.
    pub fn build(node_count: usize, edges: &[Edge]) -> (a: Adjacency)
        requires
            node_count <= u32::MAX,
        ensures
            a.succ().len() == node_count,
            forall|x: int, y: int| 0 <= x < node_count && 0 <= y < node_count ==>
                (#[trigger] a.succ()[x].contains(FileId(y as u32)) <==> exists|k: int|
                    0 <= k < edges@.len() && counted(#[trigger] edges@[k], node_count as nat, Relation::Dependency)
                        && edges@[k].from.0 == x && edges@[k].to.0 == y),
            adj_wf(a.succ(), a.pred()),
            forall|x: int, y: int| 0 <= x < node_count && 0 <= y < node_count ==>
                (#[trigger] a.pred()[y].contains(FileId(x as u32)) <==> exists|k: int|
                    0 <= k < edges@.len() && counted(#[trigger] edges@[k], node_count as nat, Relation::Dependency)
                        && edges@[k].from.0 == x && edges@[k].to.0 == y),
    {
        Self::build_for(node_count, edges, Relation::Dependency)
    }

    /// The adjacency of `node_count` files under `relation`: each file's
    /// dependencies and dependents are strictly ascending lists of ids in
    /// range, mirror one another, and hold exactly the ends of the counted
    /// edges (co-change never, containment only for `Structure`, both ends
    /// below `node_count`).
    pub fn build_for(node_count: usize, edges: &[Edge], relation: Relation) -> (a: Adjacency)
        requires
            node_count <= u32::MAX,
        ensures
            a.succ().len() == node_count,
            forall|x: int, y: int| 0 <= x < node_count && 0 <= y < node_count ==>
                (#[trigger] a.succ()[x].contains(FileId(y as u32)) <==> exists|k: int|
                    0 <= k < edges@.len() && counted(#[trigger] edges@[k], node_count as nat, relation)
                        && edges@[k].from.0 == x && edges@[k].to.0 == y),
            adj_wf(a.succ(), a.pred()),
            forall|x: int, y: int| 0 <= x < node_count && 0 <= y < node_count ==>
                (#[trigger] a.pred()[y].contains(FileId(x as u32)) <==> exists|k: int|
                    0 <= k < edges@.len() && counted(#[trigger] edges@[k], node_count as nat, relation)
                        && edges@[k].from.0 == x && edges@[k].to.0 == y),
    {
        let mut out: Vec<Vec<FileId>> = Vec::new();
        let mut inc: Vec<Vec<FileId>> = Vec::new();
        let mut i: usize = 0;
        while i < node_count
            invariant
                i <= node_count,
                out@.len() == i,
                inc@.len() == i,
                forall|x: int| 0 <= x < i ==> (#[trigger] out@[x])@.len() == 0,
                forall|x: int| 0 <= x < i ==> (#[trigger] inc@[x])@.len() == 0,
            decreases node_count - i,
        {
            out.push(Vec::new());
            inc.push(Vec::new());
            i += 1;
        }
        let n = node_count;
        let ghost nn = node_count as nat;
        let mut k: usize = 0;
        while k < edges.len()
            invariant
                n == node_count,
                nn == n as nat,
                n <= u32::MAX,
                k <= edges@.len(),
                out@.len() == n,
                inc@.len() == n,
                forall|x: int| 0 <= x < n ==> #[trigger] strictly_sorted(out@[x]@),
                forall|x: int| 0 <= x < n ==> #[trigger] strictly_sorted(inc@[x]@),
                forall|x: int, j: int| 0 <= x < n && 0 <= j < out@[x]@.len() ==> (#[trigger] out@[x]@[j]).0 < n,
                forall|x: int, j: int| 0 <= x < n && 0 <= j < inc@[x]@.len() ==> (#[trigger] inc@[x]@[j]).0 < n,
                forall|x: int, y: int| 0 <= x < n && 0 <= y < n ==>
                    (#[trigger] out@[x]@.contains(FileId(y as u32)) <==> exists|m: int|
                        0 <= m < k && counted(#[trigger] edges@[m], nn, relation)
                            && edges@[m].from.0 == x && edges@[m].to.0 == y),
                forall|x: int, y: int| 0 <= x < n && 0 <= y < n ==>
                    (#[trigger] inc@[y]@.contains(FileId(x as u32)) <==> exists|m: int|
                        0 <= m < k && counted(#[trigger] edges@[m], nn, relation)
                            && edges@[m].from.0 == x && edges@[m].to.0 == y),
            decreases edges@.len() - k,
        {
            let e = edges[k];
            let skip = e.kind == EdgeKind::CoChange
                || (e.kind == EdgeKind::Contains && relation == Relation::Dependency)
                || (e.from.0 as usize) >= n || (e.to.0 as usize) >= n;
            let ghost old_out = out@;
            let ghost old_inc = inc@;
            if !skip {
                let f = e.from.0 as usize;
                let t = e.to.0 as usize;
                let mut row: Vec<FileId> = Vec::new();
                std::mem::swap(&mut row, &mut out[f]);
                insert_sorted(&mut row, e.to);
                out.set(f, row);
                let mut col: Vec<FileId> = Vec::new();
                std::mem::swap(&mut col, &mut inc[t]);
                insert_sorted(&mut col, e.from);
                inc.set(t, col);
            }
            k += 1;
            assert forall|x: int, j: int| 0 <= x < n && 0 <= j < out@[x]@.len() implies (#[trigger] out@[x]@[j]).0 < n by {
                assert(out@[x]@.contains(out@[x]@[j]));
                if !old_out[x]@.contains(out@[x]@[j]) {
                } else {
                    let jj = choose|jj: int| 0 <= jj < old_out[x]@.len() && old_out[x]@[jj] == out@[x]@[j];
                    assert(old_out[x]@[jj].0 < n);
                }
            }
            assert forall|x: int, j: int| 0 <= x < n && 0 <= j < inc@[x]@.len() implies (#[trigger] inc@[x]@[j]).0 < n by {
                assert(inc@[x]@.contains(inc@[x]@[j]));
                if !old_inc[x]@.contains(inc@[x]@[j]) {
                } else {
                    let jj = choose|jj: int| 0 <= jj < old_inc[x]@.len() && old_inc[x]@[jj] == inc@[x]@[j];
                    assert(old_inc[x]@[jj].0 < n);
                }
            }
            assert forall|x: int, y: int| 0 <= x < n && 0 <= y < n implies
                (#[trigger] out@[x]@.contains(FileId(y as u32)) <==> exists|m: int|
                    0 <= m < k && counted(#[trigger] edges@[m], nn, relation)
                        && edges@[m].from.0 == x && edges@[m].to.0 == y) by {
                if out@[x]@.contains(FileId(y as u32)) {
                    if !(old_out[x]@.contains(FileId(y as u32))) {
                        assert(counted(edges@[k - 1], nn, relation) && edges@[k - 1].from.0 == x && edges@[k - 1].to.0 == y);
                    } else {
                        let m = choose|m: int| 0 <= m < k - 1 && counted(#[trigger] edges@[m], nn, relation)
                            && edges@[m].from.0 == x && edges@[m].to.0 == y;
                    }
                }
                if exists|m: int| 0 <= m < k && counted(#[trigger] edges@[m], nn, relation)
                        && edges@[m].from.0 == x && edges@[m].to.0 == y {
                    let m = choose|m: int| 0 <= m < k && counted(#[trigger] edges@[m], nn, relation)
                        && edges@[m].from.0 == x && edges@[m].to.0 == y;
                    if m < k - 1 {
                        assert(old_out[x]@.contains(FileId(y as u32)));
                    }
                }
            }
            assert forall|x: int, y: int| 0 <= x < n && 0 <= y < n implies
                (#[trigger] inc@[y]@.contains(FileId(x as u32)) <==> exists|m: int|
                    0 <= m < k && counted(#[trigger] edges@[m], nn, relation)
                        && edges@[m].from.0 == x && edges@[m].to.0 == y) by {
                if inc@[y]@.contains(FileId(x as u32)) {
                    if !(old_inc[y]@.contains(FileId(x as u32))) {
                        assert(counted(edges@[k - 1], nn, relation) && edges@[k - 1].from.0 == x && edges@[k - 1].to.0 == y);
                    } else {
                        let m = choose|m: int| 0 <= m < k - 1 && counted(#[trigger] edges@[m], nn, relation)
                            && edges@[m].from.0 == x && edges@[m].to.0 == y;
                    }
                }
                if exists|m: int| 0 <= m < k && counted(#[trigger] edges@[m], nn, relation)
                        && edges@[m].from.0 == x && edges@[m].to.0 == y {
                    let m = choose|m: int| 0 <= m < k && counted(#[trigger] edges@[m], nn, relation)
                        && edges@[m].from.0 == x && edges@[m].to.0 == y;
                    if m < k - 1 {
                        assert(old_inc[y]@.contains(FileId(x as u32)));
                    }
                }
            }
        }
        let a = Adjacency { out, inc };
        assert(a.succ().len() == n);
        assert forall|x: int| 0 <= x < n implies #[trigger] a.succ()[x] == a.out@[x]@ by {}
        assert forall|x: int| 0 <= x < n implies #[trigger] a.pred()[x] == a.inc@[x]@ by {}
        assert forall|x: int, y: int| 0 <= x < a.succ().len() && 0 <= y < a.succ().len() implies
            (#[trigger] a.succ()[x].contains(FileId(y as u32)) <==> #[trigger] a.pred()[y].contains(FileId(x as u32))) by {
            assert(a.succ()[x] == a.out@[x]@);
            assert(a.pred()[y] == a.inc@[y]@);
        }
        proof {
            use_type_invariant(&a);
        }
        a
    }
}


impl Adjacency {
    /// The files `id` depends on, ascending; empty for an id out of range.
    pub fn dependencies(&self, id: FileId) -> (r: &[FileId])
        ensures
            id.0 < self.succ().len() ==> r@ == self.succ()[id.0 as int],
            id.0 >= self.succ().len() ==> r@.len() == 0,
    {
        let i = id.0 as usize;
        if i < self.out.len() {
            self.out[i].as_slice()
        } else {
            &[]
        }
    }

    /// The files that depend on `id`, ascending; empty for an id out of range.
    pub fn dependents(&self, id: FileId) -> (r: &[FileId])
        ensures
            id.0 < self.pred().len() ==> r@ == self.pred()[id.0 as int],
            id.0 >= self.pred().len() ==> r@.len() == 0,
    {
        let i = id.0 as usize;
        if i < self.inc.len() {
            self.inc[i].as_slice()
        } else {
            &[]
        }
    }

    pub fn fan_out(&self, id: FileId) -> (r: usize)
        ensures
            r == if id.0 < self.succ().len() { self.succ()[id.0 as int].len() } else { 0 },
    {
        self.dependencies(id).len()
    }

    pub fn fan_in(&self, id: FileId) -> (r: usize)
        ensures
            r == if id.0 < self.pred().len() { self.pred()[id.0 as int].len() } else { 0 },
    {
        self.dependents(id).len()
    }

    /// The number of nodes.
    pub fn len(&self) -> (r: usize)
        ensures
            r == self.succ().len(),
            r == self.pred().len(),
            adj_wf(self.succ(), self.pred()),
    {
        proof {
            use_type_invariant(self);
        }
        self.out.len()
    }

    pub fn is_empty(&self) -> (r: bool)
        ensures
            r == (self.succ().len() == 0),
    {
        self.out.len() == 0
    }
}

/// The ids below `n` that pass `keep`, ascending.
pub open spec fn ids_where(n: nat, keep: spec_fn(FileId) -> bool) -> Seq<FileId>
    decreases n,
{
    if n == 0 {
        Seq::<FileId>::empty()
    } else {
        let prev = ids_where((n - 1) as nat, keep);
        if keep(FileId((n - 1) as u32)) { prev.push(FileId((n - 1) as u32)) } else { prev }
    }
}

/// Every file that transitively depends on one of `seeds`, ascending, seeds excluded.
pub fn impact(adj: &Adjacency, seeds: &[FileId]) -> (r: Vec<FileId>)
    ensures
        r@ == ids_where(adj.pred().len(), |y: FileId| !seeds@.contains(y) && reached_from(adj.pred(), seeds@, y)),
{
    proof {
        use_type_invariant(adj);
    }
    let marks = reach_marks(&adj.inc, seeds);
    collect_beyond(&marks, seeds, Ghost(adj.pred()))
}

/// Every file that one of `seeds` transitively depends on, ascending, seeds excluded.
pub fn dependencies_of(adj: &Adjacency, seeds: &[FileId]) -> (r: Vec<FileId>)
    ensures
        r@ == ids_where(adj.succ().len(), |y: FileId| !seeds@.contains(y) && reached_from(adj.succ(), seeds@, y)),
{
    proof {
        use_type_invariant(adj);
    }
    let marks = reach_marks(&adj.out, seeds);
    collect_beyond(&marks, seeds, Ghost(adj.succ()))
}

/// The marked ids that are not seeds, ascending.
fn collect_beyond(marks: &Vec<bool>, seeds: &[FileId], Ghost(s): Ghost<Seq<Seq<FileId>>>) -> (r: Vec<FileId>)
    requires
        marks@.len() == s.len(),
        s.len() <= u32::MAX,
        forall|y: int| 0 <= y < s.len() ==> (#[trigger] marks@[y] <==> reached_from(s, seeds@, FileId(y as u32))),
    ensures
        r@ == ids_where(s.len(), |y: FileId| !seeds@.contains(y) && reached_from(s, seeds@, y)),
{
    let ghost keep = |y: FileId| !seeds@.contains(y) && reached_from(s, seeds@, y);
    let n = marks.len();
    let mut is_seed: Vec<bool> = vec![false; n];
    let mut k: usize = 0;
    while k < seeds.len()
        invariant
            n == marks@.len(),
            n <= u32::MAX,
            is_seed@.len() == n,
            k <= seeds@.len(),
            forall|y: int| 0 <= y < n ==> (#[trigger] is_seed@[y] <==> exists|j: int| 0 <= j < k && seeds@[j] == FileId(y as u32)),
        decreases seeds@.len() - k,
    {
        let id = seeds[k].0 as usize;
        let ghost before = is_seed@;
        if id < n {
            is_seed.set(id, true);
            assert(seeds@[k as int] == FileId(id as u32));
        }
        k += 1;
        assert forall|y: int| 0 <= y < n implies (#[trigger] is_seed@[y] <==> exists|j: int| 0 <= j < k && seeds@[j] == FileId(y as u32)) by {
            if exists|j: int| 0 <= j < k && seeds@[j] == FileId(y as u32) {
                let j = choose|j: int| 0 <= j < k && seeds@[j] == FileId(y as u32);
                if j < k - 1 {
                    assert(before[y]);
                } else {
                    assert(seeds@[j].0 == y);
                }
            }
            if is_seed@[y] && !before[y] {
                assert(y == id);
                assert(seeds@[k - 1] == FileId(y as u32));
            }
        }
    }
    let mut out: Vec<FileId> = Vec::new();
    let mut i: usize = 0;
    while i < n
        invariant
            n == marks@.len(),
            n == s.len(),
            n <= u32::MAX,
            is_seed@.len() == n,
            i <= n,
            forall|y: int| 0 <= y < n ==> (#[trigger] is_seed@[y] <==> seeds@.contains(FileId(y as u32))),
            forall|y: int| 0 <= y < n ==> (#[trigger] marks@[y] <==> reached_from(s, seeds@, FileId(y as u32))),
            keep == (|y: FileId| !seeds@.contains(y) && reached_from(s, seeds@, y)),
            out@ == ids_where(i as nat, keep),
        decreases n - i,
    {
        if marks[i] && !is_seed[i] {
            out.push(FileId(i as u32));
        }
        i += 1;
    }
    out
}

/// Files nothing depends on and no entry point reaches, ascending. Entry points
/// themselves are never orphans.
pub fn orphans(adj: &Adjacency, entrypoints: &[FileId]) -> (r: Vec<FileId>)
    ensures
        r@ == ids_where(adj.succ().len(), |y: FileId| adj.pred()[y.0 as int].len() == 0
            && !entrypoints@.contains(y) && !reached_from(adj.succ(), entrypoints@, y)),
{
    proof {
        use_type_invariant(adj);
    }
    let ghost s = adj.succ();
    let ghost keep = |y: FileId| adj.pred()[y.0 as int].len() == 0
        && !entrypoints@.contains(y) && !reached_from(adj.succ(), entrypoints@, y);
    let marks = reach_marks(&adj.out, entrypoints);
    let n = adj.out.len();
    let is_entry = membership(entrypoints, n);
    let mut out: Vec<FileId> = Vec::new();
    let mut i: usize = 0;
    while i < n
        invariant
            n == s.len(),
            n == adj.pred().len(),
            n <= u32::MAX,
            s == adj.succ(),
            adj_wf(adj.succ(), adj.pred()),
            is_entry@.len() == n,
            marks@.len() == n,
            i <= n,
            forall|y: int| 0 <= y < n ==> (#[trigger] is_entry@[y] <==> entrypoints@.contains(FileId(y as u32))),
            forall|y: int| 0 <= y < n ==> (#[trigger] marks@[y] <==> reached_from(s, entrypoints@, FileId(y as u32))),
            keep == (|y: FileId| adj.pred()[y.0 as int].len() == 0
                && !entrypoints@.contains(y) && !reached_from(adj.succ(), entrypoints@, y)),
            out@ == ids_where(i as nat, keep),
        decreases n - i,
    {
        let fan_in = adj.inc[i].len();
        assert(adj.pred()[i as int] == adj.inc@[i as int]@);
        if fan_in == 0 && !is_entry[i] && !marks[i] {
            out.push(FileId(i as u32));
        }
        i += 1;
    }
    out
}

/// Which ids below `n` occur in `ids`.
fn membership(ids: &[FileId], n: usize) -> (m: Vec<bool>)
    requires
        n <= u32::MAX,
    ensures
        m@.len() == n,
        forall|y: int| 0 <= y < n ==> (#[trigger] m@[y] <==> ids@.contains(FileId(y as u32))),
{
    let mut m: Vec<bool> = vec![false; n];
    let mut k: usize = 0;
    while k < ids.len()
        invariant
            n <= u32::MAX,
            m@.len() == n,
            k <= ids@.len(),
            forall|y: int| 0 <= y < n ==> (#[trigger] m@[y] <==> exists|j: int| 0 <= j < k && ids@[j] == FileId(y as u32)),
        decreases ids@.len() - k,
    {
        let id = ids[k].0 as usize;
        let ghost before = m@;
        if id < n {
            m.set(id, true);
        }
        k += 1;
        assert forall|y: int| 0 <= y < n implies (#[trigger] m@[y] <==> exists|j: int| 0 <= j < k && ids@[j] == FileId(y as u32)) by {
            if exists|j: int| 0 <= j < k && ids@[j] == FileId(y as u32) {
                let j = choose|j: int| 0 <= j < k && ids@[j] == FileId(y as u32);
                if j < k - 1 {
                    assert(before[y]);
                } else {
                    assert(ids@[j].0 == y);
                }
            }
            if m@[y] && !before[y] {
                assert(ids@[k - 1] == FileId(y as u32));
            }
        }
    }
    assert forall|y: int| 0 <= y < n implies (#[trigger] m@[y] <==> ids@.contains(FileId(y as u32))) by {
        if ids@.contains(FileId(y as u32)) {
            let j = choose|j: int| 0 <= j < ids@.len() && ids@[j] == FileId(y as u32);
        }
    }
    m
}

/// A strictly ascending list of ids is fixed by what it holds: two with the
/// same members are the same list. So each list of `build_for`, which holds
/// exactly the counted edges' other ends in strictly ascending order, is the
/// one ascending list of those ids.
pub proof fn lemma_sorted_ids_unique(a: Seq<FileId>, b: Seq<FileId>)
    requires
        strictly_sorted(a),
        strictly_sorted(b),
        forall|x: FileId| a.contains(x) <==> b.contains(x),
    ensures
        a == b,
    decreases a.len(),
{
    if a.len() == 0 {
        if b.len() > 0 {
            assert(b.contains(b[0]));
        }
    } else if b.len() == 0 {
        assert(a.contains(a[0]));
    } else {
        assert(a.contains(a[0]));
        assert(b.contains(b[0]));
        let i = choose|i: int| 0 <= i < b.len() && b[i] == a[0];
        let j = choose|j: int| 0 <= j < a.len() && a[j] == b[0];
        assert(b[0].0 <= a[0].0) by {
            if i > 0 {
                assert(b[0].0 < b[i].0);
            }
        }
        assert(a[0].0 <= b[0].0) by {
            if j > 0 {
                assert(a[0].0 < a[j].0);
            }
        }
        assert(a[0] == b[0]);
        let ta = a.drop_first();
        let tb = b.drop_first();
        assert forall|x: FileId| ta.contains(x) <==> tb.contains(x) by {
            if ta.contains(x) {
                let k = choose|k: int| 0 <= k < ta.len() && ta[k] == x;
                assert(a[k + 1] == x);
                assert(a[0].0 < x.0);
                assert(a.contains(x));
                let m = choose|m: int| 0 <= m < b.len() && b[m] == x;
                assert(m != 0);
                assert(tb[m - 1] == x);
            }
            if tb.contains(x) {
                let k = choose|k: int| 0 <= k < tb.len() && tb[k] == x;
                assert(b[k + 1] == x);
                assert(b[0].0 < x.0);
                assert(b.contains(x));
                let m = choose|m: int| 0 <= m < a.len() && a[m] == x;
                assert(m != 0);
                assert(ta[m - 1] == x);
            }
        }
        lemma_sorted_ids_unique(ta, tb);
        assert(a =~= seq![a[0]] + ta);
        assert(b =~= seq![b[0]] + tb);
    }
}

/// In a consistent adjacency an edge `a -> b` is recorded in both directions.
pub proof fn lemma_edge_flip(s: Seq<Seq<FileId>>, p: Seq<Seq<FileId>>, a: FileId, b: FileId)
    requires
        adj_wf(s, p),
        b.0 < s.len(),
        a.0 < s.len(),
    ensures
        has_edge(s, a, b) <==> has_edge(p, b, a),
{
    assert(FileId(a.0 as int as u32) == a);
    assert(FileId(b.0 as int as u32) == b);
    assert(s[a.0 as int].contains(FileId(b.0 as int as u32)) <==> p[b.0 as int].contains(FileId(a.0 as int as u32)));
}

/// Walking the predecessor lists is walking the successor lists backwards.
pub proof fn lemma_reaches_reversed(s: Seq<Seq<FileId>>, p: Seq<Seq<FileId>>, a: FileId, b: FileId)
    requires
        adj_wf(s, p),
        reaches(p, a, b),
    ensures
        reaches(s, b, a),
{
    let w = choose|w: Seq<FileId>| #[trigger] is_walk(p, w) && w.len() >= 2 && w[0] == a && w.last() == b;
    let r = w.reverse();
    assert forall|k: int| 0 <= k < r.len() - 1 implies #[trigger] has_edge(s, r[k], r[k + 1]) by {
        let j = w.len() - 2 - k;
        assert(has_edge(p, w[j], w[j + 1]));
        assert(r[k] == w[j + 1]);
        assert(r[k + 1] == w[j]);
        let ii = choose|ii: int| 0 <= ii < p[w[j].0 as int].len() && p[w[j].0 as int][ii] == w[j + 1];
        lemma_edge_flip(s, p, w[j + 1], w[j]);
    }
    assert(is_walk(s, r));
}

/// Walking the successor lists backwards is walking the predecessor lists.
pub proof fn lemma_reaches_reversed_back(s: Seq<Seq<FileId>>, p: Seq<Seq<FileId>>, a: FileId, b: FileId)
    requires
        adj_wf(s, p),
        reaches(s, b, a),
    ensures
        reaches(p, a, b),
{
    let w = choose|w: Seq<FileId>| #[trigger] is_walk(s, w) && w.len() >= 2 && w[0] == b && w.last() == a;
    let r = w.reverse();
    assert forall|k: int| 0 <= k < r.len() - 1 implies #[trigger] has_edge(p, r[k], r[k + 1]) by {
        let j = w.len() - 2 - k;
        assert(has_edge(s, w[j], w[j + 1]));
        assert(r[k] == w[j + 1]);
        assert(r[k + 1] == w[j]);
        let ii = choose|ii: int| 0 <= ii < s[w[j].0 as int].len() && s[w[j].0 as int][ii] == w[j + 1];
        lemma_edge_flip(s, p, w[j], w[j + 1]);
    }
    assert(is_walk(p, r));
}

/// After grouping the tangle of an ungrouped `v` that lies on a cycle, the
/// grouping and coverage facts hold one step further.
proof fn lemma_after_group(s: Seq<Seq<FileId>>, fv: FileId, v: int, n: int, before_assigned: Seq<bool>,
    assigned: Seq<bool>, before_out: Seq<Tangle>, out: Seq<Tangle>, mem: Seq<FileId>)
    requires
        n == s.len(),
        0 <= v < n,
        n <= u32::MAX,
        ids_in_range(s),
        fv == FileId(v as u32),
        before_assigned.len() == n,
        assigned.len() == n,
        strictly_sorted(mem),
        mem.len() >= 1,
        mem[0] == fv,
        forall|k: int| 0 <= k < mem.len() ==> (#[trigger] mem[k]).0 < n,
        forall|u: FileId| #[trigger] mem.contains(u) <==> (u.0 < n && mutual(s, fv, u)),
        forall|x: int| 0 <= x < n ==> (#[trigger] assigned[x] <==> (before_assigned[x] || mutual(s, fv, FileId(x as u32)))),
        forall|x: int| 0 <= x < n ==> (#[trigger] before_assigned[x] <==>
            exists|w: FileId| w.0 < v && #[trigger] mutual(s, w, FileId(x as u32))),
        forall|i: int| 0 <= i < before_out.len() ==> #[trigger] is_tangle_of(s, before_out[i].members@, before_out[i].example@),
        forall|i: int| 0 <= i < before_out.len() ==> (#[trigger] before_out[i].members@[0]).0 < v,
        forall|i: int, j: int| 0 <= i < j < before_out.len() ==> (#[trigger] before_out[i].members@[0]).0 < (#[trigger] before_out[j].members@[0]).0,
        forall|x: FileId, u: FileId| x.0 < v && u != x && #[trigger] mutual(s, x, u) ==>
            exists|i: int| 0 <= i < before_out.len() && #[trigger] before_out[i].members@.contains(x),
        mem.len() > 1 ==> out.len() == before_out.len() + 1 && out.last().members@ == mem
            && is_tangle_of(s, out.last().members@, out.last().example@)
            && forall|i: int| 0 <= i < before_out.len() ==> out[i] == before_out[i],
        mem.len() <= 1 ==> out == before_out,
    ensures
        forall|x: int| 0 <= x < n ==> (#[trigger] assigned[x] <==>
            exists|w: FileId| w.0 < v + 1 && #[trigger] mutual(s, w, FileId(x as u32))),
        forall|i: int| 0 <= i < out.len() ==> #[trigger] is_tangle_of(s, out[i].members@, out[i].example@),
        forall|i: int| 0 <= i < out.len() ==> (#[trigger] out[i].members@[0]).0 < v + 1,
        forall|i: int, j: int| 0 <= i < j < out.len() ==> (#[trigger] out[i].members@[0]).0 < (#[trigger] out[j].members@[0]).0,
        forall|x: FileId, u: FileId| x.0 < v + 1 && u != x && #[trigger] mutual(s, x, u) ==>
            exists|i: int| 0 <= i < out.len() && #[trigger] out[i].members@.contains(x),
{
    assert forall|x: int| 0 <= x < n implies (#[trigger] assigned[x] <==>
        exists|w: FileId| w.0 < v + 1 && #[trigger] mutual(s, w, FileId(x as u32))) by {
        if assigned[x] && !before_assigned[x] {
            assert(mutual(s, fv, FileId(x as u32)));
        }
        if exists|w: FileId| w.0 < v + 1 && #[trigger] mutual(s, w, FileId(x as u32)) {
            let w = choose|w: FileId| w.0 < v + 1 && #[trigger] mutual(s, w, FileId(x as u32));
            if w.0 < v {
                assert(before_assigned[x]);
            } else {
                assert(w == fv);
            }
        }
    }
    let last = out.len() - 1;
    assert forall|i: int| 0 <= i < out.len() implies #[trigger] is_tangle_of(s, out[i].members@, out[i].example@) by {
        if i < before_out.len() {
            assert(out[i] == before_out[i]);
        }
    }
    assert forall|i: int| 0 <= i < out.len() implies (#[trigger] out[i].members@[0]).0 < v + 1 by {
        if i < before_out.len() {
            assert(out[i] == before_out[i]);
            assert(before_out[i].members@[0].0 < v);
        } else {
            assert(out[i].members@ == mem);
        }
    }
    assert forall|i: int, j: int| 0 <= i < j < out.len() implies
        (#[trigger] out[i].members@[0]).0 < (#[trigger] out[j].members@[0]).0 by {
        assert(out[i] == before_out[i]);
        assert(before_out[i].members@[0].0 < v);
        if j < before_out.len() {
            assert(out[j] == before_out[j]);
            assert(before_out[i].members@[0].0 < before_out[j].members@[0].0);
        } else {
            assert(out[j].members@ == mem);
            assert(fv.0 == v);
            assert(out[j].members@[0] == mem[0]);
        }
    }
    assert forall|x: FileId, y: FileId| x.0 < v + 1 && y != x && #[trigger] mutual(s, x, y) implies
        exists|i: int| 0 <= i < out.len() && #[trigger] out[i].members@.contains(x) by {
        if x.0 < v {
            let i = choose|i: int| 0 <= i < before_out.len() && #[trigger] before_out[i].members@.contains(x);
            assert(out[i] == before_out[i]);
        } else {
            assert(x == fv);
            lemma_reaches_range(s, x, y);
            assert(mem.contains(y));
            let ky = choose|k: int| 0 <= k < mem.len() && mem[k] == y;
            assert(ky != 0);
            lemma_first_in(mem);
            assert(out[last].members@.contains(x));
        }
    }
}

/// When `v` is already grouped or lies on no cycle, it adds no new grouping.
proof fn lemma_step_unchanged(s: Seq<Seq<FileId>>, fv: FileId, assigned: Seq<bool>, v: int, n: int, out: Seq<Tangle>)
    requires
        n == s.len(),
        0 <= v < n,
        n <= u32::MAX,
        fv == FileId(v as u32),
        assigned.len() == n,
        assigned[v] || !on_cycle(s, fv),
        forall|x: int| 0 <= x < n ==> (#[trigger] assigned[x] <==>
            exists|w: FileId| w.0 < v && #[trigger] mutual(s, w, FileId(x as u32))),
        forall|i: int| 0 <= i < out.len() ==> #[trigger] is_tangle_of(s, out[i].members@, out[i].example@),
        forall|x: FileId, u: FileId| x.0 < v && u != x && #[trigger] mutual(s, x, u) ==>
            exists|i: int| 0 <= i < out.len() && #[trigger] out[i].members@.contains(x),
    ensures
        forall|x: int| 0 <= x < n ==> (#[trigger] assigned[x] <==>
            exists|w: FileId| w.0 < v + 1 && #[trigger] mutual(s, w, FileId(x as u32))),
        forall|x: FileId, u: FileId| x.0 < v + 1 && u != x && #[trigger] mutual(s, x, u) ==>
            exists|i: int| 0 <= i < out.len() && #[trigger] out[i].members@.contains(x),
{
    assert forall|x: int| 0 <= x < n implies (#[trigger] assigned[x] <==>
        exists|w: FileId| w.0 < v + 1 && #[trigger] mutual(s, w, FileId(x as u32))) by {
        if exists|w: FileId| w.0 < v + 1 && #[trigger] mutual(s, w, FileId(x as u32)) {
            let w = choose|w: FileId| w.0 < v + 1 && #[trigger] mutual(s, w, FileId(x as u32));
            if w.0 == v {
                assert(w == fv);
                lemma_mutual_cycle(s, w, FileId(x as u32));
                assert(assigned[v]);
                let w2 = choose|w2: FileId| w2.0 < v && #[trigger] mutual(s, w2, FileId(v as u32));
                lemma_mutual_trans(s, w2, fv, FileId(x as u32));
            }
        }
    }
    assert forall|x: FileId, u: FileId| x.0 < v + 1 && u != x && #[trigger] mutual(s, x, u) implies
        exists|i: int| 0 <= i < out.len() && #[trigger] out[i].members@.contains(x) by {
        if x.0 == v {
            assert(x == fv);
            lemma_mutual_cycle(s, x, u);
            assert(assigned[v]);
            let w = choose|w: FileId| w.0 < v && #[trigger] mutual(s, w, FileId(v as u32));
            lemma_mutual_cycle(s, w, fv);
            assert(w != fv);
            assert(mutual(s, w, fv));
            let i = choose|i: int| 0 <= i < out.len() && #[trigger] out[i].members@.contains(w);
            assert(is_tangle_of(s, out[i].members@, out[i].example@));
            let m = out[i].members@;
            assert(m.contains(w));
            lemma_first_in(m);
            assert(m[0].0 < s.len());
            assert(mutual(s, m[0], w));
            lemma_mutual_trans(s, m[0], w, fv);
            assert(m.contains(fv));
        }
    }
}

proof fn lemma_reaches_range(s: Seq<Seq<FileId>>, a: FileId, b: FileId)
    requires
        ids_in_range(s),
        reaches(s, a, b),
    ensures
        a.0 < s.len(),
        b.0 < s.len(),
{
    let w = choose|w: Seq<FileId>| #[trigger] is_walk(s, w) && w.len() >= 2 && w[0] == a && w.last() == b;
    let k = w.len() - 2;
    lemma_walk_step(s, w, 0);
    lemma_walk_step(s, w, k);
    let ii = choose|ii: int| 0 <= ii < s[w[k].0 as int].len() && s[w[k].0 as int][ii] == w[k + 1];
}

proof fn lemma_first_in(m: Seq<FileId>)
    requires
        m.len() >= 1,
    ensures
        m.contains(m[0]),
{
    assert(m[0] == m[0]);
}

/// A node that does not reach itself is in no tangle.
proof fn lemma_not_on_cycle_alone(s: Seq<Seq<FileId>>, fv: FileId, assigned: Seq<bool>, v: int, n: int)
    requires
        !reached_from(s, seq![fv], fv),
    ensures
        !on_cycle(s, fv),
{
    lemma_single_seed(s, fv, fv);
}

proof fn lemma_walk_step(s: Seq<Seq<FileId>>, w: Seq<FileId>, k: int)
    requires
        is_walk(s, w),
        0 <= k < w.len() - 1,
    ensures
        has_edge(s, w[k], w[k + 1]),
{
}

/// `x` lies on a cycle.
pub open spec fn on_cycle(s: Seq<Seq<FileId>>, x: FileId) -> bool {
    reaches(s, x, x)
}

/// `a` and `b` each reach the other: they are in the same tangle.
pub open spec fn mutual(s: Seq<Seq<FileId>>, a: FileId, b: FileId) -> bool {
    reaches(s, a, b) && reaches(s, b, a)
}

pub proof fn lemma_mutual_trans(s: Seq<Seq<FileId>>, a: FileId, b: FileId, c: FileId)
    requires
        mutual(s, a, b),
        mutual(s, b, c),
    ensures
        mutual(s, a, c),
{
    lemma_reaches_trans(s, a, b, c);
    lemma_reaches_trans(s, c, b, a);
}

pub proof fn lemma_mutual_cycle(s: Seq<Seq<FileId>>, a: FileId, b: FileId)
    requires
        mutual(s, a, b),
    ensures
        on_cycle(s, a),
        on_cycle(s, b),
        mutual(s, b, a),
{
    lemma_reaches_trans(s, a, b, a);
    lemma_reaches_trans(s, b, a, b);
}

/// A node on a cycle has a successor on a cycle and a predecessor on a cycle.
proof fn lemma_cycle_neighbours(s: Seq<Seq<FileId>>, x: FileId)
    requires
        on_cycle(s, x),
    ensures
        exists|y: FileId| #[trigger] has_edge(s, x, y) && on_cycle(s, y),
        exists|z: FileId| #[trigger] has_edge(s, z, x) && on_cycle(s, z),
{
    let w = choose|w: Seq<FileId>| #[trigger] is_walk(s, w) && w.len() >= 2 && w[0] == x && w.last() == x;
    lemma_walk_step(s, w, 0);
    let y = w[1];
    let k = w.len() - 2;
    lemma_walk_step(s, w, k);
    let z = w[k];
    if w.len() == 2 {
        assert(on_cycle(s, y));
        assert(on_cycle(s, z));
    } else {
        let tail = w.drop_first();
        assert forall|i: int| 0 <= i < tail.len() - 1 implies #[trigger] has_edge(s, tail[i], tail[i + 1]) by {
            lemma_walk_step(s, w, i + 1);
        }
        assert(is_walk(s, tail));
        assert(reaches(s, y, x));
        lemma_edge_reaches(s, x, y);
        lemma_reaches_trans(s, y, x, y);
        let head = w.take(w.len() - 1);
        assert forall|i: int| 0 <= i < head.len() - 1 implies #[trigger] has_edge(s, head[i], head[i + 1]) by {
            assert(has_edge(s, w[i], w[i + 1]));
        }
        assert(is_walk(s, head));
        assert(reaches(s, x, z));
        lemma_edge_reaches(s, z, x);
        lemma_reaches_trans(s, z, x, z);
    }
}

/// A superset of the nodes that lie on a cycle, found by repeatedly discarding
/// nodes with no remaining predecessor or no remaining successor.
fn cycle_candidates(adj: &Adjacency) -> (alive: Vec<bool>)
    ensures
        alive@.len() == adj.succ().len(),
        forall|x: int| 0 <= x < alive@.len() && on_cycle(adj.succ(), FileId(x as u32)) ==> #[trigger] alive@[x],
{
    proof {
        use_type_invariant(adj);
    }
    let ghost s = adj.succ();
    let ghost p = adj.pred();
    let n = adj.out.len();
    let mut alive: Vec<bool> = vec![true; n];
    loop
        invariant
            n == s.len(),
            s == adj.succ(),
            p == adj.pred(),
            adj_wf(s, p),
            alive@.len() == n,
            forall|x: int| 0 <= x < n && on_cycle(s, FileId(x as u32)) ==> #[trigger] alive@[x],
        decreases count_true(alive@),
    {
        let ghost at_start = alive@;
        let mut changed = false;
        let mut x: usize = 0;
        while x < n
            invariant
                n == s.len(),
                s == adj.succ(),
                p == adj.pred(),
                adj_wf(s, p),
                alive@.len() == n,
                x <= n,
                forall|y: int| 0 <= y < n && on_cycle(s, FileId(y as u32)) ==> #[trigger] alive@[y],
                changed ==> count_true(alive@) < count_true(at_start),
                !changed ==> alive@ == at_start,
            decreases n - x,
        {
            if alive[x] {
                let outs = &adj.out[x];
                let ins = &adj.inc[x];
                assert(outs@ == s[x as int]);
                assert(ins@ == p[x as int]);
                let mut has_succ = false;
                let mut j: usize = 0;
                while j < outs.len() && !has_succ
                    invariant
                        n == s.len(),
                        alive@.len() == n,
                        outs@ == s[x as int],
                        adj_wf(s, p),
                        x < n,
                        j <= outs@.len(),
                        !has_succ ==> forall|jj: int| 0 <= jj < j ==> !alive@[(#[trigger] outs@[jj]).0 as int],
                    decreases outs@.len() - j,
                {
                    if alive[outs[j].0 as usize] {
                        has_succ = true;
                    }
                    j += 1;
                }
                let mut has_pred = false;
                let mut j: usize = 0;
                while j < ins.len() && !has_pred
                    invariant
                        n == s.len(),
                        alive@.len() == n,
                        ins@ == p[x as int],
                        adj_wf(s, p),
                        x < n,
                        j <= ins@.len(),
                        !has_pred ==> forall|jj: int| 0 <= jj < j ==> !alive@[(#[trigger] ins@[jj]).0 as int],
                    decreases ins@.len() - j,
                {
                    if alive[ins[j].0 as usize] {
                        has_pred = true;
                    }
                    j += 1;
                }
                if !has_succ || !has_pred {
                    proof {
                        let fx = FileId(x as u32);
                        if on_cycle(s, fx) {
                            lemma_cycle_neighbours(s, fx);
                            if !has_succ {
                                let y = choose|y: FileId| #[trigger] has_edge(s, fx, y) && on_cycle(s, y);
                                let jj = choose|jj: int| 0 <= jj < outs@.len() && outs@[jj] == y;
                                assert(y.0 < n);
                                assert(FileId(y.0 as int as u32) == y);
                                assert(alive@[y.0 as int]);
                            } else {
                                let z = choose|z: FileId| #[trigger] has_edge(s, z, fx) && on_cycle(s, z);
                                assert(z.0 < n);
                                lemma_edge_flip(s, p, z, fx);
                                let jj = choose|jj: int| 0 <= jj < ins@.len() && ins@[jj] == z;
                                assert(FileId(z.0 as int as u32) == z);
                                assert(alive@[z.0 as int]);
                            }
                        }
                        lemma_count_true_clear(alive@, x as int);
                    }
                    alive.set(x, false);
                    changed = true;
                }
            }
            x += 1;
        }
        if !changed {
            break;
        }
    }
    alive
}

proof fn lemma_walk_prefix(s: Seq<Seq<FileId>>, w: Seq<FileId>, k: int)
    requires
        is_walk(s, w),
        1 <= k < w.len(),
    ensures
        reaches(s, w[0], w[k]),
    decreases k,
{
    lemma_walk_step(s, w, k - 1);
    if k == 1 {
        lemma_edge_reaches(s, w[0], w[1]);
    } else {
        lemma_walk_prefix(s, w, k - 1);
        lemma_reaches_step(s, w[0], w[k - 1], w[k]);
    }
}

proof fn lemma_walk_suffix(s: Seq<Seq<FileId>>, w: Seq<FileId>, k: int)
    requires
        is_walk(s, w),
        0 <= k < w.len() - 1,
    ensures
        reaches(s, w[k], w.last()),
{
    let t = w.subrange(k, w.len() as int);
    assert forall|i: int| 0 <= i < t.len() - 1 implies #[trigger] has_edge(s, t[i], t[i + 1]) by {
        lemma_walk_step(s, w, k + i);
    }
    assert(is_walk(s, t));
    assert(t.last() == w.last());
}

proof fn lemma_visited_extend(s: Seq<Seq<FileId>>, start: FileId, inside: Seq<bool>, old_prev: Seq<u32>,
    old_depth: Seq<nat>, old_visited: Seq<bool>, ni: int, from: int, prev: Seq<u32>, depth: Seq<nat>, visited: Seq<bool>)
    requires
        s.len() <= u32::MAX,
        old_prev.len() == s.len(),
        old_visited.len() == s.len(),
        old_depth.len() == s.len(),
        inside.len() == s.len(),
        0 <= ni < s.len(),
        0 <= from < s.len(),
        start.0 < s.len(),
        ni != start.0,
        inside[ni],
        old_prev[ni] == u32::MAX,
        from == start.0 || old_prev[from] != u32::MAX,
        has_edge(s, FileId(from as u32), FileId(ni as u32)),
        prev == old_prev.update(ni, from as u32),
        depth == old_depth.update(ni, old_depth[from] + 1),
        visited == old_visited.update(ni, true),
        forall|y: int| 0 <= y < s.len() ==> (#[trigger] old_visited[y] <==> old_prev[y] != u32::MAX),
        forall|y: int| 0 <= y < s.len() && #[trigger] old_visited[y] ==> visited_ok(s, start, inside, old_prev, old_depth, y),
    ensures
        forall|y: int| 0 <= y < s.len() ==> (#[trigger] visited[y] <==> prev[y] != u32::MAX),
        forall|y: int| 0 <= y < s.len() && #[trigger] visited[y] ==> visited_ok(s, start, inside, prev, depth, y),
{
    assert forall|y: int| 0 <= y < s.len() implies (#[trigger] visited[y] <==> prev[y] != u32::MAX) by {
        if y != ni {
            assert(visited[y] == old_visited[y]);
            assert(prev[y] == old_prev[y]);
        }
    }
    assert forall|y: int| 0 <= y < s.len() && #[trigger] visited[y] implies visited_ok(s, start, inside, prev, depth, y) by {
        if y != ni {
            assert(old_visited[y]);
            assert(visited_ok(s, start, inside, old_prev, old_depth, y));
            let px = old_prev[y] as int;
            assert(px != ni);
        } else {
            assert(prev[ni] == from as u32);
            assert(from != ni);
        }
    }
}

spec fn visited_ok(s: Seq<Seq<FileId>>, start: FileId, inside: Seq<bool>, prev: Seq<u32>, depth: Seq<nat>, x: int) -> bool {
    let px = prev[x] as int;
    &&& x != start.0
    &&& inside[x]
    &&& 0 <= px < s.len()
    &&& has_edge(s, FileId(px as u32), FileId(x as u32))
    &&& (px == start.0 || prev[px] != u32::MAX)
    &&& depth[x] == depth[px] + 1
}

/// A cycle through `members[0]` that stays inside `members`.
pub open spec fn cycle_within(s: Seq<Seq<FileId>>, members: Seq<FileId>, w: Seq<FileId>) -> bool {
    &&& is_walk(s, w)
    &&& w.len() >= 2
    &&& w[0] == members[0]
    &&& w.last() == members[0]
    &&& forall|k: int| 0 <= k < w.len() ==> members.contains(#[trigger] w[k])
}

/// The first position after the start where a closed walk is back at it.
proof fn first_return(w: Seq<FileId>, start: FileId, k: int) -> (m: int)
    requires
        w.len() >= 2,
        w.last() == start,
        1 <= k < w.len(),
        forall|i: int| 1 <= i < k ==> w[i] != start,
    ensures
        k <= m < w.len(),
        w[m] == start,
        forall|i: int| 1 <= i < m ==> w[i] != start,
    decreases w.len() - k,
{
    if w[k] == start {
        k
    } else {
        first_return(w, start, k + 1)
    }
}

/// The breadth-first search from `start` inside a tangle, with `head`
/// entries of `queue` expanded: start's successors and those of the
/// expanded entries are found, one deeper than their finder, and depths
/// never fall along the queue.
spec fn bfs_state(s: Seq<Seq<FileId>>, start: FileId, inside: Seq<bool>, visited: Seq<bool>, depth: Seq<nat>,
    queue: Seq<FileId>, head: int) -> bool {
    &&& ids_in_range(s)
    &&& start.0 < s.len()
    &&& inside.len() == s.len()
    &&& visited.len() == s.len()
    &&& depth.len() == s.len()
    &&& 0 <= head < queue.len()
    &&& forall|k: int| 0 <= k < queue.len() ==> (#[trigger] queue[k]).0 < s.len()
    &&& forall|y: int| 0 <= y < s.len() && #[trigger] visited[y] ==> queue.contains(FileId(y as u32))
    &&& forall|z: FileId| #[trigger] has_edge(s, start, z) ==> z != start
        && (inside[z.0 as int] ==> visited[z.0 as int] && depth[z.0 as int] <= 1)
    &&& forall|k: int, z: FileId| 0 <= k < head && #[trigger] has_edge(s, queue[k], z) ==> z != start
        && (inside[z.0 as int] ==> visited[z.0 as int] && depth[z.0 as int] <= depth[queue[k].0 as int] + 1)
    &&& forall|a: int, b: int| #![trigger queue[a], queue[b]] 0 <= a <= b < queue.len() ==>
        depth[queue[a].0 as int] <= depth[queue[b].0 as int]
}

proof fn lemma_bfs_prefix(s: Seq<Seq<FileId>>, start: FileId, inside: Seq<bool>, visited: Seq<bool>, depth: Seq<nat>,
    queue: Seq<FileId>, head: int, w: Seq<FileId>, i: int)
    requires
        bfs_state(s, start, inside, visited, depth, queue, head),
        is_walk(s, w),
        w[0] == start,
        1 <= i < w.len(),
        i <= depth[queue[head].0 as int],
        forall|k: int| 0 <= k < w.len() ==> inside[(#[trigger] w[k]).0 as int],
    ensures
        w[i].0 < s.len(),
        visited[w[i].0 as int],
        depth[w[i].0 as int] <= i,
    decreases i,
{
    lemma_walk_step(s, w, i - 1);
    assert(inside[w[i].0 as int]);
    if i == 1 {
        assert(has_edge(s, start, w[1]));
        let q = choose|q: int| 0 <= q < s[start.0 as int].len() && s[start.0 as int][q] == w[1];
        assert(s[start.0 as int][q].0 < s.len());
    } else {
        lemma_bfs_prefix(s, start, inside, visited, depth, queue, head, w, i - 1);
        let prev = w[i - 1];
        assert(FileId(prev.0 as int as u32) == prev);
        assert(queue.contains(prev));
        let k = choose|k: int| 0 <= k < queue.len() && queue[k] == prev;
        if k >= head {
            assert(depth[queue[head].0 as int] <= depth[queue[k].0 as int]);
            assert(false);
        }
        assert(has_edge(s, queue[k], w[i]));
        let q = choose|q: int| 0 <= q < s[prev.0 as int].len() && s[prev.0 as int][q] == w[i];
        assert(s[prev.0 as int][q].0 < s.len());
    }
}

/// Once the search expands `queue[head]`, no cycle through the start that
/// stays inside is shorter than one through that entry: its last file
/// before the start would have been expanded already.
proof fn lemma_bfs_shortest(s: Seq<Seq<FileId>>, start: FileId, inside: Seq<bool>, visited: Seq<bool>, depth: Seq<nat>,
    queue: Seq<FileId>, head: int, w: Seq<FileId>)
    requires
        bfs_state(s, start, inside, visited, depth, queue, head),
        is_walk(s, w),
        w.len() >= 2,
        w[0] == start,
        w.last() == start,
        forall|k: int| 0 <= k < w.len() ==> inside[(#[trigger] w[k]).0 as int],
    ensures
        w.len() >= depth[queue[head].0 as int] + 2,
{
    let m = first_return(w, start, 1);
    if m <= depth[queue[head].0 as int] {
        lemma_walk_step(s, w, 0);
        assert(has_edge(s, start, w[1]));
        assert(w[1] != start);
        assert(m >= 2);
        lemma_bfs_prefix(s, start, inside, visited, depth, queue, head, w, m - 1);
        let v = w[m - 1];
        assert(FileId(v.0 as int as u32) == v);
        assert(queue.contains(v));
        let k = choose|k: int| 0 <= k < queue.len() && queue[k] == v;
        if k >= head {
            assert(depth[queue[head].0 as int] <= depth[queue[k].0 as int]);
            assert(false);
        }
        lemma_walk_step(s, w, m - 1);
        assert(has_edge(s, queue[k], w[m]));
        assert(false);
    }
}

/// A shortest cycle through `members[0]` that stays inside `members`, given that
/// `members` is exactly the tangle of `members[0]`.
fn shortest_cycle_within(adj: &Adjacency, members: &[FileId]) -> (r: Vec<FileId>)
    requires
        members@.len() >= 1,
        members@[0].0 < adj.succ().len(),
        on_cycle(adj.succ(), members@[0]),
        forall|u: FileId| u.0 < adj.succ().len() ==> (#[trigger] members@.contains(u) <==> mutual(adj.succ(), members@[0], u)),
    ensures
        is_walk(adj.succ(), r@),
        r@.len() >= 2,
        r@[0] == members@[0],
        r@.last() == members@[0],
        forall|k: int| 0 <= k < r@.len() ==> members@.contains(#[trigger] r@[k]),
        forall|w: Seq<FileId>| #[trigger] cycle_within(adj.succ(), members@, w) ==> r@.len() <= w.len(),
{
    proof {
        use_type_invariant(adj);
    }
    let ghost s = adj.succ();
    let n = adj.out.len();
    let start = members[0];
    let inside = membership(members, n);
    let none: u32 = u32::MAX;
    let mut prev: Vec<u32> = vec![none; n];
    let mut visited: Vec<bool> = vec![false; n];
    let ghost mut depth: Seq<nat> = Seq::new(n as nat, |i: int| 0nat);
    let mut queue: Vec<FileId> = Vec::new();
    proof {
        lemma_count_true_none(visited@);
        assert(members@.contains(start));
    }
    let first = &adj.out[start.0 as usize];
    assert(first@ == s[start.0 as int]);
    let mut j: usize = 0;
    while j < first.len()
        invariant
            n == s.len(),
            n <= u32::MAX,
            s == adj.succ(),
            adj_wf(s, adj.pred()),
            start == members@[0],
            members@.len() >= 1,
            none == u32::MAX,
            start.0 < n,
            first@ == s[start.0 as int],
            inside@.len() == n,
            prev@.len() == n,
            visited@.len() == n,
            depth.len() == n,
            depth[start.0 as int] == 0,
            j <= first@.len(),
            forall|y: int| 0 <= y < n ==> (#[trigger] inside@[y] <==> members@.contains(FileId(y as u32))),
            forall|y: int| 0 <= y < n ==> (#[trigger] visited@[y] <==> prev@[y] != none),
            forall|y: int| 0 <= y < n && #[trigger] visited@[y] ==> visited_ok(s, start, inside@, prev@, depth, y),
            queue@.len() == count_true(visited@),
            forall|k: int| 0 <= k < queue@.len() ==> (#[trigger] queue@[k]).0 < n && visited@[queue@[k].0 as int],
            forall|y: int| 0 <= y < n && #[trigger] visited@[y] ==> queue@.contains(FileId(y as u32)),
            forall|jj: int| 0 <= jj < j ==> (#[trigger] first@[jj]) != start
                && (inside@[first@[jj].0 as int] ==> visited@[first@[jj].0 as int] && depth[first@[jj].0 as int] <= 1),
            forall|k: int| 0 <= k < queue@.len() ==> depth[(#[trigger] queue@[k]).0 as int] == 1,
        decreases first@.len() - j,
    {
        let next = first[j];
        assert(s[start.0 as int][j as int] == next);
        assert(next.0 < n);
        if next.0 == start.0 {
            let r = vec![start, start];
            proof {
                assert(has_edge(s, r@[0], r@[1]));
                assert(members@[0] == start);
                assert(members@.contains(r@[0]));
            }
            return r;
        }
        let ni = next.0 as usize;
        if inside[ni] && prev[ni] == none {
            proof {
                lemma_count_true_set(visited@, ni as int);
                assert(FileId(ni as u32) == next);
                assert(FileId(start.0 as int as u32) == start);
            }
            let ghost qb = queue@;
            let ghost old_visited = visited@;
            let ghost old_prev = prev@;
            let ghost old_depth = depth;
            prev.set(ni, start.0);
            visited.set(ni, true);
            proof {
                depth = depth.update(ni as int, 1);
                assert(prev@[ni as int] == start.0);
                assert(old_prev[ni as int] == none);
                assert(start.0 < u32::MAX);
                assert(ni != start.0);
            }
            queue.push(next);
            proof {
                assert(queue@[queue@.len() - 1] == next);
                assert forall|y: int| 0 <= y < n && #[trigger] visited@[y] implies queue@.contains(FileId(y as u32)) by {
                    if y != ni {
                        let k = choose|k: int| 0 <= k < qb.len() && qb[k] == FileId(y as u32);
                        assert(queue@[k] == FileId(y as u32));
                    }
                }
                lemma_visited_extend(s, start, inside@, old_prev, old_depth, old_visited, ni as int, start.0 as int, prev@, depth, visited@);
                assert forall|k: int| 0 <= k < queue@.len() implies depth[(#[trigger] queue@[k]).0 as int] == 1 by {
                    if k < qb.len() {
                        assert(old_visited[qb[k].0 as int]);
                        assert(qb[k].0 != ni);
                    }
                }
                assert forall|jj: int| 0 <= jj < j implies (inside@[first@[jj].0 as int] ==> depth[(#[trigger] first@[jj]).0 as int] <= 1) by {
                    if inside@[first@[jj].0 as int] {
                        assert(old_visited[first@[jj].0 as int]);
                    }
                }
            }
        } else if inside[ni] {
            proof {
                assert(visited@[ni as int]);
                assert(queue@.contains(FileId(ni as u32)));
                let k = choose|k: int| 0 <= k < queue@.len() && queue@[k] == FileId(ni as u32);
                assert(depth[queue@[k].0 as int] == 1);
            }
        }
        j += 1;
    }
    let mut head: usize = 0;
    while head < queue.len()
        invariant
            n == s.len(),
            n <= u32::MAX,
            s == adj.succ(),
            adj_wf(s, adj.pred()),
            start == members@[0],
            members@.len() >= 1,
            none == u32::MAX,
            start.0 < n,
            inside@.len() == n,
            prev@.len() == n,
            visited@.len() == n,
            depth.len() == n,
            depth[start.0 as int] == 0,
            head <= queue@.len(),
            forall|y: int| 0 <= y < n ==> (#[trigger] inside@[y] <==> members@.contains(FileId(y as u32))),
            forall|y: int| 0 <= y < n ==> (#[trigger] visited@[y] <==> prev@[y] != none),
            forall|y: int| 0 <= y < n && #[trigger] visited@[y] ==> visited_ok(s, start, inside@, prev@, depth, y),
            queue@.len() == count_true(visited@),
            forall|k: int| 0 <= k < queue@.len() ==> (#[trigger] queue@[k]).0 < n && visited@[queue@[k].0 as int],
            forall|y: int| 0 <= y < n && #[trigger] visited@[y] ==> queue@.contains(FileId(y as u32)),
            forall|z: FileId| #[trigger] has_edge(s, start, z) ==> z != start && (inside@[z.0 as int] ==> visited@[z.0 as int] && depth[z.0 as int] <= 1),
            forall|k: int, z: FileId| 0 <= k < head && #[trigger] has_edge(s, queue@[k], z) ==>
                z != start && (inside@[z.0 as int] ==> visited@[z.0 as int] && depth[z.0 as int] <= depth[queue@[k].0 as int] + 1),
            forall|a: int, b: int| #![trigger queue@[a], queue@[b]] 0 <= a <= b < queue@.len() ==> depth[queue@[a].0 as int] <= depth[queue@[b].0 as int],
            head < queue@.len() ==> forall|b: int| 0 <= b < queue@.len() ==> depth[(#[trigger] queue@[b]).0 as int] <= depth[queue@[head as int].0 as int] + 1,
        decreases n - head,
    {
        proof {
            lemma_count_true_le(visited@);
        }
        let node = queue[head];
        let ghost old_queue = queue@;
        let nbrs = &adj.out[node.0 as usize];
        assert(nbrs@ == s[node.0 as int]);
        let mut j: usize = 0;
        while j < nbrs.len()
            invariant
                n == s.len(),
                n <= u32::MAX,
                s == adj.succ(),
                adj_wf(s, adj.pred()),
                start == members@[0],
                members@.len() >= 1,
                none == u32::MAX,
                start.0 < n,
                nbrs@ == s[node.0 as int],
                node.0 < n,
                visited@[node.0 as int],
                head < old_queue.len(),
                node == old_queue[head as int],
                inside@.len() == n,
                prev@.len() == n,
                visited@.len() == n,
                depth.len() == n,
                depth[start.0 as int] == 0,
                j <= nbrs@.len(),
                forall|y: int| 0 <= y < n ==> (#[trigger] inside@[y] <==> members@.contains(FileId(y as u32))),
                forall|y: int| 0 <= y < n ==> (#[trigger] visited@[y] <==> prev@[y] != none),
                forall|y: int| 0 <= y < n && #[trigger] visited@[y] ==> visited_ok(s, start, inside@, prev@, depth, y),
                queue@.len() == count_true(visited@),
                queue@.len() >= old_queue.len(),
                forall|k: int| 0 <= k < old_queue.len() ==> queue@[k] == old_queue[k],
                forall|k: int| 0 <= k < queue@.len() ==> (#[trigger] queue@[k]).0 < n && visited@[queue@[k].0 as int],
                forall|y: int| 0 <= y < n && #[trigger] visited@[y] ==> queue@.contains(FileId(y as u32)),
                forall|z: FileId| #[trigger] has_edge(s, start, z) ==> z != start && (inside@[z.0 as int] ==> visited@[z.0 as int] && depth[z.0 as int] <= 1),
                forall|k: int, z: FileId| 0 <= k < head && #[trigger] has_edge(s, old_queue[k], z) ==>
                    z != start && (inside@[z.0 as int] ==> visited@[z.0 as int] && depth[z.0 as int] <= depth[old_queue[k].0 as int] + 1),
                forall|a: int, b: int| #![trigger queue@[a], queue@[b]] 0 <= a <= b < queue@.len() ==> depth[queue@[a].0 as int] <= depth[queue@[b].0 as int],
                forall|b: int| 0 <= b < queue@.len() ==> depth[(#[trigger] queue@[b]).0 as int] <= depth[node.0 as int] + 1,
                forall|jj: int| 0 <= jj < j ==> (#[trigger] nbrs@[jj]) != start
                    && (inside@[nbrs@[jj].0 as int] ==> visited@[nbrs@[jj].0 as int] && depth[nbrs@[jj].0 as int] <= depth[node.0 as int] + 1),
            decreases nbrs@.len() - j,
        {
            let next = nbrs[j];
            assert(s[node.0 as int][j as int] == next);
            assert(next.0 < n);
            if next.0 == start.0 {
                assert(next == start);
                assert forall|y: int| 0 <= y < n && prev@[y] != u32::MAX implies
                    #[trigger] visited_ok(s, start, inside@, prev@, depth, y) by {
                    assert(visited@[y]);
                }
                proof {
                    assert forall|w: Seq<FileId>| #[trigger] cycle_within(s, members@, w) implies depth[node.0 as int] + 2 <= w.len() by {
                        assert forall|k: int| 0 <= k < w.len() implies inside@[(#[trigger] w[k]).0 as int] by {
                            assert(members@.contains(w[k]));
                            if k < w.len() - 1 {
                                lemma_walk_step(s, w, k);
                            } else {
                                assert(w[k] == start);
                            }
                            assert(w[k].0 < n);
                            assert(FileId(w[k].0 as int as u32) == w[k]);
                        }
                        assert(ids_in_range(s));
                        assert forall|k: int, z: FileId| 0 <= k < head && #[trigger] has_edge(s, queue@[k], z) implies z != start
                            && (inside@[z.0 as int] ==> visited@[z.0 as int] && depth[z.0 as int] <= depth[queue@[k].0 as int] + 1) by {
                            assert(queue@[k] == old_queue[k]);
                        }
                        assert(bfs_state(s, start, inside@, visited@, depth, queue@, head as int));
                        lemma_bfs_shortest(s, start, inside@, visited@, depth, queue@, head as int, w);
                    }
                }
                return cycle_back(adj, members, &prev, node, Ghost(depth), Ghost(inside@));
            }
            let ni = next.0 as usize;
            if inside[ni] && prev[ni] == none {
                proof {
                    lemma_count_true_set(visited@, ni as int);
                    assert(FileId(ni as u32) == next);
                    assert(FileId(node.0 as int as u32) == node);
                }
                let ghost qb = queue@;
                let ghost old_visited = visited@;
                let ghost old_prev = prev@;
                let ghost old_depth = depth;
                prev.set(ni, node.0);
                visited.set(ni, true);
                proof {
                    depth = depth.update(ni as int, depth[node.0 as int] + 1);
                }
                queue.push(next);
                proof {
                    assert(queue@[queue@.len() - 1] == next);
                    assert forall|y: int| 0 <= y < n && #[trigger] visited@[y] implies queue@.contains(FileId(y as u32)) by {
                        if y != ni {
                            let k = choose|k: int| 0 <= k < qb.len() && qb[k] == FileId(y as u32);
                            assert(queue@[k] == FileId(y as u32));
                        }
                    }
                    assert(old_visited[node.0 as int]);
                    assert(visited_ok(s, start, inside@, old_prev, old_depth, node.0 as int));
                    assert(has_edge(s, node, next));
                    assert(FileId(node.0 as int as u32) == node);
                    lemma_visited_extend(s, start, inside@, old_prev, old_depth, old_visited, ni as int, node.0 as int, prev@, depth, visited@);
                    assert forall|k: int| 0 <= k < qb.len() implies (#[trigger] qb[k]).0 != ni by {
                        assert(old_visited[qb[k].0 as int]);
                    }
                    assert(depth[node.0 as int] == old_depth[node.0 as int]);
                    assert forall|a: int, b: int| #![trigger queue@[a], queue@[b]] 0 <= a <= b < queue@.len() implies
                        depth[queue@[a].0 as int] <= depth[queue@[b].0 as int] by {
                        if b < qb.len() {
                            assert(queue@[a] == qb[a] && queue@[b] == qb[b]);
                            assert(old_depth[qb[a].0 as int] <= old_depth[qb[b].0 as int]);
                        } else if a < qb.len() {
                            assert(queue@[a] == qb[a]);
                            assert(old_depth[qb[a].0 as int] <= old_depth[node.0 as int] + 1);
                        }
                    }
                    assert forall|b: int| 0 <= b < queue@.len() implies depth[(#[trigger] queue@[b]).0 as int] <= depth[node.0 as int] + 1 by {
                        if b < qb.len() {
                            assert(queue@[b] == qb[b]);
                            assert(old_depth[qb[b].0 as int] <= old_depth[node.0 as int] + 1);
                        }
                    }
                    assert forall|k: int, z: FileId| 0 <= k < head && #[trigger] has_edge(s, old_queue[k], z) implies
                        z != start && (inside@[z.0 as int] ==> visited@[z.0 as int] && depth[z.0 as int] <= depth[old_queue[k].0 as int] + 1) by {
                        assert(old_queue[k] == qb[k]);
                        if inside@[z.0 as int] {
                            assert(old_visited[z.0 as int]);
                        }
                    }
                    assert forall|z: FileId| #[trigger] has_edge(s, start, z) implies z != start && (inside@[z.0 as int] ==> visited@[z.0 as int] && depth[z.0 as int] <= 1) by {
                        if inside@[z.0 as int] {
                            assert(old_visited[z.0 as int]);
                        }
                    }
                    assert forall|jj: int| 0 <= jj < j implies (inside@[nbrs@[jj].0 as int] ==> depth[(#[trigger] nbrs@[jj]).0 as int] <= depth[node.0 as int] + 1) by {
                        if inside@[nbrs@[jj].0 as int] {
                            assert(old_visited[nbrs@[jj].0 as int]);
                        }
                    }
                }
            } else if inside[ni] {
                proof {
                    assert(visited@[ni as int]);
                    assert(queue@.contains(FileId(ni as u32)));
                    let k = choose|k: int| 0 <= k < queue@.len() && queue@[k] == FileId(ni as u32);
                    assert(depth[queue@[k].0 as int] <= depth[node.0 as int] + 1);
                }
            }
            j += 1;
        }
        proof {
            assert forall|z: FileId| #[trigger] has_edge(s, queue@[head as int], z) implies
                z != start && (inside@[z.0 as int] ==> visited@[z.0 as int] && depth[z.0 as int] <= depth[queue@[head as int].0 as int] + 1) by {
                let jj = choose|jj: int| 0 <= jj < nbrs@.len() && nbrs@[jj] == z;
                assert(nbrs@[jj] != start);
            }
            assert forall|k: int, z: FileId| 0 <= k < head + 1 && #[trigger] has_edge(s, queue@[k], z) implies
                z != start && (inside@[z.0 as int] ==> visited@[z.0 as int] && depth[z.0 as int] <= depth[queue@[k].0 as int] + 1) by {
                assert(queue@[k] == old_queue[k]);
            }
            if head + 1 < queue@.len() {
                assert forall|b: int| 0 <= b < queue@.len() implies depth[(#[trigger] queue@[b]).0 as int] <= depth[queue@[head + 1].0 as int] + 1 by {
                    assert(depth[queue@[head as int].0 as int] <= depth[queue@[head + 1].0 as int]);
                }
            }
        }
        head += 1;
    }
    proof {
        let w = choose|w: Seq<FileId>| #[trigger] is_walk(s, w) && w.len() >= 2 && w[0] == start && w.last() == start;
        lemma_visited_chain(s, w, start, members@, inside@, visited@, queue@, w.len() - 1);
        assert(visited@[start.0 as int]);
        assert(visited_ok(s, start, inside@, prev@, depth, start.0 as int));
        assert(false);
    }
    let mut r: Vec<FileId> = Vec::new();
    let mut i: usize = 0;
    while i < members.len()
        invariant
            i <= members@.len(),
            r@ == members@.take(i as int),
        decreases members@.len() - i,
    {
        r.push(members[i]);
        i += 1;
    }
    r
}

proof fn lemma_visited_chain(s: Seq<Seq<FileId>>, w: Seq<FileId>, start: FileId, members: Seq<FileId>,
    inside: Seq<bool>, visited: Seq<bool>, queue: Seq<FileId>, k: int)
    requires
        is_walk(s, w),
        w.len() >= 2,
        w[0] == start,
        w.last() == start,
        1 <= k < w.len(),
        ids_in_range(s),
        start.0 < s.len(),
        s.len() <= u32::MAX,
        inside.len() == s.len(),
        visited.len() == s.len(),
        members.len() >= 1,
        members[0] == start,
        forall|u: FileId| u.0 < s.len() ==> (#[trigger] members.contains(u) <==> mutual(s, members[0], u)),
        forall|y: int| 0 <= y < s.len() ==> (#[trigger] inside[y] <==> members.contains(FileId(y as u32))),
        forall|y: int| 0 <= y < s.len() && #[trigger] visited[y] ==> queue.contains(FileId(y as u32)),
        forall|z: FileId| #[trigger] has_edge(s, start, z) ==> z != start && (inside[z.0 as int] ==> visited[z.0 as int]),
        forall|kk: int, z: FileId| 0 <= kk < queue.len() && #[trigger] has_edge(s, queue[kk], z) ==>
            z != start && (inside[z.0 as int] ==> visited[z.0 as int]),
    ensures
        w[k].0 < s.len(),
        visited[w[k].0 as int],
    decreases k,
{
    lemma_walk_step(s, w, k - 1);
    let prev_node = w[k - 1];
    let cur = w[k];
    let ii = choose|ii: int| 0 <= ii < s[prev_node.0 as int].len() && s[prev_node.0 as int][ii] == cur;
    assert(cur.0 < s.len());
    if k < w.len() - 1 {
        lemma_walk_prefix(s, w, k);
        lemma_walk_suffix(s, w, k);
        assert(mutual(s, members[0], cur));
        assert(members.contains(cur));
    } else {
        assert(members[0] == cur);
        assert(members.contains(cur));
    }
    assert(FileId(cur.0 as int as u32) == cur);
    assert(inside[cur.0 as int]);
    if k == 1 {
        assert(has_edge(s, start, cur));
    } else {
        lemma_visited_chain(s, w, start, members, inside, visited, queue, k - 1);
        assert(FileId(prev_node.0 as int as u32) == prev_node);
        assert(queue.contains(prev_node));
        let kk = choose|kk: int| 0 <= kk < queue.len() && queue[kk] == prev_node;
        assert(has_edge(s, queue[kk], cur));
    }
}

/// Follows the search tree back from `node` to the start and closes the cycle.
fn cycle_back(adj: &Adjacency, members: &[FileId], prev: &Vec<u32>, node: FileId,
    Ghost(depth): Ghost<Seq<nat>>, Ghost(inside): Ghost<Seq<bool>>) -> (r: Vec<FileId>)
    requires
        members@.len() >= 1,
        members@[0].0 < adj.succ().len(),
        adj.succ().len() <= u32::MAX,
        prev@.len() == adj.succ().len(),
        inside.len() == adj.succ().len(),
        depth.len() == adj.succ().len(),
        depth[members@[0].0 as int] == 0,
        node.0 < adj.succ().len(),
        prev@[node.0 as int] != u32::MAX,
        has_edge(adj.succ(), node, members@[0]),
        forall|y: int| 0 <= y < adj.succ().len() ==> (#[trigger] inside[y] <==> members@.contains(FileId(y as u32))),
        forall|y: int| 0 <= y < adj.succ().len() && prev@[y] != u32::MAX ==>
            #[trigger] visited_ok(adj.succ(), members@[0], inside, prev@, depth, y),
    ensures
        r@.len() == depth[node.0 as int] + 2,
        is_walk(adj.succ(), r@),
        r@.len() >= 2,
        r@[0] == members@[0],
        r@.last() == members@[0],
        forall|k: int| 0 <= k < r@.len() ==> members@.contains(#[trigger] r@[k]),
{
    let ghost s = adj.succ();
    let start = members[0];
    let n = prev.len();
    let mut path: Vec<FileId> = Vec::new();
    let mut cur = node;
    loop
        invariant_except_break
            path@.len() > 0 ==> has_edge(s, cur, path@.last()),
            path@.len() + depth[cur.0 as int] == depth[node.0 as int],
        invariant
            n == s.len(),
            n <= u32::MAX,
            start == members@[0],
            members@.len() >= 1,
            start.0 < n,
            prev@.len() == n,
            inside.len() == n,
            depth.len() == n,
            depth[start.0 as int] == 0,
            cur.0 < n,
            cur == start || prev@[cur.0 as int] != u32::MAX,
            forall|y: int| 0 <= y < n ==> (#[trigger] inside[y] <==> members@.contains(FileId(y as u32))),
            forall|y: int| 0 <= y < n && prev@[y] != u32::MAX ==> #[trigger] visited_ok(s, start, inside, prev@, depth, y),
            path@.len() == 0 ==> cur == node,
            path@.len() > 0 ==> path@[0] == node,
            forall|k: int| 0 <= k < path@.len() - 1 ==> #[trigger] has_edge(s, path@[k + 1], path@[k]),
            forall|k: int| 0 <= k < path@.len() ==> members@.contains(#[trigger] path@[k]),
        ensures
            path@.len() >= 1,
            path@.len() == depth[node.0 as int] + 1,
            path@[0] == node,
            path@.last() == start,
            forall|k: int| 0 <= k < path@.len() - 1 ==> #[trigger] has_edge(s, path@[k + 1], path@[k]),
            forall|k: int| 0 <= k < path@.len() ==> members@.contains(#[trigger] path@[k]),
        decreases depth[cur.0 as int],
    {
        proof {
            if cur != start {
                assert(visited_ok(s, start, inside, prev@, depth, cur.0 as int));
                assert(FileId(cur.0 as int as u32) == cur);
            } else {
                assert(members@[0] == start);
                assert(members@.contains(start));
            }
        }
        let ghost before = path@;
        path.push(cur);
        proof {
            assert forall|k: int| 0 <= k < path@.len() - 1 implies #[trigger] has_edge(s, path@[k + 1], path@[k]) by {
                if k < before.len() - 1 {
                    assert(path@[k] == before[k] && path@[k + 1] == before[k + 1]);
                } else {
                    assert(path@[k + 1] == cur);
                    assert(path@[k] == before.last());
                }
            }
        }
        if cur.0 == start.0 {
            assert(cur == start);
            break;
        }
        let ghost old_cur = cur;
        cur = FileId(prev[cur.0 as usize]);
        proof {
            assert(visited_ok(s, start, inside, prev@, depth, old_cur.0 as int));
        }
    }
    let mut r: Vec<FileId> = Vec::new();
    let mut i = path.len();
    while i > 0
        invariant
            i <= path@.len(),
            path@.len() >= 1,
            r@.len() == path@.len() - i,
            forall|k: int| 0 <= k < r@.len() ==> r@[k] == path@[path@.len() - 1 - k],
        decreases i,
    {
        i -= 1;
        r.push(path[i]);
    }
    r.push(start);
    proof {
        let l = path@.len();
        assert forall|k: int| 0 <= k < r@.len() - 1 implies #[trigger] has_edge(s, r@[k], r@[k + 1]) by {
            if k < l - 1 {
                let j = l - 2 - k;
                assert(has_edge(s, path@[j + 1], path@[j]));
                assert(r@[k] == path@[j + 1]);
                assert(r@[k + 1] == path@[j]);
            } else {
                assert(r@[k] == path@[0]);
            }
        }
        assert forall|k: int| 0 <= k < r@.len() implies members@.contains(#[trigger] r@[k]) by {
            if k < l {
                assert(r@[k] == path@[l - 1 - k]);
            } else {
                assert(members@.contains(start));
            }
        }
    }
    r
}

pub proof fn lemma_ids_where(n: nat, keep: spec_fn(FileId) -> bool)
    requires
        n <= u32::MAX,
    ensures
        strictly_sorted(ids_where(n, keep)),
        forall|k: int| 0 <= k < ids_where(n, keep).len() ==> (#[trigger] ids_where(n, keep)[k]).0 < n,
        forall|u: FileId| #[trigger] ids_where(n, keep).contains(u) <==> (u.0 < n && keep(u)),
    decreases n,
{
    if n > 0 {
        let m = (n - 1) as nat;
        lemma_ids_where(m, keep);
        let prev = ids_where(m, keep);
        let last = FileId(m as u32);
        if keep(last) {
            let cur = prev.push(last);
            assert forall|u: FileId| #[trigger] cur.contains(u) <==> (u.0 < n && keep(u)) by {
                if cur.contains(u) {
                    let k = choose|k: int| 0 <= k < cur.len() && cur[k] == u;
                    if k < prev.len() {
                        assert(prev.contains(u));
                    }
                }
                if u.0 < n && keep(u) {
                    if u.0 < m {
                        assert(prev.contains(u));
                        let k = choose|k: int| 0 <= k < prev.len() && prev[k] == u;
                        assert(cur[k] == u);
                    } else {
                        assert(u == last);
                        assert(cur[cur.len() - 1] == u);
                    }
                }
            }
        }
    }
}

/// `members` is a whole tangle: at least two files that all reach one another,
/// ascending, and every file that reaches and is reached by the first is in it;
/// `example` is a cycle through the first member that stays inside the tangle,
/// and no such cycle is shorter.
pub open spec fn is_tangle_of(s: Seq<Seq<FileId>>, members: Seq<FileId>, example: Seq<FileId>) -> bool {
    &&& members.len() >= 2
    &&& strictly_sorted(members)
    &&& forall|k: int| 0 <= k < members.len() ==> (#[trigger] members[k]).0 < s.len()
    &&& forall|u: FileId| u.0 < s.len() ==> (#[trigger] members.contains(u) <==> mutual(s, members[0], u))
    &&& is_walk(s, example)
    &&& example.len() >= 2
    &&& example[0] == members[0]
    &&& example.last() == members[0]
    &&& forall|k: int| 0 <= k < example.len() ==> members.contains(#[trigger] example[k])
    &&& forall|w: Seq<FileId>| #[trigger] cycle_within(s, members, w) ==> example.len() <= w.len()
}

/// A group of files that all (transitively) depend on one another.
#[derive(Debug, Clone, PartialEq, Eq)]
pub struct Tangle {
    /// The files of the group, ascending.
    pub members: Vec<FileId>,
    /// One shortest cycle through the first member, first member repeated at the end.
    pub example: Vec<FileId>,
}

proof fn lemma_single_seed(s: Seq<Seq<FileId>>, v: FileId, u: FileId)
    ensures
        reached_from(s, seq![v], u) <==> reaches(s, v, u),
{
    if reaches(s, v, u) {
        assert(seq![v][0] == v);
    }
}

/// Every tangle of the graph, ordered by first member.
pub fn tangles(adj: &Adjacency) -> (r: Vec<Tangle>)
    ensures
        forall|i: int| 0 <= i < r@.len() ==> #[trigger] is_tangle_of(adj.succ(), r@[i].members@, r@[i].example@),
        forall|i: int, j: int| 0 <= i < j < r@.len() ==> (#[trigger] r@[i].members@[0]).0 < (#[trigger] r@[j].members@[0]).0,
        forall|v: FileId, u: FileId| v.0 < adj.succ().len() && u != v && #[trigger] mutual(adj.succ(), v, u) ==>
            exists|i: int| 0 <= i < r@.len() && #[trigger] r@[i].members@.contains(v),
{
    proof {
        use_type_invariant(adj);
    }
    let ghost s = adj.succ();
    let ghost p = adj.pred();
    let n = adj.out.len();
    let alive = cycle_candidates(adj);
    let mut assigned: Vec<bool> = vec![false; n];
    let mut out: Vec<Tangle> = Vec::new();
    let mut v: usize = 0;
    while v < n
        invariant
            n == s.len(),
            n <= u32::MAX,
            s == adj.succ(),
            p == adj.pred(),
            adj_wf(s, p),
            alive@.len() == n,
            forall|x: int| 0 <= x < n && on_cycle(s, FileId(x as u32)) ==> #[trigger] alive@[x],
            assigned@.len() == n,
            v <= n,
            forall|x: int| 0 <= x < n ==> (#[trigger] assigned@[x] <==>
                exists|w: FileId| w.0 < v && #[trigger] mutual(s, w, FileId(x as u32))),
            forall|i: int| 0 <= i < out@.len() ==> #[trigger] is_tangle_of(s, out@[i].members@, out@[i].example@),
            forall|i: int| 0 <= i < out@.len() ==> (#[trigger] out@[i].members@[0]).0 < v,
            forall|i: int, j: int| 0 <= i < j < out@.len() ==> (#[trigger] out@[i].members@[0]).0 < (#[trigger] out@[j].members@[0]).0,
            forall|x: FileId, u: FileId| x.0 < v && u != x && #[trigger] mutual(s, x, u) ==>
                exists|i: int| 0 <= i < out@.len() && #[trigger] out@[i].members@.contains(x),
        decreases n - v,
    {
        let ghost fv = FileId(v as u32);
        let ghost before_assigned = assigned@;
        let ghost before_out = out@;
        if alive[v] && !assigned[v] {
            let seeds = vec![FileId(v as u32)];
            let fwd = reach_marks(&adj.out, seeds.as_slice());
            if fwd[v] {
                let bwd = reach_marks(&adj.inc, seeds.as_slice());
                proof {
                    assert(seeds@ == seq![fv]);
                    lemma_single_seed(s, fv, fv);
                    assert(reaches(s, fv, fv));
                }
                let ghost keep = |u: FileId| mutual(s, fv, u);
                let mut members: Vec<FileId> = Vec::new();
                let mut u: usize = 0;
                while u < n
                    invariant
                        n == s.len(),
                        n <= u32::MAX,
                        s == adj.succ(),
                        p == adj.pred(),
                        adj_wf(s, p),
                        v < n,
                        fv == FileId(v as u32),
                        seeds@ == seq![fv],
                        fwd@.len() == n,
                        bwd@.len() == n,
                        forall|y: int| 0 <= y < n ==> (#[trigger] fwd@[y] <==> reached_from(s, seeds@, FileId(y as u32))),
                        forall|y: int| 0 <= y < n ==> (#[trigger] bwd@[y] <==> reached_from(p, seeds@, FileId(y as u32))),
                        keep == (|w: FileId| mutual(s, fv, w)),
                        u <= n,
                        members@ == ids_where(u as nat, keep),
                        assigned@.len() == n,
                        forall|x: int| 0 <= x < n ==> (#[trigger] assigned@[x] <==>
                            (before_assigned[x] || (x < u && mutual(s, fv, FileId(x as u32))))),
                    decreases n - u,
                {
                    proof {
                        let fu = FileId(u as u32);
                        lemma_single_seed(s, fv, fu);
                        lemma_single_seed(p, fv, fu);
                        if reaches(p, fv, fu) {
                            lemma_reaches_reversed(s, p, fv, fu);
                        }
                        if reaches(s, fu, fv) {
                            lemma_reaches_reversed_back(s, p, fv, fu);
                        }
                        assert(fwd@[u as int] && bwd@[u as int] <==> keep(fu));
                    }
                    if fwd[u] && bwd[u] {
                        members.push(FileId(u as u32));
                        assigned.set(u, true);
                    }
                    u += 1;
                }
                proof {
                    lemma_ids_where(n as nat, keep);
                    assert(members@.contains(fv));
                    assert forall|k: int| 0 <= k < members@.len() implies (#[trigger] members@[k]).0 >= v by {
                        let w = members@[k];
                        assert(members@.contains(w));
                        if w.0 < v {
                            lemma_mutual_cycle(s, fv, w);
                            assert(mutual(s, w, fv));
                            assert(before_assigned[v as int]);
                        }
                    }
                    let k0 = choose|k: int| 0 <= k < members@.len() && members@[k] == fv;
                    if k0 > 0 {
                        assert(members@[0].0 < members@[k0].0);
                    }
                    assert(members@[0] == fv);
                }
                let ghost mem = members@;
                if members.len() > 1 {
                    let example = shortest_cycle_within(adj, members.as_slice());
                    out.push(Tangle { members, example });
                }
                proof {
                    lemma_after_group(s, fv, v as int, n as int, before_assigned, assigned@, before_out, out@, mem);
                }
            } else {
                proof {
                    lemma_single_seed(s, fv, fv);
                    lemma_not_on_cycle_alone(s, fv, before_assigned, v as int, n as int);
                    lemma_step_unchanged(s, fv, before_assigned, v as int, n as int, out@);
                    assert forall|i: int| 0 <= i < out@.len() implies (#[trigger] out@[i].members@[0]).0 < v + 1 by {
                        assert(out@[i].members@[0].0 < v);
                    }
                }
            }
        } else {
            proof {
                if !before_assigned[v as int] {
                    assert(!alive@[v as int]);
                    assert(!on_cycle(s, fv));
                }
                lemma_step_unchanged(s, fv, before_assigned, v as int, n as int, out@);
                assert forall|i: int| 0 <= i < out@.len() implies (#[trigger] out@[i].members@[0]).0 < v + 1 by {
                    assert(out@[i].members@[0].0 < v);
                }
            }
        }
        v += 1;
    }
    out
}

/// The (from-module, to-module) pair an edge rolls up to, if it crosses modules:
/// co-change edges, edges to unknown files and edges inside one module have none.
pub open spec fn module_pair(files: Seq<crate::model::FileNode>, e: Edge) -> Option<(u32, u32)> {
    if e.kind != EdgeKind::CoChange && e.from.0 < files.len() && e.to.0 < files.len()
        && files[e.from.0 as int].module != files[e.to.0 as int].module {
        Some((files[e.from.0 as int].module.0, files[e.to.0 as int].module.0))
    } else {
        None
    }
}

/// How many of `edges` roll up to the module pair `(a, b)`.
pub open spec fn pair_count(files: Seq<crate::model::FileNode>, edges: Seq<Edge>, a: u32, b: u32) -> nat
    decreases edges.len(),
{
    if edges.len() == 0 {
        0
    } else {
        pair_count(files, edges.drop_last(), a, b) + if module_pair(files, edges.last()) == Some((a, b)) { 1nat } else { 0nat }
    }
}

/// Lexicographic order on module pairs.
pub open spec fn pair_lt(x: (ModuleId, ModuleId, u32), y: (ModuleId, ModuleId, u32)) -> bool {
    x.0.0 < y.0.0 || (x.0.0 == y.0.0 && x.1.0 < y.1.0)
}

/// Edges between modules: each ordered pair of distinct modules that some
/// non-co-change edge connects, with how many edges connect them, ascending by pair.
pub fn module_edges(graph: &Graph) -> (r: Vec<(ModuleId, ModuleId, u32)>)
    requires
        graph.edges@.len() <= u32::MAX,
    ensures
        forall|i: int, j: int| 0 <= i < j < r@.len() ==> pair_lt(#[trigger] r@[i], #[trigger] r@[j]),
        forall|i: int| 0 <= i < r@.len() ==> (#[trigger] r@[i]).2 > 0
            && r@[i].2 == pair_count(graph.files@, graph.edges@, r@[i].0.0, r@[i].1.0),
        forall|a: u32, b: u32| #[trigger] pair_count(graph.files@, graph.edges@, a, b) > 0 ==>
            exists|i: int| 0 <= i < r@.len() && r@[i].0.0 == a && r@[i].1.0 == b,
{
    let ghost files = graph.files@;
    let ghost edges = graph.edges@;
    let mut out: Vec<(ModuleId, ModuleId, u32)> = Vec::new();
    let mut k: usize = 0;
    while k < graph.edges.len()
        invariant
            files == graph.files@,
            edges == graph.edges@,
            edges.len() <= u32::MAX,
            k <= edges.len(),
            forall|i: int, j: int| 0 <= i < j < out@.len() ==> pair_lt(#[trigger] out@[i], #[trigger] out@[j]),
            forall|i: int| 0 <= i < out@.len() ==> (#[trigger] out@[i]).2 > 0
                && out@[i].2 == pair_count(files, edges.take(k as int), out@[i].0.0, out@[i].1.0),
            forall|a: u32, b: u32| #[trigger] pair_count(files, edges.take(k as int), a, b) > 0 ==>
                exists|i: int| 0 <= i < out@.len() && out@[i].0.0 == a && out@[i].1.0 == b,
            forall|a: u32, b: u32| #[trigger] pair_count(files, edges.take(k as int), a, b) <= k,
        decreases edges.len() - k,
    {
        let e = graph.edges[k];
        let ghost pre = edges.take(k as int);
        let ghost post = edges.take(k + 1);
        assert(post.drop_last() == pre);
        assert(post.last() == e);
        let mut key: Option<(u32, u32)> = None;
        if e.kind != EdgeKind::CoChange {
            match (graph.file(e.from), graph.file(e.to)) {
                (Some(f), Some(t)) => {
                    if f.module != t.module {
                        key = Some((f.module.0, t.module.0));
                    }
                },
                _ => {},
            }
        }
        assert(key == module_pair(files, e));
        let ghost before = out@;
        match key {
            None => {
                assert forall|a: u32, b: u32| #[trigger] pair_count(files, post, a, b) == pair_count(files, pre, a, b) by {}
            },
            Some((a, b)) => {
                let mut i: usize = 0;
                while i < out.len() && (out[i].0.0 < a || (out[i].0.0 == a && out[i].1.0 < b))
                    invariant
                        i <= out@.len(),
                        out@ == before,
                        forall|j: int| 0 <= j < i ==> pair_lt(out@[j], (ModuleId(a), ModuleId(b), 0u32)),
                    decreases out@.len() - i,
                {
                    i += 1;
                }
                if i < out.len() && out[i].0.0 == a && out[i].1.0 == b {
                    let c = out[i].2;
                    assert(c == pair_count(files, pre, a, b));
                    assert(c <= k);
                    out.set(i, (out[i].0, out[i].1, c + 1));
                    assert forall|x: int| 0 <= x < out@.len() implies (#[trigger] out@[x]).2 > 0
                        && out@[x].2 == pair_count(files, post, out@[x].0.0, out@[x].1.0) by {
                        if x != i {
                            assert(out@[x] == before[x]);
                            if out@[x].0.0 == a && out@[x].1.0 == b {
                                if x < i {
                                    assert(pair_lt(before[x], before[i as int]));
                                } else {
                                    assert(pair_lt(before[i as int], before[x]));
                                }
                            }
                        }
                    }
                    assert forall|a2: u32, b2: u32| #[trigger] pair_count(files, post, a2, b2) > 0 implies
                        exists|x: int| 0 <= x < out@.len() && out@[x].0.0 == a2 && out@[x].1.0 == b2 by {
                        if a2 == a && b2 == b {
                            assert(out@[i as int].0.0 == a2);
                        } else {
                            assert(pair_count(files, pre, a2, b2) > 0);
                            let x = choose|x: int| 0 <= x < before.len() && before[x].0.0 == a2 && before[x].1.0 == b2;
                            assert(out@[x].0.0 == a2);
                        }
                    }
                } else {
                    assert(pair_count(files, pre, a, b) == 0) by {
                        if pair_count(files, pre, a, b) > 0 {
                            let x = choose|x: int| 0 <= x < before.len() && before[x].0.0 == a && before[x].1.0 == b;
                            if x < i {
                                assert(pair_lt(before[x], (ModuleId(a), ModuleId(b), 0u32)));
                            } else if x > i {
                                assert(pair_lt(before[i as int], before[x]));
                            }
                        }
                    }
                    out.insert(i, (ModuleId(a), ModuleId(b), 1u32));
                    assert forall|x: int, y: int| 0 <= x < y < out@.len() implies pair_lt(#[trigger] out@[x], #[trigger] out@[y]) by {
                        if y < i {
                            assert(out@[x] == before[x] && out@[y] == before[y]);
                        } else if y == i {
                            assert(out@[x] == before[x]);
                        } else if x < i {
                            assert(out@[x] == before[x] && out@[y] == before[y - 1]);
                            assert(pair_lt(before[i as int], before[y - 1]) || y - 1 == i);
                        } else if x == i {
                            assert(out@[y] == before[y - 1]);
                            assert(pair_lt(before[i as int], before[y - 1]) || y - 1 == i);
                        } else {
                            assert(out@[x] == before[x - 1] && out@[y] == before[y - 1]);
                        }
                    }
                    assert forall|x: int| 0 <= x < out@.len() implies (#[trigger] out@[x]).2 > 0
                        && out@[x].2 == pair_count(files, post, out@[x].0.0, out@[x].1.0) by {
                        if x < i {
                            assert(out@[x] == before[x]);
                            assert(pair_lt(before[x], (ModuleId(a), ModuleId(b), 0u32)));
                        } else if x > i {
                            assert(out@[x] == before[x - 1]);
                            assert(pair_lt(before[i as int], before[x - 1]) || x - 1 == i);
                        }
                    }
                    assert forall|a2: u32, b2: u32| #[trigger] pair_count(files, post, a2, b2) > 0 implies
                        exists|x: int| 0 <= x < out@.len() && out@[x].0.0 == a2 && out@[x].1.0 == b2 by {
                        if a2 == a && b2 == b {
                            assert(out@[i as int].0.0 == a2);
                        } else {
                            assert(pair_count(files, pre, a2, b2) > 0);
                            let x = choose|x: int| 0 <= x < before.len() && before[x].0.0 == a2 && before[x].1.0 == b2;
                            if x < i {
                                assert(out@[x] == before[x]);
                            } else {
                                assert(out@[x + 1] == before[x]);
                            }
                        }
                    }
                }
            },
        }
        k += 1;
    }
    assert(edges.take(edges.len() as int) == edges);
    out
}

/// `y` is among the first `k + 1` entries of the stack.
spec fn in_prefix(st: Seq<FileId>, y: FileId, k: int) -> bool {
    exists|j: int| 0 <= j <= k && j < st.len() && st[j] == y
}

/// Every processed successor of each stack entry is finished or on the stack at
/// or below that entry, or is the entry just above it.
spec fn stack_children_ok(s: Seq<Seq<FileId>>, st: Seq<FileId>, sc: Seq<usize>, order: Seq<FileId>) -> bool {
    forall|k: int, c: int| 0 <= k < st.len() && 0 <= c < sc[k] ==>
        order.contains(#[trigger] s[st[k].0 as int][c]) || in_prefix(st, s[st[k].0 as int][c], k)
            || (k + 1 < st.len() && st[k + 1] == s[st[k].0 as int][c])
}

/// Every successor of a finished node finished earlier or reaches it back.
spec fn finished_ok(s: Seq<Seq<FileId>>, order: Seq<FileId>) -> bool {
    forall|i: int, y: FileId| 0 <= i < order.len() && #[trigger] has_edge(s, order[i], y) ==>
        (exists|j: int| 0 <= j < i && order[j] == y) || reaches(s, y, order[i])
}

proof fn lemma_stack_reaches(s: Seq<Seq<FileId>>, st: Seq<FileId>, j: int, k: int)
    requires
        0 <= j < k < st.len(),
        forall|x: int| 0 <= x < st.len() - 1 ==> #[trigger] has_edge(s, st[x], st[x + 1]),
    ensures
        reaches(s, st[j], st[k]),
    decreases k - j,
{
    assert(has_edge(s, st[k - 1], st[(k - 1) + 1]));
    if j == k - 1 {
        lemma_edge_reaches(s, st[j], st[k]);
    } else {
        lemma_stack_reaches(s, st, j, k - 1);
        lemma_reaches_step(s, st[j], st[k - 1], st[k]);
    }
}

/// Every id below `n`, ordered by how many files depend on it, ties by id.
fn roots_by_fan_in(adj: &Adjacency) -> (r: Vec<FileId>)
    ensures
        forall|k: int| 0 <= k < r@.len() ==> (#[trigger] r@[k]).0 < adj.succ().len(),
        forall|y: int| 0 <= y < adj.succ().len() ==> #[trigger] r@.contains(FileId(y as u32)),
{
    let n = adj.len();
    let mut maxf: usize = 0;
    let mut i: usize = 0;
    while i < n
        invariant
            n == adj.pred().len(),
            n <= u32::MAX,
            i <= n,
            forall|y: int| 0 <= y < i ==> #[trigger] adj.pred()[y].len() <= maxf,
        decreases n - i,
    {
        let f = adj.fan_in(FileId(i as u32));
        assert(FileId(i as u32).0 == i);
        if f > maxf {
            maxf = f;
        }
        i += 1;
    }
    let mut out: Vec<FileId> = Vec::new();
    let mut f: usize = 0;
    loop
        invariant
            n == adj.pred().len(),
            n == adj.succ().len(),
            n <= u32::MAX,
            f <= maxf,
            forall|y: int| 0 <= y < n ==> #[trigger] adj.pred()[y].len() <= maxf,
            forall|k: int| 0 <= k < out@.len() ==> (#[trigger] out@[k]).0 < n,
            forall|y: int| 0 <= y < n && adj.pred()[y].len() < f ==> #[trigger] out@.contains(FileId(y as u32)),
        ensures
            forall|k: int| 0 <= k < out@.len() ==> (#[trigger] out@[k]).0 < n,
            forall|y: int| 0 <= y < n ==> #[trigger] out@.contains(FileId(y as u32)),
        decreases maxf - f,
    {
        let mut i: usize = 0;
        while i < n
            invariant
                n == adj.pred().len(),
                n == adj.succ().len(),
                n <= u32::MAX,
                i <= n,
                forall|k: int| 0 <= k < out@.len() ==> (#[trigger] out@[k]).0 < n,
                forall|y: int| 0 <= y < n && adj.pred()[y].len() < f ==> #[trigger] out@.contains(FileId(y as u32)),
                forall|y: int| 0 <= y < i && adj.pred()[y].len() == f ==> #[trigger] out@.contains(FileId(y as u32)),
            decreases n - i,
        {
            let ghost before = out@;
            assert(FileId(i as u32).0 == i);
            if adj.fan_in(FileId(i as u32)) == f {
                out.push(FileId(i as u32));
            }
            proof {
                assert forall|y: int| 0 <= y < n && (adj.pred()[y].len() < f || (y < i + 1 && adj.pred()[y].len() == f))
                    implies #[trigger] out@.contains(FileId(y as u32)) by {
                    if y < i || adj.pred()[y].len() < f {
                        assert(before.contains(FileId(y as u32)));
                        let k = choose|k: int| 0 <= k < before.len() && before[k] == FileId(y as u32);
                        assert(out@[k] == before[k]);
                    } else {
                        assert(out@[out@.len() - 1] == FileId(y as u32));
                    }
                }
            }
            i += 1;
        }
        if f == maxf {
            break;
        }
        f += 1;
    }
    out
}

/// The files in dependency order: each file comes after what it depends on,
/// except where a cycle makes that impossible.
pub fn dsm_order(adj: &Adjacency) -> (r: Vec<FileId>)
    ensures
        forall|k: int| 0 <= k < r@.len() ==> (#[trigger] r@[k]).0 < adj.succ().len(),
        forall|y: int| 0 <= y < adj.succ().len() ==> #[trigger] r@.contains(FileId(y as u32)),
        forall|i: int, j: int| 0 <= i < j < r@.len() ==> r@[i] != r@[j],
        forall|i: int, j: int| 0 <= i < j < r@.len() && #[trigger] has_edge(adj.succ(), r@[i], r@[j]) ==>
            reaches(adj.succ(), r@[j], r@[i]),
{
    proof {
        use_type_invariant(adj);
    }
    let ghost s = adj.succ();
    let n = adj.out.len();
    let roots = roots_by_fan_in(adj);
    let mut visited: Vec<bool> = vec![false; n];
    let mut order: Vec<FileId> = Vec::new();
    let mut st: Vec<FileId> = Vec::new();
    let mut sc: Vec<usize> = Vec::new();
    proof {
        lemma_count_true_none(visited@);
    }
    let mut ri: usize = 0;
    while ri < roots.len()
        invariant
            n == s.len(),
            n <= u32::MAX,
            s == adj.succ(),
            adj_wf(s, adj.pred()),
            forall|k: int| 0 <= k < roots@.len() ==> (#[trigger] roots@[k]).0 < n,
            forall|y: int| 0 <= y < n ==> #[trigger] roots@.contains(FileId(y as u32)),
            ri <= roots@.len(),
            visited@.len() == n,
            st@.len() == 0,
            sc@.len() == 0,
            forall|k: int| 0 <= k < ri ==> visited@[(#[trigger] roots@[k]).0 as int],
            forall|k: int| 0 <= k < order@.len() ==> (#[trigger] order@[k]).0 < n,
            forall|a: int, b: int| 0 <= a < b < order@.len() ==> order@[a] != order@[b],
            forall|y: int| 0 <= y < n ==> (#[trigger] visited@[y] <==> order@.contains(FileId(y as u32))),
            finished_ok(s, order@),
            count_true(visited@) <= n,
        decreases roots@.len() - ri,
    {
        let start = roots[ri];
        if !visited[start.0 as usize] {
            proof {
                lemma_count_true_set(visited@, start.0 as int);
            }
            visited.set(start.0 as usize, true);
            st.push(start);
            sc.push(0);
            proof {
                assert(FileId(start.0 as int as u32) == start);
                assert(st@[0] == start);
                assert forall|y: int| 0 <= y < n implies (#[trigger] visited@[y] <==>
                    (order@.contains(FileId(y as u32)) || st@.contains(FileId(y as u32)))) by {
                    if y == start.0 {
                        assert(st@.contains(FileId(y as u32)));
                    }
                }
                lemma_count_true_le(visited@);
            }
            let ghost pre_visited = visited@;
            while st.len() > 0
                invariant
                    n == s.len(),
                    n <= u32::MAX,
                    s == adj.succ(),
                    adj_wf(s, adj.pred()),
                    visited@.len() == n,
                    count_true(visited@) <= n,
                    st@.len() == sc@.len(),
                    st@.len() <= count_true(visited@),
                    forall|k: int| 0 <= k < order@.len() ==> (#[trigger] order@[k]).0 < n,
                    forall|k: int| 0 <= k < st@.len() ==> (#[trigger] st@[k]).0 < n,
                    forall|k: int| 0 <= k < st@.len() ==> #[trigger] sc@[k] <= s[st@[k].0 as int].len(),
                    forall|a: int, b: int| 0 <= a < b < order@.len() ==> order@[a] != order@[b],
                    forall|a: int, b: int| 0 <= a < b < st@.len() ==> st@[a] != st@[b],
                    forall|a: int, b: int| 0 <= a < order@.len() && 0 <= b < st@.len() ==> order@[a] != st@[b],
                    forall|y: int| 0 <= y < n ==> (#[trigger] visited@[y] <==>
                        (order@.contains(FileId(y as u32)) || st@.contains(FileId(y as u32)))),
                    forall|x: int| 0 <= x < st@.len() - 1 ==> #[trigger] has_edge(s, st@[x], st@[x + 1]),
                    stack_children_ok(s, st@, sc@, order@),
                    finished_ok(s, order@),
                    ri < roots@.len(),
                    pre_visited.len() == n,
                    pre_visited[start.0 as int],
                    forall|k: int| 0 <= k < ri ==> pre_visited[(#[trigger] roots@[k]).0 as int],
                    forall|y: int| 0 <= y < n && #[trigger] pre_visited[y] ==> visited@[y],
                decreases 2 * (n - count_true(visited@)) + st@.len(),
            {
                let top = st.len() - 1;
                let v = st[top];
                let nbrs = &adj.out[v.0 as usize];
                assert(nbrs@ == s[v.0 as int]);
                let mut c = sc[top];
                while c < nbrs.len() && visited[nbrs[c].0 as usize]
                    invariant
                        n == s.len(),
                        visited@.len() == n,
                        nbrs@ == s[v.0 as int],
                        v == st@[top as int],
                        top == st@.len() - 1,
                        st@.len() == sc@.len(),
                        v.0 < n,
                        adj_wf(s, adj.pred()),
                        sc@[top as int] <= c <= nbrs@.len(),
                        forall|y: int| 0 <= y < n ==> (#[trigger] visited@[y] <==>
                            (order@.contains(FileId(y as u32)) || st@.contains(FileId(y as u32)))),
                        forall|cc: int| sc@[top as int] <= cc < c ==> order@.contains(#[trigger] nbrs@[cc])
                            || in_prefix(st@, nbrs@[cc], top as int),
                    decreases nbrs@.len() - c,
                {
                    proof {
                        let y = nbrs@[c as int];
                        assert(s[v.0 as int][c as int] == y);
                        assert(y.0 < n);
                        assert(FileId(y.0 as int as u32) == y);
                        if !order@.contains(y) {
                            assert(st@.contains(y));
                            let j = choose|j: int| 0 <= j < st@.len() && st@[j] == y;
                            assert(in_prefix(st@, y, top as int));
                        }
                    }
                    c += 1;
                }
                if c < nbrs.len() {
                    let w = nbrs[c];
                    assert(s[v.0 as int][c as int] == w);
                    assert(w.0 < n);
                    let ghost old_st = st@;
                    let ghost old_sc = sc@;
                    let ghost old_visited = visited@;
                    proof {
                        lemma_count_true_set(visited@, w.0 as int);
                        assert(FileId(w.0 as int as u32) == w);
                        assert(!st@.contains(w));
                        assert(!order@.contains(w));
                    }
                    sc.set(top, c + 1);
                    visited.set(w.0 as usize, true);
                    st.push(w);
                    sc.push(0);
                    proof {
                        lemma_count_true_le(visited@);
                        assert forall|y: int| 0 <= y < n && #[trigger] pre_visited[y] implies visited@[y] by {
                            assert(old_visited[y]);
                        }
                        assert forall|y: int| 0 <= y < n implies (#[trigger] visited@[y] <==>
                            (order@.contains(FileId(y as u32)) || st@.contains(FileId(y as u32)))) by {
                            if y == w.0 {
                                assert(st@[st@.len() - 1] == w);
                            } else {
                                assert(visited@[y] == old_visited[y]);
                                if old_st.contains(FileId(y as u32)) {
                                    let j = choose|j: int| 0 <= j < old_st.len() && old_st[j] == FileId(y as u32);
                                    assert(st@[j] == FileId(y as u32));
                                }
                                if st@.contains(FileId(y as u32)) {
                                    let j = choose|j: int| 0 <= j < st@.len() && st@[j] == FileId(y as u32);
                                    if j < old_st.len() {
                                        assert(old_st[j] == FileId(y as u32));
                                    }
                                }
                            }
                        }
                        assert forall|x: int| 0 <= x < st@.len() - 1 implies #[trigger] has_edge(s, st@[x], st@[x + 1]) by {
                            if x < old_st.len() - 1 {
                                assert(st@[x] == old_st[x] && st@[x + 1] == old_st[x + 1]);
                            } else {
                                assert(st@[x] == v && st@[x + 1] == w);
                            }
                        }
                        assert forall|k: int, cc: int| 0 <= k < st@.len() && 0 <= cc < sc@[k] implies
                            order@.contains(#[trigger] s[st@[k].0 as int][cc]) || in_prefix(st@, s[st@[k].0 as int][cc], k)
                                || (k + 1 < st@.len() && st@[k + 1] == s[st@[k].0 as int][cc]) by {
                            if k < top {
                                assert(st@[k] == old_st[k] && sc@[k] == old_sc[k]);
                                let y = s[st@[k].0 as int][cc];
                                if in_prefix(old_st, y, k) {
                                    let j = choose|j: int| 0 <= j <= k && j < old_st.len() && old_st[j] == y;
                                    assert(st@[j] == y);
                                }
                                if k + 1 < old_st.len() && old_st[k + 1] == y {
                                    assert(st@[k + 1] == y);
                                }
                            } else if k == top {
                                let y = s[st@[k].0 as int][cc];
                                if cc < c {
                                    if in_prefix(old_st, y, k) {
                                        let j = choose|j: int| 0 <= j <= k && j < old_st.len() && old_st[j] == y;
                                        assert(st@[j] == y);
                                    }
                                    if cc < old_sc[k] && k + 1 < old_st.len() {
                                    }
                                } else {
                                    assert(st@[k + 1] == w);
                                }
                            }
                        }
                    }
                } else {
                    let ghost old_st = st@;
                    let ghost old_sc = sc@;
                    let ghost old_order = order@;
                    st.pop();
                    sc.pop();
                    order.push(v);
                    proof {
                        assert(st@ == old_st.drop_last());
                        assert(order@[order@.len() - 1] == v);
                        assert forall|y: FileId| #[trigger] has_edge(s, v, y) implies
                            (exists|j: int| 0 <= j < order@.len() - 1 && order@[j] == y) || reaches(s, y, v) by {
                            let cc = choose|cc: int| 0 <= cc < nbrs@.len() && nbrs@[cc] == y;
                            if cc < old_sc[top as int] {
                                assert(old_order.contains(s[old_st[top as int].0 as int][cc])
                                    || in_prefix(old_st, s[old_st[top as int].0 as int][cc], top as int)
                                    || (top + 1 < old_st.len() && old_st[top + 1] == s[old_st[top as int].0 as int][cc]));
                            }
                            if old_order.contains(y) {
                                let j = choose|j: int| 0 <= j < old_order.len() && old_order[j] == y;
                                assert(order@[j] == y);
                            } else {
                                let j = choose|j: int| 0 <= j <= top && j < old_st.len() && old_st[j] == y;
                                if j == top {
                                    lemma_edge_reaches(s, v, v);
                                } else {
                                    lemma_stack_reaches(s, old_st, j, top as int);
                                }
                            }
                        }
                        assert forall|i: int, y: FileId| 0 <= i < order@.len() && #[trigger] has_edge(s, order@[i], y) implies
                            (exists|j: int| 0 <= j < i && order@[j] == y) || reaches(s, y, order@[i]) by {
                            if i < old_order.len() {
                                assert(order@[i] == old_order[i]);
                                if exists|j: int| 0 <= j < i && old_order[j] == y {
                                    let j = choose|j: int| 0 <= j < i && old_order[j] == y;
                                    assert(order@[j] == y);
                                }
                            }
                        }
                        assert forall|y: int| 0 <= y < n implies (#[trigger] visited@[y] <==>
                            (order@.contains(FileId(y as u32)) || st@.contains(FileId(y as u32)))) by {
                            if old_order.contains(FileId(y as u32)) {
                                let j = choose|j: int| 0 <= j < old_order.len() && old_order[j] == FileId(y as u32);
                                assert(order@[j] == FileId(y as u32));
                            }
                            if old_st.contains(FileId(y as u32)) {
                                let j = choose|j: int| 0 <= j < old_st.len() && old_st[j] == FileId(y as u32);
                                if j < top {
                                    assert(st@[j] == FileId(y as u32));
                                }
                            }
                            if order@.contains(FileId(y as u32)) {
                                let j = choose|j: int| 0 <= j < order@.len() && order@[j] == FileId(y as u32);
                                if j < old_order.len() {
                                    assert(old_order[j] == FileId(y as u32));
                                }
                            }
                            if st@.contains(FileId(y as u32)) {
                                let j = choose|j: int| 0 <= j < st@.len() && st@[j] == FileId(y as u32);
                                assert(old_st[j] == FileId(y as u32));
                            }
                        }
                        assert forall|k: int, cc: int| 0 <= k < st@.len() && 0 <= cc < sc@[k] implies
                            order@.contains(#[trigger] s[st@[k].0 as int][cc]) || in_prefix(st@, s[st@[k].0 as int][cc], k)
                                || (k + 1 < st@.len() && st@[k + 1] == s[st@[k].0 as int][cc]) by {
                            assert(st@[k] == old_st[k] && sc@[k] == old_sc[k]);
                            let y = s[st@[k].0 as int][cc];
                            if old_order.contains(y) {
                                let j = choose|j: int| 0 <= j < old_order.len() && old_order[j] == y;
                                assert(order@[j] == y);
                            } else if in_prefix(old_st, y, k) {
                                let j = choose|j: int| 0 <= j <= k && j < old_st.len() && old_st[j] == y;
                                assert(st@[j] == y);
                            } else {
                                assert(old_st[k + 1] == y);
                                if k + 1 == top {
                                    assert(order@[order@.len() - 1] == y);
                                } else {
                                    assert(st@[k + 1] == y);
                                }
                            }
                        }
                    }
                }
            }
            proof {
                assert forall|k: int| 0 <= k < ri implies visited@[(#[trigger] roots@[k]).0 as int] by {
                    assert(pre_visited[roots@[k].0 as int]);
                }
                assert(pre_visited[start.0 as int]);
            }
        }
        proof {
            assert(visited@[roots@[ri as int].0 as int]);
            assert forall|k: int| 0 <= k < ri + 1 implies visited@[(#[trigger] roots@[k]).0 as int] by {
                if k == ri {
                    assert(visited@[roots@[ri as int].0 as int]);
                }
            }
        }
        ri += 1;
    }
    proof {
        assert forall|y: int| 0 <= y < n implies #[trigger] order@.contains(FileId(y as u32)) by {
            assert(roots@.contains(FileId(y as u32)));
            let k = choose|k: int| 0 <= k < roots@.len() && roots@[k] == FileId(y as u32);
            assert(visited@[roots@[k].0 as int]);
            assert(roots@[k].0 == y);
            assert(visited@[y]);
        }
        assert forall|i: int, j: int| 0 <= i < j < order@.len() && #[trigger] has_edge(s, order@[i], order@[j]) implies
            reaches(s, order@[j], order@[i]) by {
            if exists|jj: int| 0 <= jj < i && order@[jj] == order@[j] {
                let jj = choose|jj: int| 0 <= jj < i && order@[jj] == order@[j];
            }
        }
    }
    order
}

/// `p` is a walk along the lists `s`: each step follows an edge.
pub open spec fn is_walk(s: Seq<Seq<FileId>>, p: Seq<FileId>) -> bool {
    &&& p.len() >= 1
    &&& forall|k: int| 0 <= k < p.len() - 1 ==> #[trigger] has_edge(s, p[k], p[k + 1])
}

/// `b` can be reached from `a` in one or more steps.
pub open spec fn reaches(s: Seq<Seq<FileId>>, a: FileId, b: FileId) -> bool {
    exists|p: Seq<FileId>| #[trigger] is_walk(s, p) && p.len() >= 2 && p[0] == a && p.last() == b
}

/// `b` can be reached in one or more steps from some id in `seeds`.
pub open spec fn reached_from(s: Seq<Seq<FileId>>, seeds: Seq<FileId>, b: FileId) -> bool {
    exists|i: int| 0 <= i < seeds.len() && #[trigger] reaches(s, seeds[i], b)
}

pub proof fn lemma_edge_reaches(s: Seq<Seq<FileId>>, a: FileId, b: FileId)
    requires
        has_edge(s, a, b),
    ensures
        reaches(s, a, b),
{
    let p = seq![a, b];
    assert(is_walk(s, p));
}

pub proof fn lemma_reaches_step(s: Seq<Seq<FileId>>, a: FileId, b: FileId, c: FileId)
    requires
        reaches(s, a, b),
        has_edge(s, b, c),
    ensures
        reaches(s, a, c),
{
    let p = choose|p: Seq<FileId>| #[trigger] is_walk(s, p) && p.len() >= 2 && p[0] == a && p.last() == b;
    let q = p.push(c);
    assert forall|k: int| 0 <= k < q.len() - 1 implies #[trigger] has_edge(s, q[k], q[k + 1]) by {
        if k < p.len() - 1 {
            assert(has_edge(s, p[k], p[k + 1]));
        }
    }
    assert(is_walk(s, q));
}

pub proof fn lemma_reaches_trans(s: Seq<Seq<FileId>>, a: FileId, b: FileId, c: FileId)
    requires
        reaches(s, a, b),
        reaches(s, b, c),
    ensures
        reaches(s, a, c),
{
    let p = choose|p: Seq<FileId>| #[trigger] is_walk(s, p) && p.len() >= 2 && p[0] == a && p.last() == b;
    let q = choose|q: Seq<FileId>| #[trigger] is_walk(s, q) && q.len() >= 2 && q[0] == b && q.last() == c;
    let r = p + q.drop_first();
    assert forall|k: int| 0 <= k < r.len() - 1 implies #[trigger] has_edge(s, r[k], r[k + 1]) by {
        if k < p.len() - 1 {
            assert(has_edge(s, p[k], p[k + 1]));
        } else {
            let j = k - (p.len() - 1);
            assert(r[k] == q[j]);
            assert(r[k + 1] == q[j + 1]);
            assert(has_edge(s, q[j], q[j + 1]));
        }
    }
    assert(is_walk(s, r));
}

/// The lists of a vector of id vectors.
pub open spec fn lists_view(v: Seq<Vec<FileId>>) -> Seq<Seq<FileId>> {
    v.map_values(|x: Vec<FileId>| x@)
}

/// Every id in the lists is in range.
pub open spec fn ids_in_range(s: Seq<Seq<FileId>>) -> bool {
    forall|x: int, i: int| 0 <= x < s.len() && 0 <= i < s[x].len() ==> (#[trigger] s[x][i]).0 < s.len()
}

/// The walk from `seeds` is closed: the successors of every in-range seed and of
/// every marked id are marked.
spec fn closed_under(s: Seq<Seq<FileId>>, seeds: Seq<FileId>, seen: Seq<bool>) -> bool {
    forall|x: FileId, z: FileId| #![trigger has_edge(s, x, z)]
        (x.0 < s.len() && (seeds.contains(x) || seen[x.0 as int])) && has_edge(s, x, z) ==> seen[z.0 as int]
}

proof fn lemma_closed_walk(s: Seq<Seq<FileId>>, seeds: Seq<FileId>, seen: Seq<bool>, p: Seq<FileId>, k: int)
    requires
        seen.len() == s.len(),
        ids_in_range(s),
        closed_under(s, seeds, seen),
        is_walk(s, p),
        seeds.contains(p[0]),
        1 <= k < p.len(),
    ensures
        p[k].0 < s.len(),
        seen[p[k].0 as int],
    decreases k,
{
    let j = k - 1;
    assert(0 <= j < p.len() - 1);
    assert(has_edge(s, p[j], p[j + 1]));
    assert(p[j + 1] == p[k]);
    let ii = choose|ii: int| 0 <= ii < s[p[j].0 as int].len() && s[p[j].0 as int][ii] == p[k];
    assert(s[p[j].0 as int][ii].0 < s.len());
    if k > 1 {
        lemma_closed_walk(s, seeds, seen, p, k - 1);
    }
}

proof fn lemma_closed_complete(s: Seq<Seq<FileId>>, seeds: Seq<FileId>, seen: Seq<bool>, b: FileId)
    requires
        seen.len() == s.len(),
        ids_in_range(s),
        closed_under(s, seeds, seen),
        reached_from(s, seeds, b),
    ensures
        b.0 < s.len(),
        seen[b.0 as int],
{
    let i = choose|i: int| 0 <= i < seeds.len() && #[trigger] reaches(s, seeds[i], b);
    let p = choose|p: Seq<FileId>| #[trigger] is_walk(s, p) && p.len() >= 2 && p[0] == seeds[i] && p.last() == b;
    assert(seeds.contains(p[0]));
    lemma_closed_walk(s, seeds, seen, p, p.len() - 1);
}

/// Marks every id reachable in one or more steps from `seeds` along `lists`.
fn reach_marks(lists: &Vec<Vec<FileId>>, seeds: &[FileId]) -> (seen: Vec<bool>)
    requires
        lists@.len() <= u32::MAX,
        ids_in_range(lists_view(lists@)),
    ensures
        seen@.len() == lists@.len(),
        forall|y: int| 0 <= y < lists@.len() ==>
            (#[trigger] seen@[y] <==> reached_from(lists_view(lists@), seeds@, FileId(y as u32))),
{
    let ghost s = lists_view(lists@);
    let n = lists.len();
    let mut seen: Vec<bool> = vec![false; n];
    let mut queue: Vec<FileId> = Vec::new();
    let mut i: usize = 0;
    while i < seeds.len()
        invariant
            n == lists@.len(),
            s == lists_view(lists@),
            i <= seeds@.len(),
            seen@.len() == n,
            forall|y: int| 0 <= y < n ==> !(#[trigger] seen@[y]),
            forall|k: int| 0 <= k < queue@.len() ==> (#[trigger] queue@[k]).0 < n && seeds@.contains(queue@[k]),
            forall|j: int| 0 <= j < i && (#[trigger] seeds@[j]).0 < n ==> queue@.contains(seeds@[j]),
            queue@.len() <= i,
        decreases seeds@.len() - i,
    {
        let ghost qb = queue@;
        if (seeds[i].0 as usize) < n {
            queue.push(seeds[i]);
            proof {
                assert(queue@[queue@.len() - 1] == seeds@[i as int]);
                assert forall|j: int| 0 <= j < i && (#[trigger] seeds@[j]).0 < n implies queue@.contains(seeds@[j]) by {
                    let k = choose|k: int| 0 <= k < qb.len() && qb[k] == seeds@[j];
                    assert(queue@[k] == seeds@[j]);
                }
            }
        }
        i += 1;
    }
    proof {
        lemma_count_true_none(seen@);
        assert forall|x: FileId| x.0 < n && seeds@.contains(x) implies #[trigger] queue@.contains(x) by {
            let j = choose|j: int| 0 <= j < seeds@.len() && seeds@[j] == x;
            assert(seeds@[j].0 < n);
        }
    }
    let ghost q0 = queue@.len();
    let mut head: usize = 0;
    while head < queue.len()
        invariant
            n == lists@.len(),
            n <= u32::MAX,
            s == lists_view(lists@),
            ids_in_range(s),
            seen@.len() == n,
            head <= queue@.len(),
            queue@.len() == q0 + count_true(seen@),
            q0 <= seeds@.len(),
            forall|k: int| 0 <= k < queue@.len() ==> (#[trigger] queue@[k]).0 < n,
            forall|k: int| 0 <= k < queue@.len() ==> seeds@.contains(#[trigger] queue@[k]) || seen@[queue@[k].0 as int],
            forall|x: FileId| x.0 < n && seeds@.contains(x) ==> #[trigger] queue@.contains(x),
            forall|y: int| 0 <= y < n && #[trigger] seen@[y] ==> queue@.contains(FileId(y as u32)),
            forall|y: int| 0 <= y < n && #[trigger] seen@[y] ==> reached_from(s, seeds@, FileId(y as u32)),
            forall|k: int, z: FileId| 0 <= k < head && #[trigger] has_edge(s, queue@[k], z) ==> seen@[z.0 as int],
        decreases q0 + n - head,
    {
        proof {
            lemma_count_true_le(seen@);
        }
        let node = queue[head];
        let ghost old_queue = queue@;
        let nbrs = &lists[node.0 as usize];
        assert(nbrs@ == s[node.0 as int]);
        let mut j: usize = 0;
        while j < nbrs.len()
            invariant
                n == lists@.len(),
                n <= u32::MAX,
                s == lists_view(lists@),
                ids_in_range(s),
                nbrs@ == s[node.0 as int],
                node.0 < n,
                head < old_queue.len(),
                node == old_queue[head as int],
                seeds@.contains(node) || seen@[node.0 as int],
                seen@.len() == n,
                j <= nbrs@.len(),
                queue@.len() == q0 + count_true(seen@),
                queue@.len() >= old_queue.len(),
                forall|k: int| 0 <= k < old_queue.len() ==> queue@[k] == old_queue[k],
                forall|k: int| 0 <= k < queue@.len() ==> (#[trigger] queue@[k]).0 < n,
                forall|k: int| 0 <= k < queue@.len() ==> seeds@.contains(#[trigger] queue@[k]) || seen@[queue@[k].0 as int],
                forall|x: FileId| x.0 < n && seeds@.contains(x) ==> #[trigger] old_queue.contains(x),
                forall|y: int| 0 <= y < n && #[trigger] seen@[y] ==> queue@.contains(FileId(y as u32)),
                forall|y: int| 0 <= y < n && #[trigger] seen@[y] ==> reached_from(s, seeds@, FileId(y as u32)),
                forall|k: int, z: FileId| 0 <= k < head && #[trigger] has_edge(s, old_queue[k], z) ==> seen@[z.0 as int],
                forall|jj: int| 0 <= jj < j ==> seen@[(#[trigger] nbrs@[jj]).0 as int],
            decreases nbrs@.len() - j,
        {
            let next = nbrs[j];
            assert(s[node.0 as int][j as int] == next);
            if !seen[next.0 as usize] {
                proof {
                    assert(has_edge(s, node, next));
                    if seeds@.contains(node) {
                        let si = choose|si: int| 0 <= si < seeds@.len() && seeds@[si] == node;
                        lemma_edge_reaches(s, node, next);
                        assert(reaches(s, seeds@[si], next));
                    } else {
                        assert(reached_from(s, seeds@, node));
                        let si = choose|si: int| 0 <= si < seeds@.len() && #[trigger] reaches(s, seeds@[si], node);
                        lemma_reaches_step(s, seeds@[si], node, next);
                    }
                    assert(FileId(next.0 as u32) == next);
                    lemma_count_true_set(seen@, next.0 as int);
                }
                let ghost qb = queue@;
                seen.set(next.0 as usize, true);
                queue.push(next);
                proof {
                    assert(queue@[queue@.len() - 1] == next);
                    assert forall|y: int| 0 <= y < n && #[trigger] seen@[y] implies queue@.contains(FileId(y as u32)) by {
                        if y != next.0 {
                            assert(qb.contains(FileId(y as u32)));
                            let k = choose|k: int| 0 <= k < qb.len() && qb[k] == FileId(y as u32);
                            assert(queue@[k] == FileId(y as u32));
                        }
                    }
                }
            }
            j += 1;
        }
        proof {
            assert forall|z: FileId| #[trigger] has_edge(s, queue@[head as int], z) implies seen@[z.0 as int] by {
                let jj = choose|jj: int| 0 <= jj < nbrs@.len() && nbrs@[jj] == z;
                assert(seen@[(nbrs@[jj]).0 as int]);
            }
            assert forall|x: FileId| x.0 < n && seeds@.contains(x) implies #[trigger] queue@.contains(x) by {
                assert(old_queue.contains(x));
                let k = choose|k: int| 0 <= k < old_queue.len() && old_queue[k] == x;
                assert(queue@[k] == x);
            }
            assert forall|k: int, z: FileId| 0 <= k < head + 1 && #[trigger] has_edge(s, queue@[k], z) implies seen@[z.0 as int] by {
                assert(queue@[k] == old_queue[k]);
            }
        }
        head += 1;
    }
    proof {
        assert forall|x: FileId, z: FileId| #![trigger has_edge(s, x, z)]
            (x.0 < s.len() && (seeds@.contains(x) || seen@[x.0 as int])) && has_edge(s, x, z) implies seen@[z.0 as int] by {
            if seeds@.contains(x) {
                assert(queue@.contains(x));
            } else {
                assert(FileId(x.0 as u32) == x);
                assert(queue@.contains(FileId(x.0 as u32)));
            }
            let k = choose|k: int| 0 <= k < queue@.len() && queue@[k] == x;
            assert(has_edge(s, queue@[k], z));
        }
        assert forall|y: int| 0 <= y < n implies
            (#[trigger] seen@[y] <==> reached_from(s, seeds@, FileId(y as u32))) by {
            if reached_from(s, seeds@, FileId(y as u32)) {
                lemma_closed_complete(s, seeds@, seen@, FileId(y as u32));
            }
        }
    }
    seen
}

/// How many entries of `s` are `true`.
pub open spec fn count_true(s: Seq<bool>) -> nat
    decreases s.len(),
{
    if s.len() == 0 {
        0
    } else {
        count_true(s.drop_last()) + if s.last() { 1nat } else { 0nat }
    }
}

pub proof fn lemma_count_true_le(s: Seq<bool>)
    ensures
        count_true(s) <= s.len(),
    decreases s.len(),
{
    if s.len() > 0 {
        lemma_count_true_le(s.drop_last());
    }
}

pub proof fn lemma_count_true_none(s: Seq<bool>)
    requires
        forall|i: int| 0 <= i < s.len() ==> !s[i],
    ensures
        count_true(s) == 0,
    decreases s.len(),
{
    if s.len() > 0 {
        lemma_count_true_none(s.drop_last());
    }
}

pub proof fn lemma_count_true_clear(s: Seq<bool>, i: int)
    requires
        0 <= i < s.len(),
        s[i],
    ensures
        count_true(s.update(i, false)) + 1 == count_true(s),
{
    let t = s.update(i, false);
    lemma_count_true_set(t, i);
    assert(t.update(i, true) == s);
}

pub proof fn lemma_count_true_set(s: Seq<bool>, i: int)
    requires
        0 <= i < s.len(),
        !s[i],
    ensures
        count_true(s.update(i, true)) == count_true(s) + 1,
    decreases s.len(),
{
    let t = s.update(i, true);
    if i == s.len() - 1 {
        assert(t.drop_last() == s.drop_last());
    } else {
        assert(t.drop_last() == s.drop_last().update(i, true));
        lemma_count_true_set(s.drop_last(), i);
    }
}

/// Inserts `x` into a strictly sorted list unless it is already there.
fn insert_sorted(v: &mut Vec<FileId>, x: FileId)
    requires
        strictly_sorted(old(v)@),
    ensures
        strictly_sorted(final(v)@),
        forall|y: FileId| #[trigger] final(v)@.contains(y) <==> (old(v)@.contains(y) || y == x),
{
    let mut i: usize = 0;
    while i < v.len() && v[i].0 < x.0
        invariant
            i <= v@.len(),
            v@ == old(v)@,
            strictly_sorted(v@),
            forall|j: int| 0 <= j < i ==> v@[j].0 < x.0,
        decreases v@.len() - i,
    {
        i += 1;
    }
    if i < v.len() && v[i].0 == x.0 {
        assert(v@[i as int] == x);
        return;
    }
    let ghost before = v@;
    assert forall|j: int| i <= j < before.len() implies before[j].0 > x.0 by {
        assert(before[i as int].0 > x.0);
    }
    v.insert(i, x);
    assert forall|a: int, b: int| 0 <= a < b < v@.len() implies v@[a].0 < v@[b].0 by {
        if b < i {
        } else if b == i {
        } else if a < i {
        } else if a == i {
            assert(v@[b] == before[b - 1]);
        } else {
            assert(v@[a] == before[a - 1] && v@[b] == before[b - 1]);
        }
    }
    assert forall|y: FileId| #[trigger] v@.contains(y) implies (before.contains(y) || y == x) by {
        let j = choose|j: int| 0 <= j < v@.len() && v@[j] == y;
        if j < i {
            assert(before[j] == y);
        } else if j > i {
            assert(before[j - 1] == y);
        }
    }
    assert forall|y: FileId| (before.contains(y) || y == x) implies #[trigger] v@.contains(y) by {
        if y == x {
            assert(v@[i as int] == x);
        } else {
            let j = choose|j: int| 0 <= j < before.len() && before[j] == y;
            if j < i {
                assert(v@[j] == y);
            } else {
                assert(v@[j + 1] == y);
            }
        }
    }
}

} // verus!
