//! A syntax tree as plain values: its nodes in preorder, each with its kind,
//! the field it fills in its parent, its depth and its place in the source;
//! and, computed from the depths, the children of every node.
use vstd::prelude::*;
use std::collections::HashMap;
use crate::lsp::uri::{from_utf8_lossy, lossy_text};
use crate::resolve::javascript::jsonc::{at_boundary, boundary_at};
use crate::text::str_eq;

verus! {

/// One node of a syntax tree.
#[derive(Debug, Clone, PartialEq, Eq)]
pub struct SyntaxNode {
    pub kind: String,
    pub field: Option<String>,
    pub depth: usize,
    pub start: usize,
    pub end: usize,
    pub row: usize,
    pub is_error: bool,
    pub is_missing: bool,
    pub has_error: bool,
}

/// A node as plain values.
pub struct NodeView {
    pub kind: Seq<char>,
    pub field: Option<Seq<char>>,
    pub depth: usize,
    pub start: usize,
    pub end: usize,
    pub row: usize,
    pub is_error: bool,
    pub is_missing: bool,
    pub has_error: bool,
}

impl View for SyntaxNode {
    type V = NodeView;

    open spec fn view(&self) -> NodeView {
        NodeView {
            kind: self.kind@,
            field: match self.field {
                Some(f) => Some(f@),
                None => None,
            },
            depth: self.depth,
            start: self.start,
            end: self.end,
            row: self.row,
            is_error: self.is_error,
            is_missing: self.is_missing,
            has_error: self.has_error,
        }
    }
}

/// The nodes of a list, as plain values.
pub open spec fn views(nodes: Seq<SyntaxNode>) -> Seq<NodeView> {
    nodes.map_values(|n: SyntaxNode| n@)
}

/// The last node before `upto` at depth `d`.
pub open spec fn last_at_depth(nodes: Seq<NodeView>, d: int, upto: int) -> Option<int>
    decreases upto,
{
    if upto <= 0 {
        None
    } else if nodes[upto - 1].depth == d {
        Some(upto - 1)
    } else {
        last_at_depth(nodes, d, upto - 1)
    }
}

/// The parent of node `i`: the last node before it one level up.
pub open spec fn parent_of(nodes: Seq<NodeView>, i: int) -> Option<int> {
    if nodes[i].depth == 0 {
        None
    } else {
        last_at_depth(nodes, nodes[i].depth - 1, i)
    }
}

/// The children of node `j` among the first `n` nodes, in order.
pub open spec fn children_upto(nodes: Seq<NodeView>, j: int, n: int) -> Seq<int>
    decreases n,
{
    if n <= 0 {
        Seq::empty()
    } else if parent_of(nodes, n - 1) == Some(j) {
        children_upto(nodes, j, n - 1).push(n - 1)
    } else {
        children_upto(nodes, j, n - 1)
    }
}

/// The children of node `j`, in order.
pub open spec fn children_of(nodes: Seq<NodeView>, j: int) -> Seq<int> {
    children_upto(nodes, j, nodes.len() as int)
}

/// A syntax tree: nodes in preorder, the root first, and the children of
/// each node.
pub struct SyntaxTree {
    pub nodes: Vec<SyntaxNode>,
    pub children: Vec<Vec<usize>>,
    pub parents: Vec<Option<usize>>,
}

impl SyntaxTree {
    /// The children lists are the ones the depths give.
    pub open spec fn wf(&self) -> bool {
        &&& self.children@.len() == self.nodes@.len()
        &&& self.parents@.len() == self.nodes@.len()
        &&& forall|i: int| 0 <= i < self.nodes@.len() ==> match #[trigger] self.parents@[i] {
            Some(p) => parent_of(views(self.nodes@), i) == Some(p as int),
            None => parent_of(views(self.nodes@), i) is None,
        }
        &&& forall|j: int| 0 <= j < self.nodes@.len() ==>
            (#[trigger] self.children@[j])@.map_values(|c: usize| c as int) == children_of(views(self.nodes@), j)
    }
}

proof fn lemma_last_at_depth_bound(nodes: Seq<NodeView>, d: int, upto: int)
    ensures
        match last_at_depth(nodes, d, upto) {
            Some(j) => 0 <= j < upto && nodes[j].depth == d,
            None => true,
        },
    decreases upto,
{
    if upto > 0 && nodes[upto - 1].depth != d {
        lemma_last_at_depth_bound(nodes, d, upto - 1);
    }
}

/// A parent comes before its child.
pub proof fn lemma_parent_before(nodes: Seq<NodeView>, i: int)
    ensures
        match parent_of(nodes, i) {
            Some(p) => 0 <= p < i,
            None => true,
        },
{
    if nodes[i].depth != 0 {
        lemma_last_at_depth_bound(nodes, nodes[i].depth - 1, i);
    }
}

/// A child comes after its parent.
pub proof fn lemma_child_after(nodes: Seq<NodeView>, j: int, n: int, k: int)
    requires
        0 <= k < children_upto(nodes, j, n).len(),
    ensures
        j < children_upto(nodes, j, n)[k] < n,
        parent_of(nodes, children_upto(nodes, j, n)[k]) == Some(j),
    decreases n,
{
    if n > 0 {
        let c = children_upto(nodes, j, n - 1);
        if parent_of(nodes, n - 1) == Some(j) {
            if k < c.len() {
                lemma_child_after(nodes, j, n - 1, k);
            } else {
                lemma_last_at_depth_bound(nodes, nodes[n - 1].depth - 1, n - 1);
            }
        } else {
            lemma_child_after(nodes, j, n - 1, k);
        }
    }
}

/// Builds the children lists of a preorder node list.
pub fn tree_of(nodes: Vec<SyntaxNode>) -> (t: SyntaxTree)
    ensures
        t.nodes@ == nodes@,
        t.wf(),
{
    broadcast use vstd::std_specs::hash::group_hash_axioms;
    let n = nodes.len();
    let ghost vs = views(nodes@);
    let mut children: Vec<Vec<usize>> = Vec::new();
    let mut j: usize = 0;
    while j < n
        invariant
            n == nodes@.len(),
            j <= n,
            children@.len() == j,
            forall|q: int| 0 <= q < j ==> (#[trigger] children@[q])@.len() == 0,
        decreases n - j,
    {
        children.push(Vec::new());
        j += 1;
    }
    let mut parents: Vec<Option<usize>> = Vec::new();
    let mut last: HashMap<usize, usize> = HashMap::new();
    let mut i: usize = 0;
    while i < n
        invariant
            n == nodes@.len(),
            vs == views(nodes@),
            i <= n,
            children@.len() == n,
            parents@.len() == i,
            forall|k: int| 0 <= k < i ==> match #[trigger] parents@[k] {
                Some(p) => parent_of(vs, k) == Some(p as int),
                None => parent_of(vs, k) is None,
            },
            forall|d: usize| #[trigger] last@.contains_key(d) == last_at_depth(vs, d as int, i as int) is Some,
            forall|d: usize| last@.contains_key(d) ==> last_at_depth(vs, d as int, i as int) == Some(#[trigger] last@[d] as int),
            forall|q: int| 0 <= q < n ==> (#[trigger] children@[q])@.map_values(|c: usize| c as int) == children_upto(vs, q, i as int),
        decreases n - i,
    {
        let d = nodes[i].depth;
        assert(vs[i as int].depth == d);
        let ghost before = children@;
        if d > 0 {
            match last.get(&(d - 1)) {
                Some(p) => {
                    let p = *p;
                    proof { lemma_last_at_depth_bound(vs, (d - 1) as int, i as int); }
                    assert(parent_of(vs, i as int) == Some(p as int));
                    children[p].push(i);
                    parents.push(Some(p));
                    assert forall|q: int| 0 <= q < n implies (#[trigger] children@[q])@.map_values(|c: usize| c as int) == children_upto(vs, q, i + 1) by {
                        if q == p {
                            assert(children@[q]@.map_values(|c: usize| c as int) =~= before[q]@.map_values(|c: usize| c as int).push(i as int));
                        } else {
                            assert(children@[q] == before[q]);
                        }
                    }
                },
                None => {
                    assert(parent_of(vs, i as int) is None);
                    parents.push(None);
                },
            }
        } else {
            assert(parent_of(vs, i as int) is None);
            parents.push(None);
        }
        last.insert(d, i);
        assert forall|e: usize| #[trigger] last@.contains_key(e) == last_at_depth(vs, e as int, i + 1) is Some by {}
        assert forall|e: usize| last@.contains_key(e) implies last_at_depth(vs, e as int, i + 1) == Some(#[trigger] last@[e] as int) by {}
        i += 1;
    }
    SyntaxTree { nodes, children, parents }
}

/// The source text from byte `start` to byte `end`; nothing when the range
/// is not one of whole characters within the source.
pub open spec fn text_between(src: Seq<u8>, start: int, end: int) -> Seq<char> {
    if 0 <= start <= end <= src.len() && at_boundary(src, start) && at_boundary(src, end) {
        lossy_text(src.subrange(start, end))
    } else {
        Seq::empty()
    }
}

/// The source text of a node.
pub open spec fn node_text(src: Seq<u8>, n: NodeView) -> Seq<char> {
    text_between(src, n.start as int, n.end as int)
}

/// The source text of a node.
pub fn text_of(src: &[u8], n: &SyntaxNode) -> (r: String)
    ensures
        r@ == node_text(src@, n@),
{
    if n.start <= n.end && n.end <= src.len() && boundary_at(src, n.start) && boundary_at(src, n.end) {
        from_utf8_lossy(vstd::slice::slice_subrange(src, n.start, n.end))
    } else {
        String::new()
    }
}

/// The first of `kids` that fills field `name`.
pub open spec fn first_with_field(nodes: Seq<NodeView>, kids: Seq<int>, name: Seq<char>) -> Option<int>
    decreases kids.len(),
{
    if kids.len() == 0 {
        None
    } else if nodes[kids[0]].field == Some(name) {
        Some(kids[0])
    } else {
        first_with_field(nodes, kids.drop_first(), name)
    }
}

/// The child of node `j` that fills field `name`, if any.
pub open spec fn field_child(nodes: Seq<NodeView>, j: int, name: Seq<char>) -> Option<int> {
    first_with_field(nodes, children_of(nodes, j), name)
}

proof fn lemma_first_with_field_member(nodes: Seq<NodeView>, kids: Seq<int>, name: Seq<char>)
    ensures
        match first_with_field(nodes, kids, name) {
            Some(c) => exists|k: int| 0 <= k < kids.len() && kids[k] == c,
            None => true,
        },
    decreases kids.len(),
{
    if kids.len() > 0 && nodes[kids[0]].field != Some(name) {
        lemma_first_with_field_member(nodes, kids.drop_first(), name);
        match first_with_field(nodes, kids.drop_first(), name) {
            Some(c) => {
                let k = choose|k: int| 0 <= k < kids.drop_first().len() && kids.drop_first()[k] == c;
                assert(kids[k + 1] == c);
            },
            None => {},
        }
    }
}

/// A field child is a child: it comes after its parent and within the tree.
pub proof fn lemma_field_child_in(nodes: Seq<NodeView>, j: int, name: Seq<char>)
    ensures
        match field_child(nodes, j, name) {
            Some(c) => j < c < nodes.len(),
            None => true,
        },
{
    let kids = children_of(nodes, j);
    lemma_first_with_field_member(nodes, kids, name);
    match field_child(nodes, j, name) {
        Some(c) => {
            let k = choose|k: int| 0 <= k < kids.len() && kids[k] == c;
            lemma_child_after(nodes, j, nodes.len() as int, k);
        },
        None => {},
    }
}

/// The first of `kids` of kind `kind`.
pub open spec fn first_of_kind(nodes: Seq<NodeView>, kids: Seq<int>, kind: Seq<char>) -> Option<int>
    decreases kids.len(),
{
    if kids.len() == 0 {
        None
    } else if nodes[kids[0]].kind == kind {
        Some(kids[0])
    } else {
        first_of_kind(nodes, kids.drop_first(), kind)
    }
}

impl SyntaxTree {
    /// The number of nodes.
    pub fn len(&self) -> (r: usize)
        ensures
            r == self.nodes@.len(),
    {
        self.nodes.len()
    }

    /// The child of node `j` that fills field `name`.
    pub fn field(&self, j: usize, name: &str) -> (r: Option<usize>)
        requires
            self.wf(),
            j < self.nodes@.len(),
        ensures
            match r {
                Some(c) => field_child(views(self.nodes@), j as int, name@) == Some(c as int),
                None => field_child(views(self.nodes@), j as int, name@) is None,
            },
    {
        let kids = &self.children[j];
        let ghost ks = kids@.map_values(|c: usize| c as int);
        let mut i: usize = 0;
        assert(ks.skip(0) =~= ks);
        while i < kids.len()
            invariant
                self.wf(),
                j < self.nodes@.len(),
                ks == kids@.map_values(|c: usize| c as int),
                ks == children_of(views(self.nodes@), j as int),
                i <= ks.len(),
                first_with_field(views(self.nodes@), ks, name@) == first_with_field(views(self.nodes@), ks.skip(i as int), name@),
            decreases ks.len() - i,
        {
            let c = kids[i];
            proof { lemma_child_after(views(self.nodes@), j as int, self.nodes@.len() as int, i as int); }
            assert(ks.skip(i as int)[0] == c as int);
            assert(ks.skip(i as int).drop_first() =~= ks.skip(i + 1));
            assert(views(self.nodes@)[c as int] == self.nodes@[c as int]@);
            match &self.nodes[c].field {
                Some(f) => {
                    if str_eq(f.as_str(), name) {
                        return Some(c);
                    }
                },
                None => {},
            }
            i += 1;
        }
        None
    }
}

impl SyntaxTree {
    /// Whether node `i` is of kind `k`.
    pub fn kind_is(&self, i: usize, k: &str) -> (r: bool)
        requires
            i < self.nodes@.len(),
        ensures
            r == (views(self.nodes@)[i as int].kind == k@),
    {
        assert(views(self.nodes@)[i as int] == self.nodes@[i as int]@);
        str_eq(self.nodes[i].kind.as_str(), k)
    }

    /// The source text of node `i`.
    pub fn text_at(&self, src: &[u8], i: usize) -> (r: String)
        requires
            i < self.nodes@.len(),
        ensures
            r@ == node_text(src@, views(self.nodes@)[i as int]),
    {
        assert(views(self.nodes@)[i as int] == self.nodes@[i as int]@);
        text_of(src, &self.nodes[i])
    }

    /// The line node `i` starts on.
    pub fn line_of(&self, i: usize) -> (r: u32)
        requires
            i < self.nodes@.len(),
        ensures
            r == crate::parse::line_of_row(views(self.nodes@)[i as int].row),
    {
        assert(views(self.nodes@)[i as int] == self.nodes@[i as int]@);
        crate::parse::line_at(self.nodes[i].row)
    }

    /// The child of node `node` that fills field `name`, which comes after it.
    pub fn field_in(&self, node: usize, name: &str) -> (r: Option<usize>)
        requires
            self.wf(),
            node < self.nodes@.len(),
        ensures
            match r {
                Some(c) => field_child(views(self.nodes@), node as int, name@) == Some(c as int) && node < c < self.nodes@.len(),
                None => field_child(views(self.nodes@), node as int, name@) is None,
            },
    {
        let r = self.field(node, name);
        proof { lemma_field_child_in(views(self.nodes@), node as int, name@); }
        r
    }

    /// The first child of node `node` of kind `k`.
    pub fn child_of_kind(&self, node: usize, k: &str) -> (r: Option<usize>)
        requires
            self.wf(),
            node < self.nodes@.len(),
        ensures
            match r {
                Some(c) => first_of_kind(views(self.nodes@), children_of(views(self.nodes@), node as int), k@) == Some(c as int) && c < self.nodes@.len(),
                None => first_of_kind(views(self.nodes@), children_of(views(self.nodes@), node as int), k@) is None,
            },
    {
        let ghost ns = views(self.nodes@);
        let kids = &self.children[node];
        let ghost ks = kids@.map_values(|c: usize| c as int);
        let mut i: usize = 0;
        assert(ks.skip(0) =~= ks);
        while i < kids.len()
            invariant
                self.wf(),
                ns == views(self.nodes@),
                node < ns.len(),
                ks == kids@.map_values(|c: usize| c as int),
                ks == children_of(ns, node as int),
                i <= ks.len(),
                first_of_kind(ns, ks, k@) == first_of_kind(ns, ks.skip(i as int), k@),
            decreases ks.len() - i,
        {
            proof { lemma_child_after(ns, node as int, ns.len() as int, i as int); }
            let c = kids[i];
            assert(ks.skip(i as int)[0] == c as int);
            assert(ks.skip(i as int).drop_first() =~= ks.skip(i + 1));
            if self.kind_is(c, k) {
                return Some(c);
            }
            i += 1;
        }
        None
    }
}

} // verus!
