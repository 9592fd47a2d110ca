//! The grammars the parser uses, the syntax tree they build, and how much of
//! a tree is damaged by syntax errors.
use vstd::prelude::*;
use crate::model::Language as Lang;
use crate::parse::tree::{lemma_parent_before, parent_of, tree_of, views, NodeView, SyntaxNode, SyntaxTree};

verus! {

#[verifier::external_type_specification]
#[verifier::external_body]
pub struct ExCursor<'a>(tree_sitter::TreeCursor<'a>);

/// The syntax tree tree-sitter builds for `source` with the grammar of
/// `language`, node by node in preorder; nothing when it builds none.
pub uninterp spec fn syntax_nodes(language: Lang, source: Seq<char>) -> Option<Seq<NodeView>>;

/// The node under a `tree_sitter::TreeCursor`, as plain values: its kind,
/// the field it fills (`TreeCursor::field_name`), its depth below the root,
/// its byte range, its first row, and its error flags. Nothing is stated of
/// them.
#[verifier::external_body]
fn node_here(c: &tree_sitter::TreeCursor) -> SyntaxNode {
    let n = c.node();
    SyntaxNode {
        kind: n.kind().to_owned(),
        field: c.field_name().map(str::to_owned),
        depth: c.depth() as usize,
        start: n.start_byte(),
        end: n.end_byte(),
        row: n.start_position().row,
        is_error: n.is_error(),
        is_missing: n.is_missing(),
        has_error: n.has_error(),
    }
}

/// `tree_sitter::Parser::parse` of `source` with the grammar of `language`
/// (the TypeScript and TSX grammars of `tree_sitter_typescript`, that of
/// `tree_sitter_javascript` for JavaScript and JSX, and those of
/// `tree_sitter_rust`, `tree_sitter_python` and `tree_sitter_go`), its tree
/// read node by node with `TreeCursor::goto_descendant` in preorder, the
/// root first, as many nodes as `Node::descendant_count` gives. The nodes are
/// named `syntax_nodes`; what they hold is not stated.
#[verifier::external_body]
fn syntax_of(language: Lang, source: &str) -> (r: Option<Vec<SyntaxNode>>)
    ensures
        match r {
            Some(v) => syntax_nodes(language, source@) == Some(views(v@)),
            None => syntax_nodes(language, source@) is None,
        },
{
    let mut p = tree_sitter::Parser::new();
    p.set_language(&match language {
        Lang::TypeScript => tree_sitter_typescript::LANGUAGE_TYPESCRIPT,
        Lang::Tsx => tree_sitter_typescript::LANGUAGE_TSX,
        Lang::JavaScript | Lang::Jsx => tree_sitter_javascript::LANGUAGE,
        Lang::Rust => tree_sitter_rust::LANGUAGE,
        Lang::Python => tree_sitter_python::LANGUAGE,
        Lang::Go => tree_sitter_go::LANGUAGE,
    }.into()).ok()?;
    let t = p.parse(source, None)?;
    let mut c = t.walk();
    Some((0..t.root_node().descendant_count()).map(|i| { c.goto_descendant(i); node_here(&c) }).collect())
}

/// The syntax tree of `source` in `language`, when the parser builds one.
pub fn syntax_tree(language: Lang, source: &str) -> (r: Option<SyntaxTree>)
    ensures
        match r {
            Some(t) => t.wf() && syntax_nodes(language, source@) == Some(views(t.nodes@)),
            None => syntax_nodes(language, source@) is None,
        },
{
    match syntax_of(language, source) {
        Some(nodes) => Some(tree_of(nodes)),
        None => None,
    }
}

/// How many error nodes and missing nodes the parser put in a tree.
#[derive(Debug, Clone, Copy, PartialEq, Eq, Structural)]
pub struct Damage {
    pub errors: usize,
    pub missing: usize,
}

impl Damage {
    /// No error node and no missing node.
    pub fn is_clean(&self) -> (r: bool)
        ensures
            r == (self.errors == 0 && self.missing == 0),
    {
        self.errors == 0 && self.missing == 0
    }
}

/// Whether node `i` is looked at when damage is counted: the root is, and a
/// child is when its parent was, is not itself an error, and holds one.
pub open spec fn inspected(nodes: Seq<NodeView>, i: int) -> bool
    decreases i,
{
    if i <= 0 {
        i == 0
    } else {
        match parent_of(nodes, i) {
            Some(p) => if 0 <= p < i {
                inspected(nodes, p) && !nodes[p].is_error && nodes[p].has_error
            } else {
                false
            },
            None => false,
        }
    }
}

/// Error nodes and missing nodes among the first `n` nodes looked at; the
/// inside of an error node is not looked at.
pub open spec fn damage_upto(nodes: Seq<NodeView>, n: int) -> (nat, nat)
    decreases n,
{
    if n <= 0 {
        (0, 0)
    } else {
        let d = damage_upto(nodes, n - 1);
        let i = n - 1;
        if !inspected(nodes, i) {
            d
        } else if nodes[i].is_error {
            (d.0 + 1, d.1)
        } else if nodes[i].is_missing {
            (d.0, d.1 + 1)
        } else {
            d
        }
    }
}

/// Counts the error nodes and missing nodes of a tree.
pub fn damage(tree: &SyntaxTree) -> (r: Damage)
    requires
        tree.wf(),
    ensures
        (r.errors as nat, r.missing as nat) == damage_upto(views(tree.nodes@), tree.nodes@.len() as int),
{
    let ghost vs = views(tree.nodes@);
    let n = tree.nodes.len();
    let mut seen: Vec<bool> = Vec::new();
    let mut errors: usize = 0;
    let mut missing: usize = 0;
    let mut i: usize = 0;
    while i < n
        invariant
            tree.wf(),
            vs == views(tree.nodes@),
            n == vs.len(),
            i <= n,
            seen@.len() == i,
            forall|k: int| 0 <= k < i ==> #[trigger] seen@[k] == inspected(vs, k),
            (errors as nat, missing as nat) == damage_upto(vs, i as int),
            errors <= i,
            missing <= i,
        decreases n - i,
    {
        proof { lemma_parent_before(vs, i as int); }
        let looked = if i == 0 {
            true
        } else {
            match tree.parents[i] {
                Some(p) => {
                    assert(vs[p as int] == tree.nodes@[p as int]@);
                    seen[p] && !tree.nodes[p].is_error && tree.nodes[p].has_error
                },
                None => false,
            }
        };
        assert(looked == inspected(vs, i as int));
        assert(vs[i as int] == tree.nodes@[i as int]@);
        if looked {
            if tree.nodes[i].is_error {
                errors += 1;
            } else if tree.nodes[i].is_missing {
                missing += 1;
            }
        }
        seen.push(looked);
        i += 1;
    }
    Damage { errors, missing }
}

} // verus!
