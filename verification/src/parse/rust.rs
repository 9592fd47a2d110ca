//! What a Rust file declares: its `use` declarations expanded leaf by leaf,
//! its `mod` declarations (the files it is made of), and its items,
//! exported when `pub`.
use vstd::prelude::*;
use crate::parse::{both, line_at, line_of_row, nothing, DefKind, DefView, Definition, ExportItem, ExportView, Found, FoundView, ImportKind, ImportView, ImportedNames, NamesView, RawImport};
use crate::parse::tree::{children_of, field_child, lemma_child_after, lemma_field_child_in, lemma_parent_before, node_text, parent_of, views, NodeView, SyntaxTree};
use crate::text::{chars_of, is_prefix, str_eq, string_of};

verus! {

/// Whether one of `kids` is a visibility modifier that starts with `pub`.
pub open spec fn has_pub(ns: Seq<NodeView>, src: Seq<u8>, kids: Seq<int>) -> bool
    decreases kids.len(),
{
    if kids.len() == 0 {
        false
    } else {
        has_pub(ns, src, kids.drop_last()) || (ns[kids.last()].kind == "visibility_modifier"@
            && is_prefix("pub"@, node_text(src, ns[kids.last()])))
    }
}

/// Whether an item is public.
pub open spec fn is_pub(ns: Seq<NodeView>, src: Seq<u8>, node: int) -> bool {
    has_pub(ns, src, children_of(ns, node))
}

/// What an item with a name contributes: a definition, and an export when
/// it is public; nothing without a name.
pub open spec fn rs_item(ns: Seq<NodeView>, src: Seq<u8>, node: int, kind: DefKind) -> FoundView {
    match field_child(ns, node, "name"@) {
        Some(n) => {
            let name = node_text(src, ns[n]);
            let line = line_of_row(ns[node].row);
            let exported = is_pub(ns, src, node);
            if name.len() == 0 {
                nothing()
            } else {
                FoundView {
                    imports: Seq::empty(),
                    exports: if exported { seq![ExportView { name, from: None, line }] } else { Seq::empty() },
                    definitions: seq![DefView { name, kind, line, exported }],
                }
            }
        },
        None => nothing(),
    }
}

/// `prefix::seg`, or `seg` after an empty prefix.
pub open spec fn joined(prefix: Seq<char>, seg: Seq<char>) -> Seq<char> {
    if prefix.len() == 0 { seg } else { prefix + "::"@ + seg }
}

/// The leaves of a `use` tree below `node`: the full path of each, its alias,
/// and whether it is a glob; `fuel` bounds the depth searched.
pub open spec fn leaves(ns: Seq<NodeView>, src: Seq<u8>, node: int, prefix: Seq<char>, fuel: nat) -> Seq<(Seq<char>, Option<Seq<char>>, bool)>
    decreases fuel, 0nat,
{
    let k = ns[node].kind;
    if k == "scoped_identifier"@ || k == "identifier"@ || k == "crate"@ || k == "super"@ || k == "self"@ || k == "metavariable"@ {
        seq![(joined(prefix, node_text(src, ns[node])), None, false)]
    } else if k == "use_as_clause"@ {
        let path = match field_child(ns, node, "path"@) {
            Some(p) => joined(prefix, node_text(src, ns[p])),
            None => Seq::empty(),
        };
        let alias = match field_child(ns, node, "alias"@) {
            Some(a) => Some(node_text(src, ns[a])),
            None => None,
        };
        seq![(path, alias, false)]
    } else if k == "use_wildcard"@ {
        let base = match first_not_punct(ns, children_of(ns, node)) {
            Some(c) => joined(prefix, node_text(src, ns[c])),
            None => prefix,
        };
        seq![(base, None, true)]
    } else if fuel == 0 {
        Seq::empty()
    } else if k == "scoped_use_list"@ {
        let base = match field_child(ns, node, "path"@) {
            Some(p) => joined(prefix, node_text(src, ns[p])),
            None => prefix,
        };
        match field_child(ns, node, "list"@) {
            Some(l) => leaves(ns, src, l, base, (fuel - 1) as nat),
            None => Seq::empty(),
        }
    } else if k == "use_list"@ {
        list_leaves(ns, src, children_of(ns, node), prefix, (fuel - 1) as nat)
    } else {
        Seq::empty()
    }
}

/// The leaves of the entries `kids` of a use list, punctuation skipped.
pub open spec fn list_leaves(ns: Seq<NodeView>, src: Seq<u8>, kids: Seq<int>, prefix: Seq<char>, fuel: nat) -> Seq<(Seq<char>, Option<Seq<char>>, bool)>
    decreases fuel, kids.len() + 1,
{
    if kids.len() == 0 {
        Seq::empty()
    } else {
        let c = kids.last();
        let k = ns[c].kind;
        let here = if k == "{"@ || k == "}"@ || k == ","@ { Seq::empty() } else { leaves(ns, src, c, prefix, fuel) };
        list_leaves(ns, src, kids.drop_last(), prefix, fuel) + here
    }
}

/// The first of `kids` that is neither `*` nor `::`.
pub open spec fn first_not_punct(ns: Seq<NodeView>, kids: Seq<int>) -> Option<int>
    decreases kids.len(),
{
    if kids.len() == 0 {
        None
    } else if ns[kids[0]].kind != "*"@ && ns[kids[0]].kind != "::"@ {
        Some(kids[0])
    } else {
        first_not_punct(ns, kids.drop_first())
    }
}

/// Where the last `::` of `s` starts.
pub open spec fn last_dcolon(s: Seq<char>) -> Option<int>
    decreases s.len(),
{
    if s.len() < 2 {
        None
    } else if s[s.len() - 2] == ':' && s[s.len() - 1] == ':' {
        Some(s.len() - 2)
    } else {
        last_dcolon(s.drop_last())
    }
}

/// What follows the last `::` of a path, or the whole path.
pub open spec fn last_segment(s: Seq<char>) -> Seq<char> {
    match last_dcolon(s) {
        Some(i) => s.skip(i + 2),
        None => s,
    }
}

/// What the leaves of a `use` declaration contribute: an import each
/// (a re-export when the declaration is public, which is also an export
/// under the leaf's alias or last segment); empty paths are left out.
pub open spec fn use_leaves(ls: Seq<(Seq<char>, Option<Seq<char>>, bool)>, line: u32, reexport: bool, scope: Option<Seq<char>>) -> FoundView
    decreases ls.len(),
{
    if ls.len() == 0 {
        nothing()
    } else {
        let (path, alias, glob) = ls.last();
        let here = if path.len() == 0 {
            nothing()
        } else {
            let leaf = last_segment(path);
            FoundView {
                imports: seq![ImportView {
                    specifier: path,
                    line,
                    kind: if reexport { ImportKind::ReExport } else { ImportKind::Static },
                    names: if glob { NamesView::Namespace } else { NamesView::Named(seq![leaf]) },
                    type_only: false,
                    scope,
                }],
                exports: if reexport {
                    seq![ExportView { name: match alias { Some(a) => a, None => leaf }, from: Some(path), line }]
                } else {
                    Seq::empty()
                },
                definitions: Seq::empty(),
            }
        };
        both(use_leaves(ls.drop_last(), line, reexport, scope), here)
    }
}

/// What a `use` declaration contributes.
pub open spec fn rs_use(ns: Seq<NodeView>, src: Seq<u8>, node: int, scope: Option<Seq<char>>) -> FoundView {
    match field_child(ns, node, "argument"@) {
        Some(a) => use_leaves(leaves(ns, src, a, Seq::empty(), ns.len()), line_of_row(ns[node].row), is_pub(ns, src, node), scope),
        None => nothing(),
    }
}

/// Where the first occurrence of `p` in `s` at or after `from` starts.
pub open spec fn find_text(s: Seq<char>, p: Seq<char>, from: int) -> Option<int>
    decreases s.len() + 1 - from,
{
    if from < 0 || from > s.len() || from + p.len() > s.len() {
        None
    } else if s.subrange(from, from + p.len()) == p {
        Some(from)
    } else {
        find_text(s, p, from + 1)
    }
}

/// Where the first quote of `s` at or after `from` is.
pub open spec fn find_quote(s: Seq<char>, from: int) -> Option<int>
    decreases s.len() - from,
{
    if from < 0 || from >= s.len() {
        None
    } else if s[from] == '"' || s[from] == '\'' {
        Some(from)
    } else {
        find_quote(s, from + 1)
    }
}

/// The quoted value after the first `path` in an attribute's text.
pub open spec fn path_value(text: Seq<char>) -> Option<Seq<char>> {
    match find_text(text, "path"@, 0) {
        Some(p) => match find_quote(text, p + 4) {
            Some(open) => match find_quote(text, open + 1) {
                Some(end) => Some(text.subrange(open + 1, end)),
                None => None,
            },
            None => None,
        },
        None => None,
    }
}

/// The `path` attribute among the attributes `before` a `mod` declaration,
/// looking back from the nearest: the first whose text names a quoted path;
/// the search stops at anything that is not an attribute.
pub open spec fn path_attribute(ns: Seq<NodeView>, src: Seq<u8>, before: Seq<int>) -> Option<Seq<char>>
    decreases before.len(),
{
    if before.len() == 0 {
        None
    } else {
        let s = before.last();
        if ns[s].kind != "attribute_item"@ {
            None
        } else {
            match path_value(node_text(src, ns[s])) {
                Some(v) => Some(v),
                None => path_attribute(ns, src, before.drop_last()),
            }
        }
    }
}

/// The siblings before `node`: its parent's children that come before it.
pub open spec fn siblings_before(ns: Seq<NodeView>, node: int) -> Seq<int> {
    match parent_of(ns, node) {
        Some(p) => {
            let kids = children_of(ns, p);
            match index_in(kids, node) {
                Some(i) => kids.take(i),
                None => Seq::empty(),
            }
        },
        None => Seq::empty(),
    }
}

/// Where `x` first occurs in `s`.
pub open spec fn index_in(s: Seq<int>, x: int) -> Option<int>
    decreases s.len(),
{
    if s.len() == 0 {
        None
    } else if s[0] == x {
        Some(0)
    } else {
        match index_in(s.drop_first(), x) {
            Some(i) => Some(i + 1),
            None => None,
        }
    }
}

/// The specifier a file-backed `mod` declaration imports: its name, and the
/// path of a `path` attribute after a `\u{1}` separator.
pub open spec fn mod_specifier(name: Seq<char>, path: Option<Seq<char>>) -> Seq<char> {
    match path {
        Some(p) => name.push('\u{1}') + p,
        None => name,
    }
}

/// `outer::name`, or `name` at the top.
pub open spec fn nested_scope(scope: Option<Seq<char>>, name: Seq<char>) -> Seq<char> {
    match scope {
        Some(o) => o + "::"@ + name,
        None => name,
    }
}

/// What the items `kids` contribute within `scope`.
pub open spec fn rs_items(ns: Seq<NodeView>, src: Seq<u8>, kids: Seq<int>, scope: Option<Seq<char>>, fuel: nat) -> FoundView
    decreases fuel, kids.len() + 2,
{
    if kids.len() == 0 {
        nothing()
    } else {
        both(rs_items(ns, src, kids.drop_last(), scope, fuel), rs_node(ns, src, kids.last(), scope, fuel))
    }
}

/// What one item contributes within `scope`.
pub open spec fn rs_node(ns: Seq<NodeView>, src: Seq<u8>, node: int, scope: Option<Seq<char>>, fuel: nat) -> FoundView
    decreases fuel, 1nat,
{
    let k = ns[node].kind;
    if k == "use_declaration"@ {
        rs_use(ns, src, node, scope)
    } else if k == "mod_item"@ {
        match field_child(ns, node, "name"@) {
            Some(n) => {
                let name = node_text(src, ns[n]);
                let line = line_of_row(ns[node].row);
                let def = FoundView {
                    imports: Seq::empty(),
                    exports: Seq::empty(),
                    definitions: seq![DefView { name, kind: DefKind::Module, line, exported: is_pub(ns, src, node) }],
                };
                match field_child(ns, node, "body"@) {
                    Some(b) => if fuel == 0 {
                        def
                    } else {
                        both(def, rs_items(ns, src, children_of(ns, b), Some(nested_scope(scope, name)), (fuel - 1) as nat))
                    },
                    None => both(def, FoundView {
                        imports: seq![ImportView {
                            specifier: mod_specifier(name, path_attribute(ns, src, siblings_before(ns, node))),
                            line,
                            kind: ImportKind::ModDecl,
                            names: NamesView::Namespace,
                            type_only: false,
                            scope,
                        }],
                        exports: Seq::empty(),
                        definitions: Seq::empty(),
                    }),
                }
            },
            None => nothing(),
        }
    } else if k == "function_item"@ || k == "macro_definition"@ {
        rs_item(ns, src, node, DefKind::Function)
    } else if k == "struct_item"@ || k == "union_item"@ {
        rs_item(ns, src, node, DefKind::Struct)
    } else if k == "enum_item"@ {
        rs_item(ns, src, node, DefKind::Enum)
    } else if k == "trait_item"@ {
        rs_item(ns, src, node, DefKind::Trait)
    } else if k == "type_item"@ {
        rs_item(ns, src, node, DefKind::TypeAlias)
    } else if k == "const_item"@ || k == "static_item"@ {
        rs_item(ns, src, node, DefKind::Const)
    } else if k == "impl_item"@ {
        let name = match field_child(ns, node, "type"@) {
            Some(t) => node_text(src, ns[t]),
            None => Seq::empty(),
        };
        let def = if name.len() == 0 {
            nothing()
        } else {
            FoundView { imports: Seq::empty(), exports: Seq::empty(), definitions: seq![DefView { name, kind: DefKind::Impl, line: line_of_row(ns[node].row), exported: false }] }
        };
        match field_child(ns, node, "body"@) {
            Some(b) => if fuel == 0 { def } else { both(def, rs_items(ns, src, children_of(ns, b), scope, (fuel - 1) as nat)) },
            None => def,
        }
    } else {
        nothing()
    }
}

/// What a Rust file declares, before it is put in order.
pub open spec fn rs_found(ns: Seq<NodeView>, src: Seq<u8>) -> FoundView {
    if ns.len() == 0 { nothing() } else { rs_items(ns, src, children_of(ns, 0), None, ns.len()) }
}

/// An optional text, as text.
pub open spec fn opt_text(o: Option<String>) -> Option<Seq<char>> {
    match o {
        Some(s) => Some(s@),
        None => None,
    }
}

fn copy_opt(o: &Option<String>) -> (r: Option<String>)
    ensures
        opt_text(r) == opt_text(*o),
{
    match o {
        Some(s) => Some(crate::text::owned(s.as_str())),
        None => None,
    }
}

fn is_pub_of(tree: &SyntaxTree, src: &[u8], node: usize) -> (r: bool)
    requires
        tree.wf(),
        node < tree.nodes@.len(),
    ensures
        r == is_pub(views(tree.nodes@), src@, node as int),
{
    let ghost ns = views(tree.nodes@);
    let kids = &tree.children[node];
    let ghost ks = kids@.map_values(|c: usize| c as int);
    let mut found = false;
    let mut i: usize = 0;
    while i < kids.len()
        invariant
            tree.wf(),
            ns == views(tree.nodes@),
            node < ns.len(),
            ks == kids@.map_values(|c: usize| c as int),
            ks == children_of(ns, node as int),
            i <= ks.len(),
            found == has_pub(ns, src@, ks.take(i as int)),
        decreases ks.len() - i,
    {
        proof { lemma_child_after(ns, node as int, ns.len() as int, i as int); }
        let c = kids[i];
        assert(ks.take(i + 1).drop_last() =~= ks.take(i as int));
        assert(ks.take(i + 1).last() == c as int);
        if tree.kind_is(c, "visibility_modifier") {
            let t = chars_of(tree.text_at(src, c).as_str());
            let p = chars_of("pub");
            if crate::text::starts_with(t.as_slice(), p.as_slice()) {
                found = true;
            }
        }
        i += 1;
    }
    assert(ks.take(i as int) =~= ks);
    found
}

fn item_of(tree: &SyntaxTree, src: &[u8], node: usize, kind: DefKind) -> (r: Found)
    requires
        tree.wf(),
        node < tree.nodes@.len(),
    ensures
        r@ == rs_item(views(tree.nodes@), src@, node as int, kind),
{
    let mut out = Found::new();
    match tree.field_in(node, "name") {
        Some(n) => {
            let name = tree.text_at(src, n);
            let line = tree.line_of(node);
            let exported = is_pub_of(tree, src, node);
            let nc = chars_of(name.as_str());
            if nc.len() == 0 {
                return out;
            }
            if exported {
                out.exports.push(ExportItem { name: crate::text::owned(name.as_str()), from: None, line });
            }
            out.definitions.push(Definition { name, kind, line, exported });
            proof {
                let d = rs_item(views(tree.nodes@), src@, node as int, kind);
                assert(out@.imports =~= d.imports);
                assert(out@.exports =~= d.exports);
                assert(out@.definitions =~= d.definitions);
            }
            out
        },
        None => out,
    }
}

fn join_seg(prefix: &str, seg: &str) -> (r: String)
    ensures
        r@ == joined(prefix@, seg@),
{
    let pc = chars_of(prefix);
    if pc.len() == 0 {
        crate::text::owned(seg)
    } else {
        let a = crate::text::concat(prefix, "::");
        crate::text::concat(a.as_str(), seg)
    }
}

/// A leaf taken by its view.
pub open spec fn leaf_view(l: (String, Option<String>, bool)) -> (Seq<char>, Option<Seq<char>>, bool) {
    (l.0@, opt_text(l.1), l.2)
}

fn first_not_punct_of(tree: &SyntaxTree, node: usize) -> (r: Option<usize>)
    requires
        tree.wf(),
        node < tree.nodes@.len(),
    ensures
        match r {
            Some(c) => first_not_punct(views(tree.nodes@), children_of(views(tree.nodes@), node as int)) == Some(c as int) && c < tree.nodes@.len(),
            None => first_not_punct(views(tree.nodes@), children_of(views(tree.nodes@), node as int)) is None,
        },
{
    let ghost ns = views(tree.nodes@);
    let kids = &tree.children[node];
    let ghost ks = kids@.map_values(|c: usize| c as int);
    let mut i: usize = 0;
    assert(ks.skip(0) =~= ks);
    while i < kids.len()
        invariant
            tree.wf(),
            ns == views(tree.nodes@),
            node < ns.len(),
            ks == kids@.map_values(|c: usize| c as int),
            ks == children_of(ns, node as int),
            i <= ks.len(),
            first_not_punct(ns, ks) == first_not_punct(ns, ks.skip(i as int)),
        decreases ks.len() - i,
    {
        proof { lemma_child_after(ns, node as int, ns.len() as int, i as int); }
        let c = kids[i];
        assert(ks.skip(i as int)[0] == c as int);
        assert(ks.skip(i as int).drop_first() =~= ks.skip(i + 1));
        if !tree.kind_is(c, "*") && !tree.kind_is(c, "::") {
            return Some(c);
        }
        i += 1;
    }
    None
}

fn leaves_of(tree: &SyntaxTree, src: &[u8], node: usize, prefix: &str, fuel: usize) -> (r: Vec<(String, Option<String>, bool)>)
    requires
        tree.wf(),
        node < tree.nodes@.len(),
    ensures
        r@.map_values(|l: (String, Option<String>, bool)| leaf_view(l)) == leaves(views(tree.nodes@), src@, node as int, prefix@, fuel as nat),
    decreases fuel, 0nat,
{
    let mut out: Vec<(String, Option<String>, bool)> = Vec::new();
    if tree.kind_is(node, "scoped_identifier") || tree.kind_is(node, "identifier") || tree.kind_is(node, "crate")
        || tree.kind_is(node, "super") || tree.kind_is(node, "self") || tree.kind_is(node, "metavariable") {
        let l = (join_seg(prefix, tree.text_at(src, node).as_str()), None, false);
        out.push(l);
        assert(out@.map_values(|l: (String, Option<String>, bool)| leaf_view(l)) =~= seq![leaf_view(l)]);
    } else if tree.kind_is(node, "use_as_clause") {
        let path = match tree.field_in(node, "path") {
            Some(p) => join_seg(prefix, tree.text_at(src, p).as_str()),
            None => String::new(),
        };
        let alias = match tree.field_in(node, "alias") {
            Some(a) => Some(tree.text_at(src, a)),
            None => None,
        };
        let l = (path, alias, false);
        out.push(l);
        assert(out@.map_values(|l: (String, Option<String>, bool)| leaf_view(l)) =~= seq![leaf_view(l)]);
    } else if tree.kind_is(node, "use_wildcard") {
        let base = match first_not_punct_of(tree, node) {
            Some(c) => join_seg(prefix, tree.text_at(src, c).as_str()),
            None => crate::text::owned(prefix),
        };
        let l = (base, None, true);
        out.push(l);
        assert(out@.map_values(|l: (String, Option<String>, bool)| leaf_view(l)) =~= seq![leaf_view(l)]);
    } else if fuel == 0 {
        assert(out@.map_values(|l: (String, Option<String>, bool)| leaf_view(l)) =~= Seq::<(Seq<char>, Option<Seq<char>>, bool)>::empty());
    } else if tree.kind_is(node, "scoped_use_list") {
        let base = match tree.field_in(node, "path") {
            Some(p) => join_seg(prefix, tree.text_at(src, p).as_str()),
            None => crate::text::owned(prefix),
        };
        match tree.field_in(node, "list") {
            Some(l) => {
                return leaves_of(tree, src, l, base.as_str(), fuel - 1);
            },
            None => {
                assert(out@.map_values(|l: (String, Option<String>, bool)| leaf_view(l)) =~= Seq::<(Seq<char>, Option<Seq<char>>, bool)>::empty());
            },
        }
    } else if tree.kind_is(node, "use_list") {
        return list_leaves_of(tree, src, node, prefix, fuel - 1);
    } else {
        assert(out@.map_values(|l: (String, Option<String>, bool)| leaf_view(l)) =~= Seq::<(Seq<char>, Option<Seq<char>>, bool)>::empty());
    }
    out
}

fn list_leaves_of(tree: &SyntaxTree, src: &[u8], node: usize, prefix: &str, fuel: usize) -> (r: Vec<(String, Option<String>, bool)>)
    requires
        tree.wf(),
        node < tree.nodes@.len(),
    ensures
        r@.map_values(|l: (String, Option<String>, bool)| leaf_view(l)) == list_leaves(views(tree.nodes@), src@, children_of(views(tree.nodes@), node as int), prefix@, fuel as nat),
    decreases fuel, 1nat,
{
    let ghost ns = views(tree.nodes@);
    let kids = &tree.children[node];
    let ghost ks = kids@.map_values(|c: usize| c as int);
    let mut out: Vec<(String, Option<String>, bool)> = Vec::new();
    let mut i: usize = 0;
    while i < kids.len()
        invariant
            tree.wf(),
            ns == views(tree.nodes@),
            node < ns.len(),
            ks == kids@.map_values(|c: usize| c as int),
            ks == children_of(ns, node as int),
            i <= ks.len(),
            out@.map_values(|l: (String, Option<String>, bool)| leaf_view(l)) == list_leaves(ns, src@, ks.take(i as int), prefix@, fuel as nat),
        decreases ks.len() - i,
    {
        proof { lemma_child_after(ns, node as int, ns.len() as int, i as int); }
        let c = kids[i];
        assert(ks.take(i + 1).drop_last() =~= ks.take(i as int));
        assert(ks.take(i + 1).last() == c as int);
        let ghost before = out@.map_values(|l: (String, Option<String>, bool)| leaf_view(l));
        if !(tree.kind_is(c, "{") || tree.kind_is(c, "}") || tree.kind_is(c, ",")) {
            let mut more = leaves_of(tree, src, c, prefix, fuel);
            let ghost mv = more@.map_values(|l: (String, Option<String>, bool)| leaf_view(l));
            out.append(&mut more);
            assert(out@.map_values(|l: (String, Option<String>, bool)| leaf_view(l)) =~= before + mv);
        } else {
            assert(before + Seq::<(Seq<char>, Option<Seq<char>>, bool)>::empty() =~= before);
        }
        i += 1;
    }
    assert(ks.take(i as int) =~= ks);
    out
}

pub(crate) fn last_segment_of(s: &[char]) -> (r: Vec<char>)
    ensures
        r@ == last_segment(s@),
{
    let mut i = s.len();
    assert(s@.take(i as int) =~= s@);
    while i >= 2
        invariant
            i <= s@.len(),
            last_dcolon(s@) == last_dcolon(s@.take(i as int)),
        decreases i,
    {
        assert(s@.take(i as int).drop_last() =~= s@.take(i - 1));
        if s[i - 2] == ':' && s[i - 1] == ':' {
            assert(last_dcolon(s@.take(i as int)) == Some(i - 2));
            return vstd::slice::slice_to_vec(vstd::slice::slice_subrange(s, i, s.len()));
        }
        i -= 1;
    }
    assert(last_dcolon(s@.take(i as int)) is None);
    vstd::slice::slice_to_vec(s)
}

fn use_of(tree: &SyntaxTree, src: &[u8], node: usize, scope: &Option<String>) -> (r: Found)
    requires
        tree.wf(),
        node < tree.nodes@.len(),
    ensures
        r@ == rs_use(views(tree.nodes@), src@, node as int, opt_text(*scope)),
{
    let mut out = Found::new();
    let line = tree.line_of(node);
    let reexport = is_pub_of(tree, src, node);
    let arg = match tree.field_in(node, "argument") {
        Some(a) => a,
        None => {
            return out;
        },
    };
    let ls = leaves_of(tree, src, arg, "", tree.nodes.len());
    proof { reveal_strlit(""); assert(""@ =~= Seq::<char>::empty()); }
    let ghost lv = ls@.map_values(|l: (String, Option<String>, bool)| leaf_view(l));
    let ghost sc = opt_text(*scope);
    let mut i: usize = 0;
    while i < ls.len()
        invariant
            i <= lv.len(),
            lv == ls@.map_values(|l: (String, Option<String>, bool)| leaf_view(l)),
            sc == opt_text(*scope),
            out@ == use_leaves(lv.take(i as int), line, reexport, sc),
        decreases lv.len() - i,
    {
        assert(lv.take(i + 1).drop_last() =~= lv.take(i as int));
        assert(lv.take(i + 1).last() == leaf_view(ls@[i as int]));
        let path = &ls[i].0;
        let pc = chars_of(path.as_str());
        let mut part = Found::new();
        if pc.len() > 0 {
            let leaf = string_of(last_segment_of(pc.as_slice()).as_slice());
            let names = if ls[i].2 { ImportedNames::Namespace } else {
                let mut v: Vec<String> = Vec::new();
                v.push(crate::text::owned(leaf.as_str()));
                assert(v@.map_values(|s: String| s@) =~= seq![leaf@]);
                ImportedNames::Named(v)
            };
            if reexport {
                let name = match &ls[i].1 {
                    Some(a) => crate::text::owned(a.as_str()),
                    None => crate::text::owned(leaf.as_str()),
                };
                part.exports.push(ExportItem { name, from: Some(crate::text::owned(path.as_str())), line });
            }
            part.imports.push(RawImport {
                specifier: crate::text::owned(path.as_str()),
                line,
                kind: if reexport { ImportKind::ReExport } else { ImportKind::Static },
                names,
                type_only: false,
                scope: copy_opt(scope),
            });
            proof {
                let (p0, a0, g0) = lv[i as int];
                let lf = last_segment(p0);
                let here = FoundView {
                    imports: seq![ImportView {
                        specifier: p0,
                        line,
                        kind: if reexport { ImportKind::ReExport } else { ImportKind::Static },
                        names: if g0 { NamesView::Namespace } else { NamesView::Named(seq![lf]) },
                        type_only: false,
                        scope: sc,
                    }],
                    exports: if reexport {
                        seq![ExportView { name: match a0 { Some(a) => a, None => lf }, from: Some(p0), line }]
                    } else {
                        Seq::empty()
                    },
                    definitions: Seq::empty(),
                };
                assert(part@.imports =~= here.imports);
                assert(part@.exports =~= here.exports);
                assert(part@.definitions =~= here.definitions);
            }
        }
        out.extend(part);
        i += 1;
    }
    assert(lv.take(i as int) =~= lv);
    out
}

fn find_text_in(s: &[char], p: &[char], from: usize) -> (r: Option<usize>)
    ensures
        match r {
            Some(i) => find_text(s@, p@, from as int) == Some(i as int),
            None => find_text(s@, p@, from as int) is None,
        },
    decreases s@.len() + 1 - from,
{
    if from > s.len() || p.len() > s.len() - from {
        return None;
    }
    if p.len() == 0 {
        assert(s@.subrange(from as int, from as int) =~= p@);
        return Some(from);
    }
    let part = vstd::slice::slice_subrange(s, from, from + p.len());
    if crate::text::chars_eq(part, p) {
        Some(from)
    } else {
        find_text_in(s, p, from + 1)
    }
}

fn find_quote_in(s: &[char], from: usize) -> (r: Option<usize>)
    ensures
        match r {
            Some(i) => find_quote(s@, from as int) == Some(i as int) && i < s@.len(),
            None => find_quote(s@, from as int) is None,
        },
    decreases s@.len() - from,
{
    if from >= s.len() {
        return None;
    }
    if s[from] == '"' || s[from] == '\'' {
        Some(from)
    } else {
        find_quote_in(s, from + 1)
    }
}

fn path_value_of(text: &[char]) -> (r: Option<Vec<char>>)
    ensures
        match r {
            Some(v) => path_value(text@) == Some(v@),
            None => path_value(text@) is None,
        },
{
    let pat = chars_of("path");
    let n = text.len();
    proof { reveal_strlit("path"); }
    assert(pat@.len() == 4);
    match find_text_in(text, pat.as_slice(), 0) {
        Some(p) => {
            proof { lemma_find_text_bound(text@, pat@, 0); }
            assert(p + 4 <= n);
            match find_quote_in(text, p + 4) {
                Some(open) => match find_quote_in(text, open + 1) {
                    Some(end) => {
                        proof { lemma_find_quote_after(text@, open + 1); }
                        Some(vstd::slice::slice_to_vec(vstd::slice::slice_subrange(text, open + 1, end)))
                    },
                    None => None,
                },
                None => None,
            }
        },
        None => None,
    }
}

proof fn lemma_find_quote_after(s: Seq<char>, from: int)
    ensures
        match find_quote(s, from) {
            Some(i) => from <= i,
            None => true,
        },
    decreases s.len() - from,
{
    if 0 <= from < s.len() && !(s[from] == '"' || s[from] == '\'') {
        lemma_find_quote_after(s, from + 1);
    }
}

proof fn lemma_find_text_bound(s: Seq<char>, p: Seq<char>, from: int)
    ensures
        match find_text(s, p, from) {
            Some(i) => 0 <= from <= i && i + p.len() <= s.len(),
            None => true,
        },
    decreases s.len() + 1 - from,
{
    if !(from < 0 || from > s.len() || from + p.len() > s.len()) && s.subrange(from, from + p.len()) != p {
        lemma_find_text_bound(s, p, from + 1);
    }
}

proof fn lemma_index_in(s: Seq<int>, x: int)
    ensures
        match index_in(s, x) {
            Some(i) => 0 <= i < s.len() && s[i] == x,
            None => !s.contains(x),
        },
    decreases s.len(),
{
    if s.len() > 0 && s[0] != x {
        lemma_index_in(s.drop_first(), x);
        if index_in(s.drop_first(), x) is None {
            assert forall|k: int| 0 <= k < s.len() implies s[k] != x by {
                if k > 0 {
                    assert(s[k] == s.drop_first()[k - 1]);
                }
            }
        }
    }
}

fn path_attribute_of(tree: &SyntaxTree, src: &[u8], node: usize) -> (r: Option<String>)
    requires
        tree.wf(),
        node < tree.nodes@.len(),
    ensures
        opt_text(r) == path_attribute(views(tree.nodes@), src@, siblings_before(views(tree.nodes@), node as int)),
{
    let ghost ns = views(tree.nodes@);
    let parent = match tree.parents[node] {
        Some(p) => p,
        None => {
            return None;
        },
    };
    proof { lemma_parent_before(ns, node as int); }
    let kids = &tree.children[parent];
    let ghost ks = kids@.map_values(|c: usize| c as int);
    assert(ks == children_of(ns, parent as int));
    let mut pos: usize = 0;
    let mut found = false;
    assert(ks.skip(0) =~= ks);
    while pos < kids.len() && !found
        invariant
            pos <= ks.len(),
            ks == kids@.map_values(|c: usize| c as int),
            found ==> pos < ks.len() && index_in(ks, node as int) == Some(pos as int),
            !found ==> index_in(ks, node as int) == match index_in(ks.skip(pos as int), node as int) {
                Some(i) => Some(i + pos),
                None => None,
            },
        decreases ks.len() - pos + if found { 0int } else { 1int },
    {
        assert(ks.skip(pos as int)[0] == kids@[pos as int] as int);
        assert(ks.skip(pos as int).drop_first() =~= ks.skip(pos + 1));
        if kids[pos] == node {
            found = true;
        } else {
            pos += 1;
        }
    }
    if !found {
        assert(ks.skip(pos as int) =~= Seq::<int>::empty());
        return None;
    }
    let ghost before = ks.take(pos as int);
    assert(siblings_before(ns, node as int) == before);
    let mut k = pos;
    assert(before.take(k as int) =~= before);
    while k > 0
        invariant
            tree.wf(),
            ns == views(tree.nodes@),
            parent < ns.len(),
            ks == kids@.map_values(|c: usize| c as int),
            ks == children_of(ns, parent as int),
            k <= pos,
            pos < ks.len(),
            before == ks.take(pos as int),
            node < ns.len(),
            siblings_before(ns, node as int) == before,
            path_attribute(ns, src@, before) == path_attribute(ns, src@, before.take(k as int)),
        decreases k,
    {
        proof { lemma_child_after(ns, parent as int, ns.len() as int, (k - 1) as int); }
        let sib = kids[k - 1];
        assert(before.take(k as int).last() == sib as int);
        assert(before.take(k as int).drop_last() =~= before.take(k - 1));
        if !tree.kind_is(sib, "attribute_item") {
            return None;
        }
        let text = chars_of(tree.text_at(src, sib).as_str());
        match path_value_of(text.as_slice()) {
            Some(v) => {
                return Some(string_of(v.as_slice()));
            },
            None => {},
        }
        k -= 1;
    }
    assert(before.take(0) =~= Seq::<int>::empty());
    None
}

fn walk_items(tree: &SyntaxTree, src: &[u8], parent: usize, scope: &Option<String>, fuel: usize) -> (r: Found)
    requires
        tree.wf(),
        parent < tree.nodes@.len(),
    ensures
        r@ == rs_items(views(tree.nodes@), src@, children_of(views(tree.nodes@), parent as int), opt_text(*scope), fuel as nat),
    decreases fuel, 3nat,
{
    let ghost ns = views(tree.nodes@);
    let kids = &tree.children[parent];
    let ghost ks = kids@.map_values(|c: usize| c as int);
    let mut out = Found::new();
    let mut i: usize = 0;
    while i < kids.len()
        invariant
            tree.wf(),
            ns == views(tree.nodes@),
            parent < ns.len(),
            ks == kids@.map_values(|c: usize| c as int),
            ks == children_of(ns, parent as int),
            i <= ks.len(),
            out@ == rs_items(ns, src@, ks.take(i as int), opt_text(*scope), fuel as nat),
        decreases ks.len() - i,
    {
        proof { lemma_child_after(ns, parent as int, ns.len() as int, i as int); }
        let c = kids[i];
        assert(ks.take(i + 1).drop_last() =~= ks.take(i as int));
        assert(ks.take(i + 1).last() == c as int);
        let part = walk_node(tree, src, c, scope, fuel);
        out.extend(part);
        i += 1;
    }
    assert(ks.take(i as int) =~= ks);
    out
}

fn walk_node(tree: &SyntaxTree, src: &[u8], node: usize, scope: &Option<String>, fuel: usize) -> (r: Found)
    requires
        tree.wf(),
        node < tree.nodes@.len(),
    ensures
        r@ == rs_node(views(tree.nodes@), src@, node as int, opt_text(*scope), fuel as nat),
    decreases fuel, 2nat,
{
    if tree.kind_is(node, "use_declaration") {
        use_of(tree, src, node, scope)
    } else if tree.kind_is(node, "mod_item") {
        match tree.field_in(node, "name") {
            Some(n) => {
                let name = tree.text_at(src, n);
                let line = tree.line_of(node);
                let mut out = Found::new();
                let exported = is_pub_of(tree, src, node);
                out.definitions.push(Definition { name: crate::text::owned(name.as_str()), kind: DefKind::Module, line, exported });
                let ghost def = out@;
                match tree.field_in(node, "body") {
                    Some(b) => {
                        if fuel > 0 {
                            let nested = match scope {
                                Some(o) => {
                                    let a = crate::text::concat(o.as_str(), "::");
                                    crate::text::concat(a.as_str(), name.as_str())
                                },
                                None => crate::text::owned(name.as_str()),
                            };
                            let inner = walk_items(tree, src, b, &Some(nested), fuel - 1);
                            out.extend(inner);
                        }
                    },
                    None => {
                        let path = path_attribute_of(tree, src, node);
                        let spec = match path {
                            Some(p) => {
                                let mut v = chars_of(name.as_str());
                                v.push('\u{1}');
                                let pc = chars_of(p.as_str());
                                let mut j: usize = 0;
                                let ghost start = v@;
                                while j < pc.len()
                                    invariant
                                        j <= pc@.len(),
                                        v@ == start + pc@.take(j as int),
                                    decreases pc@.len() - j,
                                {
                                    v.push(pc[j]);
                                    j += 1;
                                    assert(pc@.take(j as int) =~= pc@.take(j - 1).push(pc@[j - 1]));
                                }
                                assert(pc@.take(j as int) =~= pc@);
                                string_of(v.as_slice())
                            },
                            None => name,
                        };
                        let ghost before = out@;
                        let imp = RawImport { specifier: spec, line, kind: ImportKind::ModDecl, names: ImportedNames::Namespace, type_only: false, scope: copy_opt(scope) };
                        out.imports.push(imp);
                        assert(out@.imports =~= before.imports.push(imp@));
                    },
                }
                proof {
                    let d = rs_node(views(tree.nodes@), src@, node as int, opt_text(*scope), fuel as nat);
                    assert(out@.imports =~= d.imports);
                    assert(out@.exports =~= d.exports);
                    assert(out@.definitions =~= d.definitions);
                }
                out
            },
            None => Found::new(),
        }
    } else if tree.kind_is(node, "function_item") || tree.kind_is(node, "macro_definition") {
        item_of(tree, src, node, DefKind::Function)
    } else if tree.kind_is(node, "struct_item") || tree.kind_is(node, "union_item") {
        item_of(tree, src, node, DefKind::Struct)
    } else if tree.kind_is(node, "enum_item") {
        item_of(tree, src, node, DefKind::Enum)
    } else if tree.kind_is(node, "trait_item") {
        item_of(tree, src, node, DefKind::Trait)
    } else if tree.kind_is(node, "type_item") {
        item_of(tree, src, node, DefKind::TypeAlias)
    } else if tree.kind_is(node, "const_item") || tree.kind_is(node, "static_item") {
        item_of(tree, src, node, DefKind::Const)
    } else if tree.kind_is(node, "impl_item") {
        let name = match tree.field_in(node, "type") {
            Some(t) => tree.text_at(src, t),
            None => String::new(),
        };
        let mut out = Found::new();
        let nc = chars_of(name.as_str());
        if nc.len() > 0 {
            out.definitions.push(Definition { name, kind: DefKind::Impl, line: tree.line_of(node), exported: false });
        }
        let ghost def = out@;
        proof {
            assert(def.imports =~= Seq::<ImportView>::empty());
            assert(def.exports =~= Seq::<ExportView>::empty());
        }
        match tree.field_in(node, "body") {
            Some(b) => {
                if fuel > 0 {
                    let inner = walk_items(tree, src, b, scope, fuel - 1);
                    out.extend(inner);
                }
            },
            None => {},
        }
        proof {
            let d = rs_node(views(tree.nodes@), src@, node as int, opt_text(*scope), fuel as nat);
            assert(out@.imports =~= d.imports);
            assert(out@.exports =~= d.exports);
            assert(out@.definitions =~= d.definitions);
        }
        out
    } else {
        Found::new()
    }
}

/// What a Rust file declares, in the order the tree gives.
pub fn extract(tree: &SyntaxTree, src: &[u8]) -> (r: Found)
    requires
        tree.wf(),
    ensures
        r@ == rs_found(views(tree.nodes@), src@),
{
    if tree.nodes.len() == 0 {
        return Found::new();
    }
    walk_items(tree, src, 0, &None, tree.nodes.len())
}

} // verus!
