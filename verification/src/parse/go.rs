//! What a Go file declares: its imports, and its top-level functions,
//! types, constants and variables, exported when capitalised.
use vstd::prelude::*;
use crate::parse::{both, line_at, line_of_row, nothing, unquote, unquoted, DefKind, DefView, Definition, ExportItem, ExportView, Found, FoundView, ImportKind, ImportView, ImportedNames, NamesView, RawImport};
use crate::parse::tree::{children_of, field_child, lemma_child_after, node_text, text_of, views, NodeView, SyntaxTree};
use crate::text::str_eq;

verus! {

/// Whether a character is upper case, as `char::is_uppercase` decides by
/// the Unicode `Uppercase` property.
pub uninterp spec fn upper_case(c: char) -> bool;

/// `char::is_uppercase`: its answer is named `upper_case`; for ASCII it is
/// true exactly of `A` to `Z`.
#[verifier::external_body]
fn is_uppercase(c: char) -> (r: bool)
    ensures
        r == upper_case(c),
        (c as u32) < 128 ==> (r <==> ('A' <= c && c <= 'Z')),
{
    c.is_uppercase()
}

/// The `import_spec` nodes at or under `node`, in order, not looking inside
/// one; `fuel` bounds the depth searched.
pub open spec fn import_specs(ns: Seq<NodeView>, node: int, fuel: nat) -> Seq<int>
    decreases fuel, 0nat,
{
    if fuel == 0 {
        Seq::empty()
    } else if ns[node].kind == "import_spec"@ {
        seq![node]
    } else {
        import_specs_in(ns, children_of(ns, node), (fuel - 1) as nat)
    }
}

/// The `import_spec` nodes at or under each of `kids`, in order.
pub open spec fn import_specs_in(ns: Seq<NodeView>, kids: Seq<int>, fuel: nat) -> Seq<int>
    decreases fuel, kids.len(),
{
    if kids.len() == 0 {
        Seq::empty()
    } else {
        import_specs_in(ns, kids.drop_last(), fuel) + import_specs(ns, kids.last(), fuel)
    }
}

/// The first of `kids` that is a string literal.
pub open spec fn first_string(ns: Seq<NodeView>, kids: Seq<int>) -> Option<int>
    decreases kids.len(),
{
    if kids.len() == 0 {
        None
    } else if ns[kids[0]].kind == "interpreted_string_literal"@ || ns[kids[0]].kind == "raw_string_literal"@ {
        Some(kids[0])
    } else {
        first_string(ns, kids.drop_first())
    }
}

/// The import an `import_spec` node makes: its path, unquoted, when it has
/// one and it is not empty.
pub open spec fn spec_import(ns: Seq<NodeView>, src: Seq<u8>, s: int) -> Seq<ImportView> {
    match first_string(ns, children_of(ns, s)) {
        Some(c) => {
            let path = unquoted(node_text(src, ns[c]));
            if path.len() == 0 {
                Seq::empty()
            } else {
                seq![ImportView { specifier: path, line: line_of_row(ns[s].row), kind: ImportKind::Static, names: NamesView::Namespace, type_only: false, scope: None }]
            }
        },
        None => Seq::empty(),
    }
}

/// The imports the `import_spec` nodes `specs` make, in order.
pub open spec fn spec_imports(ns: Seq<NodeView>, src: Seq<u8>, specs: Seq<int>) -> Seq<ImportView>
    decreases specs.len(),
{
    if specs.len() == 0 {
        Seq::empty()
    } else {
        spec_imports(ns, src, specs.drop_last()) + spec_import(ns, src, specs.last())
    }
}

/// What a name declared on `line` contributes: a definition, and an export
/// when it is capitalised; nothing for an empty name.
pub open spec fn declared(name: Seq<char>, kind: DefKind, line: u32) -> FoundView {
    if name.len() == 0 {
        nothing()
    } else {
        let exported = upper_case(name[0]);
        FoundView {
            imports: Seq::empty(),
            exports: if exported { seq![ExportView { name, from: None, line }] } else { Seq::empty() },
            definitions: seq![DefView { name, kind, line, exported }],
        }
    }
}

/// What the `name` field of `node` declares, on the line of `at`.
pub open spec fn named_decl(ns: Seq<NodeView>, src: Seq<u8>, node: int, at: int, kind: DefKind) -> FoundView {
    match field_child(ns, node, "name"@) {
        Some(n) => declared(node_text(src, ns[n]), kind, line_of_row(ns[at].row)),
        None => nothing(),
    }
}

/// The kind of a `type_spec`: a struct, an interface, or an alias.
pub open spec fn type_kind(ns: Seq<NodeView>, spec: int) -> DefKind {
    match field_child(ns, spec, "type"@) {
        Some(t) => if ns[t].kind == "struct_type"@ {
            DefKind::Struct
        } else if ns[t].kind == "interface_type"@ {
            DefKind::Interface
        } else {
            DefKind::TypeAlias
        },
        None => DefKind::TypeAlias,
    }
}

/// What one child of a type or value declaration declares.
pub open spec fn member_decl(ns: Seq<NodeView>, src: Seq<u8>, c: int, types: bool) -> FoundView {
    if types {
        if ns[c].kind == "type_spec"@ { named_decl(ns, src, c, c, type_kind(ns, c)) } else { nothing() }
    } else {
        if ns[c].kind == "const_spec"@ || ns[c].kind == "var_spec"@ { named_decl(ns, src, c, c, DefKind::Const) } else { nothing() }
    }
}

/// What the children `kids` of a declaration declare, in order.
pub open spec fn members(ns: Seq<NodeView>, src: Seq<u8>, kids: Seq<int>, types: bool) -> FoundView
    decreases kids.len(),
{
    if kids.len() == 0 {
        nothing()
    } else {
        both(members(ns, src, kids.drop_last(), types), member_decl(ns, src, kids.last(), types))
    }
}

/// What one top-level node of a Go file contributes.
pub open spec fn go_top(ns: Seq<NodeView>, src: Seq<u8>, node: int) -> FoundView {
    let k = ns[node].kind;
    if k == "import_declaration"@ {
        FoundView {
            imports: spec_imports(ns, src, import_specs(ns, node, ns.len())),
            exports: Seq::empty(),
            definitions: Seq::empty(),
        }
    } else if k == "function_declaration"@ || k == "method_declaration"@ {
        named_decl(ns, src, node, node, DefKind::Function)
    } else if k == "type_declaration"@ {
        members(ns, src, children_of(ns, node), true)
    } else if k == "const_declaration"@ || k == "var_declaration"@ {
        members(ns, src, children_of(ns, node), false)
    } else {
        nothing()
    }
}

/// What the top-level nodes `kids` contribute, in order.
pub open spec fn go_tops(ns: Seq<NodeView>, src: Seq<u8>, kids: Seq<int>) -> FoundView
    decreases kids.len(),
{
    if kids.len() == 0 {
        nothing()
    } else {
        both(go_tops(ns, src, kids.drop_last()), go_top(ns, src, kids.last()))
    }
}

/// What a Go file declares, before it is put in order.
pub open spec fn go_found(ns: Seq<NodeView>, src: Seq<u8>) -> FoundView {
    if ns.len() == 0 { nothing() } else { go_tops(ns, src, children_of(ns, 0)) }
}

fn kind_is(tree: &SyntaxTree, i: usize, k: &str) -> (r: bool)
    requires
        i < tree.nodes@.len(),
    ensures
        r == (views(tree.nodes@)[i as int].kind == k@),
{
    assert(views(tree.nodes@)[i as int] == tree.nodes@[i as int]@);
    str_eq(tree.nodes[i].kind.as_str(), k)
}

fn collect_specs(tree: &SyntaxTree, node: usize, fuel: usize) -> (r: Vec<usize>)
    requires
        tree.wf(),
        node < tree.nodes@.len(),
    ensures
        r@.map_values(|c: usize| c as int) == import_specs(views(tree.nodes@), node as int, fuel as nat),
        forall|k: int| 0 <= k < r@.len() ==> r@[k] < tree.nodes@.len(),
    decreases fuel,
{
    let ghost ns = views(tree.nodes@);
    let mut out: Vec<usize> = Vec::new();
    if fuel == 0 {
        assert(out@.map_values(|c: usize| c as int) =~= Seq::<int>::empty());
        return out;
    }
    if kind_is(tree, node, "import_spec") {
        out.push(node);
        assert(out@.map_values(|c: usize| c as int) =~= seq![node as int]);
        return out;
    }
    let kids = &tree.children[node];
    let ghost ks = kids@.map_values(|c: usize| c as int);
    assert(ks == children_of(ns, node as int));
    let mut i: usize = 0;
    while i < kids.len()
        invariant
            tree.wf(),
            ns == views(tree.nodes@),
            node < ns.len(),
            fuel > 0,
            ks == kids@.map_values(|c: usize| c as int),
            ks == children_of(ns, node as int),
            i <= ks.len(),
            out@.map_values(|c: usize| c as int) == import_specs_in(ns, ks.take(i as int), (fuel - 1) as nat),
            forall|k: int| 0 <= k < out@.len() ==> out@[k] < tree.nodes@.len(),
        decreases ks.len() - i,
    {
        proof { lemma_child_after(ns, node as int, ns.len() as int, i as int); }
        let c = kids[i];
        let mut sub = collect_specs(tree, c, fuel - 1);
        let ghost before = out@.map_values(|c: usize| c as int);
        let ghost subv = sub@.map_values(|c: usize| c as int);
        out.append(&mut sub);
        proof {
            assert(ks.take(i + 1).drop_last() =~= ks.take(i as int));
            assert(ks.take(i + 1).last() == c as int);
            assert(out@.map_values(|c: usize| c as int) =~= before + subv);
        }
        i += 1;
    }
    assert(ks.take(i as int) =~= ks);
    out
}

fn string_child(tree: &SyntaxTree, node: usize) -> (r: Option<usize>)
    requires
        tree.wf(),
        node < tree.nodes@.len(),
    ensures
        match r {
            Some(c) => first_string(views(tree.nodes@), children_of(views(tree.nodes@), node as int)) == Some(c as int) && c < tree.nodes@.len(),
            None => first_string(views(tree.nodes@), children_of(views(tree.nodes@), node as int)) is None,
        },
{
    let ghost ns = views(tree.nodes@);
    let kids = &tree.children[node];
    let ghost ks = kids@.map_values(|c: usize| c as int);
    let mut i: usize = 0;
    assert(ks.skip(0) =~= ks);
    while i < kids.len()
        invariant
            tree.wf(),
            ns == views(tree.nodes@),
            node < ns.len(),
            ks == kids@.map_values(|c: usize| c as int),
            ks == children_of(ns, node as int),
            i <= ks.len(),
            first_string(ns, ks) == first_string(ns, ks.skip(i as int)),
        decreases ks.len() - i,
    {
        proof { lemma_child_after(ns, node as int, ns.len() as int, i as int); }
        let c = kids[i];
        assert(ks.skip(i as int)[0] == c as int);
        assert(ks.skip(i as int).drop_first() =~= ks.skip(i + 1));
        if kind_is(tree, c, "interpreted_string_literal") || kind_is(tree, c, "raw_string_literal") {
            return Some(c);
        }
        i += 1;
    }
    None
}

fn import_of_spec(tree: &SyntaxTree, src: &[u8], s: usize) -> (r: Found)
    requires
        tree.wf(),
        s < tree.nodes@.len(),
    ensures
        r@ == (FoundView { imports: spec_import(views(tree.nodes@), src@, s as int), exports: Seq::empty(), definitions: Seq::empty() }),
{
    let ghost ns = views(tree.nodes@);
    let mut out = Found::new();
    assert(ns[s as int] == tree.nodes@[s as int]@);
    match string_child(tree, s) {
        Some(c) => {
            assert(ns[c as int] == tree.nodes@[c as int]@);
            let text = text_of(src, &tree.nodes[c]);
            let path = unquote(text.as_str());
            let pc = crate::text::chars_of(path.as_str());
            if pc.len() > 0 {
                out.imports.push(RawImport {
                    specifier: path,
                    line: line_at(tree.nodes[s].row),
                    kind: ImportKind::Static,
                    names: ImportedNames::Namespace,
                    type_only: false,
                    scope: None,
                });
            }
        },
        None => {},
    }
    proof {
        assert(out@.imports =~= spec_import(ns, src@, s as int));
        assert(out@.exports =~= Seq::<ExportView>::empty());
        assert(out@.definitions =~= Seq::<DefView>::empty());
    }
    out
}

fn declare(name: String, kind: DefKind, line: u32) -> (r: Found)
    ensures
        r@ == declared(name@, kind, line),
{
    let mut out = Found::new();
    let cs = crate::text::chars_of(name.as_str());
    if cs.len() == 0 {
        return out;
    }
    let exported = is_uppercase(cs[0]);
    if exported {
        out.exports.push(ExportItem { name: crate::text::owned(name.as_str()), from: None, line });
    }
    out.definitions.push(Definition { name, kind, line, exported });
    proof {
        let d = declared(name@, kind, line);
        assert(out@.imports =~= d.imports);
        assert(out@.exports =~= d.exports);
        assert(out@.definitions =~= d.definitions);
    }
    out
}

fn name_decl(tree: &SyntaxTree, src: &[u8], node: usize, at: usize, kind: DefKind) -> (r: Found)
    requires
        tree.wf(),
        node < tree.nodes@.len(),
        at < tree.nodes@.len(),
    ensures
        r@ == named_decl(views(tree.nodes@), src@, node as int, at as int, kind),
{
    let ghost ns = views(tree.nodes@);
    match tree.field(node, "name") {
        Some(n) => {
            proof {
                let kids = children_of(ns, node as int);
                crate::parse::tree::lemma_field_child_in(ns, node as int, "name"@);
            }
            assert(ns[n as int] == tree.nodes@[n as int]@);
            assert(ns[at as int] == tree.nodes@[at as int]@);
            let text = text_of(src, &tree.nodes[n]);
            declare(text, kind, line_at(tree.nodes[at].row))
        },
        None => Found::new(),
    }
}

fn members_of(tree: &SyntaxTree, src: &[u8], node: usize, types: bool) -> (r: Found)
    requires
        tree.wf(),
        node < tree.nodes@.len(),
    ensures
        r@ == members(views(tree.nodes@), src@, children_of(views(tree.nodes@), node as int), types),
{
    let ghost ns = views(tree.nodes@);
    let kids = &tree.children[node];
    let ghost ks = kids@.map_values(|c: usize| c as int);
    let mut out = Found::new();
    let mut i: usize = 0;
    while i < kids.len()
        invariant
            tree.wf(),
            ns == views(tree.nodes@),
            node < ns.len(),
            ks == kids@.map_values(|c: usize| c as int),
            ks == children_of(ns, node as int),
            i <= ks.len(),
            out@ == members(ns, src@, ks.take(i as int), types),
        decreases ks.len() - i,
    {
        proof { lemma_child_after(ns, node as int, ns.len() as int, i as int); }
        let c = kids[i];
        assert(ks.take(i + 1).drop_last() =~= ks.take(i as int));
        assert(ks.take(i + 1).last() == c as int);
        let part = if types {
            if kind_is(tree, c, "type_spec") {
                let k = match tree.field(c, "type") {
                    Some(t) => {
                        proof { crate::parse::tree::lemma_field_child_in(ns, c as int, "type"@); }
                        if kind_is(tree, t, "struct_type") {
                            DefKind::Struct
                        } else if kind_is(tree, t, "interface_type") {
                            DefKind::Interface
                        } else {
                            DefKind::TypeAlias
                        }
                    },
                    None => DefKind::TypeAlias,
                };
                name_decl(tree, src, c, c, k)
            } else {
                Found::new()
            }
        } else if kind_is(tree, c, "const_spec") || kind_is(tree, c, "var_spec") {
            name_decl(tree, src, c, c, DefKind::Const)
        } else {
            Found::new()
        };
        out.extend(part);
        i += 1;
    }
    assert(ks.take(i as int) =~= ks);
    out
}

fn imports_under(tree: &SyntaxTree, src: &[u8], node: usize) -> (r: Found)
    requires
        tree.wf(),
        node < tree.nodes@.len(),
    ensures
        r@ == (FoundView {
            imports: spec_imports(views(tree.nodes@), src@, import_specs(views(tree.nodes@), node as int, tree.nodes@.len())),
            exports: Seq::empty(),
            definitions: Seq::empty(),
        }),
{
    let ghost ns = views(tree.nodes@);
    let specs = collect_specs(tree, node, tree.nodes.len());
    let ghost sv = specs@.map_values(|c: usize| c as int);
    let mut out = Found::new();
    let mut i: usize = 0;
    while i < specs.len()
        invariant
            tree.wf(),
            ns == views(tree.nodes@),
            sv == specs@.map_values(|c: usize| c as int),
            forall|k: int| 0 <= k < specs@.len() ==> specs@[k] < tree.nodes@.len(),
            i <= sv.len(),
            out@ == (FoundView { imports: spec_imports(ns, src@, sv.take(i as int)), exports: Seq::empty(), definitions: Seq::empty() }),
        decreases sv.len() - i,
    {
        assert(sv.take(i + 1).drop_last() =~= sv.take(i as int));
        assert(sv.take(i + 1).last() == specs@[i as int] as int);
        let part = import_of_spec(tree, src, specs[i]);
        out.extend(part);
        proof {
            assert(out@.exports =~= Seq::<ExportView>::empty());
            assert(out@.definitions =~= Seq::<DefView>::empty());
        }
        i += 1;
    }
    assert(sv.take(i as int) =~= sv);
    out
}

fn top_node(tree: &SyntaxTree, src: &[u8], node: usize) -> (r: Found)
    requires
        tree.wf(),
        node < tree.nodes@.len(),
    ensures
        r@ == go_top(views(tree.nodes@), src@, node as int),
{
    if kind_is(tree, node, "import_declaration") {
        imports_under(tree, src, node)
    } else if kind_is(tree, node, "function_declaration") || kind_is(tree, node, "method_declaration") {
        name_decl(tree, src, node, node, DefKind::Function)
    } else if kind_is(tree, node, "type_declaration") {
        members_of(tree, src, node, true)
    } else if kind_is(tree, node, "const_declaration") || kind_is(tree, node, "var_declaration") {
        members_of(tree, src, node, false)
    } else {
        Found::new()
    }
}

/// What a Go file declares, in the order the tree gives.
pub fn extract(tree: &SyntaxTree, src: &[u8]) -> (r: Found)
    requires
        tree.wf(),
    ensures
        r@ == go_found(views(tree.nodes@), src@),
{
    let ghost ns = views(tree.nodes@);
    if tree.nodes.len() == 0 {
        return Found::new();
    }
    let kids = &tree.children[0];
    let ghost ks = kids@.map_values(|c: usize| c as int);
    let mut out = Found::new();
    let mut i: usize = 0;
    while i < kids.len()
        invariant
            tree.wf(),
            ns == views(tree.nodes@),
            ns.len() > 0,
            ks == kids@.map_values(|c: usize| c as int),
            ks == children_of(ns, 0),
            i <= ks.len(),
            out@ == go_tops(ns, src@, ks.take(i as int)),
        decreases ks.len() - i,
    {
        proof { lemma_child_after(ns, 0, ns.len() as int, i as int); }
        let c = kids[i];
        assert(ks.take(i + 1).drop_last() =~= ks.take(i as int));
        assert(ks.take(i + 1).last() == c as int);
        let part = top_node(tree, src, c);
        out.extend(part);
        i += 1;
    }
    assert(ks.take(i as int) =~= ks);
    out
}

} // verus!
