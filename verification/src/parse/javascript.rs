//! What a JavaScript or TypeScript file declares: its imports and
//! re-exports, its exports, its top-level declarations, and the dynamic
//! imports and `require` calls anywhere in it.
use vstd::prelude::*;
use crate::findings::{contains_chars, contains_text};
use crate::parse::{both, line_at, line_of_row, nothing, unquote, unquoted, DefKind, DefView, Definition, ExportItem, ExportView, Found, FoundView, ImportKind, ImportView, ImportedNames, NamesView, RawImport};
use crate::parse::tree::{children_of, field_child, first_of_kind, lemma_child_after, lemma_field_child_in, node_text, text_of, views, NodeView, SyntaxTree};
use crate::text::{chars_of, has_char, is_prefix, str_eq, string_of};

verus! {

/// The text of the `name`-like field `f` of `node`, or nothing.
pub open spec fn field_text(ns: Seq<NodeView>, src: Seq<u8>, node: int, f: Seq<char>) -> Seq<char> {
    match field_child(ns, node, f) {
        Some(n) => node_text(src, ns[n]),
        None => Seq::empty(),
    }
}

/// What scanning an import clause has found so far: the named imports,
/// whether a default import was seen, and whether a namespace import ended
/// the scan.
pub open spec fn clause_state(ns: Seq<NodeView>, src: Seq<u8>, kids: Seq<int>) -> (Seq<Seq<char>>, bool, bool)
    decreases kids.len(),
{
    if kids.len() == 0 {
        (Seq::empty(), false, false)
    } else {
        let p = clause_state(ns, src, kids.drop_last());
        let c = kids.last();
        if p.2 {
            p
        } else if ns[c].kind == "namespace_import"@ {
            (p.0, p.1, true)
        } else if ns[c].kind == "named_imports"@ {
            (p.0 + specifier_names(ns, src, children_of(ns, c)), p.1, false)
        } else if ns[c].kind == "identifier"@ {
            (p.0, true, false)
        } else {
            p
        }
    }
}

/// The names of the `import_specifier` nodes among `kids`, empty ones left out.
pub open spec fn specifier_names(ns: Seq<NodeView>, src: Seq<u8>, kids: Seq<int>) -> Seq<Seq<char>>
    decreases kids.len(),
{
    if kids.len() == 0 {
        Seq::empty()
    } else {
        let p = specifier_names(ns, src, kids.drop_last());
        let c = kids.last();
        let name = field_text(ns, src, c, "name"@);
        if ns[c].kind == "import_specifier"@ && name.len() > 0 { p.push(name) } else { p }
    }
}

/// The names an import clause brings in.
pub open spec fn clause_names(ns: Seq<NodeView>, src: Seq<u8>, clause: int) -> NamesView {
    let st = clause_state(ns, src, children_of(ns, clause));
    if st.2 {
        NamesView::Namespace
    } else if st.0.len() > 0 {
        NamesView::Named(st.0)
    } else if st.1 {
        NamesView::Default
    } else {
        NamesView::SideEffect
    }
}

/// The names of the last import clause among `kids`, or a side-effect import.
pub open spec fn last_clause_names(ns: Seq<NodeView>, src: Seq<u8>, kids: Seq<int>) -> NamesView
    decreases kids.len(),
{
    if kids.len() == 0 {
        NamesView::SideEffect
    } else if ns[kids.last()].kind == "import_clause"@ {
        clause_names(ns, src, kids.last())
    } else {
        last_clause_names(ns, src, kids.drop_last())
    }
}

/// The import an `import` statement makes.
pub open spec fn js_import(ns: Seq<NodeView>, src: Seq<u8>, node: int) -> FoundView {
    match field_child(ns, node, "source"@) {
        Some(s) => {
            let text = node_text(src, ns[node]);
            FoundView {
                imports: seq![ImportView {
                    specifier: unquoted(node_text(src, ns[s])),
                    line: line_of_row(ns[node].row),
                    kind: ImportKind::Static,
                    names: last_clause_names(ns, src, children_of(ns, node)),
                    type_only: is_prefix("import type"@, text) || is_prefix("import  type"@, text),
                    scope: None,
                }],
                exports: Seq::empty(),
                definitions: Seq::empty(),
            }
        },
        None => nothing(),
    }
}

/// What one name a declaration introduces contributes.
pub open spec fn js_push(name: Seq<char>, kind: DefKind, line: u32, exported: bool) -> FoundView {
    if name.len() == 0 {
        nothing()
    } else {
        FoundView {
            imports: Seq::empty(),
            exports: if exported { seq![ExportView { name, from: None, line }] } else { Seq::empty() },
            definitions: seq![DefView { name, kind, line, exported }],
        }
    }
}

/// The kind of a variable by what it is initialised with.
pub open spec fn declarator_kind(ns: Seq<NodeView>, d: int) -> DefKind {
    match field_child(ns, d, "value"@) {
        Some(v) => if ns[v].kind == "arrow_function"@ || ns[v].kind == "function_expression"@ {
            DefKind::Function
        } else if ns[v].kind == "class"@ {
            DefKind::Class
        } else {
            DefKind::Const
        },
        None => DefKind::Const,
    }
}

/// What the declarators among `kids` introduce, on `line`.
pub open spec fn declarators(ns: Seq<NodeView>, src: Seq<u8>, kids: Seq<int>, line: u32, exported: bool) -> FoundView
    decreases kids.len(),
{
    if kids.len() == 0 {
        nothing()
    } else {
        let c = kids.last();
        let here = if ns[c].kind == "variable_declarator"@ {
            js_push(field_text(ns, src, c, "name"@), declarator_kind(ns, c), line, exported)
        } else {
            nothing()
        };
        both(declarators(ns, src, kids.drop_last(), line, exported), here)
    }
}

/// What a statement declares.
pub open spec fn js_definitions(ns: Seq<NodeView>, src: Seq<u8>, node: int, exported: bool) -> FoundView {
    let k = ns[node].kind;
    let line = line_of_row(ns[node].row);
    let name = field_text(ns, src, node, "name"@);
    if k == "function_declaration"@ || k == "generator_function_declaration"@ {
        js_push(name, DefKind::Function, line, exported)
    } else if k == "class_declaration"@ {
        js_push(name, DefKind::Class, line, exported)
    } else if k == "interface_declaration"@ {
        js_push(name, DefKind::Interface, line, exported)
    } else if k == "type_alias_declaration"@ {
        js_push(name, DefKind::TypeAlias, line, exported)
    } else if k == "enum_declaration"@ {
        js_push(name, DefKind::Enum, line, exported)
    } else if k == "lexical_declaration"@ || k == "variable_declaration"@ {
        declarators(ns, src, children_of(ns, node), line, exported)
    } else {
        nothing()
    }
}

/// The `(name, alias)` pairs of the export specifiers among `kids`, the
/// alias defaulting to the name.
pub open spec fn export_specs(ns: Seq<NodeView>, src: Seq<u8>, kids: Seq<int>) -> Seq<(Seq<char>, Seq<char>)>
    decreases kids.len(),
{
    if kids.len() == 0 {
        Seq::empty()
    } else {
        let p = export_specs(ns, src, kids.drop_last());
        let c = kids.last();
        if ns[c].kind == "export_specifier"@ {
            let name = field_text(ns, src, c, "name"@);
            let alias = match field_child(ns, c, "alias"@) {
                Some(a) => node_text(src, ns[a]),
                None => name,
            };
            p.push((name, alias))
        } else {
            p
        }
    }
}

/// The export specifiers of every export clause among `kids`.
pub open spec fn clause_specs(ns: Seq<NodeView>, src: Seq<u8>, kids: Seq<int>) -> Seq<(Seq<char>, Seq<char>)>
    decreases kids.len(),
{
    if kids.len() == 0 {
        Seq::empty()
    } else {
        let p = clause_specs(ns, src, kids.drop_last());
        let c = kids.last();
        if ns[c].kind == "export_clause"@ { p + export_specs(ns, src, children_of(ns, c)) } else { p }
    }
}

/// The names forwarded by a re-export, empty names left out.
pub open spec fn forwarded_names(pairs: Seq<(Seq<char>, Seq<char>)>) -> Seq<Seq<char>>
    decreases pairs.len(),
{
    if pairs.len() == 0 {
        Seq::empty()
    } else {
        let p = forwarded_names(pairs.drop_last());
        if pairs.last().0.len() > 0 { p.push(pairs.last().0) } else { p }
    }
}

/// The exports a re-export from `from` makes, under their outward names.
pub open spec fn forwarded_exports(pairs: Seq<(Seq<char>, Seq<char>)>, from: Seq<char>, line: u32) -> Seq<ExportView>
    decreases pairs.len(),
{
    if pairs.len() == 0 {
        Seq::empty()
    } else {
        let p = forwarded_exports(pairs.drop_last(), from, line);
        if pairs.last().0.len() > 0 { p.push(ExportView { name: pairs.last().1, from: Some(from), line }) } else { p }
    }
}

/// What the children `kids` of a local `export` statement export.
pub open spec fn local_exports(ns: Seq<NodeView>, src: Seq<u8>, kids: Seq<int>, line: u32) -> FoundView
    decreases kids.len(),
{
    if kids.len() == 0 {
        nothing()
    } else {
        let c = kids.last();
        let here = if ns[c].kind == "export_clause"@ {
            FoundView { imports: Seq::empty(), exports: clause_exports(ns, src, children_of(ns, c), line), definitions: Seq::empty() }
        } else {
            js_definitions(ns, src, c, true)
        };
        both(local_exports(ns, src, kids.drop_last(), line), here)
    }
}

/// The names an export clause of a local `export` statement exports.
pub open spec fn clause_exports(ns: Seq<NodeView>, src: Seq<u8>, kids: Seq<int>, line: u32) -> Seq<ExportView>
    decreases kids.len(),
{
    if kids.len() == 0 {
        Seq::empty()
    } else {
        let p = clause_exports(ns, src, kids.drop_last(), line);
        let c = kids.last();
        let name = match field_child(ns, c, "alias"@) {
            Some(a) => node_text(src, ns[a]),
            None => field_text(ns, src, c, "name"@),
        };
        if ns[c].kind == "export_specifier"@ && name.len() > 0 { p.push(ExportView { name, from: None, line }) } else { p }
    }
}

/// What an `export` statement contributes: a re-export makes an import and
/// forwards names (all of them for `*`); a local export exports what its
/// clause names and what it declares, and `default` for a default export.
pub open spec fn js_export(ns: Seq<NodeView>, src: Seq<u8>, node: int) -> FoundView {
    let line = line_of_row(ns[node].row);
    let text = node_text(src, ns[node]);
    match field_child(ns, node, "source"@) {
        Some(s) => {
            let from = unquoted(node_text(src, ns[s]));
            let star = has_char(text, '*');
            let pairs = clause_specs(ns, src, children_of(ns, node));
            let named = forwarded_names(pairs);
            let fwd = forwarded_exports(pairs, from, line);
            FoundView {
                imports: seq![ImportView {
                    specifier: from,
                    line,
                    kind: ImportKind::ReExport,
                    names: if star || named.len() == 0 { NamesView::Namespace } else { NamesView::Named(named) },
                    type_only: is_prefix("export type"@, text),
                    scope: None,
                }],
                exports: if star { fwd.push(ExportView { name: "*"@, from: Some(from), line }) } else { fwd },
                definitions: Seq::empty(),
            }
        },
        None => {
            let body = local_exports(ns, src, children_of(ns, node), line);
            if is_prefix("export default"@, text) {
                FoundView { imports: body.imports, exports: body.exports.push(ExportView { name: "default"@, from: None, line }), definitions: body.definitions }
            } else {
                body
            }
        },
    }
}

/// What one top-level statement contributes.
pub open spec fn js_top(ns: Seq<NodeView>, src: Seq<u8>, node: int) -> FoundView {
    if ns[node].kind == "import_statement"@ {
        js_import(ns, src, node)
    } else if ns[node].kind == "export_statement"@ {
        js_export(ns, src, node)
    } else {
        js_definitions(ns, src, node, false)
    }
}

/// What the top-level statements `kids` contribute, in order.
pub open spec fn js_tops(ns: Seq<NodeView>, src: Seq<u8>, kids: Seq<int>) -> FoundView
    decreases kids.len(),
{
    if kids.len() == 0 {
        nothing()
    } else {
        both(js_tops(ns, src, kids.drop_last()), js_top(ns, src, kids.last()))
    }
}

/// The import a call makes when it is `import(...)` or `require(...)` with a
/// string argument.
pub open spec fn call_import(ns: Seq<NodeView>, src: Seq<u8>, node: int) -> Seq<ImportView> {
    if ns[node].kind != "call_expression"@ {
        Seq::empty()
    } else {
        match field_child(ns, node, "function"@) {
            Some(f) => {
                let kind = if ns[f].kind == "import"@ {
                    Some(ImportKind::Dynamic)
                } else if node_text(src, ns[f]) == "require"@ {
                    Some(ImportKind::Require)
                } else {
                    None
                };
                match (kind, field_child(ns, node, "arguments"@)) {
                    (Some(k), Some(args)) => match first_of_kind(ns, children_of(ns, args), "string"@) {
                        Some(lit) => seq![ImportView {
                            specifier: unquoted(node_text(src, ns[lit])),
                            line: line_of_row(ns[node].row),
                            kind: k,
                            names: NamesView::Namespace,
                            type_only: false,
                            scope: None,
                        }],
                        None => Seq::empty(),
                    },
                    _ => Seq::empty(),
                }
            },
            None => Seq::empty(),
        }
    }
}

/// The calls found at or under `node`, the node first and its children from
/// the last to the first; `fuel` bounds the depth searched.
pub open spec fn scan(ns: Seq<NodeView>, src: Seq<u8>, node: int, fuel: nat) -> Seq<ImportView>
    decreases fuel, 0nat,
{
    if fuel == 0 {
        Seq::empty()
    } else {
        call_import(ns, src, node) + scan_back(ns, src, children_of(ns, node), (fuel - 1) as nat)
    }
}

/// The calls found under each of `kids`, from the last to the first.
pub open spec fn scan_back(ns: Seq<NodeView>, src: Seq<u8>, kids: Seq<int>, fuel: nat) -> Seq<ImportView>
    decreases fuel, kids.len() + 1,
{
    if kids.len() == 0 {
        Seq::empty()
    } else {
        scan(ns, src, kids.last(), fuel) + scan_back(ns, src, kids.drop_last(), fuel)
    }
}

/// What a JavaScript or TypeScript file declares, before it is put in order.
pub open spec fn js_found(ns: Seq<NodeView>, src: Seq<u8>) -> FoundView {
    if ns.len() == 0 {
        nothing()
    } else {
        let tops = js_tops(ns, src, children_of(ns, 0));
        FoundView { imports: tops.imports + scan(ns, src, 0, ns.len()), exports: tops.exports, definitions: tops.definitions }
    }
}

fn field_text_of(tree: &SyntaxTree, src: &[u8], node: usize, f: &str) -> (r: String)
    requires
        tree.wf(),
        node < tree.nodes@.len(),
    ensures
        r@ == field_text(views(tree.nodes@), src@, node as int, f@),
{
    match tree.field_in(node, f) {
        Some(n) => tree.text_at(src, n),
        None => String::new(),
    }
}

fn specifier_names_of(tree: &SyntaxTree, src: &[u8], node: usize) -> (r: Vec<String>)
    requires
        tree.wf(),
        node < tree.nodes@.len(),
    ensures
        r@.map_values(|s: String| s@) == specifier_names(views(tree.nodes@), src@, children_of(views(tree.nodes@), node as int)),
{
    let ghost ns = views(tree.nodes@);
    let kids = &tree.children[node];
    let ghost ks = kids@.map_values(|c: usize| c as int);
    let mut out: Vec<String> = Vec::new();
    let mut i: usize = 0;
    while i < kids.len()
        invariant
            tree.wf(),
            ns == views(tree.nodes@),
            node < ns.len(),
            ks == kids@.map_values(|c: usize| c as int),
            ks == children_of(ns, node as int),
            i <= ks.len(),
            out@.map_values(|s: String| s@) == specifier_names(ns, src@, ks.take(i as int)),
        decreases ks.len() - i,
    {
        proof { lemma_child_after(ns, node as int, ns.len() as int, i as int); }
        let c = kids[i];
        assert(ks.take(i + 1).drop_last() =~= ks.take(i as int));
        assert(ks.take(i + 1).last() == c as int);
        let name = field_text_of(tree, src, c, "name");
        let nc = chars_of(name.as_str());
        if tree.kind_is(c, "import_specifier") && nc.len() > 0 {
            let ghost before = out@.map_values(|s: String| s@);
            out.push(name);
            assert(out@.map_values(|s: String| s@) =~= before.push(nc@));
        }
        i += 1;
    }
    assert(ks.take(i as int) =~= ks);
    out
}

fn clause_names_of(tree: &SyntaxTree, src: &[u8], clause: usize) -> (r: ImportedNames)
    requires
        tree.wf(),
        clause < tree.nodes@.len(),
    ensures
        r@ == clause_names(views(tree.nodes@), src@, clause as int),
{
    let ghost ns = views(tree.nodes@);
    let kids = &tree.children[clause];
    let ghost ks = kids@.map_values(|c: usize| c as int);
    let mut named: Vec<String> = Vec::new();
    let mut has_default = false;
    let mut namespace = false;
    let mut i: usize = 0;
    while i < kids.len()
        invariant
            tree.wf(),
            ns == views(tree.nodes@),
            clause < ns.len(),
            ks == kids@.map_values(|c: usize| c as int),
            ks == children_of(ns, clause as int),
            i <= ks.len(),
            (named@.map_values(|s: String| s@), has_default, namespace) == clause_state(ns, src@, ks.take(i as int)),
        decreases ks.len() - i,
    {
        proof { lemma_child_after(ns, clause as int, ns.len() as int, i as int); }
        let c = kids[i];
        assert(ks.take(i + 1).drop_last() =~= ks.take(i as int));
        assert(ks.take(i + 1).last() == c as int);
        if !namespace {
            if tree.kind_is(c, "namespace_import") {
                namespace = true;
            } else if tree.kind_is(c, "named_imports") {
                let ghost before = named@.map_values(|s: String| s@);
                let mut more = specifier_names_of(tree, src, c);
                let ghost mv = more@.map_values(|s: String| s@);
                named.append(&mut more);
                assert(named@.map_values(|s: String| s@) =~= before + mv);
            } else if tree.kind_is(c, "identifier") {
                has_default = true;
            }
        }
        i += 1;
    }
    assert(ks.take(i as int) =~= ks);
    if namespace {
        ImportedNames::Namespace
    } else if named.len() > 0 {
        ImportedNames::Named(named)
    } else if has_default {
        ImportedNames::Default
    } else {
        ImportedNames::SideEffect
    }
}

fn import_names(tree: &SyntaxTree, src: &[u8], node: usize) -> (r: ImportedNames)
    requires
        tree.wf(),
        node < tree.nodes@.len(),
    ensures
        r@ == last_clause_names(views(tree.nodes@), src@, children_of(views(tree.nodes@), node as int)),
{
    let ghost ns = views(tree.nodes@);
    let kids = &tree.children[node];
    let ghost ks = kids@.map_values(|c: usize| c as int);
    let mut names = ImportedNames::SideEffect;
    let mut i: usize = 0;
    while i < kids.len()
        invariant
            tree.wf(),
            ns == views(tree.nodes@),
            node < ns.len(),
            ks == kids@.map_values(|c: usize| c as int),
            ks == children_of(ns, node as int),
            i <= ks.len(),
            names@ == last_clause_names(ns, src@, ks.take(i as int)),
        decreases ks.len() - i,
    {
        proof { lemma_child_after(ns, node as int, ns.len() as int, i as int); }
        let c = kids[i];
        assert(ks.take(i + 1).drop_last() =~= ks.take(i as int));
        assert(ks.take(i + 1).last() == c as int);
        if tree.kind_is(c, "import_clause") {
            names = clause_names_of(tree, src, c);
        }
        i += 1;
    }
    assert(ks.take(i as int) =~= ks);
    names
}

fn starts_with_str(s: &[char], p: &str) -> (r: bool)
    ensures
        r == is_prefix(p@, s@),
{
    let pc = chars_of(p);
    crate::text::starts_with(s, pc.as_slice())
}

fn import_stmt(tree: &SyntaxTree, src: &[u8], node: usize) -> (r: Found)
    requires
        tree.wf(),
        node < tree.nodes@.len(),
    ensures
        r@ == js_import(views(tree.nodes@), src@, node as int),
{
    let mut out = Found::new();
    match tree.field_in(node, "source") {
        Some(s) => {
            let spec = unquote(tree.text_at(src, s).as_str());
            let text = chars_of(tree.text_at(src, node).as_str());
            let type_only = starts_with_str(text.as_slice(), "import type") || starts_with_str(text.as_slice(), "import  type");
            let names = import_names(tree, src, node);
            out.imports.push(RawImport { specifier: spec, line: tree.line_of(node), kind: ImportKind::Static, names, type_only, scope: None });
            proof {
                let d = js_import(views(tree.nodes@), src@, node as int);
                assert(out@.imports =~= d.imports);
                assert(out@.exports =~= d.exports);
                assert(out@.definitions =~= d.definitions);
            }
            out
        },
        None => out,
    }
}

fn push_name(name: String, kind: DefKind, line: u32, exported: bool) -> (r: Found)
    ensures
        r@ == js_push(name@, kind, line, exported),
{
    let mut out = Found::new();
    let nc = chars_of(name.as_str());
    if nc.len() == 0 {
        return out;
    }
    if exported {
        out.exports.push(ExportItem { name: crate::text::owned(name.as_str()), from: None, line });
    }
    out.definitions.push(Definition { name, kind, line, exported });
    proof {
        let d = js_push(nc@, kind, line, exported);
        assert(out@.imports =~= d.imports);
        assert(out@.exports =~= d.exports);
        assert(out@.definitions =~= d.definitions);
    }
    out
}

fn declarators_of(tree: &SyntaxTree, src: &[u8], node: usize, line: u32, exported: bool) -> (r: Found)
    requires
        tree.wf(),
        node < tree.nodes@.len(),
    ensures
        r@ == declarators(views(tree.nodes@), src@, children_of(views(tree.nodes@), node as int), line, exported),
{
    let ghost ns = views(tree.nodes@);
    let kids = &tree.children[node];
    let ghost ks = kids@.map_values(|c: usize| c as int);
    let mut out = Found::new();
    let mut i: usize = 0;
    while i < kids.len()
        invariant
            tree.wf(),
            ns == views(tree.nodes@),
            node < ns.len(),
            ks == kids@.map_values(|c: usize| c as int),
            ks == children_of(ns, node as int),
            i <= ks.len(),
            out@ == declarators(ns, src@, ks.take(i as int), line, exported),
        decreases ks.len() - i,
    {
        proof { lemma_child_after(ns, node as int, ns.len() as int, i as int); }
        let c = kids[i];
        assert(ks.take(i + 1).drop_last() =~= ks.take(i as int));
        assert(ks.take(i + 1).last() == c as int);
        let part = if tree.kind_is(c, "variable_declarator") {
            let name = field_text_of(tree, src, c, "name");
            let kind = match tree.field_in(c, "value") {
                Some(v) => if tree.kind_is(v, "arrow_function") || tree.kind_is(v, "function_expression") {
                    DefKind::Function
                } else if tree.kind_is(v, "class") {
                    DefKind::Class
                } else {
                    DefKind::Const
                },
                None => DefKind::Const,
            };
            push_name(name, kind, line, exported)
        } else {
            Found::new()
        };
        out.extend(part);
        i += 1;
    }
    assert(ks.take(i as int) =~= ks);
    out
}

fn definitions_of(tree: &SyntaxTree, src: &[u8], node: usize, exported: bool) -> (r: Found)
    requires
        tree.wf(),
        node < tree.nodes@.len(),
    ensures
        r@ == js_definitions(views(tree.nodes@), src@, node as int, exported),
{
    let line = tree.line_of(node);
    if tree.kind_is(node, "function_declaration") || tree.kind_is(node, "generator_function_declaration") {
        push_name(field_text_of(tree, src, node, "name"), DefKind::Function, line, exported)
    } else if tree.kind_is(node, "class_declaration") {
        push_name(field_text_of(tree, src, node, "name"), DefKind::Class, line, exported)
    } else if tree.kind_is(node, "interface_declaration") {
        push_name(field_text_of(tree, src, node, "name"), DefKind::Interface, line, exported)
    } else if tree.kind_is(node, "type_alias_declaration") {
        push_name(field_text_of(tree, src, node, "name"), DefKind::TypeAlias, line, exported)
    } else if tree.kind_is(node, "enum_declaration") {
        push_name(field_text_of(tree, src, node, "name"), DefKind::Enum, line, exported)
    } else if tree.kind_is(node, "lexical_declaration") || tree.kind_is(node, "variable_declaration") {
        declarators_of(tree, src, node, line, exported)
    } else {
        Found::new()
    }
}

fn export_specs_of(tree: &SyntaxTree, src: &[u8], node: usize) -> (r: Vec<(String, String)>)
    requires
        tree.wf(),
        node < tree.nodes@.len(),
    ensures
        r@.map_values(|p: (String, String)| (p.0@, p.1@)) == export_specs(views(tree.nodes@), src@, children_of(views(tree.nodes@), node as int)),
{
    let ghost ns = views(tree.nodes@);
    let kids = &tree.children[node];
    let ghost ks = kids@.map_values(|c: usize| c as int);
    let mut out: Vec<(String, String)> = Vec::new();
    let mut i: usize = 0;
    while i < kids.len()
        invariant
            tree.wf(),
            ns == views(tree.nodes@),
            node < ns.len(),
            ks == kids@.map_values(|c: usize| c as int),
            ks == children_of(ns, node as int),
            i <= ks.len(),
            out@.map_values(|p: (String, String)| (p.0@, p.1@)) == export_specs(ns, src@, ks.take(i as int)),
        decreases ks.len() - i,
    {
        proof { lemma_child_after(ns, node as int, ns.len() as int, i as int); }
        let c = kids[i];
        assert(ks.take(i + 1).drop_last() =~= ks.take(i as int));
        assert(ks.take(i + 1).last() == c as int);
        if tree.kind_is(c, "export_specifier") {
            let name = field_text_of(tree, src, c, "name");
            let alias = match tree.field_in(c, "alias") {
                Some(a) => tree.text_at(src, a),
                None => crate::text::owned(name.as_str()),
            };
            let ghost before = out@.map_values(|p: (String, String)| (p.0@, p.1@));
            let ghost pair = (name@, alias@);
            out.push((name, alias));
            assert(out@.map_values(|p: (String, String)| (p.0@, p.1@)) =~= before.push(pair));
        }
        i += 1;
    }
    assert(ks.take(i as int) =~= ks);
    out
}

fn clause_specs_of(tree: &SyntaxTree, src: &[u8], node: usize) -> (r: Vec<(String, String)>)
    requires
        tree.wf(),
        node < tree.nodes@.len(),
    ensures
        r@.map_values(|p: (String, String)| (p.0@, p.1@)) == clause_specs(views(tree.nodes@), src@, children_of(views(tree.nodes@), node as int)),
{
    let ghost ns = views(tree.nodes@);
    let kids = &tree.children[node];
    let ghost ks = kids@.map_values(|c: usize| c as int);
    let mut out: Vec<(String, String)> = Vec::new();
    let mut i: usize = 0;
    while i < kids.len()
        invariant
            tree.wf(),
            ns == views(tree.nodes@),
            node < ns.len(),
            ks == kids@.map_values(|c: usize| c as int),
            ks == children_of(ns, node as int),
            i <= ks.len(),
            out@.map_values(|p: (String, String)| (p.0@, p.1@)) == clause_specs(ns, src@, ks.take(i as int)),
        decreases ks.len() - i,
    {
        proof { lemma_child_after(ns, node as int, ns.len() as int, i as int); }
        let c = kids[i];
        assert(ks.take(i + 1).drop_last() =~= ks.take(i as int));
        assert(ks.take(i + 1).last() == c as int);
        if tree.kind_is(c, "export_clause") {
            let ghost before = out@.map_values(|p: (String, String)| (p.0@, p.1@));
            let mut more = export_specs_of(tree, src, c);
            let ghost mv = more@.map_values(|p: (String, String)| (p.0@, p.1@));
            out.append(&mut more);
            assert(out@.map_values(|p: (String, String)| (p.0@, p.1@)) =~= before + mv);
        }
        i += 1;
    }
    assert(ks.take(i as int) =~= ks);
    out
}

fn clause_exports_of(tree: &SyntaxTree, src: &[u8], node: usize, line: u32) -> (r: Vec<ExportItem>)
    requires
        tree.wf(),
        node < tree.nodes@.len(),
    ensures
        r@.map_values(|e: ExportItem| e@) == clause_exports(views(tree.nodes@), src@, children_of(views(tree.nodes@), node as int), line),
{
    let ghost ns = views(tree.nodes@);
    let kids = &tree.children[node];
    let ghost ks = kids@.map_values(|c: usize| c as int);
    let mut out: Vec<ExportItem> = Vec::new();
    let mut i: usize = 0;
    while i < kids.len()
        invariant
            tree.wf(),
            ns == views(tree.nodes@),
            node < ns.len(),
            ks == kids@.map_values(|c: usize| c as int),
            ks == children_of(ns, node as int),
            i <= ks.len(),
            out@.map_values(|e: ExportItem| e@) == clause_exports(ns, src@, ks.take(i as int), line),
        decreases ks.len() - i,
    {
        proof { lemma_child_after(ns, node as int, ns.len() as int, i as int); }
        let c = kids[i];
        assert(ks.take(i + 1).drop_last() =~= ks.take(i as int));
        assert(ks.take(i + 1).last() == c as int);
        let name = match tree.field_in(c, "alias") {
            Some(a) => tree.text_at(src, a),
            None => field_text_of(tree, src, c, "name"),
        };
        let nc = chars_of(name.as_str());
        if tree.kind_is(c, "export_specifier") && nc.len() > 0 {
            let ghost before = out@.map_values(|e: ExportItem| e@);
            let e = ExportItem { name, from: None, line };
            out.push(e);
            assert(out@.map_values(|e: ExportItem| e@) =~= before.push(e@));
        }
        i += 1;
    }
    assert(ks.take(i as int) =~= ks);
    out
}

fn local_exports_of(tree: &SyntaxTree, src: &[u8], node: usize, line: u32) -> (r: Found)
    requires
        tree.wf(),
        node < tree.nodes@.len(),
    ensures
        r@ == local_exports(views(tree.nodes@), src@, children_of(views(tree.nodes@), node as int), line),
{
    let ghost ns = views(tree.nodes@);
    let kids = &tree.children[node];
    let ghost ks = kids@.map_values(|c: usize| c as int);
    let mut out = Found::new();
    let mut i: usize = 0;
    while i < kids.len()
        invariant
            tree.wf(),
            ns == views(tree.nodes@),
            node < ns.len(),
            ks == kids@.map_values(|c: usize| c as int),
            ks == children_of(ns, node as int),
            i <= ks.len(),
            out@ == local_exports(ns, src@, ks.take(i as int), line),
        decreases ks.len() - i,
    {
        proof { lemma_child_after(ns, node as int, ns.len() as int, i as int); }
        let c = kids[i];
        assert(ks.take(i + 1).drop_last() =~= ks.take(i as int));
        assert(ks.take(i + 1).last() == c as int);
        let part = if tree.kind_is(c, "export_clause") {
            let mut f = Found::new();
            f.exports = clause_exports_of(tree, src, c, line);
            f
        } else {
            definitions_of(tree, src, c, true)
        };
        out.extend(part);
        i += 1;
    }
    assert(ks.take(i as int) =~= ks);
    out
}

fn export_stmt(tree: &SyntaxTree, src: &[u8], node: usize) -> (r: Found)
    requires
        tree.wf(),
        node < tree.nodes@.len(),
    ensures
        r@ == js_export(views(tree.nodes@), src@, node as int),
{
    let ghost ns = views(tree.nodes@);
    let line = tree.line_of(node);
    let text = chars_of(tree.text_at(src, node).as_str());
    match tree.field_in(node, "source") {
        Some(s) => {
            let from = unquote(tree.text_at(src, s).as_str());
            let star = crate::text::find_char(text.as_slice(), '*').is_some();
            proof { crate::text::lemma_first_index_of(text@, '*'); }
            assert(star == has_char(text@, '*'));
            let pairs = clause_specs_of(tree, src, node);
            let ghost pv = pairs@.map_values(|p: (String, String)| (p.0@, p.1@));
            let mut named: Vec<String> = Vec::new();
            let mut out = Found::new();
            let mut i: usize = 0;
            while i < pairs.len()
                invariant
                    i <= pv.len(),
                    pv == pairs@.map_values(|p: (String, String)| (p.0@, p.1@)),
                    named@.map_values(|s: String| s@) == forwarded_names(pv.take(i as int)),
                    out@.exports == forwarded_exports(pv.take(i as int), from@, line),
                    out@.imports.len() == 0,
                    out@.definitions.len() == 0,
                decreases pv.len() - i,
            {
                assert(pv.take(i + 1).drop_last() =~= pv.take(i as int));
                assert(pv.take(i + 1).last() == pv[i as int]);
                let nc = chars_of(pairs[i].0.as_str());
                if nc.len() > 0 {
                    let ghost bn = named@.map_values(|s: String| s@);
                    let ghost be = out@.exports;
                    named.push(crate::text::owned(pairs[i].0.as_str()));
                    let e = ExportItem { name: crate::text::owned(pairs[i].1.as_str()), from: Some(crate::text::owned(from.as_str())), line };
                    out.exports.push(e);
                    assert(named@.map_values(|s: String| s@) =~= bn.push(pv[i as int].0));
                    assert(out@.exports =~= be.push(e@));
                }
                i += 1;
            }
            assert(pv.take(i as int) =~= pv);
            let n = named.len();
            let names = if star || n == 0 { ImportedNames::Namespace } else { ImportedNames::Named(named) };
            let type_only = starts_with_str(text.as_slice(), "export type");
            let ghost be = out@.exports;
            if star {
                out.exports.push(ExportItem { name: crate::text::owned("*"), from: Some(crate::text::owned(from.as_str())), line });
            }
            out.imports.push(RawImport { specifier: from, line, kind: ImportKind::ReExport, names, type_only, scope: None });
            proof {
                let d = js_export(ns, src@, node as int);
                assert(out@.imports =~= d.imports);
                assert(out@.exports =~= d.exports);
                assert(out@.definitions =~= d.definitions);
            }
            out
        },
        None => {
            let mut out = local_exports_of(tree, src, node, line);
            if starts_with_str(text.as_slice(), "export default") {
                out.exports.push(ExportItem { name: crate::text::owned("default"), from: None, line });
            }
            proof {
                let d = js_export(ns, src@, node as int);
                assert(out@.imports =~= d.imports);
                assert(out@.exports =~= d.exports);
                assert(out@.definitions =~= d.definitions);
            }
            out
        },
    }
}

/// How many entries the scan at `node` with `fuel` takes off its stack.
pub open spec fn scan_size(ns: Seq<NodeView>, node: int, fuel: nat) -> nat
    decreases fuel, 0nat,
{
    if fuel == 0 {
        1
    } else {
        1 + scan_size_back(ns, children_of(ns, node), (fuel - 1) as nat)
    }
}

/// How many nodes the scans under `kids` visit.
pub open spec fn scan_size_back(ns: Seq<NodeView>, kids: Seq<int>, fuel: nat) -> nat
    decreases fuel, kids.len() + 1,
{
    if kids.len() == 0 {
        0
    } else {
        scan_size(ns, kids.last(), fuel) + scan_size_back(ns, kids.drop_last(), fuel)
    }
}

/// What the scans of a stack of pending nodes find, the top (last) first.
pub open spec fn scan_stack(ns: Seq<NodeView>, src: Seq<u8>, stack: Seq<(int, nat)>) -> Seq<ImportView>
    decreases stack.len(),
{
    if stack.len() == 0 {
        Seq::empty()
    } else {
        scan(ns, src, stack.last().0, stack.last().1) + scan_stack(ns, src, stack.drop_last())
    }
}

/// How many nodes the scans of a stack visit.
pub open spec fn stack_size(ns: Seq<NodeView>, stack: Seq<(int, nat)>) -> nat
    decreases stack.len(),
{
    if stack.len() == 0 {
        0
    } else {
        scan_size(ns, stack.last().0, stack.last().1) + stack_size(ns, stack.drop_last())
    }
}

fn call_import_of(tree: &SyntaxTree, src: &[u8], node: usize) -> (r: Vec<RawImport>)
    requires
        tree.wf(),
        node < tree.nodes@.len(),
    ensures
        r@.map_values(|i: RawImport| i@) == call_import(views(tree.nodes@), src@, node as int),
{
    let mut out: Vec<RawImport> = Vec::new();
    if !tree.kind_is(node, "call_expression") {
        assert(out@.map_values(|i: RawImport| i@) =~= Seq::<ImportView>::empty());
        return out;
    }
    match tree.field_in(node, "function") {
        Some(f) => {
            let kind = if tree.kind_is(f, "import") {
                Some(ImportKind::Dynamic)
            } else if str_eq(tree.text_at(src, f).as_str(), "require") {
                Some(ImportKind::Require)
            } else {
                None
            };
            let args = tree.field_in(node, "arguments");
            match (kind, args) {
                (Some(k), Some(a)) => match tree.child_of_kind(a, "string") {
                    Some(lit) => {
                        let spec = unquote(tree.text_at(src, lit).as_str());
                        out.push(RawImport { specifier: spec, line: tree.line_of(node), kind: k, names: ImportedNames::Namespace, type_only: false, scope: None });
                    },
                    None => {},
                },
                _ => {},
            }
        },
        None => {},
    }
    assert(out@.map_values(|i: RawImport| i@) =~= call_import(views(tree.nodes@), src@, node as int));
    out
}

fn scan_calls(tree: &SyntaxTree, src: &[u8]) -> (r: Vec<RawImport>)
    requires
        tree.wf(),
        tree.nodes@.len() > 0,
    ensures
        r@.map_values(|i: RawImport| i@) == scan(views(tree.nodes@), src@, 0, tree.nodes@.len()),
{
    let ghost ns = views(tree.nodes@);
    let mut out: Vec<RawImport> = Vec::new();
    let mut stack: Vec<(usize, usize)> = Vec::new();
    stack.push((0, tree.nodes.len()));
    let ghost total = scan(ns, src@, 0, ns.len());
    assert(stack@.map_values(|p: (usize, usize)| (p.0 as int, p.1 as nat)) =~= seq![(0int, ns.len())]);
    proof {
        let st = seq![(0int, ns.len())];
        assert(st.drop_last() =~= Seq::<(int, nat)>::empty());
        assert(st.last() == (0int, ns.len()));
        assert(scan_stack(ns, src@, st.drop_last()) =~= Seq::<ImportView>::empty());
        assert(scan_stack(ns, src@, st) =~= total);
    }
    assert(out@.map_values(|i: RawImport| i@) =~= Seq::<ImportView>::empty());
    while stack.len() > 0
        invariant
            tree.wf(),
            ns == views(tree.nodes@),
            forall|k: int| 0 <= k < stack@.len() ==> (#[trigger] stack@[k]).0 < ns.len(),
            total == out@.map_values(|i: RawImport| i@) + scan_stack(ns, src@, stack@.map_values(|p: (usize, usize)| (p.0 as int, p.1 as nat))),
        decreases stack_size(ns, stack@.map_values(|p: (usize, usize)| (p.0 as int, p.1 as nat))),
    {
        let ghost sv = stack@.map_values(|p: (usize, usize)| (p.0 as int, p.1 as nat));
        let top = stack.pop().unwrap();
        let node = top.0;
        let fuel = top.1;
        let ghost rest = stack@.map_values(|p: (usize, usize)| (p.0 as int, p.1 as nat));
        assert(rest =~= sv.drop_last());
        assert(sv.last() == (node as int, fuel as nat));
        if fuel > 0 {
            let ghost before = out@.map_values(|i: RawImport| i@);
            let mut found = call_import_of(tree, src, node);
            let ghost fv = found@.map_values(|i: RawImport| i@);
            out.append(&mut found);
            assert(out@.map_values(|i: RawImport| i@) =~= before + fv);
            let kids = &tree.children[node];
            let ghost ks = kids@.map_values(|c: usize| c as int);
            let mut i: usize = 0;
            while i < kids.len()
                invariant
                    tree.wf(),
                    ns == views(tree.nodes@),
                    node < ns.len(),
                    fuel > 0,
                    ks == kids@.map_values(|c: usize| c as int),
                    ks == children_of(ns, node as int),
                    i <= ks.len(),
                    forall|k: int| 0 <= k < stack@.len() ==> (#[trigger] stack@[k]).0 < ns.len(),
                    stack@.map_values(|p: (usize, usize)| (p.0 as int, p.1 as nat)) == rest + ks.take(i as int).map_values(|c: int| (c, (fuel - 1) as nat)),
                    scan_stack(ns, src@, rest + ks.take(i as int).map_values(|c: int| (c, (fuel - 1) as nat)))
                        == scan_back(ns, src@, ks.take(i as int), (fuel - 1) as nat) + scan_stack(ns, src@, rest),
                    stack_size(ns, rest + ks.take(i as int).map_values(|c: int| (c, (fuel - 1) as nat)))
                        == scan_size_back(ns, ks.take(i as int), (fuel - 1) as nat) + stack_size(ns, rest),
                decreases ks.len() - i,
            {
                proof { lemma_child_after(ns, node as int, ns.len() as int, i as int); }
                let c = kids[i];
                let ghost st = rest + ks.take(i as int).map_values(|c: int| (c, (fuel - 1) as nat));
                let ghost st2 = rest + ks.take(i + 1).map_values(|c: int| (c, (fuel - 1) as nat));
                assert(ks.take(i + 1).drop_last() =~= ks.take(i as int));
                assert(ks.take(i + 1).last() == c as int);
                assert(st2 =~= st.push((c as int, (fuel - 1) as nat)));
                assert(st2.drop_last() =~= st);
                stack.push((c, fuel - 1));
                assert(stack@.map_values(|p: (usize, usize)| (p.0 as int, p.1 as nat)) =~= st2);
                i += 1;
            }
            assert(ks.take(i as int) =~= ks);
            proof {
                assert(scan(ns, src@, node as int, fuel as nat) == call_import(ns, src@, node as int) + scan_back(ns, src@, ks, (fuel - 1) as nat));
                assert(scan_size(ns, node as int, fuel as nat) == 1 + scan_size_back(ns, ks, (fuel - 1) as nat));
                assert(total == out@.map_values(|i: RawImport| i@) + scan_stack(ns, src@, stack@.map_values(|p: (usize, usize)| (p.0 as int, p.1 as nat)))) by {
                    assert(before + fv + (scan_back(ns, src@, ks, (fuel - 1) as nat) + scan_stack(ns, src@, rest))
                        =~= before + (fv + scan_back(ns, src@, ks, (fuel - 1) as nat) + scan_stack(ns, src@, rest)));
                }
            }
        }
    }
    out
}

fn top_stmt(tree: &SyntaxTree, src: &[u8], node: usize) -> (r: Found)
    requires
        tree.wf(),
        node < tree.nodes@.len(),
    ensures
        r@ == js_top(views(tree.nodes@), src@, node as int),
{
    if tree.kind_is(node, "import_statement") {
        import_stmt(tree, src, node)
    } else if tree.kind_is(node, "export_statement") {
        export_stmt(tree, src, node)
    } else {
        definitions_of(tree, src, node, false)
    }
}

/// What a JavaScript or TypeScript file declares, in the order the tree gives.
pub fn extract(tree: &SyntaxTree, src: &[u8]) -> (r: Found)
    requires
        tree.wf(),
    ensures
        r@ == js_found(views(tree.nodes@), src@),
{
    let ghost ns = views(tree.nodes@);
    if tree.nodes.len() == 0 {
        return Found::new();
    }
    let kids = &tree.children[0];
    let ghost ks = kids@.map_values(|c: usize| c as int);
    let mut out = Found::new();
    let mut i: usize = 0;
    while i < kids.len()
        invariant
            tree.wf(),
            ns == views(tree.nodes@),
            ns.len() > 0,
            ks == kids@.map_values(|c: usize| c as int),
            ks == children_of(ns, 0),
            i <= ks.len(),
            out@ == js_tops(ns, src@, ks.take(i as int)),
        decreases ks.len() - i,
    {
        proof { lemma_child_after(ns, 0, ns.len() as int, i as int); }
        let c = kids[i];
        assert(ks.take(i + 1).drop_last() =~= ks.take(i as int));
        assert(ks.take(i + 1).last() == c as int);
        let part = top_stmt(tree, src, c);
        out.extend(part);
        i += 1;
    }
    assert(ks.take(i as int) =~= ks);
    let ghost tops = out@;
    let mut calls = scan_calls(tree, src);
    let ghost cv = calls@.map_values(|i: RawImport| i@);
    out.imports.append(&mut calls);
    proof {
        assert(out@.imports =~= tops.imports + cv);
    }
    out
}

} // verus!
