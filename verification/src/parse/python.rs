//! What a Python file declares: its imports wherever they stand, its
//! functions and classes, and its module-level names, exported unless they
//! start with an underscore.
use vstd::prelude::*;
use crate::findings::{contains_chars, contains_text};
use crate::parse::{both, line_at, line_of_row, nothing, DefKind, DefView, Definition, ExportItem, ExportView, Found, FoundView, ImportKind, ImportView, ImportedNames, NamesView, RawImport};
use crate::parse::tree::{children_of, field_child, lemma_child_after, lemma_field_child_in, node_text, text_of, views, NodeView, SyntaxTree};
use crate::text::{chars_of, chars_eq, ends_with, is_prefix, is_suffix, is_whitespace, is_ws, str_eq, string_of, strip_leading, trim_start};

verus! {

/// What a name defined by `node` contributes: a definition, exported (and
/// listed as an export) at the top level unless the name starts with `_`.
pub open spec fn py_define(ns: Seq<NodeView>, src: Seq<u8>, node: int, kind: DefKind, top_level: bool) -> FoundView {
    match field_child(ns, node, "name"@) {
        Some(n) => {
            let name = node_text(src, ns[n]);
            let line = line_of_row(ns[node].row);
            if name.len() == 0 {
                nothing()
            } else {
                let exported = top_level && name[0] != '_';
                FoundView {
                    imports: Seq::empty(),
                    exports: if exported { seq![ExportView { name, from: None, line }] } else { Seq::empty() },
                    definitions: seq![DefView { name, kind, line, exported }],
                }
            }
        },
        None => nothing(),
    }
}

/// What one child of a module-level expression statement contributes: an
/// assignment to a plain name that does not start with `_` is an exported
/// constant.
pub open spec fn py_assigned(ns: Seq<NodeView>, src: Seq<u8>, c: int) -> FoundView {
    if ns[c].kind != "assignment"@ {
        nothing()
    } else {
        match field_child(ns, c, "left"@) {
            Some(l) => {
                let name = node_text(src, ns[l]);
                let line = line_of_row(ns[c].row);
                if ns[l].kind != "identifier"@ || name.len() == 0 || name[0] == '_' {
                    nothing()
                } else {
                    FoundView {
                        imports: Seq::empty(),
                        exports: seq![ExportView { name, from: None, line }],
                        definitions: seq![DefView { name, kind: DefKind::Const, line, exported: true }],
                    }
                }
            },
            None => nothing(),
        }
    }
}

/// What the children `kids` of an expression statement contribute.
pub open spec fn py_assignments(ns: Seq<NodeView>, src: Seq<u8>, kids: Seq<int>) -> FoundView
    decreases kids.len(),
{
    if kids.len() == 0 {
        nothing()
    } else {
        both(py_assignments(ns, src, kids.drop_last()), py_assigned(ns, src, kids.last()))
    }
}

/// The module one child of an `import` statement names, if it names one.
pub open spec fn imported_module(ns: Seq<NodeView>, src: Seq<u8>, c: int) -> Seq<char> {
    if ns[c].kind == "dotted_name"@ {
        node_text(src, ns[c])
    } else if ns[c].kind == "aliased_import"@ {
        match field_child(ns, c, "name"@) {
            Some(n) => node_text(src, ns[n]),
            None => Seq::empty(),
        }
    } else {
        Seq::empty()
    }
}

/// The imports an `import` statement makes: one per module it names.
pub open spec fn py_plain_imports(ns: Seq<NodeView>, src: Seq<u8>, kids: Seq<int>, line: u32) -> Seq<ImportView>
    decreases kids.len(),
{
    if kids.len() == 0 {
        Seq::empty()
    } else {
        let p = py_plain_imports(ns, src, kids.drop_last(), line);
        let m = imported_module(ns, src, kids.last());
        if m.len() == 0 {
            p
        } else {
            p.push(ImportView { specifier: m, line, kind: ImportKind::Static, names: NamesView::Namespace, type_only: false, scope: None })
        }
    }
}

/// How many times `c` starts `s`.
pub open spec fn leading_count(s: Seq<char>, c: char) -> nat
    decreases s.len(),
{
    if s.len() > 0 && s[0] == c {
        1 + leading_count(s.drop_first(), c)
    } else {
        0
    }
}

/// The dots that make a `from` import relative, counted after `from`.
pub open spec fn relative_dots(text: Seq<char>) -> nat {
    if is_prefix("from"@, text) {
        leading_count(trim_start(text.skip(4)), '.')
    } else {
        0
    }
}

/// The module a `from` import reads from, with its leading dots.
pub open spec fn from_specifier(module: Seq<char>, dots: nat) -> Seq<char> {
    if is_prefix("."@, module) || dots == 0 {
        module
    } else {
        Seq::new(dots, |i: int| '.') + module
    }
}

/// The names one child of a `from` import brings in.
pub open spec fn from_name(ns: Seq<NodeView>, src: Seq<u8>, c: int, module: Seq<char>, spec: Seq<char>) -> Seq<Seq<char>> {
    if ns[c].kind == "dotted_name"@ {
        let t = node_text(src, ns[c]);
        if t != strip_leading(module, '.') && !is_suffix(t, spec) && t.len() > 0 { seq![t] } else { Seq::empty() }
    } else if ns[c].kind == "aliased_import"@ {
        match field_child(ns, c, "name"@) {
            Some(n) => if node_text(src, ns[n]).len() > 0 { seq![node_text(src, ns[n])] } else { Seq::empty() },
            None => Seq::empty(),
        }
    } else {
        Seq::empty()
    }
}

/// The names the children `kids` of a `from` import bring in, in order.
pub open spec fn from_names(ns: Seq<NodeView>, src: Seq<u8>, kids: Seq<int>, module: Seq<char>, spec: Seq<char>) -> Seq<Seq<char>>
    decreases kids.len(),
{
    if kids.len() == 0 {
        Seq::empty()
    } else {
        from_names(ns, src, kids.drop_last(), module, spec) + from_name(ns, src, kids.last(), module, spec)
    }
}

/// The import a `from` statement makes: its module with the dots that make
/// it relative, and the names it brings in (all of them for `*`).
pub open spec fn py_from_import(ns: Seq<NodeView>, src: Seq<u8>, node: int) -> Seq<ImportView> {
    let text = node_text(src, ns[node]);
    let module = match field_child(ns, node, "module_name"@) {
        Some(m) => node_text(src, ns[m]),
        None => Seq::empty(),
    };
    let spec = from_specifier(module, relative_dots(text));
    if spec.len() == 0 {
        Seq::empty()
    } else {
        let names = from_names(ns, src, children_of(ns, node), module, spec);
        let star = contains_text(text, " import *"@);
        seq![ImportView {
            specifier: spec,
            line: line_of_row(ns[node].row),
            kind: ImportKind::Static,
            names: if star || names.len() == 0 { NamesView::Namespace } else { NamesView::Named(names) },
            type_only: false,
            scope: None,
        }]
    }
}

/// Node kinds whose children are walked one level deeper.
pub open spec fn py_nesting(k: Seq<char>) -> bool {
    k == "if_statement"@ || k == "try_statement"@ || k == "with_statement"@ || k == "for_statement"@
        || k == "while_statement"@ || k == "block"@ || k == "else_clause"@ || k == "elif_clause"@
        || k == "except_clause"@
}

/// What the nodes `kids` contribute at nesting `depth`.
pub open spec fn py_kids(ns: Seq<NodeView>, src: Seq<u8>, kids: Seq<int>, depth: nat, fuel: nat) -> FoundView
    decreases fuel, kids.len() + 2,
{
    if kids.len() == 0 {
        nothing()
    } else {
        both(py_kids(ns, src, kids.drop_last(), depth, fuel), py_node(ns, src, kids.last(), depth, fuel))
    }
}

/// What the body of a definition contributes, one level deeper.
pub open spec fn py_body(ns: Seq<NodeView>, src: Seq<u8>, node: int, depth: nat, fuel: nat) -> FoundView
    decreases fuel, 0nat,
{
    if fuel == 0 {
        nothing()
    } else {
        match field_child(ns, node, "body"@) {
            Some(b) => py_kids(ns, src, children_of(ns, b), depth + 1, (fuel - 1) as nat),
            None => nothing(),
        }
    }
}

/// What one node contributes at nesting `depth`.
pub open spec fn py_node(ns: Seq<NodeView>, src: Seq<u8>, node: int, depth: nat, fuel: nat) -> FoundView
    decreases fuel, 1nat,
{
    let k = ns[node].kind;
    if k == "import_statement"@ {
        FoundView { imports: py_plain_imports(ns, src, children_of(ns, node), line_of_row(ns[node].row)), exports: Seq::empty(), definitions: Seq::empty() }
    } else if k == "import_from_statement"@ {
        FoundView { imports: py_from_import(ns, src, node), exports: Seq::empty(), definitions: Seq::empty() }
    } else if k == "function_definition"@ || k == "class_definition"@ {
        let kind = if k == "function_definition"@ { DefKind::Function } else { DefKind::Class };
        both(py_define(ns, src, node, kind, depth == 0), py_body(ns, src, node, depth, fuel))
    } else if fuel == 0 {
        nothing()
    } else if k == "decorated_definition"@ {
        py_kids(ns, src, children_of(ns, node), depth, (fuel - 1) as nat)
    } else if k == "expression_statement"@ && depth == 0 {
        py_assignments(ns, src, children_of(ns, node))
    } else if py_nesting(k) {
        py_kids(ns, src, children_of(ns, node), depth + 1, (fuel - 1) as nat)
    } else {
        nothing()
    }
}

/// What a Python file declares, before it is put in order.
pub open spec fn py_found(ns: Seq<NodeView>, src: Seq<u8>) -> FoundView {
    if ns.len() == 0 { nothing() } else { py_kids(ns, src, children_of(ns, 0), 0, ns.len()) }
}

fn kind_is(tree: &SyntaxTree, i: usize, k: &str) -> (r: bool)
    requires
        i < tree.nodes@.len(),
    ensures
        r == (views(tree.nodes@)[i as int].kind == k@),
{
    assert(views(tree.nodes@)[i as int] == tree.nodes@[i as int]@);
    str_eq(tree.nodes[i].kind.as_str(), k)
}

fn text_at(tree: &SyntaxTree, src: &[u8], i: usize) -> (r: String)
    requires
        i < tree.nodes@.len(),
    ensures
        r@ == node_text(src@, views(tree.nodes@)[i as int]),
{
    assert(views(tree.nodes@)[i as int] == tree.nodes@[i as int]@);
    text_of(src, &tree.nodes[i])
}

fn line_of(tree: &SyntaxTree, i: usize) -> (r: u32)
    requires
        i < tree.nodes@.len(),
    ensures
        r == line_of_row(views(tree.nodes@)[i as int].row),
{
    assert(views(tree.nodes@)[i as int] == tree.nodes@[i as int]@);
    line_at(tree.nodes[i].row)
}

fn field_text(tree: &SyntaxTree, src: &[u8], node: usize, name: &str) -> (r: Option<usize>)
    requires
        tree.wf(),
        node < tree.nodes@.len(),
    ensures
        match r {
            Some(c) => field_child(views(tree.nodes@), node as int, name@) == Some(c as int) && node < c < tree.nodes@.len(),
            None => field_child(views(tree.nodes@), node as int, name@) is None,
        },
{
    let r = tree.field(node, name);
    proof { lemma_field_child_in(views(tree.nodes@), node as int, name@); }
    r
}

fn define_node(tree: &SyntaxTree, src: &[u8], node: usize, kind: DefKind, top_level: bool) -> (r: Found)
    requires
        tree.wf(),
        node < tree.nodes@.len(),
    ensures
        r@ == py_define(views(tree.nodes@), src@, node as int, kind, top_level),
{
    let mut out = Found::new();
    match field_text(tree, src, node, "name") {
        Some(n) => {
            let name = text_at(tree, src, n);
            let line = line_of(tree, node);
            let cs = chars_of(name.as_str());
            if cs.len() == 0 {
                return out;
            }
            let exported = top_level && cs[0] != '_';
            if exported {
                out.exports.push(ExportItem { name: crate::text::owned(name.as_str()), from: None, line });
            }
            out.definitions.push(Definition { name, kind, line, exported });
            proof {
                let d = py_define(views(tree.nodes@), src@, node as int, kind, top_level);
                assert(out@.imports =~= d.imports);
                assert(out@.exports =~= d.exports);
                assert(out@.definitions =~= d.definitions);
            }
            out
        },
        None => out,
    }
}

fn assigned(tree: &SyntaxTree, src: &[u8], c: usize) -> (r: Found)
    requires
        tree.wf(),
        c < tree.nodes@.len(),
    ensures
        r@ == py_assigned(views(tree.nodes@), src@, c as int),
{
    let mut out = Found::new();
    if !kind_is(tree, c, "assignment") {
        return out;
    }
    match field_text(tree, src, c, "left") {
        Some(l) => {
            let name = text_at(tree, src, l);
            let line = line_of(tree, c);
            let cs = chars_of(name.as_str());
            if !kind_is(tree, l, "identifier") || cs.len() == 0 || cs[0] == '_' {
                return out;
            }
            out.exports.push(ExportItem { name: crate::text::owned(name.as_str()), from: None, line });
            out.definitions.push(Definition { name, kind: DefKind::Const, line, exported: true });
            proof {
                let d = py_assigned(views(tree.nodes@), src@, c as int);
                assert(out@.imports =~= d.imports);
                assert(out@.exports =~= d.exports);
                assert(out@.definitions =~= d.definitions);
            }
            out
        },
        None => out,
    }
}

fn assignments(tree: &SyntaxTree, src: &[u8], node: usize) -> (r: Found)
    requires
        tree.wf(),
        node < tree.nodes@.len(),
    ensures
        r@ == py_assignments(views(tree.nodes@), src@, children_of(views(tree.nodes@), node as int)),
{
    let ghost ns = views(tree.nodes@);
    let kids = &tree.children[node];
    let ghost ks = kids@.map_values(|c: usize| c as int);
    let mut out = Found::new();
    let mut i: usize = 0;
    while i < kids.len()
        invariant
            tree.wf(),
            ns == views(tree.nodes@),
            node < ns.len(),
            ks == kids@.map_values(|c: usize| c as int),
            ks == children_of(ns, node as int),
            i <= ks.len(),
            out@ == py_assignments(ns, src@, ks.take(i as int)),
        decreases ks.len() - i,
    {
        proof { lemma_child_after(ns, node as int, ns.len() as int, i as int); }
        let c = kids[i];
        assert(ks.take(i + 1).drop_last() =~= ks.take(i as int));
        assert(ks.take(i + 1).last() == c as int);
        let part = assigned(tree, src, c);
        out.extend(part);
        i += 1;
    }
    assert(ks.take(i as int) =~= ks);
    out
}

fn plain_imports(tree: &SyntaxTree, src: &[u8], node: usize) -> (r: Found)
    requires
        tree.wf(),
        node < tree.nodes@.len(),
    ensures
        r@ == (FoundView {
            imports: py_plain_imports(views(tree.nodes@), src@, children_of(views(tree.nodes@), node as int), line_of_row(views(tree.nodes@)[node as int].row)),
            exports: Seq::empty(),
            definitions: Seq::empty(),
        }),
{
    let ghost ns = views(tree.nodes@);
    let line = line_of(tree, node);
    let kids = &tree.children[node];
    let ghost ks = kids@.map_values(|c: usize| c as int);
    let mut out = Found::new();
    let mut i: usize = 0;
    while i < kids.len()
        invariant
            tree.wf(),
            ns == views(tree.nodes@),
            node < ns.len(),
            line == line_of_row(ns[node as int].row),
            ks == kids@.map_values(|c: usize| c as int),
            ks == children_of(ns, node as int),
            i <= ks.len(),
            out@ == (FoundView { imports: py_plain_imports(ns, src@, ks.take(i as int), line), exports: Seq::empty(), definitions: Seq::empty() }),
        decreases ks.len() - i,
    {
        proof { lemma_child_after(ns, node as int, ns.len() as int, i as int); }
        let c = kids[i];
        assert(ks.take(i + 1).drop_last() =~= ks.take(i as int));
        assert(ks.take(i + 1).last() == c as int);
        let m = if kind_is(tree, c, "dotted_name") {
            text_at(tree, src, c)
        } else if kind_is(tree, c, "aliased_import") {
            match field_text(tree, src, c, "name") {
                Some(n) => text_at(tree, src, n),
                None => String::new(),
            }
        } else {
            String::new()
        };
        assert(m@ == imported_module(ns, src@, c as int));
        let mc = chars_of(m.as_str());
        if mc.len() > 0 {
            let ghost before = out@;
            out.imports.push(RawImport { specifier: m, line, kind: ImportKind::Static, names: ImportedNames::Namespace, type_only: false, scope: None });
            proof {
                assert(out@.imports =~= before.imports.push(ImportView { specifier: mc@, line, kind: ImportKind::Static, names: NamesView::Namespace, type_only: false, scope: None }));
            }
        }
        i += 1;
    }
    assert(ks.take(i as int) =~= ks);
    out
}

fn skip_leading_ws(s: &[char]) -> (r: Vec<char>)
    ensures
        r@ == trim_start(s@),
{
    let mut i: usize = 0;
    assert(s@.skip(0) =~= s@);
    while i < s.len() && is_whitespace(s[i])
        invariant
            i <= s@.len(),
            trim_start(s@) == trim_start(s@.skip(i as int)),
        decreases s@.len() - i,
    {
        assert(s@.skip(i as int).drop_first() =~= s@.skip(i + 1));
        i += 1;
    }
    vstd::slice::slice_to_vec(vstd::slice::slice_subrange(s, i, s.len()))
}

fn skip_leading(s: &[char], c: char) -> (r: Vec<char>)
    ensures
        r@ == strip_leading(s@, c),
        r@.len() + leading_count(s@, c) == s@.len(),
{
    let mut i: usize = 0;
    assert(s@.skip(0) =~= s@);
    while i < s.len() && s[i] == c
        invariant
            i <= s@.len(),
            strip_leading(s@, c) == strip_leading(s@.skip(i as int), c),
            leading_count(s@, c) == i + leading_count(s@.skip(i as int), c),
        decreases s@.len() - i,
    {
        assert(s@.skip(i as int).drop_first() =~= s@.skip(i + 1));
        i += 1;
    }
    vstd::slice::slice_to_vec(vstd::slice::slice_subrange(s, i, s.len()))
}

fn from_import(tree: &SyntaxTree, src: &[u8], node: usize) -> (r: Found)
    requires
        tree.wf(),
        node < tree.nodes@.len(),
    ensures
        r@ == (FoundView { imports: py_from_import(views(tree.nodes@), src@, node as int), exports: Seq::empty(), definitions: Seq::empty() }),
{
    let ghost ns = views(tree.nodes@);
    let mut out = Found::new();
    let text = text_at(tree, src, node);
    let tc = chars_of(text.as_str());
    let module = match field_text(tree, src, node, "module_name") {
        Some(m) => text_at(tree, src, m),
        None => String::new(),
    };
    let mc = chars_of(module.as_str());
    let from = chars_of("from");
    proof { reveal_strlit("from"); reveal_strlit("."); }
    let dots: usize = if crate::text::starts_with(tc.as_slice(), from.as_slice()) {
        let after = vstd::slice::slice_subrange(tc.as_slice(), 4, tc.len());
        assert(after@ =~= tc@.skip(4));
        let rest = skip_leading_ws(after);
        let stripped = skip_leading(rest.as_slice(), '.');
        rest.len() - stripped.len()
    } else {
        0
    };
    assert(dots == relative_dots(tc@));
    let dot = chars_of(".");
    let spec: Vec<char> = if crate::text::starts_with(mc.as_slice(), dot.as_slice()) || dots == 0 {
        mc.clone()
    } else {
        let mut v: Vec<char> = Vec::new();
        let mut k: usize = 0;
        while k < dots
            invariant
                k <= dots,
                v@ == Seq::new(k as nat, |i: int| '.'),
            decreases dots - k,
        {
            v.push('.');
            k += 1;
            assert(v@ =~= Seq::new(k as nat, |i: int| '.'));
        }
        let mut j: usize = 0;
        let ghost start = v@;
        while j < mc.len()
            invariant
                j <= mc@.len(),
                v@ == start + mc@.take(j as int),
            decreases mc@.len() - j,
        {
            v.push(mc[j]);
            j += 1;
            assert(mc@.take(j as int) =~= mc@.take(j - 1).push(mc@[j - 1]));
        }
        assert(mc@.take(j as int) =~= mc@);
        v
    };
    assert(spec@ == from_specifier(mc@, dots as nat));
    if spec.len() == 0 {
        assert(out@.imports =~= py_from_import(ns, src@, node as int));
        return out;
    }
    let bare = skip_leading(mc.as_slice(), '.');
    let kids = &tree.children[node];
    let ghost ks = kids@.map_values(|c: usize| c as int);
    let mut names: Vec<String> = Vec::new();
    let mut i: usize = 0;
    while i < kids.len()
        invariant
            tree.wf(),
            ns == views(tree.nodes@),
            node < ns.len(),
            ks == kids@.map_values(|c: usize| c as int),
            ks == children_of(ns, node as int),
            bare@ == strip_leading(mc@, '.'),
            i <= ks.len(),
            names@.map_values(|n: String| n@) == from_names(ns, src@, ks.take(i as int), mc@, spec@),
        decreases ks.len() - i,
    {
        proof { lemma_child_after(ns, node as int, ns.len() as int, i as int); }
        let c = kids[i];
        assert(ks.take(i + 1).drop_last() =~= ks.take(i as int));
        assert(ks.take(i + 1).last() == c as int);
        let ghost before = names@.map_values(|n: String| n@);
        if kind_is(tree, c, "dotted_name") {
            let t = text_at(tree, src, c);
            let tcs = chars_of(t.as_str());
            if !chars_eq(tcs.as_slice(), bare.as_slice()) && !ends_with(spec.as_slice(), tcs.as_slice()) && tcs.len() > 0 {
                names.push(t);
                assert(names@.map_values(|n: String| n@) =~= before + seq![tcs@]);
            } else {
                assert(names@.map_values(|n: String| n@) =~= before + Seq::<Seq<char>>::empty());
            }
        } else if kind_is(tree, c, "aliased_import") {
            match field_text(tree, src, c, "name") {
                Some(n) => {
                    let t = text_at(tree, src, n);
                    let tcs = chars_of(t.as_str());
                    if tcs.len() > 0 {
                        names.push(t);
                        assert(names@.map_values(|n: String| n@) =~= before + seq![tcs@]);
                    } else {
                        assert(names@.map_values(|n: String| n@) =~= before + Seq::<Seq<char>>::empty());
                    }
                },
                None => {
                    assert(names@.map_values(|n: String| n@) =~= before + Seq::<Seq<char>>::empty());
                },
            }
        } else {
            assert(names@.map_values(|n: String| n@) =~= before + Seq::<Seq<char>>::empty());
        }
        i += 1;
    }
    assert(ks.take(i as int) =~= ks);
    let star_text = chars_of(" import *");
    let star = contains_chars(tc.as_slice(), star_text.as_slice());
    let n = names.len();
    let imported = if star || n == 0 { ImportedNames::Namespace } else { ImportedNames::Named(names) };
    let line = line_of(tree, node);
    out.imports.push(RawImport { specifier: string_of(spec.as_slice()), line, kind: ImportKind::Static, names: imported, type_only: false, scope: None });
    proof {
        assert(out@.imports =~= py_from_import(ns, src@, node as int));
    }
    out
}

fn walk_kids(tree: &SyntaxTree, src: &[u8], parent: usize, depth: usize, fuel: usize) -> (r: Found)
    requires
        tree.wf(),
        parent < tree.nodes@.len(),
        depth + fuel <= usize::MAX,
    ensures
        r@ == py_kids(views(tree.nodes@), src@, children_of(views(tree.nodes@), parent as int), depth as nat, fuel as nat),
    decreases fuel, 3nat,
{
    let ghost ns = views(tree.nodes@);
    let kids = &tree.children[parent];
    let ghost ks = kids@.map_values(|c: usize| c as int);
    let mut out = Found::new();
    let mut i: usize = 0;
    while i < kids.len()
        invariant
            tree.wf(),
            ns == views(tree.nodes@),
            parent < ns.len(),
            depth + fuel <= usize::MAX,
            ks == kids@.map_values(|c: usize| c as int),
            ks == children_of(ns, parent as int),
            i <= ks.len(),
            out@ == py_kids(ns, src@, ks.take(i as int), depth as nat, fuel as nat),
        decreases ks.len() - i,
    {
        proof { lemma_child_after(ns, parent as int, ns.len() as int, i as int); }
        let c = kids[i];
        assert(ks.take(i + 1).drop_last() =~= ks.take(i as int));
        assert(ks.take(i + 1).last() == c as int);
        let part = walk_node(tree, src, c, depth, fuel);
        out.extend(part);
        i += 1;
    }
    assert(ks.take(i as int) =~= ks);
    out
}

fn walk_body(tree: &SyntaxTree, src: &[u8], node: usize, depth: usize, fuel: usize) -> (r: Found)
    requires
        tree.wf(),
        node < tree.nodes@.len(),
        depth + fuel <= usize::MAX,
    ensures
        r@ == py_body(views(tree.nodes@), src@, node as int, depth as nat, fuel as nat),
    decreases fuel, 1nat,
{
    if fuel == 0 {
        return Found::new();
    }
    match field_text(tree, src, node, "body") {
        Some(b) => walk_kids(tree, src, b, depth + 1, fuel - 1),
        None => Found::new(),
    }
}

fn walk_node(tree: &SyntaxTree, src: &[u8], node: usize, depth: usize, fuel: usize) -> (r: Found)
    requires
        tree.wf(),
        node < tree.nodes@.len(),
        depth + fuel <= usize::MAX,
    ensures
        r@ == py_node(views(tree.nodes@), src@, node as int, depth as nat, fuel as nat),
    decreases fuel, 2nat,
{
    if kind_is(tree, node, "import_statement") {
        plain_imports(tree, src, node)
    } else if kind_is(tree, node, "import_from_statement") {
        from_import(tree, src, node)
    } else if kind_is(tree, node, "function_definition") || kind_is(tree, node, "class_definition") {
        let kind = if kind_is(tree, node, "function_definition") { DefKind::Function } else { DefKind::Class };
        let mut out = define_node(tree, src, node, kind, depth == 0);
        let body = walk_body(tree, src, node, depth, fuel);
        out.extend(body);
        out
    } else if fuel == 0 {
        Found::new()
    } else if kind_is(tree, node, "decorated_definition") {
        walk_kids(tree, src, node, depth, fuel - 1)
    } else if kind_is(tree, node, "expression_statement") && depth == 0 {
        assignments(tree, src, node)
    } else if kind_is(tree, node, "if_statement") || kind_is(tree, node, "try_statement") || kind_is(tree, node, "with_statement")
        || kind_is(tree, node, "for_statement") || kind_is(tree, node, "while_statement") || kind_is(tree, node, "block")
        || kind_is(tree, node, "else_clause") || kind_is(tree, node, "elif_clause") || kind_is(tree, node, "except_clause") {
        walk_kids(tree, src, node, depth + 1, fuel - 1)
    } else {
        Found::new()
    }
}

/// What a Python file declares, in the order the tree gives.
pub fn extract(tree: &SyntaxTree, src: &[u8]) -> (r: Found)
    requires
        tree.wf(),
    ensures
        r@ == py_found(views(tree.nodes@), src@),
{
    if tree.nodes.len() == 0 {
        return Found::new();
    }
    walk_kids(tree, src, 0, 0, tree.nodes.len())
}

} // verus!
