//! The graph of symbols within a selection of files: each definition is a
//! node, and a call or a type reference from inside one definition to a
//! name defined exactly once in the selection is an edge.
use vstd::prelude::*;
use crate::model::{FileId, Language};
use crate::lsp::source_lines;
use crate::order::{insert_sorted, lex_less, count_not_before, stable_sorted, strictly_sorted, str_before};
use crate::parse::{parse_tree, parsed_view, DefKind, DefView, Definition};
use crate::parse::grammar::{syntax_nodes, syntax_tree};
use crate::parse::tree::{children_of, field_child, lemma_child_after, node_text, views, NodeView, SyntaxTree};
use crate::text::{chars_of, is_ws, string_of, trim};
use vstd::utf8::encode_utf8;

verus! {

/// A definition in the selection.
#[derive(Debug, Clone, PartialEq)]
pub struct SymbolNode {
    pub id: u32,
    pub name: String,
    pub kind: DefKind,
    pub file: FileId,
    pub path: String,
    pub line: u32,
    pub exported: bool,
}

/// A reference from the definition `from` to the definition `to`.
#[derive(Debug, Clone, Copy, PartialEq, Eq, Hash, Structural)]
pub struct SymbolEdge {
    pub from: u32,
    pub to: u32,
}

/// The symbols of a selection, the references between them, and the names
/// referred to that the selection does not define (at most fifty).
#[derive(Debug, Clone, PartialEq)]
pub struct SymbolGraph {
    pub nodes: Vec<SymbolNode>,
    pub edges: Vec<SymbolEdge>,
    pub external_refs: Vec<String>,
}

impl Default for SymbolGraph {
    fn default() -> (r: SymbolGraph)
        ensures
            r.nodes@.len() == 0,
            r.edges@.len() == 0,
            r.external_refs@.len() == 0,
    {
        SymbolGraph { nodes: Vec::new(), edges: Vec::new(), external_refs: Vec::new() }
    }
}

/// Whether a character is a letter or a digit, as `char::is_alphanumeric`
/// decides by the Unicode `Alphabetic` and `Numeric` properties.
pub uninterp spec fn alphanumeric(c: char) -> bool;

/// `char::is_alphanumeric`: its answer is named `alphanumeric`; for ASCII it
/// is true exactly of letters and digits.
#[verifier::external_body]
fn is_alphanumeric(c: char) -> (r: bool)
    ensures
        r == alphanumeric(c),
        (c as u32) < 128 ==> (r <==> (('a' <= c && c <= 'z') || ('A' <= c && c <= 'Z') || ('0' <= c && c <= '9'))),
{
    c.is_alphanumeric()
}

/// The definitions of a parsed list that can be referred to: not `impl`
/// blocks, not modules.
pub open spec fn referable(ds: Seq<DefView>) -> Seq<DefView>
    decreases ds.len(),
{
    if ds.len() == 0 {
        Seq::empty()
    } else {
        let p = referable(ds.drop_last());
        let d = ds.last();
        if d.kind == DefKind::Impl || d.kind == DefKind::Module { p } else { p.push(d) }
    }
}

/// The referable definitions of a file of the selection.
pub open spec fn file_defs(language: Language, source: Seq<char>) -> Seq<DefView> {
    referable(parsed_view(language, source, syntax_nodes(language, source)).definitions)
}

/// A node as plain values: its name, kind, file, path, line, and whether
/// it is exported.
pub open spec fn node_view(n: SymbolNode) -> (u32, Seq<char>, DefKind, FileId, Seq<char>, u32, bool) {
    (n.id, n.name@, n.kind, n.file, n.path@, n.line, n.exported)
}

/// A file of the selection as plain values.
pub open spec fn file_view(f: (FileId, String, Language, String)) -> (FileId, Seq<char>, Language, Seq<char>) {
    (f.0, f.1@, f.2, f.3@)
}

/// The nodes of the selection: the referable definitions of each file in
/// turn, numbered from zero.
pub open spec fn all_nodes(files: Seq<(FileId, Seq<char>, Language, Seq<char>)>) -> Seq<(u32, Seq<char>, DefKind, FileId, Seq<char>, u32, bool)>
    decreases files.len(),
{
    if files.len() == 0 {
        Seq::empty()
    } else {
        let p = all_nodes(files.drop_last());
        let f = files.last();
        let ds = file_defs(f.2, f.3);
        p + Seq::new(ds.len(), |k: int| ((p.len() + k) as u32, ds[k].name, ds[k].kind, f.0, f.1, ds[k].line, ds[k].exported))
    }
}

/// How many nodes are named `name`.
pub open spec fn name_count(nodes: Seq<(u32, Seq<char>, DefKind, FileId, Seq<char>, u32, bool)>, name: Seq<char>) -> nat
    decreases nodes.len(),
{
    if nodes.len() == 0 {
        0
    } else {
        name_count(nodes.drop_last(), name) + if nodes.last().1 == name { 1nat } else { 0nat }
    }
}

/// Where the first node named `name` is.
pub open spec fn first_named(nodes: Seq<(u32, Seq<char>, DefKind, FileId, Seq<char>, u32, bool)>, name: Seq<char>) -> int
    decreases nodes.len(),
{
    if nodes.len() == 0 {
        0
    } else if nodes[0].1 == name {
        0
    } else {
        1 + first_named(nodes.drop_first(), name)
    }
}

/// The text after the last `::`, trimmed; nothing when that is empty.
pub open spec fn after_last_path_sep(text: Seq<char>) -> Option<Seq<char>> {
    let t = trim(crate::parse::rust::last_segment(text));
    if t.len() == 0 { None } else { Some(t) }
}

/// Every character is a letter, a digit or `_`.
pub open spec fn plain_name(s: Seq<char>) -> bool {
    forall|i: int| 0 <= i < s.len() ==> alphanumeric(#[trigger] s[i]) || s[i] == '_'
}

/// The reference a node makes: a call, a type name, or a `new`, named by the
/// last segment of what it refers to, when that is a plain name.
pub open spec fn reference_at(ns: Seq<NodeView>, src: Seq<u8>, node: int) -> Seq<(Seq<char>, u32)> {
    let k = ns[node].kind;
    let target = if k == "call_expression"@ || k == "call"@ {
        field_child(ns, node, "function"@)
    } else if k == "type_identifier"@ {
        Some(node)
    } else if k == "new_expression"@ {
        field_child(ns, node, "constructor"@)
    } else {
        None
    };
    match target {
        Some(t) => match after_last_path_sep(node_text(src, ns[t])) {
            Some(name) => if plain_name(name) { seq![(name, crate::parse::line_of_row(ns[node].row))] } else { Seq::empty() },
            None => Seq::empty(),
        },
        None => Seq::empty(),
    }
}

/// The references at or under `node`, the node first and its children from
/// the last to the first.
pub open spec fn ref_scan(ns: Seq<NodeView>, src: Seq<u8>, node: int, fuel: nat) -> Seq<(Seq<char>, u32)>
    decreases fuel, 0nat,
{
    if fuel == 0 {
        Seq::empty()
    } else {
        reference_at(ns, src, node) + ref_scan_back(ns, src, children_of(ns, node), (fuel - 1) as nat)
    }
}

/// The references under each of `kids`, from the last to the first.
pub open spec fn ref_scan_back(ns: Seq<NodeView>, src: Seq<u8>, kids: Seq<int>, fuel: nat) -> Seq<(Seq<char>, u32)>
    decreases fuel, kids.len() + 1,
{
    if kids.len() == 0 {
        Seq::empty()
    } else {
        ref_scan(ns, src, kids.last(), fuel) + ref_scan_back(ns, src, kids.drop_last(), fuel)
    }
}

/// The references of a source, in order of line; references on one line
/// keep the order of the scan.
pub open spec fn references(language: Language, source: Seq<char>) -> Seq<(Seq<char>, u32)> {
    match syntax_nodes(language, source) {
        Some(ns) => if ns.len() == 0 {
            Seq::empty()
        } else {
            stable_sorted(ref_scan(ns, encode_utf8(source), 0, ns.len()), |a: (Seq<char>, u32), b: (Seq<char>, u32)| a.1 < b.1)
        },
        None => Seq::empty(),
    }
}

/// The definition that owns a reference on `line`: the last of `here`
/// that starts on or before it.
pub open spec fn owner_in(here: Seq<(u32, Seq<char>, DefKind, FileId, Seq<char>, u32, bool)>, line: u32) -> Option<u32>
    decreases here.len(),
{
    if here.len() == 0 {
        None
    } else if here.last().5 <= line {
        Some(here.last().0)
    } else {
        owner_in(here.drop_last(), line)
    }
}

/// The edges and the outside names that `refs` of one file make: a
/// reference inside a definition to a name defined exactly once is an edge
/// (unless it is the definition itself), to a name defined nowhere an outside
/// name; a name defined twice or more is left alone.
pub open spec fn ref_links(
    nodes: Seq<(u32, Seq<char>, DefKind, FileId, Seq<char>, u32, bool)>,
    here: Seq<(u32, Seq<char>, DefKind, FileId, Seq<char>, u32, bool)>,
    refs: Seq<(Seq<char>, u32)>,
) -> (Set<SymbolEdge>, Set<Seq<char>>)
    decreases refs.len(),
{
    if refs.len() == 0 {
        (Set::empty(), Set::empty())
    } else {
        let p = ref_links(nodes, here, refs.drop_last());
        let (name, line) = refs.last();
        match owner_in(here, line) {
            None => p,
            Some(o) => {
                let c = name_count(nodes, name);
                if c > 1 {
                    p
                } else if c == 1 {
                    let t = nodes[first_named(nodes, name)].0;
                    if t != o { (p.0.insert(SymbolEdge { from: o, to: t }), p.1) } else { p }
                } else {
                    (p.0, p.1.insert(name))
                }
            },
        }
    }
}

/// The edges and outside names of the whole selection.
pub open spec fn selection_links(
    files: Seq<(FileId, Seq<char>, Language, Seq<char>)>,
    nodes: Seq<(u32, Seq<char>, DefKind, FileId, Seq<char>, u32, bool)>,
) -> (Set<SymbolEdge>, Set<Seq<char>>)
    decreases files.len(),
{
    if files.len() == 0 {
        (Set::empty(), Set::empty())
    } else {
        let p = selection_links(files.drop_last(), nodes);
        let f = files.last();
        let start = all_nodes(files.drop_last()).len() as int;
        let here = nodes.subrange(start, start + file_defs(f.2, f.3).len());
        let l = ref_links(nodes, here, references(f.2, f.3));
        (p.0.union(l.0), p.1.union(l.1))
    }
}

/// Edges are ordered by source, then target.
pub open spec fn edge_less(a: SymbolEdge, b: SymbolEdge) -> bool {
    a.from < b.from || (a.from == b.from && a.to < b.to)
}

/// Each edge comes before every later one.
pub open spec fn edges_sorted(s: Seq<SymbolEdge>) -> bool {
    forall|i: int, j: int| 0 <= i < j < s.len() ==> edge_less(#[trigger] s[i], #[trigger] s[j])
}

/// Adds an edge to a sorted list unless it is there.
fn insert_edge(v: &mut Vec<SymbolEdge>, x: SymbolEdge)
    requires
        edges_sorted(old(v)@),
    ensures
        edges_sorted(final(v)@),
        final(v)@.to_set() == old(v)@.to_set().insert(x),
{
    let ghost old_s = v@;
    let mut i: usize = 0;
    while i < v.len() && (v[i].from < x.from || (v[i].from == x.from && v[i].to < x.to))
        invariant
            i <= v@.len(),
            old_s == v@,
            edges_sorted(old_s),
            forall|k: int| 0 <= k < i ==> edge_less(#[trigger] old_s[k], x),
        decreases v@.len() - i,
    {
        i += 1;
    }
    if i < v.len() && v[i].from == x.from && v[i].to == x.to {
        assert(old_s.to_set().insert(x) =~= old_s.to_set()) by {
            assert(old_s[i as int] == x);
        }
        return;
    }
    v.insert(i, x);
    let ghost new_s = v@;
    assert(new_s =~= old_s.insert(i as int, x));
    assert forall|a: int, b: int| 0 <= a < b < new_s.len() implies edge_less(#[trigger] new_s[a], #[trigger] new_s[b]) by {
        if b < i {
            assert(edge_less(old_s[a], old_s[b]));
        } else if b == i {
        } else if a == i {
            if b - 1 > i {
                assert(edge_less(old_s[i as int], old_s[b - 1]));
            }
        } else if a < i {
            assert(edge_less(old_s[a], old_s[b - 1]));
        } else {
            assert(edge_less(old_s[a - 1], old_s[b - 1]));
        }
    }
    assert(new_s.to_set() =~= old_s.to_set().insert(x)) by {
        assert forall|e: SymbolEdge| new_s.to_set().contains(e) implies old_s.to_set().insert(x).contains(e) by {
            let k = choose|k: int| 0 <= k < new_s.len() && new_s[k] == e;
            if k < i {
                assert(old_s[k] == e);
            } else if k > i {
                assert(old_s[k - 1] == e);
            }
        }
        assert forall|e: SymbolEdge| old_s.to_set().insert(x).contains(e) implies new_s.to_set().contains(e) by {
            if e == x {
                assert(new_s[i as int] == e);
            } else {
                let k = choose|k: int| 0 <= k < old_s.len() && old_s[k] == e;
                if k < i {
                    assert(new_s[k] == e);
                } else {
                    assert(new_s[k + 1] == e);
                }
            }
        }
    }
}

fn reference_here(tree: &SyntaxTree, src: &[u8], node: usize) -> (r: Vec<(String, u32)>)
    requires
        tree.wf(),
        node < tree.nodes@.len(),
    ensures
        r@.map_values(|p: (String, u32)| (p.0@, p.1)) == reference_at(views(tree.nodes@), src@, node as int),
{
    let mut out: Vec<(String, u32)> = Vec::new();
    let target = if tree.kind_is(node, "call_expression") || tree.kind_is(node, "call") {
        tree.field_in(node, "function")
    } else if tree.kind_is(node, "type_identifier") {
        Some(node)
    } else if tree.kind_is(node, "new_expression") {
        tree.field_in(node, "constructor")
    } else {
        None
    };
    match target {
        Some(t) => {
            let text = chars_of(tree.text_at(src, t).as_str());
            let seg = crate::parse::rust::last_segment_of(text.as_slice());
            let name = crate::text::trim_chars(seg.as_slice());
            if name.len() > 0 {
                let mut plain = true;
                let mut i: usize = 0;
                while i < name.len()
                    invariant
                        i <= name@.len(),
                        plain == (forall|k: int| 0 <= k < i ==> alphanumeric(#[trigger] name@[k]) || name@[k] == '_'),
                    decreases name@.len() - i,
                {
                    let ok = is_alphanumeric(name[i]) || name[i] == '_';
                    plain = plain && ok;
                    i += 1;
                }
                if plain {
                    let entry = (string_of(name.as_slice()), tree.line_of(node));
                    out.push(entry);
                }
            }
        },
        None => {},
    }
    assert(out@.map_values(|p: (String, u32)| (p.0@, p.1)) =~= reference_at(views(tree.nodes@), src@, node as int));
    out
}

/// What the scans of a stack of pending nodes find, the top (last) first.
pub open spec fn ref_stack(ns: Seq<NodeView>, src: Seq<u8>, stack: Seq<(int, nat)>) -> Seq<(Seq<char>, u32)>
    decreases stack.len(),
{
    if stack.len() == 0 {
        Seq::empty()
    } else {
        ref_scan(ns, src, stack.last().0, stack.last().1) + ref_stack(ns, src, stack.drop_last())
    }
}

/// How many entries a stack of pending scans still takes off.
pub open spec fn ref_stack_size(ns: Seq<NodeView>, stack: Seq<(int, nat)>) -> nat
    decreases stack.len(),
{
    if stack.len() == 0 {
        0
    } else {
        crate::parse::javascript::scan_size(ns, stack.last().0, stack.last().1) + ref_stack_size(ns, stack.drop_last())
    }
}

fn scan_references(tree: &SyntaxTree, src: &[u8]) -> (r: Vec<(String, u32)>)
    requires
        tree.wf(),
        tree.nodes@.len() > 0,
    ensures
        r@.map_values(|p: (String, u32)| (p.0@, p.1)) == ref_scan(views(tree.nodes@), src@, 0, tree.nodes@.len()),
{
    let ghost ns = views(tree.nodes@);
    let mut out: Vec<(String, u32)> = Vec::new();
    let mut stack: Vec<(usize, usize)> = Vec::new();
    stack.push((0, tree.nodes.len()));
    let ghost total = ref_scan(ns, src@, 0, ns.len());
    assert(stack@.map_values(|p: (usize, usize)| (p.0 as int, p.1 as nat)) =~= seq![(0int, ns.len())]);
    proof {
        let st = seq![(0int, ns.len())];
        assert(st.drop_last() =~= Seq::<(int, nat)>::empty());
        assert(ref_stack(ns, src@, st.drop_last()) =~= Seq::<(Seq<char>, u32)>::empty());
        assert(ref_stack(ns, src@, st) =~= total);
    }
    assert(out@.map_values(|p: (String, u32)| (p.0@, p.1)) =~= Seq::<(Seq<char>, u32)>::empty());
    while stack.len() > 0
        invariant
            tree.wf(),
            ns == views(tree.nodes@),
            forall|k: int| 0 <= k < stack@.len() ==> (#[trigger] stack@[k]).0 < ns.len(),
            total == out@.map_values(|p: (String, u32)| (p.0@, p.1)) + ref_stack(ns, src@, stack@.map_values(|p: (usize, usize)| (p.0 as int, p.1 as nat))),
        decreases ref_stack_size(ns, stack@.map_values(|p: (usize, usize)| (p.0 as int, p.1 as nat))),
    {
        let ghost sv = stack@.map_values(|p: (usize, usize)| (p.0 as int, p.1 as nat));
        let top = stack.pop().unwrap();
        let node = top.0;
        let fuel = top.1;
        let ghost rest = stack@.map_values(|p: (usize, usize)| (p.0 as int, p.1 as nat));
        assert(rest =~= sv.drop_last());
        assert(sv.last() == (node as int, fuel as nat));
        if fuel > 0 {
            let ghost before = out@.map_values(|p: (String, u32)| (p.0@, p.1));
            let mut found = reference_here(tree, src, node);
            let ghost fv = found@.map_values(|p: (String, u32)| (p.0@, p.1));
            out.append(&mut found);
            assert(out@.map_values(|p: (String, u32)| (p.0@, p.1)) =~= before + fv);
            let kids = &tree.children[node];
            let ghost ks = kids@.map_values(|c: usize| c as int);
            let mut i: usize = 0;
            while i < kids.len()
                invariant
                    tree.wf(),
                    ns == views(tree.nodes@),
                    node < ns.len(),
                    fuel > 0,
                    ks == kids@.map_values(|c: usize| c as int),
                    ks == children_of(ns, node as int),
                    i <= ks.len(),
                    forall|k: int| 0 <= k < stack@.len() ==> (#[trigger] stack@[k]).0 < ns.len(),
                    stack@.map_values(|p: (usize, usize)| (p.0 as int, p.1 as nat)) == rest + ks.take(i as int).map_values(|c: int| (c, (fuel - 1) as nat)),
                    ref_stack(ns, src@, rest + ks.take(i as int).map_values(|c: int| (c, (fuel - 1) as nat)))
                        == ref_scan_back(ns, src@, ks.take(i as int), (fuel - 1) as nat) + ref_stack(ns, src@, rest),
                    ref_stack_size(ns, rest + ks.take(i as int).map_values(|c: int| (c, (fuel - 1) as nat)))
                        == crate::parse::javascript::scan_size_back(ns, ks.take(i as int), (fuel - 1) as nat) + ref_stack_size(ns, rest),
                decreases ks.len() - i,
            {
                proof { lemma_child_after(ns, node as int, ns.len() as int, i as int); }
                let c = kids[i];
                let ghost st = rest + ks.take(i as int).map_values(|c: int| (c, (fuel - 1) as nat));
                let ghost st2 = rest + ks.take(i + 1).map_values(|c: int| (c, (fuel - 1) as nat));
                assert(ks.take(i + 1).drop_last() =~= ks.take(i as int));
                assert(ks.take(i + 1).last() == c as int);
                assert(st2 =~= st.push((c as int, (fuel - 1) as nat)));
                assert(st2.drop_last() =~= st);
                stack.push((c, fuel - 1));
                assert(stack@.map_values(|p: (usize, usize)| (p.0 as int, p.1 as nat)) =~= st2);
                i += 1;
            }
            assert(ks.take(i as int) =~= ks);
            proof {
                assert(ref_scan(ns, src@, node as int, fuel as nat) == reference_at(ns, src@, node as int) + ref_scan_back(ns, src@, ks, (fuel - 1) as nat));
                assert(crate::parse::javascript::scan_size(ns, node as int, fuel as nat) == 1 + crate::parse::javascript::scan_size_back(ns, ks, (fuel - 1) as nat));
                assert(total == out@.map_values(|p: (String, u32)| (p.0@, p.1)) + ref_stack(ns, src@, stack@.map_values(|p: (usize, usize)| (p.0 as int, p.1 as nat)))) by {
                    assert(before + fv + (ref_scan_back(ns, src@, ks, (fuel - 1) as nat) + ref_stack(ns, src@, rest))
                        =~= before + (fv + ref_scan_back(ns, src@, ks, (fuel - 1) as nat) + ref_stack(ns, src@, rest)));
                }
            }
        }
    }
    out
}

fn references_of(language: Language, source: &str) -> (r: Vec<(String, u32)>)
    ensures
        r@.map_values(|p: (String, u32)| (p.0@, p.1)) == references(language, source@),
{
    let ghost before = |a: (Seq<char>, u32), b: (Seq<char>, u32)| a.1 < b.1;
    let tree = match syntax_tree(language, source) {
        Some(t) => t,
        None => {
            let v: Vec<(String, u32)> = Vec::new();
            assert(v@.map_values(|p: (String, u32)| (p.0@, p.1)) =~= Seq::<(Seq<char>, u32)>::empty());
            return v;
        },
    };
    if tree.nodes.len() == 0 {
        let v: Vec<(String, u32)> = Vec::new();
        assert(v@.map_values(|p: (String, u32)| (p.0@, p.1)) =~= Seq::<(Seq<char>, u32)>::empty());
        return v;
    }
    let src = source.as_bytes();
    let items = scan_references(&tree, src);
    let ghost raw = items@.map_values(|p: (String, u32)| (p.0@, p.1));
    let total = items.len();
    let mut rest = items;
    let mut sorted: Vec<(String, u32)> = Vec::new();
    let mut taken: usize = 0;
    while rest.len() > 0
        invariant
            total == raw.len(),
            taken <= raw.len(),
            rest@.map_values(|p: (String, u32)| (p.0@, p.1)) == raw.skip(taken as int),
            before == |a: (Seq<char>, u32), b: (Seq<char>, u32)| a.1 < b.1,
            sorted@.map_values(|p: (String, u32)| (p.0@, p.1)) == stable_sorted(raw.take(taken as int), before),
        decreases rest@.len(),
    {
        let ghost rv = rest@.map_values(|p: (String, u32)| (p.0@, p.1));
        let ghost old_rest = rest@;
        let x = rest.remove(0);
        assert(rest@ =~= old_rest.skip(1));
        assert(rest@.map_values(|p: (String, u32)| (p.0@, p.1)) =~= rv.skip(1));
        let ghost xv = (x.0@, x.1);
        assert(rv[0] == xv);
        assert(taken < raw.len());
        assert(raw.skip(taken as int)[0] == raw[taken as int]);
        assert(raw.take(taken + 1).drop_last() == raw.take(taken as int));
        assert(raw.take(taken + 1).last() == xv);
        let ghost s = sorted@.map_values(|p: (String, u32)| (p.0@, p.1));
        let mut count: usize = 0;
        let mut k: usize = 0;
        while k < sorted.len()
            invariant
                k <= sorted@.len(),
                s == sorted@.map_values(|p: (String, u32)| (p.0@, p.1)),
                before == |a: (Seq<char>, u32), b: (Seq<char>, u32)| a.1 < b.1,
                xv == (x.0@, x.1),
                count == count_not_before(s.take(k as int), xv, before),
                count <= k,
            decreases sorted@.len() - k,
        {
            assert(s.take(k + 1).drop_last() == s.take(k as int));
            assert(s[k as int] == (sorted@[k as int].0@, sorted@[k as int].1));
            if !(x.1 < sorted[k].1) {
                count += 1;
            }
            k += 1;
        }
        assert(s.take(k as int) == s);
        sorted.insert(count, x);
        assert(sorted@.map_values(|p: (String, u32)| (p.0@, p.1)) =~= s.insert(count as int, xv));
        taken += 1;
        assert(rest@.map_values(|p: (String, u32)| (p.0@, p.1)) =~= raw.skip(taken as int));
    }
    assert(raw.take(taken as int) =~= raw);
    sorted
}

/// The referable definitions `ds` of file `f`, numbered from `base`.
pub open spec fn numbered(base: int, f: (FileId, Seq<char>, Language, Seq<char>), ds: Seq<DefView>) -> Seq<(u32, Seq<char>, DefKind, FileId, Seq<char>, u32, bool)> {
    Seq::new(ds.len(), |k: int| ((base + k) as u32, ds[k].name, ds[k].kind, f.0, f.1, ds[k].line, ds[k].exported))
}

proof fn lemma_all_nodes_prefix(files: Seq<(FileId, Seq<char>, Language, Seq<char>)>, i: int)
    requires
        0 <= i <= files.len(),
    ensures
        all_nodes(files.take(i)).len() <= all_nodes(files).len(),
        all_nodes(files.take(i)) == all_nodes(files).take(all_nodes(files.take(i)).len() as int),
    decreases files.len() - i,
{
    if i < files.len() {
        lemma_all_nodes_prefix(files, i + 1);
        assert(files.take(i + 1).drop_last() =~= files.take(i));
        let a = all_nodes(files.take(i));
        let b = all_nodes(files.take(i + 1));
        assert(b.take(a.len() as int) =~= a);
        assert(all_nodes(files).take(a.len() as int) =~= b.take(a.len() as int));
    } else {
        assert(files.take(i) =~= files);
        assert(all_nodes(files).take(all_nodes(files).len() as int) =~= all_nodes(files));
    }
}

/// Adds the referable definitions of one file to the node list.
fn add_file_nodes(nodes: &mut Vec<SymbolNode>, f: &(FileId, String, Language, String))
    requires
        source_lines(f.3@).len() <= u32::MAX,
    ensures
        final(nodes)@.map_values(|n: SymbolNode| node_view(n))
            == old(nodes)@.map_values(|n: SymbolNode| node_view(n)) + numbered(old(nodes)@.len() as int, file_view(*f), file_defs(f.2, f.3@)),
{
    let ghost base = nodes@.len() as int;
    let ghost start = nodes@.map_values(|n: SymbolNode| node_view(n));
    let ghost fv = file_view(*f);
    let tree = syntax_tree(f.2, f.3.as_str());
    let parsed = parse_tree(f.2, f.3.as_str(), tree);
    let ghost dv = parsed.definitions@.map_values(|d: Definition| d@);
    assert(dv == parsed_view(f.2, f.3@, syntax_nodes(f.2, f.3@)).definitions);
    let defs = &parsed.definitions;
    let mut q: usize = 0;
    while q < defs.len()
        invariant
            q <= dv.len(),
            dv == defs@.map_values(|d: Definition| d@),
            fv == file_view(*f),
            nodes@.len() == base + referable(dv.take(q as int)).len(),
            nodes@.map_values(|n: SymbolNode| node_view(n)) == start + numbered(base, fv, referable(dv.take(q as int))),
        decreases dv.len() - q,
    {
        assert(dv.take(q + 1).drop_last() =~= dv.take(q as int));
        assert(dv.take(q + 1).last() == defs@[q as int]@);
        let d = &defs[q];
        if !(d.kind == DefKind::Impl || d.kind == DefKind::Module) {
            let ghost before = nodes@.map_values(|n: SymbolNode| node_view(n));
            let ghost rv = referable(dv.take(q as int));
            let id = nodes.len() as u32;
            let n = SymbolNode {
                id,
                name: crate::text::owned(d.name.as_str()),
                kind: d.kind,
                file: f.0,
                path: crate::text::owned(f.1.as_str()),
                line: d.line,
                exported: d.exported,
            };
            nodes.push(n);
            proof {
                let rv2 = referable(dv.take(q + 1));
                assert(rv2 == rv.push(d@));
                assert(numbered(base, fv, rv2) =~= numbered(base, fv, rv).push(node_view(n)));
                assert(nodes@.map_values(|n: SymbolNode| node_view(n)) =~= before.push(node_view(n)));
            }
        }
        q += 1;
    }
    assert(dv.take(q as int) =~= dv);
}

fn owner_of(nodes: &Vec<SymbolNode>, start: usize, len: usize, line: u32) -> (r: Option<u32>)
    requires
        start + len <= nodes@.len(),
    ensures
        r == owner_in(nodes@.map_values(|n: SymbolNode| node_view(n)).subrange(start as int, start + len), line),
{
    let ghost nv = nodes@.map_values(|n: SymbolNode| node_view(n));
    let ghost here = nv.subrange(start as int, start + len);
    let mut k = len;
    let total = nodes.len();
    assert(here.take(k as int) =~= here);
    while k > 0
        invariant
            total == nodes@.len(),
            start + len <= nodes@.len(),
            nv == nodes@.map_values(|n: SymbolNode| node_view(n)),
            here == nv.subrange(start as int, start + len),
            k <= len,
            owner_in(here, line) == owner_in(here.take(k as int), line),
        decreases k,
    {
        assert(here.take(k as int).drop_last() =~= here.take(k - 1));
        assert(here.take(k as int).last() == node_view(nodes@[start + (k - 1)]));
        let n = &nodes[start + (k - 1)];
        if n.line <= line {
            return Some(n.id);
        }
        k -= 1;
    }
    assert(here.take(0) =~= Seq::<(u32, Seq<char>, DefKind, FileId, Seq<char>, u32, bool)>::empty());
    None
}

proof fn lemma_first_named(nodes: Seq<(u32, Seq<char>, DefKind, FileId, Seq<char>, u32, bool)>, name: Seq<char>, k: int)
    requires
        0 <= k < nodes.len(),
        nodes[k].1 == name,
        forall|j: int| 0 <= j < k ==> nodes[j].1 != name,
    ensures
        first_named(nodes, name) == k,
    decreases k,
{
    if k > 0 {
        lemma_first_named(nodes.drop_first(), name, k - 1);
    }
}

fn count_named(nodes: &Vec<SymbolNode>, name: &str) -> (r: (usize, usize))
    ensures
        r.0 as nat == name_count(nodes@.map_values(|n: SymbolNode| node_view(n)), name@),
        r.0 >= 1 ==> r.1 < nodes@.len() && r.1 as int == first_named(nodes@.map_values(|n: SymbolNode| node_view(n)), name@),
{
    let ghost nv = nodes@.map_values(|n: SymbolNode| node_view(n));
    let mut count: usize = 0;
    let mut first: usize = 0;
    let mut i: usize = 0;
    while i < nodes.len()
        invariant
            i <= nv.len(),
            nv == nodes@.map_values(|n: SymbolNode| node_view(n)),
            count as nat == name_count(nv.take(i as int), name@),
            count <= i,
            count >= 1 ==> first < i && nv[first as int].1 == name@ && forall|j: int| 0 <= j < first ==> nv[j].1 != name@,
            count == 0 ==> forall|j: int| 0 <= j < i ==> nv[j].1 != name@,
        decreases nv.len() - i,
    {
        assert(nv.take(i + 1).drop_last() =~= nv.take(i as int));
        assert(nv.take(i + 1).last() == node_view(nodes@[i as int]));
        if crate::text::str_eq(nodes[i].name.as_str(), name) {
            if count == 0 {
                first = i;
            }
            count += 1;
        }
        i += 1;
    }
    assert(nv.take(i as int) =~= nv);
    if count >= 1 {
        proof { lemma_first_named(nv, name@, first as int); }
    }
    (count, first)
}

/// Adds the edges and outside names that one file's references make.
fn add_file_links(
    nodes: &Vec<SymbolNode>,
    start: usize,
    len: usize,
    refs: &Vec<(String, u32)>,
    edges: &mut Vec<SymbolEdge>,
    ext: &mut Vec<String>,
)
    requires
        start + len <= nodes@.len(),
        edges_sorted(old(edges)@),
        strictly_sorted(old(ext)@.map_values(|s: String| s@), false),
    ensures
        edges_sorted(final(edges)@),
        strictly_sorted(final(ext)@.map_values(|s: String| s@), false),
        ({
            let nv = nodes@.map_values(|n: SymbolNode| node_view(n));
            let l = ref_links(nv, nv.subrange(start as int, start + len), refs@.map_values(|p: (String, u32)| (p.0@, p.1)));
            &&& final(edges)@.to_set() == old(edges)@.to_set().union(l.0)
            &&& final(ext)@.map_values(|s: String| s@).to_set() == old(ext)@.map_values(|s: String| s@).to_set().union(l.1)
        }),
{
    let ghost nv = nodes@.map_values(|n: SymbolNode| node_view(n));
    let ghost here = nv.subrange(start as int, start + len);
    let ghost rv = refs@.map_values(|p: (String, u32)| (p.0@, p.1));
    let ghost e0 = edges@.to_set();
    let ghost x0 = ext@.map_values(|s: String| s@).to_set();
    let mut j: usize = 0;
    proof {
        assert(rv.take(0) =~= Seq::<(Seq<char>, u32)>::empty());
        assert(e0.union(Set::<SymbolEdge>::empty()) =~= e0);
        assert(x0.union(Set::<Seq<char>>::empty()) =~= x0);
    }
    while j < refs.len()
        invariant
            start + len <= nodes@.len(),
            nv == nodes@.map_values(|n: SymbolNode| node_view(n)),
            here == nv.subrange(start as int, start + len),
            rv == refs@.map_values(|p: (String, u32)| (p.0@, p.1)),
            j <= rv.len(),
            edges_sorted(edges@),
            strictly_sorted(ext@.map_values(|s: String| s@), false),
            edges@.to_set() == e0.union(ref_links(nv, here, rv.take(j as int)).0),
            ext@.map_values(|s: String| s@).to_set() == x0.union(ref_links(nv, here, rv.take(j as int)).1),
        decreases rv.len() - j,
    {
        assert(rv.take(j + 1).drop_last() =~= rv.take(j as int));
        assert(rv.take(j + 1).last() == rv[j as int]);
        let ghost p = ref_links(nv, here, rv.take(j as int));
        let name = refs[j].0.as_str();
        let line = refs[j].1;
        match owner_of(nodes, start, len, line) {
            None => {},
            Some(o) => {
                let (c, first) = count_named(nodes, name);
                if c > 1 {
                } else if c == 1 {
                    let t = nodes[first].id;
                    assert(t == nv[first as int].0);
                    if t != o {
                        insert_edge(edges, SymbolEdge { from: o, to: t });
                        assert(e0.union(p.0).insert(SymbolEdge { from: o, to: t }) =~= e0.union(p.0.insert(SymbolEdge { from: o, to: t })));
                    }
                } else {
                    let ghost before = ext@.map_values(|s: String| s@).to_set();
                    insert_sorted(ext, crate::text::owned(name), false);
                    assert(x0.union(p.1).insert(name@) =~= x0.union(p.1.insert(name@)));
                }
            },
        }
        j += 1;
    }
    assert(rv.take(j as int) =~= rv);
}


/// The selection as plain values.
pub open spec fn files_view(files: Seq<(FileId, String, Language, String)>) -> Seq<(FileId, Seq<char>, Language, Seq<char>)> {
    files.map_values(|f: (FileId, String, Language, String)| file_view(f))
}

/// The most outside names a graph keeps.
pub const EXTERNAL_LIMIT: usize = 50;

/// Builds the symbol graph of a selection of files: a node for each
/// referable definition, numbered in order; an edge for each reference from
/// inside one definition to a name defined exactly once elsewhere, sorted;
/// and the names referred to but defined nowhere, sorted and cut to the first
/// fifty.
pub fn build(files: &[(FileId, String, Language, String)]) -> (g: SymbolGraph)
    requires
        forall|i: int| 0 <= i < files@.len() ==> source_lines(#[trigger] files@[i].3@).len() <= u32::MAX,
    ensures
        g.nodes@.map_values(|n: SymbolNode| node_view(n)) == all_nodes(files_view(files@)),
        edges_sorted(g.edges@),
        g.edges@.to_set() == selection_links(files_view(files@), all_nodes(files_view(files@))).0,
        exists|full: Seq<Seq<char>>| {
            &&& strictly_sorted(full, false)
            &&& full.to_set() == selection_links(files_view(files@), all_nodes(files_view(files@))).1
            &&& g.external_refs@.map_values(|s: String| s@) == if full.len() <= EXTERNAL_LIMIT { full } else { full.take(EXTERNAL_LIMIT as int) }
        },
{
    let ghost fv = files_view(files@);
    let n = files.len();
    let mut nodes: Vec<SymbolNode> = Vec::new();
    let mut spans: Vec<(usize, usize)> = Vec::new();
    let mut i: usize = 0;
    assert(fv.take(0) =~= Seq::<(FileId, Seq<char>, Language, Seq<char>)>::empty());
    assert(nodes@.map_values(|x: SymbolNode| node_view(x)) =~= Seq::<(u32, Seq<char>, DefKind, FileId, Seq<char>, u32, bool)>::empty());
    while i < n
        invariant
            n == files@.len(),
            fv == files_view(files@),
            i <= n,
            forall|k: int| 0 <= k < files@.len() ==> source_lines(#[trigger] files@[k].3@).len() <= u32::MAX,
            nodes@.map_values(|x: SymbolNode| node_view(x)) == all_nodes(fv.take(i as int)),
            spans@.len() == i,
            forall|k: int| 0 <= k < i ==> (#[trigger] spans@[k]).0 == all_nodes(fv.take(k)).len()
                && spans@[k].1 == file_defs(fv[k].2, fv[k].3).len(),
        decreases n - i,
    {
        let start = nodes.len();
        assert(source_lines(files@[i as int].3@).len() <= u32::MAX);
        add_file_nodes(&mut nodes, &files[i]);
        proof {
            assert(fv.take(i + 1).drop_last() =~= fv.take(i as int));
            assert(fv.take(i + 1).last() == file_view(files@[i as int]));
            let p = all_nodes(fv.take(i as int));
            let f = file_view(files@[i as int]);
            let ds = file_defs(f.2, f.3);
            assert(numbered(start as int, f, ds) =~= Seq::new(ds.len(), |k: int| ((p.len() + k) as u32, ds[k].name, ds[k].kind, f.0, f.1, ds[k].line, ds[k].exported)));
        }
        assert(nodes@.map_values(|x: SymbolNode| node_view(x)).len() == nodes@.len());
        let len = nodes.len() - start;
        spans.push((start, len));
        i += 1;
    }
    assert(fv.take(n as int) =~= fv);
    let ghost nv = nodes@.map_values(|x: SymbolNode| node_view(x));
    let mut edges: Vec<SymbolEdge> = Vec::new();
    let mut ext: Vec<String> = Vec::new();
    let mut j: usize = 0;
    proof {
        assert(fv.take(0) =~= Seq::<(FileId, Seq<char>, Language, Seq<char>)>::empty());
        assert(edges@.to_set() =~= Set::<SymbolEdge>::empty());
        assert(ext@.map_values(|s: String| s@).to_set() =~= Set::<Seq<char>>::empty());
        assert(ext@.map_values(|s: String| s@) =~= Seq::<Seq<char>>::empty());
    }
    while j < n
        invariant
            n == files@.len(),
            fv == files_view(files@),
            j <= n,
            nv == nodes@.map_values(|x: SymbolNode| node_view(x)),
            nv == all_nodes(fv),
            spans@.len() == n,
            forall|k: int| 0 <= k < n ==> (#[trigger] spans@[k]).0 == all_nodes(fv.take(k)).len()
                && spans@[k].1 == file_defs(fv[k].2, fv[k].3).len(),
            edges_sorted(edges@),
            strictly_sorted(ext@.map_values(|s: String| s@), false),
            edges@.to_set() == selection_links(fv.take(j as int), nv).0,
            ext@.map_values(|s: String| s@).to_set() == selection_links(fv.take(j as int), nv).1,
        decreases n - j,
    {
        let (start, len) = spans[j];
        proof {
            lemma_all_nodes_prefix(fv, j + 1);
            assert(fv.take(j + 1).drop_last() =~= fv.take(j as int));
            assert(fv.take(j + 1).last() == fv[j as int]);
        }
        let refs = references_of(files[j].2, files[j].3.as_str());
        add_file_links(&nodes, start, len, &refs, &mut edges, &mut ext);
        j += 1;
    }
    assert(fv.take(n as int) =~= fv);
    let ghost full = ext@.map_values(|s: String| s@);
    if ext.len() > EXTERNAL_LIMIT {
        ext.truncate(EXTERNAL_LIMIT);
        assert(ext@.map_values(|s: String| s@) =~= full.take(EXTERNAL_LIMIT as int));
    }
    SymbolGraph { nodes, edges, external_refs: ext }
}

} // verus!
